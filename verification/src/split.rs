//! Splitting a character sequence on a literal delimiter.
//!
//! `split_fields` is the specification of splitting: the line is cut at
//! every non-overlapping, leftmost occurrence of the delimiter, so a
//! leading, trailing, or doubled delimiter produces an empty field, and a
//! line without any occurrence is a single field.  `split_chars` is the
//! verified splitter, and `str_chars` turns a `&str` into its sequence of
//! characters.

use vstd::prelude::*;
use vstd::string::StrSliceExecFns;

verus! {

/// The delimiter occurs in `s` at position `i`.
pub open spec fn match_at(s: Seq<char>, d: Seq<char>, i: int) -> bool {
    &&& 0 <= i
    &&& i + d.len() <= s.len()
    &&& s.subrange(i, i + d.len()) == d
}

/// Fields of `s` split on delimiter `d`: the cut is made at the leftmost
/// occurrence, then the remainder is split in the same way.  An empty
/// delimiter never cuts.
pub open spec fn split_fields(s: Seq<char>, d: Seq<char>) -> Seq<Seq<char>>
    decreases s.len(),
{
    if d.len() == 0 || s.len() < d.len() {
        seq![s]
    } else if s.subrange(0, d.len() as int) == d {
        seq![Seq::<char>::empty()] + split_fields(s.subrange(d.len() as int, s.len() as int), d)
    } else {
        let rest = split_fields(s.drop_first(), d);
        seq![seq![s[0]] + rest.first()] + rest.drop_first()
    }
}

/// Splitting always yields at least one field.
proof fn lemma_split_fields_nonempty(s: Seq<char>, d: Seq<char>)
    ensures
        split_fields(s, d).len() >= 1,
    decreases s.len(),
{
    if d.len() == 0 || s.len() < d.len() {
    } else if s.subrange(0, d.len() as int) == d {
    } else {
        lemma_split_fields_nonempty(s.drop_first(), d);
    }
}

/// Occurrences in a suffix are occurrences in the whole, shifted.
pub proof fn lemma_match_at_shift(s: Seq<char>, d: Seq<char>, k: int, i: int)
    requires
        0 <= k <= s.len(),
        0 <= i,
    ensures
        match_at(s.subrange(k, s.len() as int), d, i) <==> match_at(s, d, k + i),
{
    let suf = s.subrange(k, s.len() as int);
    if i + d.len() <= suf.len() {
        assert(suf.subrange(i, i + d.len()) =~= s.subrange(k + i, k + i + d.len()));
    }
}

/// When the delimiter occurs nowhere in `s`, the split is `s` alone.
pub proof fn lemma_split_fields_no_match(s: Seq<char>, d: Seq<char>)
    requires
        d.len() >= 1,
        forall|i: int| !match_at(s, d, i),
    ensures
        split_fields(s, d) =~= seq![s],
    decreases s.len(),
{
    if s.len() < d.len() {
    } else if s.subrange(0, d.len() as int) == d {
        assert(match_at(s, d, 0));
    } else {
        assert forall|i: int| !match_at(s.drop_first(), d, i) by {
            if 0 <= i {
                lemma_match_at_shift(s, d, 1, i);
            }
        }
        lemma_split_fields_no_match(s.drop_first(), d);
        assert(seq![s[0]] + split_fields(s.drop_first(), d).first() =~= s);
    }
}

/// When the leftmost occurrence of the delimiter is at position `i`, the
/// first field is everything before `i` and the rest is the split of what
/// follows the occurrence.
pub proof fn lemma_split_fields_first_match(s: Seq<char>, d: Seq<char>, i: int)
    requires
        d.len() >= 1,
        match_at(s, d, i),
        forall|j: int| 0 <= j < i ==> !match_at(s, d, j),
    ensures
        split_fields(s, d) =~= seq![s.subrange(0, i)] + split_fields(
            s.subrange(i + d.len(), s.len() as int),
            d,
        ),
    decreases s.len(),
{
    if i == 0 {
        assert(s.subrange(0, d.len() as int) == d);
        assert(split_fields(s, d) == seq![Seq::<char>::empty()] + split_fields(
            s.subrange(d.len() as int, s.len() as int),
            d,
        ));
        assert(s.subrange(0, 0) =~= Seq::<char>::empty());
    } else {
        assert(!match_at(s, d, 0));
        assert(s.subrange(0, d.len() as int) != d) by {
            if s.subrange(0, d.len() as int) == d {
                assert(match_at(s, d, 0));
            }
        }
        assert(s.len() >= d.len()) by {
            assert(i + d.len() <= s.len());
        }
        let t = s.drop_first();
        assert(t =~= s.subrange(1, s.len() as int));
        lemma_match_at_shift(s, d, 1, i - 1);
        assert(match_at(t, d, i - 1));
        assert forall|j: int| 0 <= j < i - 1 implies !match_at(t, d, j) by {
            lemma_match_at_shift(s, d, 1, j);
        }
        lemma_split_fields_first_match(t, d, i - 1);
        lemma_split_fields_nonempty(t.subrange(i - 1 + d.len(), t.len() as int), d);
        assert(t.subrange(0, i - 1) =~= s.subrange(1, i));
        assert(t.subrange(i - 1 + d.len(), t.len() as int) =~= s.subrange(
            i + d.len(),
            s.len() as int,
        ));
        assert(seq![s[0]] + split_fields(t, d).first() =~= s.subrange(0, i));
    }
}

/// The characters of a string, in order.
pub fn str_chars(s: &str) -> (r: Vec<char>)
    ensures
        r@ == s@,
{
    let n = s.unicode_len();
    let mut r: Vec<char> = Vec::new();
    let mut i: usize = 0;
    while i < n
        invariant
            i <= n,
            n == s@.len(),
            r@ =~= s@.subrange(0, i as int),
        decreases n - i,
    {
        r.push(s.get_char(i));
        i = i + 1;
    }
    assert(r@ =~= s@);
    r
}

/// The delimiter occurs in `chars` at position `at`.
fn is_match_at(chars: &Vec<char>, delim: &Vec<char>, at: usize) -> (b: bool)
    requires
        at <= chars@.len(),
    ensures
        b == match_at(chars@, delim@, at as int),
{
    if delim.len() > chars.len() - at {
        assert(!match_at(chars@, delim@, at as int));
        return false;
    }
    let clen = chars.len();
    let mut k: usize = 0;
    while k < delim.len()
        invariant
            k <= delim@.len(),
            clen == chars@.len(),
            at + delim@.len() <= clen,
            forall|t: int| 0 <= t < k ==> chars@[at + t] == delim@[t],
        decreases delim@.len() - k,
    {
        if chars[at + k] != delim[k] {
            assert(chars@.subrange(at as int, at + delim@.len()) != delim@) by {
                let ki = k as int;
                assert(chars@.subrange(at as int, at + delim@.len())[ki] != delim@[ki]);
            }
            return false;
        }
        k = k + 1;
    }
    assert(chars@.subrange(at as int, at + delim@.len()) =~= delim@);
    true
}

/// Append a copy of `chars[from..to]` as one field.
fn push_field(fields: &mut Vec<Vec<char>>, chars: &Vec<char>, from: usize, to: usize)
    requires
        from <= to <= chars@.len(),
    ensures
        final(fields)@.len() == old(fields)@.len() + 1,
        final(fields).deep_view() =~~= old(fields).deep_view().push(
            chars@.subrange(from as int, to as int),
        ),
{
    let mut f: Vec<char> = Vec::new();
    let mut j: usize = from;
    while j < to
        invariant
            from <= j <= to <= chars@.len(),
            f@ =~= chars@.subrange(from as int, j as int),
        decreases to - j,
    {
        f.push(chars[j]);
        j = j + 1;
    }
    fields.push(f);
    proof {
        assert(fields.deep_view() =~~= old(fields).deep_view().push(
            chars@.subrange(from as int, to as int),
        ));
    }
}

/// Split `chars` into fields on every leftmost occurrence of `delim`.
pub fn split_chars(chars: &Vec<char>, delim: &Vec<char>) -> (r: Vec<Vec<char>>)
    requires
        delim@.len() >= 1,
    ensures
        r.deep_view() == split_fields(chars@, delim@),
{
    let ghost s = chars@;
    let ghost d = delim@;
    let n = chars.len();
    let mut fields: Vec<Vec<char>> = Vec::new();
    let mut start: usize = 0;
    let mut j: usize = 0;
    proof {
        assert(s.subrange(0, n as int) =~= s);
        assert(fields.deep_view() =~= Seq::<Seq<char>>::empty());
        assert(fields.deep_view() + split_fields(s, d) =~= split_fields(s, d));
    }
    while j < n && delim.len() <= n - j
        invariant
            start <= j <= n,
            n == s.len(),
            d == delim@,
            s == chars@,
            d.len() >= 1,
            forall|k: int| start <= k < j ==> !match_at(s, d, k),
            split_fields(s, d) =~= fields.deep_view() + split_fields(
                s.subrange(start as int, n as int),
                d,
            ),
        decreases n - j,
    {
        if is_match_at(chars, delim, j) {
            let ghost suf = s.subrange(start as int, n as int);
            proof {
                lemma_match_at_shift(s, d, start as int, j - start);
                assert forall|t: int| 0 <= t < j - start implies !match_at(suf, d, t) by {
                    lemma_match_at_shift(s, d, start as int, t);
                }
                lemma_split_fields_first_match(suf, d, j - start);
                assert(suf.subrange(0, j - start) =~= s.subrange(start as int, j as int));
                assert(suf.subrange(j - start + d.len(), suf.len() as int) =~= s.subrange(
                    j + d.len(),
                    n as int,
                ));
            }
            let ghost fields_before = fields.deep_view();
            push_field(&mut fields, chars, start, j);
            proof {
                assert(fields.deep_view() =~= fields_before.push(
                    s.subrange(start as int, j as int),
                ));
                assert(split_fields(s, d) =~= fields.deep_view() + split_fields(
                    s.subrange(j + d.len(), n as int),
                    d,
                ));
            }
            start = j + delim.len();
            j = start;
        } else {
            j = j + 1;
        }
    }
    proof {
        let suf = s.subrange(start as int, n as int);
        assert forall|t: int| !match_at(suf, d, t) by {
            if 0 <= t && t + d.len() <= suf.len() {
                lemma_match_at_shift(s, d, start as int, t);
                assert(start + t + d.len() <= n);
                assert(j + d.len() > n);
                assert(start + t < j);
            }
        }
        lemma_split_fields_no_match(suf, d);
    }
    let ghost fields_before = fields.deep_view();
    push_field(&mut fields, chars, start, n);
    proof {
        assert(fields.deep_view() =~= fields_before.push(s.subrange(start as int, n as int)));
        assert(fields.deep_view() =~= fields_before + seq![s.subrange(start as int, n as int)]);
    }
    fields
}

} // verus!
