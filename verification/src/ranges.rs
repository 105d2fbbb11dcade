//! Parsing a comma-separated range expression into `(start, end)` pairs.
//!
//! A token is one of `N`, `-M`, `N-`, or `N-M`, where `N` and `M` are
//! decimal numbers: `N` selects the single position `N`, `-M` selects
//! from the first position through `M`, `N-` selects from `N` through the
//! end of the line (the end is recorded as `usize::MAX`), and `N-M`
//! selects the closed interval.  A token whose start exceeds its end is
//! dropped, not rejected.  A bare `-`, an empty token, a non-digit, or a
//! number too large for `usize` is an error.

use vstd::prelude::*;

use crate::split::split_chars;
use crate::split::split_fields;
use crate::split::str_chars;

verus! {

/// Error of the range-expression parser: some token is malformed.
#[derive(Debug, Clone, Copy, PartialEq, Eq, Structural)]
pub enum RangeError {
    InvalidRangeToken,
}

broadcast use {
    vstd::prelude::Seq::add_empty_left,
    vstd::prelude::Seq::add_empty_right,
    vstd::prelude::Seq::push_distributes_over_add,
};

/// An ASCII decimal digit, `'0'` through `'9'`.
pub open spec fn is_digit_char(c: char) -> bool {
    48 <= (c as u32) && (c as u32) <= 57
}

/// Value of a digit string read in base 10 (of digit characters; other
/// characters contribute their distance from `'0'`).
pub open spec fn digits_val(s: Seq<char>) -> int
    decreases s.len(),
{
    if s.len() == 0 {
        0
    } else {
        digits_val(s.drop_last()) * 10 + (s.last() as u32 - 48)
    }
}

/// A non-empty, all-digit string whose value fits in `usize`.
pub open spec fn is_number(s: Seq<char>) -> bool {
    &&& s.len() > 0
    &&& forall|i: int| 0 <= i < s.len() ==> is_digit_char(#[trigger] s[i])
    &&& digits_val(s) <= usize::MAX as int
}

/// The parts of a token around its `-` separators.
pub open spec fn token_parts(t: Seq<char>) -> Seq<Seq<char>> {
    split_fields(t, seq!['-'])
}

/// A well-formed token: a number, or two parts around one `-` of which
/// each is empty or a number and not both are empty.
pub open spec fn token_ok(t: Seq<char>) -> bool {
    let ps = token_parts(t);
    if ps.len() == 1 {
        is_number(ps[0])
    } else if ps.len() == 2 {
        &&& ps[0].len() == 0 || is_number(ps[0])
        &&& ps[1].len() == 0 || is_number(ps[1])
        &&& !(ps[0].len() == 0 && ps[1].len() == 0)
    } else {
        false
    }
}

/// The pair denoted by a well-formed token: `N` gives `(N, N)`, `-M`
/// gives `(1, M)`, `N-` gives `(N, usize::MAX)`, and `N-M` gives `(N, M)`.
pub open spec fn token_pair(t: Seq<char>) -> (usize, usize) {
    let ps = token_parts(t);
    if ps.len() == 1 {
        (digits_val(ps[0]) as usize, digits_val(ps[0]) as usize)
    } else {
        let lo = if ps[0].len() == 0 {
            1usize
        } else {
            digits_val(ps[0]) as usize
        };
        let hi = if ps[1].len() == 0 {
            usize::MAX
        } else {
            digits_val(ps[1]) as usize
        };
        (lo, hi)
    }
}

/// Pairs denoted by a token list: `None` when some token is malformed,
/// otherwise the tokens' pairs in order, those with start above end
/// silently dropped.
pub open spec fn tokens_pairs(toks: Seq<Seq<char>>) -> Option<Seq<(usize, usize)>>
    decreases toks.len(),
{
    if toks.len() == 0 {
        Some(seq![])
    } else if !token_ok(toks.first()) {
        None
    } else {
        match tokens_pairs(toks.drop_first()) {
            None => None,
            Some(rest) => {
                let p = token_pair(toks.first());
                if p.0 <= p.1 {
                    Some(seq![p] + rest)
                } else {
                    Some(rest)
                }
            },
        }
    }
}

/// The pairs denoted by a whole comma-separated range expression.
pub open spec fn parse_ranges(s: Seq<char>) -> Option<Seq<(usize, usize)>> {
    tokens_pairs(split_fields(s, seq![',']))
}

/// The value of an all-digit string is not negative.
proof fn lemma_digits_val_nonneg(s: Seq<char>)
    requires
        forall|i: int| 0 <= i < s.len() ==> is_digit_char(#[trigger] s[i]),
    ensures
        digits_val(s) >= 0,
    decreases s.len(),
{
    if s.len() > 0 {
        lemma_digits_val_nonneg(s.drop_last());
    }
}

/// Extending an all-digit string cannot lower its value.
proof fn lemma_digits_val_prefix(s: Seq<char>, k: int)
    requires
        0 <= k <= s.len(),
        forall|i: int| 0 <= i < s.len() ==> is_digit_char(#[trigger] s[i]),
    ensures
        digits_val(s.subrange(0, k)) <= digits_val(s),
    decreases s.len() - k,
{
    if k == s.len() {
        assert(s.subrange(0, k) =~= s);
    } else {
        let a = s.subrange(0, k);
        let b = s.subrange(0, k + 1);
        assert(b.drop_last() =~= a);
        assert(forall|i: int| 0 <= i < a.len() ==> is_digit_char(#[trigger] a[i]));
        lemma_digits_val_nonneg(a);
        assert(digits_val(b) == digits_val(a) * 10 + (s[k] as u32 - 48));
        assert(digits_val(a) * 10 >= digits_val(a)) by (nonlinear_arith)
            requires
                digits_val(a) >= 0,
        ;
        lemma_digits_val_prefix(s, k + 1);
    }
}

/// A digit string holds no dash anywhere.
proof fn lemma_digits_no_dash(s: Seq<char>)
    requires
        forall|i: int| 0 <= i < s.len() ==> is_digit_char(#[trigger] s[i]),
    ensures
        forall|i: int| !crate::split::match_at(s, seq!['-'], i),
{
    assert forall|i: int| !crate::split::match_at(s, seq!['-'], i) by {
        if 0 <= i && i + 1 <= s.len() {
            if s.subrange(i, i + 1) == seq!['-'] {
                assert(s.subrange(i, i + 1)[0] == s[i]);
                assert(s[i] == '-');
                assert(is_digit_char(s[i]));
            }
        }
    }
}

/// No dash occurs before position `k` when the characters there are all
/// digits.
proof fn lemma_no_dash_before(t: Seq<char>, k: int)
    requires
        0 <= k <= t.len(),
        forall|i: int| 0 <= i < k ==> is_digit_char(#[trigger] t[i]),
    ensures
        forall|j: int| 0 <= j < k ==> !crate::split::match_at(t, seq!['-'], j),
{
    assert forall|j: int| 0 <= j < k implies !crate::split::match_at(t, seq!['-'], j) by {
        if j + 1 <= t.len() {
            if t.subrange(j, j + 1) == seq!['-'] {
                assert(t.subrange(j, j + 1)[0] == t[j]);
                assert(t[j] == '-');
                assert(is_digit_char(t[j]));
            }
        }
    }
}

/// The four token shapes and the pairs they denote: a number `N` gives
/// `(N, N)`; `-M` gives `(1, M)`; `N-` gives `(N, usize::MAX)`; `N-M`
/// gives `(N, M)`.
pub proof fn lemma_token_forms(d1: Seq<char>, d2: Seq<char>)
    requires
        is_number(d1),
        is_number(d2),
    ensures
        token_ok(d1),
        token_pair(d1) == ((digits_val(d1) as usize, digits_val(d1) as usize)),
        token_ok(seq!['-'] + d2),
        token_pair(seq!['-'] + d2) == ((1usize, digits_val(d2) as usize)),
        token_ok(d1 + seq!['-']),
        token_pair(d1 + seq!['-']) == ((digits_val(d1) as usize, usize::MAX)),
        token_ok(d1 + seq!['-'] + d2),
        token_pair(d1 + seq!['-'] + d2) == ((digits_val(d1) as usize, digits_val(d2) as usize)),
{
    let dash = seq!['-'];
    lemma_digits_val_nonneg(d1);
    lemma_digits_val_nonneg(d2);
    // `N`: no dash, a single all-digit part.
    lemma_digits_no_dash(d1);
    crate::split::lemma_split_fields_no_match(d1, dash);
    assert(token_parts(d1) =~= seq![d1]);
    // `-M`: the dash sits first; before it nothing, after it the number.
    {
        let t = dash + d2;
        assert(t.subrange(0, 1) =~= dash);
        assert(crate::split::match_at(t, dash, 0));
        crate::split::lemma_split_fields_first_match(t, dash, 0);
        assert(t.subrange(1, t.len() as int) =~= d2);
        lemma_digits_no_dash(d2);
        crate::split::lemma_split_fields_no_match(d2, dash);
        assert(t.subrange(0, 0) =~= Seq::<char>::empty());
        assert(token_parts(t) =~= seq![Seq::<char>::empty(), d2]);
    }
    // `N-`: the dash sits after the number; after it nothing.
    {
        let t = d1 + dash;
        let k = d1.len() as int;
        assert(t.subrange(k, k + 1) =~= dash);
        assert(crate::split::match_at(t, dash, k));
        assert(forall|i: int| 0 <= i < k ==> t[i] == d1[i]);
        lemma_no_dash_before(t, k);
        crate::split::lemma_split_fields_first_match(t, dash, k);
        assert(t.subrange(0, k) =~= d1);
        assert(t.subrange(k + 1, t.len() as int) =~= Seq::<char>::empty());
        assert(crate::split::split_fields(Seq::<char>::empty(), dash) =~= seq![
            Seq::<char>::empty(),
        ]);
        assert(token_parts(t) =~= seq![d1, Seq::<char>::empty()]);
    }
    // `N-M`: the dash sits between the two numbers.
    {
        let t = d1 + dash + d2;
        let k = d1.len() as int;
        assert(t.subrange(k, k + 1) =~= dash);
        assert(crate::split::match_at(t, dash, k));
        assert(forall|i: int| 0 <= i < k ==> t[i] == d1[i]);
        lemma_no_dash_before(t, k);
        crate::split::lemma_split_fields_first_match(t, dash, k);
        assert(t.subrange(0, k) =~= d1);
        assert(t.subrange(k + 1, t.len() as int) =~= d2);
        lemma_digits_no_dash(d2);
        crate::split::lemma_split_fields_no_match(d2, dash);
        assert(token_parts(t) =~= seq![d1, d2]);
    }
}

/// Read a decimal number; `None` when the string is empty, holds a
/// non-digit, or exceeds `usize::MAX`.
pub fn parse_number(s: &Vec<char>) -> (r: Option<usize>)
    ensures
        match r {
            Some(v) => is_number(s@) && v as int == digits_val(s@),
            None => !is_number(s@),
        },
{
    let n = s.len();
    if n == 0 {
        return None;
    }
    let mut acc: usize = 0;
    let mut i: usize = 0;
    while i < n
        invariant
            i <= n,
            n == s@.len(),
            forall|t: int| 0 <= t < i ==> is_digit_char(#[trigger] s@[t]),
            acc as int == digits_val(s@.subrange(0, i as int)),
        decreases n - i,
    {
        let c = s[i];
        let x = c as u32;
        if x < 48 || x > 57 {
            assert(!is_digit_char(s@[i as int]));
            return None;
        }
        let d = (x - 48) as usize;
        proof {
            assert(s@.subrange(0, i + 1).drop_last() =~= s@.subrange(0, i as int));
            assert(digits_val(s@.subrange(0, i + 1)) == acc as int * 10 + d);
        }
        if acc > (usize::MAX - d) / 10 {
            proof {
                assert(acc as int * 10 + d > usize::MAX as int) by (nonlinear_arith)
                    requires
                        acc as int > (usize::MAX as int - d) / 10,
                        0 <= d <= 9,
                        acc as int >= 0,
                ;
                if forall|t: int| 0 <= t < s@.len() ==> is_digit_char(#[trigger] s@[t]) {
                    lemma_digits_val_prefix(s@, i + 1);
                    assert(digits_val(s@) > usize::MAX as int);
                }
            }
            return None;
        }
        proof {
            assert(acc as int * 10 + d <= usize::MAX as int) by (nonlinear_arith)
                requires
                    acc as int <= (usize::MAX as int - d) / 10,
                    0 <= d <= 9,
                    acc as int >= 0,
            ;
        }
        acc = acc * 10 + d;
        i = i + 1;
    }
    assert(s@.subrange(0, n as int) =~= s@);
    Some(acc)
}

/// Parse one range token held as characters.
pub fn token_to_pair(tok: &Vec<char>) -> (r: Result<(usize, usize), RangeError>)
    ensures
        match r {
            Ok(p) => token_ok(tok@) && p == token_pair(tok@),
            Err(e) => !token_ok(tok@) && e == RangeError::InvalidRangeToken,
        },
{
    let mut dash: Vec<char> = Vec::new();
    dash.push('-');
    assert(dash@ =~= seq!['-']);
    let parts = split_chars(tok, &dash);
    let ghost ps = token_parts(tok@);
    proof {
        assert(parts.deep_view() == ps);
        assert(forall|i: int|
            0 <= i < parts@.len() ==> ps[i] == #[trigger] parts@[i].deep_view());
    }
    if parts.len() == 1 {
        assert(parts@[0].deep_view() =~= parts@[0]@);
        match parse_number(&parts[0]) {
            Some(v) => Ok((v, v)),
            None => Err(RangeError::InvalidRangeToken),
        }
    } else if parts.len() == 2 {
        assert(parts@[0].deep_view() =~= parts@[0]@);
        assert(parts@[1].deep_view() =~= parts@[1]@);
        let lo: usize = if parts[0].len() == 0 {
            1
        } else {
            match parse_number(&parts[0]) {
                Some(v) => v,
                None => {
                    return Err(RangeError::InvalidRangeToken);
                },
            }
        };
        let hi: usize = if parts[1].len() == 0 {
            if parts[0].len() == 0 {
                return Err(RangeError::InvalidRangeToken);
            }
            usize::MAX
        } else {
            match parse_number(&parts[1]) {
                Some(v) => v,
                None => {
                    return Err(RangeError::InvalidRangeToken);
                },
            }
        };
        Ok((lo, hi))
    } else {
        Err(RangeError::InvalidRangeToken)
    }
}

/// Parse one range token, such as `"20"`, `"-20"`, `"20-"`, or `"3-7"`.
pub fn str_to_ranged_pair(char_part: &str) -> (r: Result<(usize, usize), RangeError>)
    ensures
        match r {
            Ok(p) => token_ok(char_part@) && p == token_pair(char_part@),
            Err(e) => !token_ok(char_part@) && e == RangeError::InvalidRangeToken,
        },
{
    let chars = str_chars(char_part);
    token_to_pair(&chars)
}

/// A malformed token anywhere makes the whole list malformed.
proof fn lemma_tokens_pairs_err(toks: Seq<Seq<char>>, i: int)
    requires
        0 <= i < toks.len(),
        !token_ok(toks[i]),
    ensures
        tokens_pairs(toks) is None,
    decreases toks.len(),
{
    if i > 0 {
        if token_ok(toks.first()) {
            lemma_tokens_pairs_err(toks.drop_first(), i - 1);
        }
    }
}

/// Parse a comma-separated list of range tokens, dropping every pair
/// whose start exceeds its end.
pub fn extract_ranged_pairs(ranged_pairs_str: &str) -> (r: Result<
    Vec<(usize, usize)>,
    RangeError,
>)
    ensures
        match r {
            Ok(v) => parse_ranges(ranged_pairs_str@) == Some(v@),
            Err(e) => parse_ranges(ranged_pairs_str@) is None && e
                == RangeError::InvalidRangeToken,
        },
{
    let chars = str_chars(ranged_pairs_str);
    let mut comma: Vec<char> = Vec::new();
    comma.push(',');
    assert(comma@ =~= seq![',']);
    let tokens = split_chars(&chars, &comma);
    let ghost toks = split_fields(ranged_pairs_str@, seq![',']);
    proof {
        assert(tokens.deep_view() == toks);
    }
    let mut out: Vec<(usize, usize)> = Vec::new();
    let mut i: usize = 0;
    let n = tokens.len();
    proof {
        assert(toks.subrange(0, n as int) =~= toks);
        match tokens_pairs(toks) {
            Some(rest) => {
                assert(out@ + rest =~= rest);
            },
            None => {},
        }
    }
    while i < n
        invariant
            i <= n,
            n == toks.len(),
            toks == split_fields(ranged_pairs_str@, seq![',']),
            tokens.deep_view() == toks,
            n == tokens@.len(),
            forall|t: int| 0 <= t < i ==> token_ok(#[trigger] toks[t]),
            tokens_pairs(toks.subrange(i as int, n as int)) matches Some(rest) ==> tokens_pairs(
                toks,
            ) == Some(out@ + rest),
            tokens_pairs(toks.subrange(i as int, n as int)) is None ==> tokens_pairs(toks)
                is None,
        decreases n - i,
    {
        let ghost suf = toks.subrange(i as int, n as int);
        proof {
            assert(tokens@[i as int].deep_view() =~= tokens@[i as int]@);
            assert(suf.first() == toks[i as int]);
            assert(suf.drop_first() =~= toks.subrange(i + 1, n as int));
        }
        match token_to_pair(&tokens[i]) {
            Ok(p) => {
                let ghost out_before = out@;
                if p.0 <= p.1 {
                    out.push(p);
                }
                proof {
                    let suf2 = toks.subrange(i + 1, n as int);
                    match tokens_pairs(suf2) {
                        Some(rest2) => {
                            if p.0 <= p.1 {
                                assert(tokens_pairs(suf) == Some(seq![p] + rest2));
                                assert(out_before + (seq![p] + rest2) =~= out@ + rest2);
                            } else {
                                assert(tokens_pairs(suf) == Some(rest2));
                            }
                        },
                        None => {
                            assert(tokens_pairs(suf) is None);
                        },
                    }
                }
            },
            Err(e) => {
                proof {
                    lemma_tokens_pairs_err(toks, i as int);
                }
                return Err(e);
            },
        }
        i = i + 1;
    }
    proof {
        assert(toks.subrange(n as int, n as int) =~= Seq::<Seq<char>>::empty());
        assert(tokens_pairs(toks.subrange(n as int, n as int)) == Some(
            Seq::<(usize, usize)>::empty(),
        ));
        assert(out@ + Seq::<(usize, usize)>::empty() =~= out@);
    }
    Ok(out)
}

} // verus!
