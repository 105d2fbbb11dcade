//! The three line extractors: by byte, by character, and by field.
//!
//! Each takes a line and a list of 1-based inclusive `(start, end)`
//! ranges and returns the selected bytes followed by a newline byte.
//! Character mode walks every range; byte and field mode stop at the
//! first range whose start lies beyond the line, as the classic tool
//! does, which on unsorted lists may skip later ranges.

use vstd::prelude::*;
use vstd::string::StringSliceAdditionalSpecFns;
use vstd::string::StrSliceExecFns;
use vstd::utf8::encode_utf8;

use crate::encode::chars_to_utf8;
use crate::encode::lemma_encode_utf8_concat;
use crate::encode::lemma_encode_utf8_singleton;
use crate::encode::push_utf8_char;
use crate::merge::valid_pairs;
use crate::split::split_chars;
use crate::split::split_fields;
use crate::split::str_chars;

verus! {

/// Every range starts at position 1 or later.
pub open spec fn positive_pairs(s: Seq<(usize, usize)>) -> bool {
    forall|i: int| 0 <= i < s.len() ==> (#[trigger] s[i]).0 >= 1
}

/// The part of `s` that the range `p` selects: positions `p.0` through
/// `p.1`, clamped to the length of `s`; empty when the range starts
/// beyond its end or beyond `s`.
pub open spec fn clamped_segment<T>(s: Seq<T>, p: (usize, usize)) -> Seq<T> {
    let hi = if p.1 as int <= s.len() {
        p.1 as int
    } else {
        s.len() as int
    };
    if 1 <= p.0 && p.0 as int <= hi {
        s.subrange(p.0 - 1, hi)
    } else {
        Seq::empty()
    }
}

/// Characters selected from a line: every range contributes its clamped
/// segment, in list order.
pub open spec fn char_cut(line: Seq<char>, pairs: Seq<(usize, usize)>) -> Seq<char>
    decreases pairs.len(),
{
    if pairs.len() == 0 {
        Seq::empty()
    } else {
        clamped_segment(line, pairs.first()) + char_cut(line, pairs.drop_first())
    }
}

/// Bytes selected from a line's UTF-8 bytes: as `char_cut`, but the walk
/// stops at the first range starting beyond the line.
pub open spec fn byte_cut(bytes: Seq<u8>, pairs: Seq<(usize, usize)>) -> Seq<u8>
    decreases pairs.len(),
{
    if pairs.len() == 0 {
        Seq::empty()
    } else if pairs.first().0 > bytes.len() {
        Seq::empty()
    } else {
        clamped_segment(bytes, pairs.first()) + byte_cut(bytes, pairs.drop_first())
    }
}

/// Fields selected from a field list: as `byte_cut`, over whole fields.
pub open spec fn field_cut(fields: Seq<Seq<char>>, pairs: Seq<(usize, usize)>) -> Seq<Seq<char>>
    decreases pairs.len(),
{
    if pairs.len() == 0 {
        Seq::empty()
    } else if pairs.first().0 > fields.len() {
        Seq::empty()
    } else {
        clamped_segment(fields, pairs.first()) + field_cut(fields, pairs.drop_first())
    }
}

/// The selected fields joined with the delimiter between them, never
/// before the first or after the last.
pub open spec fn join_fields(fs: Seq<Seq<char>>, d: Seq<char>) -> Seq<char>
    decreases fs.len(),
{
    if fs.len() == 0 {
        Seq::empty()
    } else if fs.len() == 1 {
        fs.first()
    } else {
        fs.first() + d + join_fields(fs.drop_first(), d)
    }
}

/// Joining one more field appends a delimiter first unless nothing was
/// selected yet.
pub proof fn lemma_join_fields_push(fs: Seq<Seq<char>>, f: Seq<char>, d: Seq<char>)
    ensures
        join_fields(fs.push(f), d) == if fs.len() == 0 {
            f
        } else {
            join_fields(fs, d) + d + f
        },
    decreases fs.len(),
{
    if fs.len() == 0 {
        assert(join_fields(fs.push(f), d) == fs.push(f).first());
        assert(fs.push(f).first() == f);
    } else if fs.len() == 1 {
        assert(fs.push(f).drop_first() =~= seq![f]);
        assert(join_fields(seq![f], d) == f);
        assert(join_fields(fs.push(f), d) == fs.first() + d + f);
        assert(join_fields(fs, d) == fs.first());
    } else {
        assert(fs.push(f).drop_first() =~= fs.drop_first().push(f));
        lemma_join_fields_push(fs.drop_first(), f, d);
        assert(join_fields(fs, d) + d + f =~= fs.first() + d + (join_fields(
            fs.drop_first(),
            d,
        ) + d + f));
        assert(join_fields(fs.push(f), d) == fs.first() + d + join_fields(
            fs.drop_first().push(f),
            d,
        ));
    }
}

/// On a line of ASCII characters, byte selection and character
/// selection agree, provided every range starts within the line (so that
/// the byte walk's early stop never fires): each byte of the line is the
/// one-byte encoding of the character at the same position.
pub proof fn lemma_byte_char_agree_on_ascii(line: Seq<char>, pairs: Seq<(usize, usize)>)
    requires
        vstd::utf8::is_ascii_chars(line),
        valid_pairs(pairs),
        forall|i: int| 0 <= i < pairs.len() ==> (#[trigger] pairs[i]).0 <= line.len(),
    ensures
        byte_cut(encode_utf8(line), pairs) == encode_utf8(char_cut(line, pairs)),
    decreases pairs.len(),
{
    let b = encode_utf8(line);
    vstd::utf8::is_ascii_chars_encode_utf8(line);
    if pairs.len() == 0 {
        assert(byte_cut(b, pairs) =~= encode_utf8(char_cut(line, pairs)));
    } else {
        let p = pairs.first();
        let seg_c = clamped_segment(line, p);
        let seg_b = clamped_segment(b, p);
        assert(vstd::utf8::is_ascii_chars(seg_c)) by {
            assert(forall|i: int|
                0 <= i < seg_c.len() ==> seg_c[i] == line[p.0 - 1 + i]);
        }
        vstd::utf8::is_ascii_chars_encode_utf8(seg_c);
        assert(seg_b =~= encode_utf8(seg_c));
        assert(forall|i: int|
            0 <= i < pairs.drop_first().len() ==> (#[trigger] pairs.drop_first()[i]).0
                <= line.len());
        assert(valid_pairs(pairs.drop_first())) by {
            assert(forall|i: int|
                0 <= i < pairs.drop_first().len() ==> crate::merge::pair_valid(
                    #[trigger] pairs.drop_first()[i],
                ));
        }
        lemma_byte_char_agree_on_ascii(line, pairs.drop_first());
        lemma_encode_utf8_concat(seg_c, char_cut(line, pairs.drop_first()));
        assert(byte_cut(b, pairs) == seg_b + byte_cut(b, pairs.drop_first()));
    }
}

/// Extract characters from a UTF-8 line within the given ranges, each
/// re-encoded to its bytes, with a final newline.
pub fn process_line_by_char_utf8(line: &str, ranged_pairs: &Vec<(usize, usize)>) -> (r: Vec<u8>)
    requires
        positive_pairs(ranged_pairs@),
    ensures
        r@ == encode_utf8(char_cut(line@, ranged_pairs@)) + seq![10u8],
{
    let ghost big_l = line@;
    let ghost big_p = ranged_pairs@;
    let uchars = str_chars(line);
    let n = uchars.len();
    let mut out: Vec<u8> = Vec::new();
    let m = ranged_pairs.len();
    let mut i: usize = 0;
    proof {
        assert(big_p.skip(0) =~= big_p);
        assert(out@ + encode_utf8(char_cut(big_l, big_p)) =~= encode_utf8(
            char_cut(big_l, big_p),
        ));
    }
    while i < m
        invariant
            i <= m,
            m == big_p.len(),
            big_p == ranged_pairs@,
            big_l == uchars@,
            n == big_l.len(),
            positive_pairs(big_p),
            encode_utf8(char_cut(big_l, big_p)) == out@ + encode_utf8(
                char_cut(big_l, big_p.skip(i as int)),
            ),
        decreases m - i,
    {
        let p = ranged_pairs[i];
        let ghost seg = clamped_segment(big_l, p);
        proof {
            assert(big_p.skip(i as int).first() == big_p[i as int]);
            assert(big_p.skip(i as int).drop_first() =~= big_p.skip(i + 1));
            assert(char_cut(big_l, big_p.skip(i as int)) == seg + char_cut(
                big_l,
                big_p.skip(i + 1),
            ));
            lemma_encode_utf8_concat(seg, char_cut(big_l, big_p.skip(i + 1)));
        }
        let hi = if p.1 < n {
            p.1
        } else {
            n
        };
        let ghost out_seg_start = out@;
        if p.0 <= hi {
            let mut idx: usize = p.0 - 1;
            proof {
                assert(big_l.subrange(p.0 - 1, p.0 - 1) =~= Seq::<char>::empty());
                assert(out@ =~= out_seg_start + encode_utf8(big_l.subrange(p.0 - 1, p.0 - 1)));
            }
            while idx < hi
                invariant
                    p.0 >= 1,
                    p.0 - 1 <= idx <= hi,
                    hi <= n,
                    n == big_l.len(),
                    big_l == uchars@,
                    out@ == out_seg_start + encode_utf8(big_l.subrange(p.0 - 1, idx as int)),
                decreases hi - idx,
            {
                let c = uchars[idx];
                proof {
                    assert(big_l.subrange(p.0 - 1, idx + 1) =~= big_l.subrange(
                        p.0 - 1,
                        idx as int,
                    ) + seq![c]);
                    lemma_encode_utf8_concat(big_l.subrange(p.0 - 1, idx as int), seq![c]);
                    lemma_encode_utf8_singleton(c);
                }
                push_utf8_char(&mut out, c);
                idx = idx + 1;
            }
            proof {
                assert(seg =~= big_l.subrange(p.0 - 1, hi as int));
            }
        } else {
            proof {
                assert(seg =~= Seq::<char>::empty());
                assert(encode_utf8(seg) =~= Seq::<u8>::empty());
                assert(out@ =~= out_seg_start + encode_utf8(seg));
            }
        }
        proof {
            assert(out@ =~= out_seg_start + encode_utf8(seg));
            assert(out@ + encode_utf8(char_cut(big_l, big_p.skip(i + 1))) =~= out_seg_start
                + encode_utf8(char_cut(big_l, big_p.skip(i as int))));
        }
        i = i + 1;
    }
    proof {
        assert(big_p.skip(m as int) =~= Seq::<(usize, usize)>::empty());
        assert(encode_utf8(char_cut(big_l, big_p.skip(m as int))) =~= Seq::<u8>::empty());
        assert(out@ =~= encode_utf8(char_cut(big_l, big_p)));
    }
    out.push(10);
    proof {
        assert(out@ =~= encode_utf8(char_cut(big_l, big_p)) + seq![10u8]);
    }
    out
}

/// Extract bytes from a line within the given ranges, with a final
/// newline.  The walk stops at the first range starting beyond the
/// line's byte length.
pub fn process_line_by_byte(line: &str, ranged_pairs: &Vec<(usize, usize)>) -> (r: Vec<u8>)
    requires
        valid_pairs(ranged_pairs@),
    ensures
        r@ == byte_cut(encode_utf8(line@), ranged_pairs@) + seq![10u8],
{
    let ghost big_b = encode_utf8(line@);
    let ghost big_p = ranged_pairs@;
    let bytes = line.as_bytes_vec();
    let n = bytes.len();
    let mut out: Vec<u8> = Vec::new();
    let m = ranged_pairs.len();
    let mut i: usize = 0;
    proof {
        assert(big_p.skip(0) =~= big_p);
        assert(out@ + byte_cut(big_b, big_p) =~= byte_cut(big_b, big_p));
    }
    while i < m
        invariant
            i <= m,
            m == big_p.len(),
            big_p == ranged_pairs@,
            big_b == bytes@,
            big_b == encode_utf8(line@),
            n == big_b.len(),
            valid_pairs(big_p),
            byte_cut(big_b, big_p) == out@ + byte_cut(big_b, big_p.skip(i as int)),
        decreases m - i,
    {
        let p = ranged_pairs[i];
        proof {
            assert(big_p.skip(i as int).first() == big_p[i as int]);
            assert(big_p.skip(i as int).drop_first() =~= big_p.skip(i + 1));
        }
        if p.0 > n {
            proof {
                assert(byte_cut(big_b, big_p.skip(i as int)) =~= Seq::<u8>::empty());
            }
            out.push(10);
            proof {
                assert(out@ =~= byte_cut(big_b, big_p) + seq![10u8]);
            }
            return out;
        }
        let ghost seg = clamped_segment(big_b, p);
        proof {
            assert(byte_cut(big_b, big_p.skip(i as int)) == seg + byte_cut(
                big_b,
                big_p.skip(i + 1),
            ));
        }
        let hi = if p.1 < n {
            p.1
        } else {
            n
        };
        let ghost out_seg_start = out@;
        let mut idx: usize = p.0 - 1;
        proof {
            assert(p.0 <= hi);
            assert(out@ =~= out_seg_start + big_b.subrange(p.0 - 1, p.0 - 1));
        }
        while idx < hi
            invariant
                p.0 >= 1,
                p.0 - 1 <= idx <= hi,
                hi <= n,
                n == big_b.len(),
                big_b == bytes@,
                out@ == out_seg_start + big_b.subrange(p.0 - 1, idx as int),
            decreases hi - idx,
        {
            out.push(bytes[idx]);
            proof {
                assert(big_b.subrange(p.0 - 1, idx + 1) =~= big_b.subrange(
                    p.0 - 1,
                    idx as int,
                ).push(big_b[idx as int]));
            }
            idx = idx + 1;
        }
        proof {
            assert(seg =~= big_b.subrange(p.0 - 1, hi as int));
            assert(out@ =~= out_seg_start + seg);
            assert(out@ + byte_cut(big_b, big_p.skip(i + 1)) =~= out_seg_start + byte_cut(
                big_b,
                big_p.skip(i as int),
            ));
        }
        i = i + 1;
    }
    proof {
        assert(big_p.skip(m as int) =~= Seq::<(usize, usize)>::empty());
        assert(out@ =~= byte_cut(big_b, big_p));
    }
    out.push(10);
    proof {
        assert(out@ =~= byte_cut(big_b, big_p) + seq![10u8]);
    }
    out
}

/// Append a copy of the characters of `src`.
fn push_chars(dst: &mut Vec<char>, src: &Vec<char>)
    ensures
        final(dst)@ == old(dst)@ + src@,
{
    let n = src.len();
    let mut k: usize = 0;
    proof {
        assert(dst@ =~= old(dst)@ + src@.subrange(0, 0));
    }
    while k < n
        invariant
            k <= n,
            n == src@.len(),
            dst@ == old(dst)@ + src@.subrange(0, k as int),
        decreases n - k,
    {
        dst.push(src[k]);
        proof {
            assert(src@.subrange(0, k + 1) =~= src@.subrange(0, k as int).push(src@[k as int]));
        }
        k = k + 1;
    }
    assert(src@.subrange(0, n as int) =~= src@);
}

/// Extract fields from a UTF-8 line split on the given delimiter, the
/// selected fields joined by that delimiter, with a final newline.  The
/// walk stops at the first range starting beyond the field count.
pub fn process_line_by_field_utf8(
    line: &str,
    ranged_pairs: &Vec<(usize, usize)>,
    delim: &str,
) -> (r: Vec<u8>)
    requires
        valid_pairs(ranged_pairs@),
        delim@.len() >= 1,
    ensures
        r@ == encode_utf8(
            join_fields(
                field_cut(split_fields(line@, delim@), ranged_pairs@),
                delim@,
            ),
        ) + seq![10u8],
{
    let ghost big_p = ranged_pairs@;
    let ghost big_d = delim@;
    let lchars = str_chars(line);
    let dchars = str_chars(delim);
    let fields = split_chars(&lchars, &dchars);
    let ghost big_f = split_fields(line@, delim@);
    proof {
        assert(fields.deep_view() == big_f);
    }
    let flen = fields.len();
    let mut out_chars: Vec<char> = Vec::new();
    let mut has_written = false;
    let ghost mut sel: Seq<Seq<char>> = Seq::empty();
    let m = ranged_pairs.len();
    let mut i: usize = 0;
    let mut stopped = false;
    proof {
        assert(big_p.skip(0) =~= big_p);
        assert(sel + field_cut(big_f, big_p) =~= field_cut(big_f, big_p));
    }
    while i < m && !stopped
        invariant
            i <= m,
            m == big_p.len(),
            big_p == ranged_pairs@,
            big_d == delim@,
            dchars@ == big_d,
            fields.deep_view() == big_f,
            flen == big_f.len(),
            flen == fields@.len(),
            valid_pairs(big_p),
            field_cut(big_f, big_p) == sel + field_cut(big_f, big_p.skip(i as int)),
            stopped ==> field_cut(big_f, big_p.skip(i as int)) == Seq::<Seq<char>>::empty(),
            out_chars@ == join_fields(sel, big_d),
            has_written <==> sel.len() > 0,
        decreases m - i + (if stopped {
            0int
        } else {
            1int
        }),
    {
        let p = ranged_pairs[i];
        proof {
            assert(big_p.skip(i as int).first() == big_p[i as int]);
            assert(big_p.skip(i as int).drop_first() =~= big_p.skip(i + 1));
        }
        if p.0 > flen {
            stopped = true;
            proof {
                assert(field_cut(big_f, big_p.skip(i as int)) =~= Seq::<Seq<char>>::empty());
            }
        } else {
            let ghost seg = clamped_segment(big_f, p);
            proof {
                assert(field_cut(big_f, big_p.skip(i as int)) == seg + field_cut(
                    big_f,
                    big_p.skip(i + 1),
                ));
            }
            let hi = if p.1 < flen {
                p.1
            } else {
                flen
            };
            let ghost sel_seg_start = sel;
            let mut idx: usize = p.0 - 1;
            proof {
                assert(p.0 <= hi);
                assert(sel =~= sel_seg_start + big_f.subrange(p.0 - 1, p.0 - 1));
            }
            while idx < hi
                invariant
                    p.0 >= 1,
                    p.0 - 1 <= idx <= hi,
                    hi <= flen,
                    flen == big_f.len(),
                    flen == fields@.len(),
                    fields.deep_view() == big_f,
                    big_d == delim@,
                    dchars@ == big_d,
                    sel == sel_seg_start + big_f.subrange(p.0 - 1, idx as int),
                    out_chars@ == join_fields(sel, big_d),
                    has_written <==> sel.len() > 0,
                decreases hi - idx,
            {
                let ghost sel_before = sel;
                if has_written {
                    push_chars(&mut out_chars, &dchars);
                } else {
                    has_written = true;
                }
                push_chars(&mut out_chars, &fields[idx]);
                proof {
                    let fi = big_f[idx as int];
                    assert(fields@[idx as int].deep_view() =~= fields@[idx as int]@);
                    assert(fi == fields@[idx as int]@);
                    sel = sel.push(fi);
                    lemma_join_fields_push(sel_before, fi, big_d);
                    if sel_before.len() == 0 {
                        assert(join_fields(sel_before, big_d) =~= Seq::<char>::empty());
                        assert(out_chars@ =~= join_fields(sel, big_d));
                    } else {
                        assert(out_chars@ =~= join_fields(sel_before, big_d) + big_d + fi);
                        assert(out_chars@ =~= join_fields(sel, big_d));
                    }
                    assert(big_f.subrange(p.0 - 1, idx + 1) =~= big_f.subrange(
                        p.0 - 1,
                        idx as int,
                    ).push(fi));
                    assert(sel =~= sel_seg_start + big_f.subrange(p.0 - 1, idx + 1));
                }
                idx = idx + 1;
            }
            proof {
                assert(seg =~= big_f.subrange(p.0 - 1, hi as int));
                assert(sel =~= sel_seg_start + seg);
                assert(sel + field_cut(big_f, big_p.skip(i + 1)) =~= sel_seg_start + field_cut(
                    big_f,
                    big_p.skip(i as int),
                ));
            }
            i = i + 1;
        }
    }
    proof {
        if !stopped {
            assert(big_p.skip(m as int) =~= Seq::<(usize, usize)>::empty());
        }
        assert(sel =~= field_cut(big_f, big_p));
        assert(out_chars@ == join_fields(field_cut(big_f, big_p), big_d));
    }
    let mut out = chars_to_utf8(&out_chars);
    out.push(10);
    proof {
        assert(out@ =~= encode_utf8(join_fields(field_cut(big_f, big_p), big_d)) + seq![10u8]);
    }
    out
}

} // verus!
