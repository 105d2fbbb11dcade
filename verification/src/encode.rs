//! Re-encoding selected characters as UTF-8 bytes.
//!
//! The byte output of the extractors is specified with vstd's
//! `encode_utf8`; `chars_to_utf8` produces exactly those bytes, one
//! character at a time.

use vstd::prelude::*;
use vstd::utf8::char_is_scalar;
use vstd::utf8::encode_scalar;
use vstd::utf8::encode_utf8;
use vstd::utf8::has_width_1_encoding;
use vstd::utf8::has_width_2_encoding;
use vstd::utf8::has_width_3_encoding;
use vstd::utf8::has_width_4_encoding;
use vstd::utf8::is_scalar;

verus! {

/// Encoding a concatenation concatenates the encodings.
pub proof fn lemma_encode_utf8_concat(a: Seq<char>, b: Seq<char>)
    ensures
        encode_utf8(a + b) == encode_utf8(a) + encode_utf8(b),
    decreases a.len(),
{
    if a.len() == 0 {
        assert(a + b =~= b);
        assert(encode_utf8(a) + encode_utf8(b) =~= encode_utf8(b));
    } else {
        assert((a + b).drop_first() =~= a.drop_first() + b);
        lemma_encode_utf8_concat(a.drop_first(), b);
        assert(encode_utf8(a + b) =~= encode_utf8(a) + encode_utf8(b));
    }
}

/// A single character encodes to its scalar's encoding.
pub proof fn lemma_encode_utf8_singleton(c: char)
    ensures
        encode_utf8(seq![c]) == encode_scalar(c as u32),
{
    reveal_with_fuel(vstd::utf8::encode_utf8, 2);
    assert(seq![c].drop_first() =~= Seq::<char>::empty());
    assert(encode_scalar(c as u32) + Seq::<u8>::empty() =~= encode_scalar(c as u32));
    assert(encode_utf8(seq![c]) =~= encode_scalar(c as u32));
}

/// Append the UTF-8 encoding of one character.
pub fn push_utf8_char(out: &mut Vec<u8>, c: char)
    ensures
        final(out)@ == old(out)@ + encode_scalar(c as u32),
{
    let x = c as u32;
    proof {
        char_is_scalar(c);
        assert(is_scalar(x));
    }
    if x < 0x80 {
        proof {
            assert(x & 0x7F <= 0x7F) by (bit_vector);
        }
        out.push((x & 0x7F) as u8);
        proof {
            assert(has_width_1_encoding(x));
            assert(out@ =~= old(out)@ + encode_scalar(x));
        }
    } else if x < 0x800 {
        proof {
            assert((x >> 6) & 0x1F <= 0x1F) by (bit_vector);
            assert(x & 0x3F <= 0x3F) by (bit_vector);
        }
        out.push(0xC0 | ((x >> 6) & 0x1F) as u8);
        out.push(0x80 | (x & 0x3F) as u8);
        proof {
            assert(has_width_2_encoding(x));
            assert(out@ =~= old(out)@ + encode_scalar(x));
        }
    } else if x < 0x10000 {
        proof {
            assert((x >> 12) & 0x0F <= 0x0F) by (bit_vector);
            assert((x >> 6) & 0x3F <= 0x3F) by (bit_vector);
            assert(x & 0x3F <= 0x3F) by (bit_vector);
        }
        out.push(0xE0 | ((x >> 12) & 0x0F) as u8);
        out.push(0x80 | ((x >> 6) & 0x3F) as u8);
        out.push(0x80 | (x & 0x3F) as u8);
        proof {
            assert(has_width_3_encoding(x));
            assert(out@ =~= old(out)@ + encode_scalar(x));
        }
    } else {
        proof {
            assert((x >> 18) & 0x7 <= 0x7) by (bit_vector);
            assert((x >> 12) & 0x3F <= 0x3F) by (bit_vector);
            assert((x >> 6) & 0x3F <= 0x3F) by (bit_vector);
            assert(x & 0x3F <= 0x3F) by (bit_vector);
        }
        out.push(0xF0 | ((x >> 18) & 0x7) as u8);
        out.push(0x80 | ((x >> 12) & 0x3F) as u8);
        out.push(0x80 | ((x >> 6) & 0x3F) as u8);
        out.push(0x80 | (x & 0x3F) as u8);
        proof {
            assert(has_width_4_encoding(x));
            assert(out@ =~= old(out)@ + encode_scalar(x));
        }
    }
}

/// The UTF-8 bytes of a character sequence.
pub fn chars_to_utf8(chars: &Vec<char>) -> (r: Vec<u8>)
    ensures
        r@ == encode_utf8(chars@),
{
    let mut out: Vec<u8> = Vec::new();
    let n = chars.len();
    let mut i: usize = 0;
    proof {
        assert(chars@.subrange(0, 0) =~= Seq::<char>::empty());
        assert(out@ =~= encode_utf8(chars@.subrange(0, 0)));
    }
    while i < n
        invariant
            i <= n,
            n == chars@.len(),
            out@ == encode_utf8(chars@.subrange(0, i as int)),
        decreases n - i,
    {
        let c = chars[i];
        proof {
            assert(chars@.subrange(0, i + 1) =~= chars@.subrange(0, i as int) + seq![c]);
            lemma_encode_utf8_concat(chars@.subrange(0, i as int), seq![c]);
            lemma_encode_utf8_singleton(c);
        }
        push_utf8_char(&mut out, c);
        i = i + 1;
    }
    assert(chars@.subrange(0, n as int) =~= chars@);
    out
}

} // verus!
