//! Reading UTF-8 one character at a time, over the definitions of
//! `vstd::utf8`.

use vstd::prelude::*;
use vstd::utf8::*;
use crate::utf16::is_scalar_value;

verus! {

proof fn lemma_width_2_bound(b0: u8, b1: u8)
    by (bit_vector)
    ensures
        ((((b0 & 0x1F) as u32) << 6) | ((b1 & 0x3f) as u32)) <= 0x7FF,
{
}

proof fn lemma_width_3_bound(b0: u8, b1: u8, b2: u8)
    by (bit_vector)
    ensures
        ((((b0 & 0x0F) as u32) << 12) | (((b1 & 0x3f) as u32) << 6) | ((b2 & 0x3f) as u32))
            <= 0xFFFF,
{
}

proof fn lemma_width_1_bound(b0: u8)
    by (bit_vector)
    ensures
        ((b0 & 0x7F) as u32) <= 0x7F,
{
}

/// A well-formed first character is a scalar value, and its bytes are there.
pub proof fn lemma_first_scalar(bytes: Seq<u8>)
    requires
        valid_first_scalar(bytes),
    ensures
        is_scalar_value(decode_first_scalar(bytes)),
        1 <= length_of_first_scalar(bytes) <= 4,
        length_of_first_scalar(bytes) <= bytes.len(),
        (decode_first_scalar(bytes) as char) as u32 == decode_first_scalar(bytes),
{
    let b0 = bytes[0];
    if is_leading_byte_width_1(b0) {
        lemma_width_1_bound(b0);
    } else if is_leading_byte_width_2(b0) {
        lemma_width_2_bound(b0, bytes[1]);
    } else if is_leading_byte_width_3(b0) {
        lemma_width_3_bound(b0, bytes[1], bytes[2]);
    } else {
    }
}

/// Where a well-formed text has a well-formed rest, a character starts.
pub proof fn lemma_valid_rest_is_boundary(bytes: Seq<u8>, at: int)
    requires
        valid_utf8(bytes),
        0 <= at <= bytes.len(),
        valid_utf8(bytes.skip(at)),
    ensures
        is_char_boundary(bytes, at),
{
    if at == bytes.len() {
        is_char_boundary_start_end_of_seq(bytes);
    } else {
        let rest = bytes.skip(at);
        assert(rest.len() > 0);
        assert(valid_first_scalar(rest));
        assert(rest[0] == bytes[at]);
        is_char_boundary_iff_is_leading_byte(bytes, at);
    }
}

/// The rest of a well-formed text after its first character is well formed.
pub proof fn lemma_rest_after_first(bytes: Seq<u8>, at: int)
    requires
        0 <= at < bytes.len(),
        valid_utf8(bytes.skip(at)),
    ensures
        valid_first_scalar(bytes.skip(at)),
        pop_first_scalar(bytes.skip(at)) == bytes.skip(at + length_of_first_scalar(bytes.skip(at))),
        valid_utf8(bytes.skip(at + length_of_first_scalar(bytes.skip(at)))),
{
    let rest = bytes.skip(at);
    assert(rest.len() > 0);
    lemma_first_scalar(rest);
    assert(pop_first_scalar(rest) =~= bytes.skip(at + length_of_first_scalar(rest)));
}

/// Two well-formed texts, one after the other, read as the two texts.
pub proof fn lemma_decode_concat(a: Seq<u8>, b: Seq<u8>)
    requires
        valid_utf8(a),
        valid_utf8(b),
    ensures
        valid_utf8(a + b),
        decode_utf8(a + b) == decode_utf8(a) + decode_utf8(b),
{
    valid_utf8_concat(a, b);
    let whole = a + b;
    assert(whole.subrange(0, a.len() as int) =~= a);
    assert(whole.subrange(a.len() as int, whole.len() as int) =~= b);
    assert(whole.skip(a.len() as int) =~= b);
    lemma_valid_rest_is_boundary(whole, a.len() as int);
    decode_utf8_split(whole, a.len() as int);
}

/// Bytes below 0x80 are characters of their own, so any run of them is
/// well formed.
pub proof fn lemma_ascii_valid(bytes: Seq<u8>)
    requires
        forall|i: int| 0 <= i < bytes.len() ==> #[trigger] bytes[i] <= 0x7f,
    ensures
        valid_utf8(bytes),
    decreases bytes.len(),
{
    if bytes.len() > 0 {
        lemma_width_1_bound(bytes[0]);
        let rest = pop_first_scalar(bytes);
        assert(rest =~= bytes.skip(1));
        assert forall|i: int| 0 <= i < rest.len() implies #[trigger] rest[i] <= 0x7f by {
            assert(rest[i] == bytes[i + 1]);
        }
        lemma_ascii_valid(rest);
    }
}

/// The character that starts at `at`, as its scalar value, and the number
/// of bytes it takes.
pub fn scalar_at(bytes: &[u8], at: usize) -> (r: (u32, usize))
    requires
        at < bytes@.len(),
        valid_first_scalar(bytes@.skip(at as int)),
    ensures
        r.0 == decode_first_scalar(bytes@.skip(at as int)),
        r.1 == length_of_first_scalar(bytes@.skip(at as int)),
        is_scalar_value(r.0),
        at + r.1 <= bytes@.len(),
{
    proof {
        lemma_first_scalar(bytes@.skip(at as int));
    }
    let ghost rest = bytes@.skip(at as int);
    let b0: u8 = bytes[at];
    assert(b0 == rest[0]);
    if b0 <= 0x7f {
        ((b0 & 0x7F) as u32, 1)
    } else if 0xc0 <= b0 && b0 <= 0xdf {
        let b1: u8 = bytes[at + 1];
        assert(b1 == rest[1]);
        ((((b0 & 0x1F) as u32) << 6) | ((b1 & 0x3f) as u32), 2)
    } else if 0xe0 <= b0 && b0 <= 0xef {
        let b1: u8 = bytes[at + 1];
        let b2: u8 = bytes[at + 2];
        assert(b1 == rest[1] && b2 == rest[2]);
        ((((b0 & 0x0F) as u32) << 12) | (((b1 & 0x3f) as u32) << 6) | ((b2 & 0x3f) as u32), 3)
    } else {
        let b1: u8 = bytes[at + 1];
        let b2: u8 = bytes[at + 2];
        let b3: u8 = bytes[at + 3];
        assert(b1 == rest[1] && b2 == rest[2] && b3 == rest[3]);
        (
            (((b0 & 0x07) as u32) << 18) | (((b1 & 0x3f) as u32) << 12) | (((b2 & 0x3f) as u32)
                << 6) | ((b3 & 0x3f) as u32),
            4,
        )
    }
}

} // verus!
