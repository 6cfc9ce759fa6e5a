//! Decoding of single UTF-8 scalars, stated against `vstd::utf8`.

use vstd::prelude::*;
use vstd::utf8::*;

verus! {

/// The number of bytes that a UTF-8 sequence starting with `byte` occupies,
/// or 0 where no well-formed sequence starts with that byte.
pub open spec fn spec_utf8_char_width(byte: u8) -> nat {
    if byte <= 0x7f {
        1
    } else if 0xc2 <= byte <= 0xdf {
        2
    } else if 0xe0 <= byte <= 0xef {
        3
    } else if 0xf0 <= byte <= 0xf4 {
        4
    } else {
        0
    }
}

/// Width of the sequence that `byte` leads; 0 for a byte that leads none.
pub fn utf8_char_width(byte: u8) -> (width: usize)
    ensures
        width == spec_utf8_char_width(byte),
{
    if byte <= 0x7f {
        1
    } else if byte < 0xc2 {
        0
    } else if byte <= 0xdf {
        2
    } else if byte <= 0xef {
        3
    } else if byte <= 0xf4 {
        4
    } else {
        0
    }
}

/// Whether `byte` has the form of a continuation byte.
pub fn is_continuation(byte: u8) -> (b: bool)
    ensures
        b == is_continuation_byte(byte),
{
    0x80 <= byte && byte <= 0xbf
}

/// A well-formed scalar is as wide as its leading byte says.
pub proof fn lemma_valid_first_width(bytes: Seq<u8>)
    requires
        valid_first_scalar(bytes),
    ensures
        spec_utf8_char_width(bytes[0]) == length_of_first_scalar(bytes),
        1 <= length_of_first_scalar(bytes) <= 4,
        length_of_first_scalar(bytes) <= bytes.len(),
{
    let b0 = bytes[0];
    if is_leading_byte_width_1(b0) {
    } else if is_leading_byte_width_2(b0) {
        let b1 = bytes[1];
        assert(0xc0 <= b0 <= 0xc1 ==> codepoint_width_2(b0, b1) < 0x80) by (bit_vector);
    } else if is_leading_byte_width_3(b0) {
    } else {
        let b1 = bytes[1];
        let b2 = bytes[2];
        let b3 = bytes[3];
        assert(0xf5 <= b0 <= 0xf7 ==> codepoint_width_4(b0, b1, b2, b3) > 0x10ffff) by (bit_vector);
    }
}

/// Whether a sequence starts with a well-formed scalar, and which, depends
/// on its first bytes alone: on as many as the leading byte asks for.
pub proof fn lemma_first_scalar_of_prefix(bytes: Seq<u8>, width: int)
    requires
        0 < bytes.len(),
        width == spec_utf8_char_width(bytes[0]),
        0 < width <= bytes.len(),
    ensures
        valid_first_scalar(bytes) == valid_first_scalar(bytes.subrange(0, width)),
        decode_first_scalar(bytes) == decode_first_scalar(bytes.subrange(0, width)),
{
    let unit = bytes.subrange(0, width);
    assert(unit[0] == bytes[0]);
    if valid_first_scalar(bytes) {
        lemma_valid_first_width(bytes);
    }
    if valid_first_scalar(unit) {
        lemma_valid_first_width(unit);
    }
    if width >= 2 {
        assert(unit[1] == bytes[1]);
    }
    if width >= 3 {
        assert(unit[2] == bytes[2]);
    }
    if width >= 4 {
        assert(unit[3] == bytes[3]);
    }
}

/// Decodes the scalar that starts with `b0`, whose leading byte asks for
/// `width` bytes; of `b1`, `b2` and `b3` only those within the width count.
/// `None` where the bytes are no well-formed scalar.
pub fn decode_unit(b0: u8, b1: u8, b2: u8, b3: u8, width: usize) -> (res: Option<char>)
    requires
        width == spec_utf8_char_width(b0),
        width > 0,
    ensures
        ({
            let unit = seq![b0, b1, b2, b3].subrange(0, width as int);
            res == if valid_first_scalar(unit) {
                Some(decode_first_scalar(unit) as char)
            } else {
                None
            }
        }),
{
    let ghost unit = seq![b0, b1, b2, b3].subrange(0, width as int);
    assert(unit[0] == b0);
    if width == 1 {
        let cp = b0 as u32;
        assert(b0 <= 0x7f ==> (b0 & 0x7f) as u32 == b0 as u32) by (bit_vector);
        return char_from_u32(cp);
    }
    assert(unit[1] == b1);
    if width == 2 {
        if !is_continuation(b1) {
            return None;
        }
        let cp = (((b0 & 0x1f) as u32) << 6) | ((b1 & 0x3f) as u32);
        assert(0xc2 <= b0 <= 0xdf ==> 0x80 <= ((((b0 & 0x1f) as u32) << 6) | ((b1 & 0x3f) as u32))
            <= 0x7ff) by (bit_vector);
        return char_from_u32(cp);
    }
    assert(unit[2] == b2);
    if width == 3 {
        if !is_continuation(b1) || !is_continuation(b2) {
            return None;
        }
        let cp = (((b0 & 0x0f) as u32) << 12) | (((b1 & 0x3f) as u32) << 6) | ((b2 & 0x3f) as u32);
        assert(((((b0 & 0x0f) as u32) << 12) | (((b1 & 0x3f) as u32) << 6) | ((b2 & 0x3f) as u32))
            <= 0xffff) by (bit_vector);
        if cp < 0x800 {
            return None;
        }
        return char_from_u32(cp);
    }
    assert(unit[3] == b3);
    if !is_continuation(b1) || !is_continuation(b2) || !is_continuation(b3) {
        return None;
    }
    let cp = (((b0 & 0x07) as u32) << 18) | (((b1 & 0x3f) as u32) << 12) | (((b2 & 0x3f) as u32) << 6) | ((b3
        & 0x3f) as u32);
    if cp < 0x10000 {
        return None;
    }
    char_from_u32(cp)
}

/// The UTF-8 encoding of `c`.
pub fn encode_char(c: char) -> (bytes: Vec<u8>)
    ensures
        bytes@ == encode_scalar(c as u32),
        bytes@ == encode_utf8(seq![c]),
        1 <= bytes@.len() <= 4,
{
    let v = c as u32;
    let mut bytes: Vec<u8> = Vec::new();
    proof {
        char_is_scalar(c);
        assert(seq![c].drop_first() =~= Seq::<char>::empty());
        assert(encode_utf8(seq![c]) =~= encode_scalar(c as u32)) by {
            reveal_with_fuel(encode_utf8, 2);
        }
    }
    if v <= 0x7f {
        assert((v & 0x7f) <= 0x7f) by (bit_vector);
        bytes.push((v & 0x7f) as u8);
        assert(bytes@ =~= encode_scalar(v));
    } else if v <= 0x7ff {
        assert(((v >> 6) & 0x1f) <= 0x1f) by (bit_vector);
        assert((v & 0x3f) <= 0x3f) by (bit_vector);
        bytes.push(0xc0 | ((v >> 6) & 0x1f) as u8);
        bytes.push(0x80 | (v & 0x3f) as u8);
        assert(bytes@ =~= encode_scalar(v));
    } else if v <= 0xffff {
        assert(((v >> 12) & 0x0f) <= 0x0f) by (bit_vector);
        assert(((v >> 6) & 0x3f) <= 0x3f) by (bit_vector);
        assert((v & 0x3f) <= 0x3f) by (bit_vector);
        bytes.push(0xe0 | ((v >> 12) & 0x0f) as u8);
        bytes.push(0x80 | ((v >> 6) & 0x3f) as u8);
        bytes.push(0x80 | (v & 0x3f) as u8);
        assert(bytes@ =~= encode_scalar(v));
    } else {
        assert(((v >> 18) & 0x7) <= 0x7) by (bit_vector);
        assert(((v >> 12) & 0x3f) <= 0x3f) by (bit_vector);
        assert(((v >> 6) & 0x3f) <= 0x3f) by (bit_vector);
        assert((v & 0x3f) <= 0x3f) by (bit_vector);
        bytes.push(0xf0 | ((v >> 18) & 0x7) as u8);
        bytes.push(0x80 | ((v >> 12) & 0x3f) as u8);
        bytes.push(0x80 | ((v >> 6) & 0x3f) as u8);
        bytes.push(0x80 | (v & 0x3f) as u8);
        assert(bytes@ =~= encode_scalar(v));
    }
    bytes
}

/// `char::from_u32` of std: the character with the given scalar value, or
/// nothing where the value is none. The contract takes std at its word that
/// the scalar values are the numbers up to 0x10FFFF but for the surrogates.
#[verifier::external_body]
pub(crate) fn char_from_u32(v: u32) -> (res: Option<char>)
    ensures
        res == if is_scalar(v) {
            Some(v as char)
        } else {
            None
        },
{
    char::from_u32(v)
}

/// `String::from_utf8` of std: the text that the bytes encode, or nothing
/// where they are not UTF-8. The contract takes std at its word that it
/// accepts exactly the well-formed byte sequences, and that the string it
/// returns holds the characters which the bytes encode.
#[verifier::external_body]
pub(crate) fn string_from_utf8(bytes: Vec<u8>) -> (res: Option<String>)
    ensures
        res is Some <==> valid_utf8(bytes@),
        res is Some ==> res->0@ == decode_utf8(bytes@),
{
    String::from_utf8(bytes).ok()
}

} // verus!
