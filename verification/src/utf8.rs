//! Text as bytes: reading bytes as UTF-8, and where the bytes of ASCII characters lie in the
//! encoding of a text.

use vstd::prelude::*;
use vstd::string::StringSliceAdditionalSpecFns;
use vstd::utf8::{
    char_is_scalar, char_u32_cast, encode_scalar, encode_utf8, has_width_1_encoding, has_width_2_encoding,
    has_width_3_encoding, valid_utf8,
};

verus! {

/// Reads `bytes` as text with `core::str::from_utf8`, which checks that they are well-formed
/// UTF-8 and then hands back the same bytes as a string slice. The result is `None` exactly
/// where they are not well-formed.
#[verifier::external_body]
pub(crate) fn text_of_bytes(bytes: &[u8]) -> (r: Option<&str>)
    ensures
        r is Some <==> valid_utf8(bytes@),
        r matches Some(s) ==> s.spec_bytes() == bytes@,
{
    core::str::from_utf8(bytes).ok()
}

/// Whether `c` is an ASCII character, which UTF-8 writes as one byte of the same value.
pub open spec fn is_ascii_char(c: char) -> bool {
    c as u32 <= 0x7F
}

/// An ASCII character is encoded as its own value, and every byte of the encoding of another
/// character is 128 or more.
pub proof fn lemma_scalar_bytes(c: char)
    ensures
        is_ascii_char(c) ==> encode_scalar(c as u32) == seq![c as u8],
        !is_ascii_char(c) ==> forall|i: int|
            0 <= i < encode_scalar(c as u32).len() ==> #[trigger] encode_scalar(c as u32)[i]
                >= 0x80,
        encode_scalar(c as u32).len() > 0,
{
    let v = c as u32;
    char_is_scalar(c);
    if has_width_1_encoding(v) {
        assert((v & 0x7F) as u8 == v as u8) by (bit_vector)
            requires
                v <= 0x7F,
        ;
        assert(v as u8 == c as u8);
    } else {
        assert(0xC0u8 | ((v >> 6) & 0x1F) as u8 >= 0x80) by (bit_vector);
        assert(0xE0u8 | ((v >> 12) & 0x0F) as u8 >= 0x80) by (bit_vector);
        assert(0xF0u8 | ((v >> 18) & 0x7) as u8 >= 0x80) by (bit_vector);
        assert(0x80u8 | (v & 0x3F) as u8 >= 0x80) by (bit_vector);
        assert(0x80u8 | ((v >> 6) & 0x3F) as u8 >= 0x80) by (bit_vector);
        assert(0x80u8 | ((v >> 12) & 0x3F) as u8 >= 0x80) by (bit_vector);
        if has_width_2_encoding(v) {
        } else if has_width_3_encoding(v) {
        } else {
        }
    }
}

/// Different characters have different scalar values, and different bytes where both are
/// ASCII.
pub proof fn lemma_distinct_scalars(a: char, b: char)
    requires
        a != b,
    ensures
        a as u32 != b as u32,
        is_ascii_char(a) && is_ascii_char(b) ==> a as u8 != b as u8,
{
    char_u32_cast(a, a as u32);
    char_u32_cast(b, b as u32);
    lemma_ascii_byte(a);
    lemma_ascii_byte(b);
}

/// The byte of an ASCII character has the character's scalar value.
pub proof fn lemma_ascii_byte(c: char)
    ensures
        is_ascii_char(c) ==> (c as u8) as u32 == c as u32 && c as u8 <= 0x7F,
{
    let v = c as u32;
    assert(c as u8 == v as u8);
    assert(v <= 0x7F ==> (v as u8) as u32 == v && v as u8 <= 0x7F) by (bit_vector);
}

/// The encoding of two texts, one after the other, is the encoding of the first followed by
/// that of the second.
pub proof fn lemma_encode_concat(a: Seq<char>, b: Seq<char>)
    ensures
        encode_utf8(a + b) == encode_utf8(a) + encode_utf8(b),
    decreases a.len(),
{
    if a.len() == 0 {
        assert(a + b =~= b);
        assert(encode_utf8(a) + encode_utf8(b) =~= encode_utf8(b));
    } else {
        lemma_encode_concat(a.drop_first(), b);
        assert((a + b).drop_first() =~= a.drop_first() + b);
        assert((a + b)[0] == a[0]);
        assert(encode_utf8(a + b) =~= encode_utf8(a) + encode_utf8(b));
    }
}

/// An ASCII character that does not occur in a text leaves no byte of its value in the
/// encoding of that text.
pub proof fn lemma_encoded_without(text: Seq<char>, c: char)
    requires
        is_ascii_char(c),
        forall|i: int| 0 <= i < text.len() ==> #[trigger] text[i] != c,
    ensures
        forall|j: int|
            0 <= j < encode_utf8(text).len() ==> #[trigger] encode_utf8(text)[j] != c as u8,
    decreases text.len(),
{
    if text.len() > 0 {
        let head = encode_scalar(text[0] as u32);
        let rest = text.drop_first();
        assert forall|i: int| 0 <= i < rest.len() implies #[trigger] rest[i] != c by {
            assert(rest[i] == text[i + 1]);
        }
        lemma_encoded_without(rest, c);
        lemma_scalar_bytes(text[0]);
        lemma_ascii_byte(c);
        assert(text[0] != c);
        assert forall|j: int| 0 <= j < encode_utf8(text).len() implies #[trigger] encode_utf8(
            text,
        )[j] != c as u8 by {
            if j < head.len() {
                assert(encode_utf8(text)[j] == head[j]);
                if is_ascii_char(text[0]) {
                    lemma_distinct_scalars(text[0], c);
                }
            } else {
                assert(encode_utf8(text)[j] == encode_utf8(rest)[j - head.len()]);
            }
        }
    }
}

/// A text that does not end with a given ASCII character has an encoding that does not end
/// with the byte of its value.
pub proof fn lemma_encoded_last(text: Seq<char>, c: char)
    requires
        is_ascii_char(c),
        text.len() > 0,
        text.last() != c,
    ensures
        encode_utf8(text).len() > 0,
        encode_utf8(text).last() != c as u8,
{
    let front = text.drop_last();
    let tail = seq![text.last()];
    assert(text =~= front + tail);
    lemma_encode_concat(front, tail);
    lemma_scalar_bytes(text.last());
    lemma_ascii_byte(c);
    assert(encode_utf8(tail) =~= encode_scalar(text.last() as u32)) by {
        reveal_with_fuel(encode_utf8, 2);
        assert(tail.drop_first() =~= Seq::<char>::empty());
    }
    let last = encode_scalar(text.last() as u32);
    assert(encode_utf8(text).last() == last.last());
    if is_ascii_char(text.last()) {
        lemma_distinct_scalars(text.last(), c);
    } else {
        assert(last[last.len() - 1] >= 0x80);
    }
}

} // verus!
