//! What holds of the buffer's operations taken together: how edits by byte
//! offset show in the text, and what a pass over the characters yields.

use vstd::prelude::*;
use vstd::utf8::*;
use crate::chars::char_offsets;
use crate::rope::Rope;
use crate::seqs::{cut, splice};

verus! {

/// The encoding of a text in two parts is the two encodings in a row.
pub proof fn lemma_encode_concat(a: Seq<char>, b: Seq<char>)
    ensures
        encode_utf8(a + b) == encode_utf8(a) + encode_utf8(b),
    decreases a.len(),
{
    if a.len() == 0 {
        assert(a + b =~= b);
        assert(encode_utf8(a) + encode_utf8(b) =~= encode_utf8(b));
    } else {
        lemma_encode_concat(a.drop_first(), b);
        assert((a + b).drop_first() =~= a.drop_first() + b);
        assert((a + b)[0] == a[0]);
        assert(encode_utf8(a + b) =~= encode_utf8(a) + encode_utf8(b));
    }
}

/// The byte offset at which the character with index `k` of `text` starts,
/// or, for `k` the length of the text, at which the text ends.
pub open spec fn byte_offset(text: Seq<char>, k: int) -> int {
    encode_utf8(text.take(k)).len() as int
}

/// Byte offsets grow with the index, and the last is the encoded length.
pub proof fn lemma_byte_offset(text: Seq<char>, i: int, j: int)
    requires
        0 <= i <= j <= text.len(),
    ensures
        0 <= byte_offset(text, i) <= byte_offset(text, j) <= encode_utf8(text).len(),
        byte_offset(text, 0) == 0,
        byte_offset(text, text.len() as int) == encode_utf8(text).len(),
        encode_utf8(text).subrange(byte_offset(text, i), byte_offset(text, j)) == encode_utf8(
            text.subrange(i, j),
        ),
{
    let a = text.take(i);
    let b = text.subrange(i, j);
    let c = text.skip(j);
    assert(text.take(j) =~= a + b);
    assert(text =~= text.take(j) + c);
    assert(text.take(0) =~= Seq::<char>::empty());
    assert(text.take(text.len() as int) =~= text);
    lemma_encode_concat(a, b);
    lemma_encode_concat(text.take(j), c);
    assert(encode_utf8(text).subrange(byte_offset(text, i), byte_offset(text, j)) =~= encode_utf8(b));
}

/// A buffer made from a text gives that text back: its bytes are UTF-8, and
/// they decode to the text.
pub proof fn lemma_round_trip(rope: Rope, text: Seq<char>)
    requires
        rope@ == encode_utf8(text),
    ensures
        valid_utf8(rope@),
        decode_utf8(rope@) == text,
{
    encode_utf8_valid_utf8(text);
    encode_utf8_decode_utf8(text);
}

/// Inserting the encoding of `added` where the character with index `k` of
/// `text` starts gives the encoding of `text` with `added` put in before
/// that character: a buffer that holds `text` reads, after such an
/// insertion, as `text` with `added` spliced in.
pub proof fn lemma_insert_text(text: Seq<char>, k: int, added: Seq<char>)
    requires
        0 <= k <= text.len(),
    ensures
        splice(encode_utf8(text), byte_offset(text, k), encode_utf8(added)) == encode_utf8(
            splice(text, k, added),
        ),
        valid_utf8(splice(encode_utf8(text), byte_offset(text, k), encode_utf8(added))),
        decode_utf8(splice(encode_utf8(text), byte_offset(text, k), encode_utf8(added))) == splice(
            text,
            k,
            added,
        ),
{
    let a = text.take(k);
    let c = text.skip(k);
    assert(text =~= a + c);
    assert(text.subrange(0, k) =~= a);
    assert(text.subrange(k, text.len() as int) =~= c);
    lemma_encode_concat(a, c);
    lemma_encode_concat(a, added);
    lemma_encode_concat(a + added, c);
    assert(splice(encode_utf8(text), byte_offset(text, k), encode_utf8(added)) =~= encode_utf8(a)
        + encode_utf8(added) + encode_utf8(c));
    encode_utf8_valid_utf8(splice(text, k, added));
    encode_utf8_decode_utf8(splice(text, k, added));
}

/// Removing the bytes between the starts of the characters with the indices
/// `i` and `j` of `text` gives the encoding of `text` without the characters
/// from `i` up to `j`: a buffer that holds `text` reads, after such a
/// removal, as `text` without those characters.
pub proof fn lemma_remove_text(text: Seq<char>, i: int, j: int)
    requires
        0 <= i <= j <= text.len(),
    ensures
        cut(encode_utf8(text), byte_offset(text, i), byte_offset(text, j)) == encode_utf8(cut(text, i, j)),
        valid_utf8(cut(encode_utf8(text), byte_offset(text, i), byte_offset(text, j))),
        decode_utf8(cut(encode_utf8(text), byte_offset(text, i), byte_offset(text, j))) == cut(text, i, j),
{
    let a = text.take(i);
    let b = text.subrange(i, j);
    let c = text.skip(j);
    assert(text.take(j) =~= a + b);
    assert(text =~= text.take(j) + c);
    assert(text.subrange(0, i) =~= a);
    assert(text.subrange(j, text.len() as int) =~= c);
    lemma_encode_concat(a, b);
    lemma_encode_concat(a + b, c);
    lemma_encode_concat(a, c);
    assert(cut(encode_utf8(text), byte_offset(text, i), byte_offset(text, j)) =~= encode_utf8(a)
        + encode_utf8(c));
    encode_utf8_valid_utf8(cut(text, i, j));
    encode_utf8_decode_utf8(cut(text, i, j));
}

/// The bytes between the starts of the characters with the indices `i` and
/// `j` of `text` read as the characters from `i` up to `j`.
pub proof fn lemma_slice_text(text: Seq<char>, i: int, j: int)
    requires
        0 <= i <= j <= text.len(),
    ensures
        valid_utf8(encode_utf8(text).subrange(byte_offset(text, i), byte_offset(text, j))),
        decode_utf8(encode_utf8(text).subrange(byte_offset(text, i), byte_offset(text, j)))
            == text.subrange(i, j),
{
    lemma_byte_offset(text, i, j);
    encode_utf8_valid_utf8(text.subrange(i, j));
    encode_utf8_decode_utf8(text.subrange(i, j));
}

/// A pass over well-formed bytes yields their characters in order, each
/// with the offset at which its encoding starts; the offsets grow strictly
/// and stay within the bytes.
pub proof fn lemma_char_offsets(bytes: Seq<u8>, base: int)
    requires
        valid_utf8(bytes),
    ensures
        char_offsets(bytes, base).len() == decode_utf8(bytes).len(),
        forall|i: int|
            0 <= i < decode_utf8(bytes).len() ==> (#[trigger] char_offsets(bytes, base)[i]).0
                == decode_utf8(bytes)[i],
        forall|i: int|
            0 <= i < decode_utf8(bytes).len() ==> (#[trigger] char_offsets(bytes, base)[i]).1 == base
                + byte_offset(decode_utf8(bytes), i),
        forall|i: int|
            0 <= i < decode_utf8(bytes).len() ==> base <= (#[trigger] char_offsets(bytes, base)[i]).1 < base
                + bytes.len(),
        forall|i: int, j: int|
            0 <= i < j < decode_utf8(bytes).len() ==> (#[trigger] char_offsets(bytes, base)[i]).1 < (
            #[trigger] char_offsets(bytes, base)[j]).1,
    decreases bytes.len(),
{
    if bytes.len() > 0 {
        let width = length_of_first_scalar(bytes);
        let rest = pop_first_scalar(bytes);
        let first = decode_first_scalar(bytes) as char;
        let chars = decode_utf8(bytes);
        let tail = decode_utf8(rest);
        let offs = char_offsets(bytes, base);
        let offs_tail = char_offsets(rest, base + width);
        lemma_char_offsets(rest, base + width);
        decode_utf8_first_scalar(bytes);
        assert(chars =~= seq![first] + tail);
        assert(offs =~= seq![(first, base)] + offs_tail);
        assert(encode_scalar(first as u32).len() == width);
        assert forall|i: int| 0 <= i < chars.len() implies (#[trigger] offs[i]).1 == base + byte_offset(
            chars,
            i,
        ) by {
            if i == 0 {
                assert(chars.take(0) =~= Seq::<char>::empty());
            } else {
                assert(offs[i] == offs_tail[i - 1]);
                assert(chars.take(i) =~= seq![first] + tail.take(i - 1));
                lemma_encode_concat(seq![first], tail.take(i - 1));
                assert(seq![first].drop_first() =~= Seq::<char>::empty());
                assert(encode_utf8(seq![first]) =~= encode_scalar(first as u32)) by {
                    reveal_with_fuel(encode_utf8, 2);
                }
            }
        }
        assert forall|i: int| 0 <= i < chars.len() implies (#[trigger] offs[i]).0 == chars[i] && base
            <= offs[i].1 < base + bytes.len() by {
            if i > 0 {
                assert(offs[i] == offs_tail[i - 1]);
            }
        }
        assert forall|i: int, j: int| 0 <= i < j < chars.len() implies (#[trigger] offs[i]).1 < (
        #[trigger] offs[j]).1 by {
            assert(offs[j] == offs_tail[j - 1]);
            if i > 0 {
                assert(offs[i] == offs_tail[i - 1]);
            }
        }
    }
}

} // verus!
