//! The word under the cursor.

use crate::bytes::{
    lemma_ascii_byte_boundaries, lemma_ascii_encoding, lemma_boundary_within_prefix, on_boundary,
    slice,
};
use crate::position::{lemma_offset_on_boundary, offset_at, position_offset, Position};
use vstd::prelude::*;
use vstd::string::StringSliceAdditionalSpecFns;
use vstd::utf8::{
    decode_utf8, decode_utf8_encode_utf8, encode_utf8, encode_utf8_decode_utf8,
    encode_utf8_valid_utf8, is_ascii_chars, valid_utf8, valid_utf8_split,
};

verus! {

/// Whether a byte can be part of a word: an ASCII letter or digit, or one of
/// the underscore, the hyphen and the dot.
pub open spec fn in_word(byte: u8) -> bool {
    ||| 0x30 <= byte <= 0x39
    ||| 0x41 <= byte <= 0x5a
    ||| 0x61 <= byte <= 0x7a
    ||| byte == 0x5f
    ||| byte == 0x2d
    ||| byte == 0x2e
}

/// Where the word around an offset starts: behind the last byte before the
/// offset that no word holds.
pub open spec fn word_start(text: Seq<u8>, offset: int) -> int
    decreases offset,
{
    if 0 < offset <= text.len() && in_word(text[offset - 1]) {
        word_start(text, offset - 1)
    } else {
        offset
    }
}

/// Where the word around an offset ends: at the first byte from the offset on
/// that no word holds.
pub open spec fn word_end(text: Seq<u8>, offset: int) -> int
    decreases text.len() - offset,
{
    if 0 <= offset < text.len() && in_word(text[offset]) {
        word_end(text, offset + 1)
    } else {
        offset
    }
}

/// The word at a position of a text.
pub open spec fn word_under(text: Seq<char>, position: Position) -> Seq<char> {
    let bytes = encode_utf8(text);
    let offset = offset_at(text, position);
    decode_utf8(bytes.subrange(word_start(bytes, offset), word_end(bytes, offset)))
}

/// Whether a byte can be part of a word.
pub fn is_word_byte(byte: u8) -> (res: bool)
    ensures
        res == in_word(byte),
{
    (0x30 <= byte && byte <= 0x39) || (0x41 <= byte && byte <= 0x5a) || (0x61 <= byte && byte
        <= 0x7a) || byte == 0x5f || byte == 0x2d || byte == 0x2e
}

/// The word at a position of a text: the bytes on both sides of the position
/// up to the first that no word holds.
pub fn word_at(text: &str, position: Position) -> (res: String)
    ensures
        res@ == word_under(text@, position),
        ({
            let offset = offset_at(text@, position);
            encode_utf8(res@) == text.spec_bytes().subrange(
                word_start(text.spec_bytes(), offset),
                word_end(text.spec_bytes(), offset),
            )
        }),
{
    let offset: usize = position_offset(text, position);
    let bytes = text.as_bytes();
    proof {
        encode_utf8_valid_utf8(text@);
    }
    let mut start: usize = offset;
    while start > 0 && is_word_byte(bytes[start - 1])
        invariant
            bytes@ == text.spec_bytes(),
            valid_utf8(bytes@),
            start <= offset <= bytes@.len(),
            on_boundary(text@, start as int),
            word_start(bytes@, offset as int) == word_start(bytes@, start as int),
        decreases start,
    {
        start -= 1;
        proof {
            lemma_ascii_byte_boundaries(bytes@, start as int);
        }
    }
    let mut end: usize = offset;
    while end < bytes.len() && is_word_byte(bytes[end])
        invariant
            bytes@ == text.spec_bytes(),
            valid_utf8(bytes@),
            offset <= end <= bytes@.len(),
            on_boundary(text@, end as int),
            word_end(bytes@, offset as int) == word_end(bytes@, end as int),
        decreases bytes@.len() - end,
    {
        proof {
            lemma_ascii_byte_boundaries(bytes@, end as int);
        }
        end += 1;
    }
    let word = slice(text, start, end);
    proof {
        encode_utf8_decode_utf8(word@);
    }
    word.to_owned()
}

/// The word around an offset holds nothing but word bytes, and cannot be made
/// longer on either side.
pub proof fn law_word_is_maximal(text: Seq<u8>, offset: int)
    requires
        0 <= offset <= text.len(),
    ensures
        ({
            let start = word_start(text, offset);
            let end = word_end(text, offset);
            &&& 0 <= start <= offset <= end <= text.len()
            &&& forall|i: int| start <= i < end ==> in_word(#[trigger] text[i])
            &&& start > 0 ==> !in_word(text[start - 1])
            &&& end < text.len() ==> !in_word(text[end])
        }),
{
    lemma_word_start(text, offset);
    lemma_word_end(text, offset);
}

proof fn lemma_word_start(text: Seq<u8>, offset: int)
    requires
        0 <= offset <= text.len(),
    ensures
        ({
            let start = word_start(text, offset);
            &&& 0 <= start <= offset
            &&& forall|i: int| start <= i < offset ==> in_word(#[trigger] text[i])
            &&& start > 0 ==> !in_word(text[start - 1])
        }),
    decreases offset,
{
    if 0 < offset && in_word(text[offset - 1]) {
        lemma_word_start(text, offset - 1);
    }
}

proof fn lemma_word_end(text: Seq<u8>, offset: int)
    requires
        0 <= offset <= text.len(),
    ensures
        ({
            let end = word_end(text, offset);
            &&& offset <= end <= text.len()
            &&& forall|i: int| offset <= i < end ==> in_word(#[trigger] text[i])
            &&& end < text.len() ==> !in_word(text[end])
        }),
    decreases text.len() - offset,
{
    if offset < text.len() && in_word(text[offset]) {
        lemma_word_end(text, offset + 1);
    }
}

/// The word at a position is encoded as the run of word bytes around it.
pub proof fn lemma_word_under(text: Seq<char>, position: Position)
    ensures
        ({
            let bytes = encode_utf8(text);
            let offset = offset_at(text, position);
            encode_utf8(word_under(text, position)) == bytes.subrange(
                word_start(bytes, offset),
                word_end(bytes, offset),
            )
        }),
{
    let bytes = encode_utf8(text);
    let offset = offset_at(text, position);
    lemma_offset_on_boundary(text, position);
    law_word_is_maximal(bytes, offset);
    encode_utf8_valid_utf8(text);
    let start = word_start(bytes, offset);
    let end = word_end(bytes, offset);
    if start < offset {
        lemma_ascii_byte_boundaries(bytes, start);
    }
    if offset < end {
        lemma_ascii_byte_boundaries(bytes, end - 1);
    }
    lemma_boundary_within_prefix(bytes, start, end);
    valid_utf8_split(bytes.subrange(0, end), start);
    assert(bytes.subrange(0, end).subrange(start, end) =~= bytes.subrange(start, end));
    decode_utf8_encode_utf8(bytes.subrange(start, end));
}

/// A word holds only ASCII characters.
pub proof fn lemma_word_is_ascii(text: Seq<char>, position: Position, word: Seq<char>)
    requires
        ({
            let bytes = encode_utf8(text);
            let offset = offset_at(text, position);
            encode_utf8(word) == bytes.subrange(word_start(bytes, offset), word_end(bytes, offset))
        }),
    ensures
        is_ascii_chars(word),
{
    let bytes = encode_utf8(text);
    let offset = offset_at(text, position);
    lemma_offset_on_boundary(text, position);
    law_word_is_maximal(bytes, offset);
    let start = word_start(bytes, offset);
    assert forall|i: int| 0 <= i < encode_utf8(word).len() implies #[trigger] encode_utf8(word)[i]
        < 0x80 by {
        assert(in_word(bytes[start + i]));
    }
    lemma_ascii_encoding(word);
}

} // verus!
