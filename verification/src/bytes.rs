//! Searching and slicing text by byte offsets.
//!
//! Offsets into a document are byte offsets into its UTF-8 encoding, so the
//! specifications here speak of the encoded bytes of a `str`.

use vstd::prelude::*;
use vstd::string::StringSliceAdditionalSpecFns;
use vstd::utf8::{
    decode_utf8, encode_scalar, encode_utf8, encode_utf8_decode_utf8, encode_utf8_valid_utf8,
    is_ascii_chars, is_char_boundary, is_char_boundary_iff_is_leading_byte,
    is_char_boundary_iff_not_is_continuation_byte, is_char_boundary_start_end_of_seq,
    is_leading_byte_width_1, partial_valid_partial_invalid_utf8, pop_first_scalar, valid_utf8,
    valid_utf8_concat, valid_utf8_split,
};

verus! {

/// The line feed that ends a line.
pub const LINE_FEED: u8 = 0x0a;

/// The carriage return that may stand before a line feed.
pub const CARRIAGE_RETURN: u8 = 0x0d;

/// The quote that opens and closes a string literal.
pub const QUOTE: u8 = 0x22;

/// The parenthesis that closes a call.
pub const CLOSE_PAREN: u8 = 0x29;

/// The dot between the segments of a qualified name.
pub const DOT: u8 = 0x2e;

/// An offset that may be absent, as a mathematical integer.
pub open spec fn offset_of(found: Option<usize>) -> Option<int> {
    match found {
        Some(at) => Some(at as int),
        None => None,
    }
}

/// Whether `pattern` stands in `text` at the offset `at`.
pub open spec fn occurs_at(text: Seq<u8>, pattern: Seq<u8>, at: int) -> bool {
    &&& 0 <= at
    &&& at + pattern.len() <= text.len()
    &&& text.subrange(at, at + pattern.len()) == pattern
}

/// The first offset at or after `from` at which `pattern` stands in `text`.
pub open spec fn first_occurrence(text: Seq<u8>, pattern: Seq<u8>, from: int) -> Option<int>
    decreases text.len() + 1 - from,
{
    if from < 0 || from + pattern.len() > text.len() {
        None
    } else if occurs_at(text, pattern, from) {
        Some(from)
    } else {
        first_occurrence(text, pattern, from + 1)
    }
}

/// The first offset in `from..to` that holds `byte`.
pub open spec fn first_byte(text: Seq<u8>, byte: u8, from: int, to: int) -> Option<int>
    decreases to - from,
{
    if from < 0 || from >= to || to > text.len() {
        None
    } else if text[from] == byte {
        Some(from)
    } else {
        first_byte(text, byte, from + 1, to)
    }
}

/// `first_occurrence` is the least offset from `from` on at which the pattern
/// stands, and there is none exactly when the pattern stands nowhere there.
pub proof fn lemma_first_occurrence(text: Seq<u8>, pattern: Seq<u8>, from: int)
    requires
        0 <= from,
    ensures
        match first_occurrence(text, pattern, from) {
            Some(at) => {
                &&& from <= at
                &&& occurs_at(text, pattern, at)
                &&& forall|before: int| from <= before < at ==> !occurs_at(text, pattern, before)
            },
            None => forall|at: int| from <= at ==> !occurs_at(text, pattern, at),
        },
    decreases text.len() + 1 - from,
{
    if from + pattern.len() <= text.len() && !occurs_at(text, pattern, from) {
        lemma_first_occurrence(text, pattern, from + 1);
    }
}

/// `first_byte` is the least offset in the range that holds the byte, and
/// there is none exactly when no offset in the range holds it.
pub proof fn lemma_first_byte(text: Seq<u8>, byte: u8, from: int, to: int)
    requires
        0 <= from,
        to <= text.len(),
    ensures
        match first_byte(text, byte, from, to) {
            Some(at) => {
                &&& from <= at < to
                &&& text[at] == byte
                &&& forall|before: int| from <= before < at ==> text[before] != byte
            },
            None => forall|at: int| from <= at < to ==> text[at] != byte,
        },
    decreases to - from,
{
    if from < to && text[from] != byte {
        lemma_first_byte(text, byte, from + 1, to);
    }
}

/// Whether `pattern` stands in `text` at the offset `at`.
pub fn matches_at(text: &[u8], pattern: &[u8], at: usize) -> (res: bool)
    requires
        at + pattern@.len() <= text@.len(),
    ensures
        res == occurs_at(text@, pattern@, at as int),
{
    let length: usize = text.len();
    let mut i: usize = 0;
    while i < pattern.len()
        invariant
            length == text@.len(),
            i <= pattern@.len(),
            at + pattern@.len() <= text@.len(),
            forall|k: int| 0 <= k < i ==> text@[at + k] == pattern@[k],
        decreases pattern@.len() - i,
    {
        if text[at + i] != pattern[i] {
            proof {
                let window = text@.subrange(at as int, at + pattern@.len());
                assert(window[i as int] == text@[at + i]);
            }
            return false;
        }
        i += 1;
    }
    proof {
        assert(text@.subrange(at as int, at + pattern@.len()) =~= pattern@);
    }
    true
}

/// The first offset at or after `from` at which `pattern` stands in `text`.
pub fn find(text: &[u8], pattern: &[u8], from: usize) -> (res: Option<usize>)
    ensures
        offset_of(res) == first_occurrence(text@, pattern@, from as int),
{
    let mut at: usize = from;
    while at <= text.len() && pattern.len() <= text.len() - at
        invariant
            from <= at,
            at <= text@.len() + 1 || at == from,
            first_occurrence(text@, pattern@, from as int) == first_occurrence(
                text@,
                pattern@,
                at as int,
            ),
        decreases text@.len() + 1 - at,
    {
        if matches_at(text, pattern, at) {
            return Some(at);
        }
        if at == text.len() {
            proof {
                assert(first_occurrence(text@, pattern@, at + 1) is None);
            }
            return None;
        }
        at += 1;
    }
    None
}

/// The first offset in `from..to` that holds `byte`.
pub fn find_byte(text: &[u8], byte: u8, from: usize, to: usize) -> (res: Option<usize>)
    requires
        to <= text@.len(),
    ensures
        offset_of(res) == first_byte(text@, byte, from as int, to as int),
{
    let mut at: usize = from;
    while at < to
        invariant
            to <= text@.len(),
            from <= at,
            first_byte(text@, byte, from as int, to as int) == first_byte(
                text@,
                byte,
                at as int,
                to as int,
            ),
        decreases to - at,
    {
        if text[at] == byte {
            return Some(at);
        }
        at += 1;
    }
    None
}

/// Whether the offset is within the text and between two of its characters.
pub open spec fn on_boundary(text: Seq<char>, offset: int) -> bool {
    is_char_boundary(encode_utf8(text), offset)
}

/// A prefix of a text that is itself well-formed ends between two characters.
pub proof fn lemma_valid_prefix_ends_on_boundary(bytes: Seq<u8>, end: int)
    requires
        valid_utf8(bytes),
        0 <= end <= bytes.len(),
        valid_utf8(bytes.subrange(0, end)),
    ensures
        is_char_boundary(bytes, end),
{
    if end == bytes.len() {
        is_char_boundary_start_end_of_seq(bytes);
    } else {
        let rest = bytes.subrange(end, bytes.len() as int);
        if !valid_utf8(rest) {
            partial_valid_partial_invalid_utf8(bytes, end);
        }
        assert(rest[0] == bytes[end]);
        is_char_boundary_iff_not_is_continuation_byte(bytes, end);
    }
}

/// An ASCII byte stands between two character boundaries.
pub proof fn lemma_ascii_byte_boundaries(bytes: Seq<u8>, at: int)
    requires
        valid_utf8(bytes),
        0 <= at < bytes.len(),
        bytes[at] < 0x80,
    ensures
        is_char_boundary(bytes, at),
        is_char_boundary(bytes, at + 1),
{
    assert(is_leading_byte_width_1(bytes[at]));
    is_char_boundary_iff_is_leading_byte(bytes, at);
    valid_utf8_split(bytes, at);
    let head = bytes.subrange(0, at);
    let byte = bytes.subrange(at, at + 1);
    assert(valid_utf8(byte)) by {
        assert(byte[0] == bytes[at]);
        reveal_with_fuel(valid_utf8, 2);
        assert(pop_first_scalar(byte).len() == 0);
        let b = byte[0];
        assert((b & 0x7f) as u32 <= 0x7f) by (bit_vector);
    }
    valid_utf8_concat(head, byte);
    assert(head + byte =~= bytes.subrange(0, at + 1));
    lemma_valid_prefix_ends_on_boundary(bytes, at + 1);
}

/// A well-formed pattern that stands at a boundary ends at one.
pub proof fn lemma_occurrence_ends_on_boundary(bytes: Seq<u8>, pattern: Seq<u8>, at: int)
    requires
        valid_utf8(bytes),
        valid_utf8(pattern),
        occurs_at(bytes, pattern, at),
        is_char_boundary(bytes, at),
    ensures
        is_char_boundary(bytes, at + pattern.len()),
{
    valid_utf8_split(bytes, at);
    let head = bytes.subrange(0, at);
    valid_utf8_concat(head, pattern);
    assert(head + pattern =~= bytes.subrange(0, at + pattern.len()));
    lemma_valid_prefix_ends_on_boundary(bytes, at + pattern.len());
}

/// A well-formed pattern that is not empty stands only at boundaries.
pub proof fn lemma_occurrence_starts_on_boundary(bytes: Seq<u8>, pattern: Seq<u8>, at: int)
    requires
        valid_utf8(bytes),
        valid_utf8(pattern),
        pattern.len() > 0,
        occurs_at(bytes, pattern, at),
    ensures
        is_char_boundary(bytes, at),
{
    assert(bytes.subrange(at, at + pattern.len())[0] == bytes[at]);
    is_char_boundary_iff_not_is_continuation_byte(bytes, at);
}

/// A boundary of a text is a boundary of each prefix that reaches it.
pub proof fn lemma_boundary_within_prefix(bytes: Seq<u8>, at: int, end: int)
    requires
        valid_utf8(bytes),
        0 <= at <= end <= bytes.len(),
        is_char_boundary(bytes, at),
        is_char_boundary(bytes, end),
    ensures
        valid_utf8(bytes.subrange(0, end)),
        is_char_boundary(bytes.subrange(0, end), at),
{
    valid_utf8_split(bytes, end);
    valid_utf8_split(bytes, at);
    assert(bytes.subrange(0, end).subrange(0, at) =~= bytes.subrange(0, at));
    lemma_valid_prefix_ends_on_boundary(bytes.subrange(0, end), at);
}

/// The part of a text between two boundaries, as its encoded bytes.
pub fn slice<'a>(text: &'a str, start: usize, end: usize) -> (res: &'a str)
    requires
        start <= end,
        end <= text.spec_bytes().len(),
        on_boundary(text@, start as int),
        on_boundary(text@, end as int),
    ensures
        res.spec_bytes() == text.spec_bytes().subrange(start as int, end as int),
{
    proof {
        encode_utf8_valid_utf8(text@);
        lemma_boundary_within_prefix(text.spec_bytes(), start as int, end as int);
    }
    let (head, _) = text.split_at(end);
    let (_, part) = head.split_at(start);
    proof {
        assert(text.spec_bytes().subrange(0, end as int).subrange(start as int, end as int)
            =~= text.spec_bytes().subrange(start as int, end as int));
    }
    part
}

/// The encoding of two texts one after the other is that of the first and
/// then that of the second.
pub proof fn lemma_encoding_concatenates(a: Seq<char>, b: Seq<char>)
    ensures
        encode_utf8(a + b) == encode_utf8(a) + encode_utf8(b),
    decreases a.len(),
{
    if a.len() == 0 {
        assert(a + b =~= b);
        assert(encode_utf8(a) + encode_utf8(b) =~= encode_utf8(b));
    } else {
        assert((a + b).drop_first() =~= a.drop_first() + b);
        lemma_encoding_concatenates(a.drop_first(), b);
        let first = encode_scalar(a[0] as u32);
        assert(first + (encode_utf8(a.drop_first()) + encode_utf8(b)) =~= (first + encode_utf8(
            a.drop_first(),
        )) + encode_utf8(b));
    }
}

/// The number of a character is the same in each integer type that holds it.
proof fn lemma_char_number(c: char)
    ensures
        (c as u32) as int == c as int,
{
}

/// A text whose encoding holds only ASCII bytes holds only ASCII characters.
pub proof fn lemma_ascii_encoding(chars: Seq<char>)
    requires
        forall|i: int| 0 <= i < encode_utf8(chars).len() ==> #[trigger] encode_utf8(chars)[i] < 0x80,
    ensures
        is_ascii_chars(chars),
    decreases chars.len(),
{
    if chars.len() > 0 {
        let v = chars[0] as u32;
        let first = encode_scalar(v);
        let rest = encode_utf8(chars.drop_first());
        assert(encode_utf8(chars) == first + rest);
        assert(encode_utf8(chars)[0] == first[0]);
        assert((0xC0u8 | ((v >> 6) & 0x1F) as u8) >= 0x80u8) by (bit_vector);
        assert((0xE0u8 | ((v >> 12) & 0x0F) as u8) >= 0x80u8) by (bit_vector);
        assert((0xF0u8 | ((v >> 18) & 0x7) as u8) >= 0x80u8) by (bit_vector);
        assert(v < 0x80);
        lemma_char_number(chars[0]);
        assert forall|i: int| 0 <= i < rest.len() implies #[trigger] rest[i] < 0x80 by {
            assert(encode_utf8(chars)[first.len() + i] == rest[i]);
        }
        lemma_ascii_encoding(chars.drop_first());
        assert forall|i: int| 0 <= i < chars.len() implies '\0' <= #[trigger] chars[i]
            <= '\u{7f}' by {
            if i > 0 {
                assert(chars[i] == chars.drop_first()[i - 1]);
            }
        }
    }
}

/// Texts with the same encoding are the same.
pub proof fn lemma_same_encoding(a: Seq<char>, b: Seq<char>)
    requires
        encode_utf8(a) == encode_utf8(b),
    ensures
        a == b,
{
    encode_utf8_decode_utf8(a);
    encode_utf8_decode_utf8(b);
    assert(decode_utf8(encode_utf8(a)) == decode_utf8(encode_utf8(b)));
}

/// Whether two byte strings are the same.
pub fn same_bytes(a: &[u8], b: &[u8]) -> (res: bool)
    ensures
        res == (a@ == b@),
{
    if a.len() != b.len() {
        return false;
    }
    let same = matches_at(a, b, 0);
    proof {
        assert(a@.subrange(0, b@.len() as int) =~= a@);
    }
    same
}

/// Whether two texts are the same.
pub fn same_text(a: &str, b: &str) -> (res: bool)
    ensures
        res == (a@ == b@),
{
    let same = same_bytes(a.as_bytes(), b.as_bytes());
    proof {
        if a.spec_bytes() == b.spec_bytes() {
            lemma_same_encoding(a@, b@);
        }
    }
    same
}

/// Two texts, one after the other.
pub fn joined(first: &str, second: &str) -> (res: String)
    ensures
        res@ == first@ + second@,
{
    let mut text: String = first.to_owned();
    text.append(second);
    text
}

} // verus!
