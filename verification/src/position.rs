//! Converting between byte offsets and line and character positions.

use crate::bytes::{
    find_byte, first_byte, lemma_ascii_byte_boundaries, lemma_encoding_concatenates,
    lemma_first_byte, lemma_valid_prefix_ends_on_boundary, on_boundary, CARRIAGE_RETURN, LINE_FEED,
};
use vstd::prelude::*;
use vstd::string::StringSliceAdditionalSpecFns;
use vstd::utf8::{
    decode_utf8, decode_utf8_encode_utf8, encode_scalar, encode_utf8, encode_utf8_decode_utf8,
    encode_utf8_valid_utf8, is_ascii_chars, is_ascii_chars_encode_utf8,
    is_char_boundary_start_end_of_seq, valid_utf8_split,
};

verus! {

/// A place in a document: a line, and how far it is into the line in UTF-16
/// code units, both from zero.
#[derive(Clone, Copy, Debug, PartialEq, Eq, Structural)]
pub struct Position {
    pub line: u32,
    pub character: u32,
}

/// The part of a document from one position up to another.
#[derive(Clone, Copy, Debug, PartialEq, Eq, Structural)]
pub struct Range {
    pub start: Position,
    pub end: Position,
}

/// A place in a file.
#[derive(Debug, PartialEq, Eq)]
pub struct Location {
    pub uri: String,
    pub range: Range,
}

/// A place in a file, with the text of its URI.
pub struct LocationView {
    pub uri: Seq<char>,
    pub range: Range,
}

impl View for Location {
    type V = LocationView;

    open spec fn view(&self) -> LocationView {
        LocationView { uri: self.uri@, range: self.range }
    }
}

/// The start of a document, as a range.
pub open spec fn document_start() -> Range {
    Range {
        start: Position { line: 0, character: 0 },
        end: Position { line: 0, character: 0 },
    }
}

/// A location that may be absent, with the text of its URI.
pub open spec fn location_view(location: Option<Location>) -> Option<LocationView> {
    match location {
        Some(location) => Some(location@),
        None => None,
    }
}

/// The number of line feeds in a text.
pub open spec fn line_feeds(chars: Seq<char>) -> nat
    decreases chars.len(),
{
    if chars.len() == 0 {
        0
    } else {
        line_feeds(chars.drop_last()) + if chars.last() == '\n' {
            1nat
        } else {
            0nat
        }
    }
}

/// The number of UTF-16 code units that a character takes.
pub open spec fn utf16_len(c: char) -> nat {
    if c as u32 <= 0xffff {
        1
    } else {
        2
    }
}

/// The number of UTF-16 code units after the last line feed of a text.
pub open spec fn column(chars: Seq<char>) -> nat
    decreases chars.len(),
{
    if chars.len() == 0 || chars.last() == '\n' {
        0
    } else {
        column(chars.drop_last()) + utf16_len(chars.last())
    }
}

/// An offset, or the length of the text if the offset is beyond it.
pub open spec fn clamped(text: Seq<char>, offset: int) -> int {
    if offset <= encode_utf8(text).len() {
        offset
    } else {
        encode_utf8(text).len() as int
    }
}

/// The characters of a text before a byte offset.
pub open spec fn chars_before(text: Seq<char>, offset: int) -> Seq<char> {
    decode_utf8(encode_utf8(text).subrange(0, offset))
}

/// The position of a byte offset: the line feeds before it, and the UTF-16 code
/// units between the last of them and the offset.
pub open spec fn position_at(text: Seq<char>, offset: int) -> Position {
    let before = chars_before(text, clamped(text, offset));
    Position { line: line_feeds(before) as u32, character: column(before) as u32 }
}

/// The number of UTF-16 code units that a character takes.
pub fn utf16_width(c: char) -> (res: u32)
    ensures
        res == utf16_len(c),
{
    if c as u32 <= 0xffff {
        1
    } else {
        2
    }
}

/// The number of bytes that a character takes.
fn utf8_width(c: char) -> (res: usize)
    ensures
        res == encode_scalar(c as u32).len(),
{
    let number: u32 = c as u32;
    if number <= 0x7f {
        1
    } else if number <= 0x7ff {
        2
    } else if number <= 0xffff {
        3
    } else {
        4
    }
}

/// One more character makes the encoding as much longer as its own encoding is.
pub proof fn lemma_encoding_step(chars: Seq<char>, n: int)
    requires
        0 <= n < chars.len(),
    ensures
        encode_utf8(chars.take(n + 1)) == encode_utf8(chars.take(n)) + encode_scalar(
            chars[n] as u32,
        ),
{
    let single = seq![chars[n]];
    assert(chars.take(n + 1) =~= chars.take(n) + single);
    lemma_encoding_concatenates(chars.take(n), single);
    assert(single.drop_first() =~= Seq::<char>::empty());
    assert(encode_utf8(single) =~= encode_scalar(chars[n] as u32)) by {
        reveal_with_fuel(encode_utf8, 2);
    }
}

/// The first characters of a text end on a boundary of it, and are the
/// characters before that boundary.
pub proof fn lemma_index_on_boundary(text: Seq<char>, n: int)
    requires
        0 <= n <= text.len(),
    ensures
        ({
            let offset = encode_utf8(text.take(n)).len() as int;
            &&& offset <= encode_utf8(text).len()
            &&& on_boundary(text, offset)
            &&& chars_before(text, offset) == text.take(n)
        }),
{
    let bytes = encode_utf8(text);
    let head = encode_utf8(text.take(n));
    assert(text =~= text.take(n) + text.skip(n));
    lemma_encoding_concatenates(text.take(n), text.skip(n));
    assert(bytes.subrange(0, head.len() as int) =~= head);
    encode_utf8_valid_utf8(text);
    encode_utf8_valid_utf8(text.take(n));
    lemma_valid_prefix_ends_on_boundary(bytes, head.len() as int);
    encode_utf8_decode_utf8(text.take(n));
}

/// The characters before a boundary of a text are its first characters.
pub proof fn lemma_boundary_index(text: Seq<char>, offset: int)
    requires
        0 <= offset <= encode_utf8(text).len(),
        on_boundary(text, offset),
    ensures
        ({
            let n = chars_before(text, offset).len() as int;
            &&& n <= text.len()
            &&& chars_before(text, offset) == text.take(n)
            &&& encode_utf8(text.take(n)).len() == offset
        }),
{
    let bytes = encode_utf8(text);
    encode_utf8_valid_utf8(text);
    valid_utf8_split(bytes, offset);
    let head = bytes.subrange(0, offset);
    let rest = bytes.subrange(offset, bytes.len() as int);
    let first = decode_utf8(head);
    let more = decode_utf8(rest);
    decode_utf8_encode_utf8(head);
    decode_utf8_encode_utf8(rest);
    lemma_encoding_concatenates(first, more);
    assert(head + rest =~= bytes);
    encode_utf8_decode_utf8(first + more);
    encode_utf8_decode_utf8(text);
    assert(text == first + more);
    assert(text.take(first.len() as int) =~= first);
}

/// The last line of a text takes no more UTF-16 code units than the text takes
/// bytes.
proof fn lemma_column_within_bytes(chars: Seq<char>)
    ensures
        column(chars) <= encode_utf8(chars).len(),
    decreases chars.len(),
{
    if chars.len() > 0 && chars.last() != '\n' {
        lemma_column_within_bytes(chars.drop_last());
        lemma_encoding_step(chars, chars.len() - 1);
        assert(chars.take(chars.len() as int) =~= chars);
        assert(chars.take(chars.len() - 1) =~= chars.drop_last());
    }
}

/// The position of a byte offset in a text.
pub fn byte_position(text: &str, offset: usize) -> (res: Position)
    requires
        on_boundary(text@, clamped(text@, offset as int)),
    ensures
        res == position_at(text@, offset as int),
{
    let length: usize = text.as_bytes().len();
    let end: usize = if offset <= length {
        offset
    } else {
        length
    };
    let (before, _) = text.split_at(end);
    proof {
        encode_utf8_decode_utf8(before@);
        assert(before@ == chars_before(text@, end as int));
    }
    let mut line: usize = 0;
    let mut character: usize = 0;
    for next in iter: before.chars()
        invariant
            iter.seq() == before@,
            encode_utf8(before@).len() == end,
            line <= iter.index(),
            line == line_feeds(before@.take(iter.index() as int)),
            character == column(before@.take(iter.index() as int)),
    {
        proof {
            let seen = before@.take(iter.index() as int + 1);
            assert(seen.drop_last() =~= before@.take(iter.index() as int));
            assert(seen.last() == next);
            lemma_column_within_bytes(seen);
            lemma_chars_within_bytes(seen);
            lemma_index_on_boundary(before@, iter.index() as int + 1);
        }
        if next == '\n' {
            line += 1;
            character = 0;
        } else {
            character += utf16_width(next) as usize;
        }
    }
    proof {
        assert(before@.take(before@.len() as int) =~= before@);
    }
    Position { line: line as u32, character: character as u32 }
}

/// A text has no more characters than bytes.
proof fn lemma_chars_within_bytes(chars: Seq<char>)
    ensures
        chars.len() <= encode_utf8(chars).len(),
    decreases chars.len(),
{
    if chars.len() > 0 {
        lemma_chars_within_bytes(chars.drop_first());
    }
}

/// The end of a range that holds at least the byte at its start.
pub open spec fn range_end(start: int, end: int) -> int {
    if end <= start {
        start + 1
    } else {
        end
    }
}

/// The range from one byte offset up to another, of at least one byte.
pub open spec fn range_at(text: Seq<char>, start: int, end: int) -> Range {
    Range { start: position_at(text, start), end: position_at(text, range_end(start, end)) }
}

/// Whether both ends of the range stand between two characters.
pub open spec fn range_on_boundaries(text: Seq<char>, start: int, end: int) -> bool {
    &&& start < usize::MAX
    &&& on_boundary(text, clamped(text, start))
    &&& on_boundary(text, clamped(text, range_end(start, end)))
}

/// Whether `byte_range` can be asked for the range.
pub fn is_range(text: &str, start: usize, end: usize) -> (res: bool)
    ensures
        res == range_on_boundaries(text@, start as int, end as int),
{
    if start == usize::MAX {
        return false;
    }
    let length: usize = text.as_bytes().len();
    let last: usize = if end <= start {
        start + 1
    } else {
        end
    };
    text.is_char_boundary(
        if start <= length {
            start
        } else {
            length
        },
    ) && text.is_char_boundary(
        if last <= length {
            last
        } else {
            length
        },
    )
}

/// The range from one byte offset up to another, of at least one byte.
pub fn byte_range(text: &str, start: usize, end: usize) -> (res: Range)
    requires
        range_on_boundaries(text@, start as int, end as int),
    ensures
        res == range_at(text@, start as int, end as int),
{
    Range {
        start: byte_position(text, start),
        end: byte_position(
            text,
            if end <= start {
                start + 1
            } else {
                end
            },
        ),
    }
}

/// The length in bytes of the first line without its line ending, or one for
/// an empty text. A carriage return belongs to the line ending only where a
/// line feed follows it.
pub open spec fn first_line_length(text: Seq<u8>) -> int {
    if text.len() == 0 {
        1
    } else {
        match first_byte(text, LINE_FEED, 0, text.len() as int) {
            Some(at) => if at > 0 && text[at - 1] == CARRIAGE_RETURN {
                at - 1
            } else {
                at
            },
            None => text.len() as int,
        }
    }
}

/// The first line of any text is a range between whole characters.
pub proof fn lemma_first_line_on_boundaries(text: Seq<char>)
    requires
        encode_utf8(text).len() <= usize::MAX,
    ensures
        0 <= first_line_length(encode_utf8(text)) <= usize::MAX,
        range_on_boundaries(text, 0, first_line_length(encode_utf8(text))),
{
    let bytes = encode_utf8(text);
    encode_utf8_valid_utf8(text);
    is_char_boundary_start_end_of_seq(bytes);
    lemma_first_byte(bytes, LINE_FEED, 0, bytes.len() as int);
    if let Some(at) = first_byte(bytes, LINE_FEED, 0, bytes.len() as int) {
        lemma_ascii_byte_boundaries(bytes, at);
        if at > 0 && bytes[at - 1] == CARRIAGE_RETURN {
            lemma_ascii_byte_boundaries(bytes, at - 1);
        }
    }
}

/// The range of the first line.
pub fn first_range(text: &str) -> (res: Range)
    ensures
        res == range_at(text@, 0, first_line_length(text.spec_bytes())),
{
    let bytes = text.as_bytes();
    let length: usize = bytes.len();
    let end: usize = if length == 0 {
        1
    } else {
        match find_byte(bytes, LINE_FEED, 0, length) {
            Some(at) => {
                proof {
                    lemma_first_byte(bytes@, LINE_FEED, 0, length as int);
                }
                if at > 0 && bytes[at - 1] == CARRIAGE_RETURN {
                    at - 1
                } else {
                    at
                }
            },
            None => length,
        }
    };
    proof {
        lemma_first_line_on_boundaries(text@);
    }
    byte_range(text, 0, end)
}

/// The index of the character behind the next `lines` line feeds from `from`
/// on, or the length of the text if it has fewer.
pub open spec fn line_start(text: Seq<char>, from: int, lines: nat) -> int
    decreases text.len() - from,
{
    if from < 0 || from >= text.len() || lines == 0 {
        from
    } else if text[from] == '\n' {
        line_start(text, from + 1, (lines - 1) as nat)
    } else {
        line_start(text, from + 1, lines)
    }
}

/// The index behind as many whole characters from `from` on as fit into `units`
/// UTF-16 code units, but no further than the end of the line.
pub open spec fn within_line(text: Seq<char>, from: int, units: nat) -> int
    decreases text.len() - from,
{
    if from < 0 || from >= text.len() || text[from] == '\n' || utf16_len(text[from]) > units {
        from
    } else {
        within_line(text, from + 1, (units - utf16_len(text[from])) as nat)
    }
}

/// The index of the character at a position: as far into its line as whole
/// characters fit, or the length of the text if it has no such line.
pub open spec fn index_at(text: Seq<char>, position: Position) -> int {
    within_line(text, line_start(text, 0, position.line as nat), position.character as nat)
}

/// The byte offset of a position.
pub open spec fn offset_at(text: Seq<char>, position: Position) -> int {
    encode_utf8(text.take(index_at(text, position))).len() as int
}

/// Lines start within the text.
proof fn lemma_line_start_bounds(text: Seq<char>, from: int, lines: nat)
    requires
        0 <= from <= text.len(),
    ensures
        from <= line_start(text, from, lines) <= text.len(),
    decreases text.len() - from,
{
    if from < text.len() && lines > 0 {
        if text[from] == '\n' {
            lemma_line_start_bounds(text, from + 1, (lines - 1) as nat);
        } else {
            lemma_line_start_bounds(text, from + 1, lines);
        }
    }
}

/// What fits into a line ends within the text.
proof fn lemma_within_line_bounds(text: Seq<char>, from: int, units: nat)
    requires
        0 <= from <= text.len(),
    ensures
        from <= within_line(text, from, units) <= text.len(),
    decreases text.len() - from,
{
    if from < text.len() && text[from] != '\n' && utf16_len(text[from]) <= units {
        lemma_within_line_bounds(text, from + 1, (units - utf16_len(text[from])) as nat);
    }
}

/// The offset of a position is within the text and between two characters, and
/// the characters before it are those up to the index of the position.
pub proof fn lemma_offset_on_boundary(text: Seq<char>, position: Position)
    ensures
        0 <= index_at(text, position) <= text.len(),
        0 <= offset_at(text, position) <= encode_utf8(text).len(),
        on_boundary(text, offset_at(text, position)),
        chars_before(text, offset_at(text, position)) == text.take(index_at(text, position)),
{
    let start = line_start(text, 0, position.line as nat);
    lemma_line_start_bounds(text, 0, position.line as nat);
    lemma_within_line_bounds(text, start, position.character as nat);
    lemma_index_on_boundary(text, index_at(text, position));
}

/// The byte offset of a position in a text.
pub fn position_offset(text: &str, position: Position) -> (res: usize)
    ensures
        res == offset_at(text@, position),
        res <= text.spec_bytes().len(),
        on_boundary(text@, res as int),
{
    let length: usize = text.as_bytes().len();
    let mut lines: u32 = position.line;
    let mut units: u32 = position.character;
    let mut offset: usize = 0;
    proof {
        lemma_offset_on_boundary(text@, position);
        assert(text@.take(0) =~= Seq::empty());
    }
    for next in iter: text.chars()
        invariant
            iter.seq() == text@,
            length == encode_utf8(text@).len(),
            0 <= offset_at(text@, position) <= length,
            on_boundary(text@, offset_at(text@, position)),
            offset == encode_utf8(text@.take(iter.index() as int)).len(),
            index_at(text@, position) == within_line(
                text@,
                line_start(text@, iter.index() as int, lines as nat),
                units as nat,
            ),
    {
        proof {
            assert(next == text@[iter.index() as int]);
            lemma_encoding_step(text@, iter.index() as int);
            lemma_index_on_boundary(text@, iter.index() as int + 1);
        }
        if lines > 0 {
            if next == '\n' {
                lines -= 1;
            }
        } else {
            let width: u32 = utf16_width(next);
            if next == '\n' || width > units {
                return offset;
            }
            units -= width;
        }
        offset += utf8_width(next);
    }
    offset
}

/// How a position is found from any index of the text that is not behind it:
/// by the line feeds that are still to come, and within its line by the UTF-16
/// code units that are left.
proof fn lemma_index_from(text: Seq<char>, position: Position, n: int)
    requires
        0 <= n <= text.len(),
        line_feeds(text.take(n)) <= position.line,
        line_feeds(text.take(n)) == position.line ==> column(text.take(n)) <= position.character,
    ensures
        ({
            let lines = line_feeds(text.take(n));
            let units = column(text.take(n));
            index_at(text, position) == if lines < position.line {
                within_line(
                    text,
                    line_start(text, n, (position.line - lines) as nat),
                    position.character as nat,
                )
            } else {
                within_line(text, n, (position.character - units) as nat)
            }
        }),
    decreases n,
{
    if n > 0 {
        assert(text.take(n).drop_last() =~= text.take(n - 1));
        assert(text.take(n).last() == text[n - 1]);
        lemma_index_from(text, position, n - 1);
        assert(line_start(text, n, 0) == n);
    } else {
        assert(text.take(0) =~= Seq::<char>::empty());
    }
}

/// Whether the position of an offset fits the integers that hold it.
pub open spec fn position_fits(text: Seq<char>, offset: int) -> bool {
    let before = chars_before(text, clamped(text, offset));
    line_feeds(before) <= u32::MAX && column(before) <= u32::MAX
}

/// A text has no more line feeds than characters.
proof fn lemma_line_feeds_bounds(chars: Seq<char>)
    ensures
        line_feeds(chars) <= chars.len(),
    decreases chars.len(),
{
    if chars.len() > 0 {
        lemma_line_feeds_bounds(chars.drop_last());
    }
}

/// A text has no more line feeds, and its last line no more UTF-16 code units,
/// than the text has bytes.
pub proof fn lemma_counts_within_bytes(chars: Seq<char>)
    ensures
        line_feeds(chars) <= encode_utf8(chars).len(),
        column(chars) <= encode_utf8(chars).len(),
{
    lemma_line_feeds_bounds(chars);
    lemma_chars_within_bytes(chars);
    lemma_column_within_bytes(chars);
}

/// In a text whose length fits the integers that hold a position, every
/// position does.
pub proof fn lemma_positions_fit(text: Seq<char>, offset: int)
    requires
        encode_utf8(text).len() <= u32::MAX,
        0 <= offset <= encode_utf8(text).len(),
        on_boundary(text, offset),
    ensures
        position_fits(text, offset),
{
    let before = chars_before(text, offset);
    lemma_boundary_index(text, offset);
    lemma_counts_within_bytes(before);
}

/// An offset is found again from its position.
pub proof fn law_position_round_trip(text: Seq<char>, offset: int)
    requires
        0 <= offset <= encode_utf8(text).len(),
        on_boundary(text, offset),
        position_fits(text, offset),
    ensures
        offset_at(text, position_at(text, offset)) == offset,
{
    lemma_boundary_index(text, offset);
    let n = chars_before(text, offset).len() as int;
    lemma_index_from(text, position_at(text, offset), n);
}

/// The number of UTF-16 code units that several characters take.
pub open spec fn utf16_units(chars: Seq<char>) -> nat
    decreases chars.len(),
{
    if chars.len() == 0 {
        0
    } else {
        utf16_units(chars.drop_last()) + utf16_len(chars.last())
    }
}

/// Whether a text has a position: it has the line, and whole characters of the
/// line take as many UTF-16 code units as the position says.
pub open spec fn has_position(text: Seq<char>, position: Position) -> bool {
    let start = line_start(text, 0, position.line as nat);
    &&& position.line <= line_feeds(text)
    &&& exists|end: int|
        start <= end <= text.len() && !(#[trigger] text.subrange(start, end)).contains('\n')
            && utf16_units(text.subrange(start, end)) == position.character
}

/// A line that a text has starts behind as many line feeds as its number says.
proof fn lemma_line_exists(text: Seq<char>, from: int, line: nat)
    requires
        0 <= from <= text.len(),
        line_feeds(text.take(from)) < line <= line_feeds(text),
    ensures
        ({
            let start = line_start(text, from, (line - line_feeds(text.take(from))) as nat);
            &&& from < start <= text.len()
            &&& line_feeds(text.take(start)) == line
            &&& column(text.take(start)) == 0
        }),
    decreases text.len() - from,
{
    if from == text.len() {
        assert(text.take(from) =~= text);
    } else {
        assert(text.take(from + 1).drop_last() =~= text.take(from));
        assert(text.take(from + 1).last() == text[from]);
        if line_feeds(text.take(from + 1)) < line {
            lemma_line_exists(text, from + 1, line);
        }
    }
}

/// Characters without a line feed stay in the line and move on in it by the
/// UTF-16 code units that they take.
proof fn lemma_same_line(text: Seq<char>, start: int, end: int)
    requires
        0 <= start <= end <= text.len(),
        !text.subrange(start, end).contains('\n'),
        column(text.take(start)) == 0,
    ensures
        line_feeds(text.take(end)) == line_feeds(text.take(start)),
        column(text.take(end)) == utf16_units(text.subrange(start, end)),
    decreases end - start,
{
    if start < end {
        let part = text.subrange(start, end);
        assert(part[end - start - 1] == text[end - 1]);
        let shorter = text.subrange(start, end - 1);
        assert(part.drop_last() =~= shorter);
        assert(text.take(end).drop_last() =~= text.take(end - 1));
        assert(text.take(end).last() == text[end - 1]);
        if shorter.contains('\n') {
            let k = choose|k: int| 0 <= k < shorter.len() && shorter[k] == '\n';
            assert(part[k] == '\n');
        }
        lemma_same_line(text, start, end - 1);
    }
}

/// A position that a text has is found again from its offset.
pub proof fn law_offset_round_trip(text: Seq<char>, position: Position)
    requires
        has_position(text, position),
    ensures
        position_at(text, offset_at(text, position)) == position,
{
    let start = line_start(text, 0, position.line as nat);
    let end = choose|end: int|
        start <= end <= text.len() && !(#[trigger] text.subrange(start, end)).contains('\n')
            && utf16_units(text.subrange(start, end)) == position.character;
    assert(text.take(0) =~= Seq::<char>::empty());
    lemma_line_start_bounds(text, 0, position.line as nat);
    if position.line > 0 {
        lemma_line_exists(text, 0, position.line as nat);
    }
    lemma_same_line(text, start, end);
    lemma_index_from(text, position, end);
    lemma_offset_on_boundary(text, position);
}

/// What fits into a line from an index on takes no more UTF-16 code units than
/// there is room for.
proof fn lemma_within_line_fits(text: Seq<char>, from: int, units: nat)
    requires
        0 <= from <= text.len(),
    ensures
        ({
            let end = within_line(text, from, units);
            &&& from <= end <= text.len()
            &&& line_feeds(text.take(end)) == line_feeds(text.take(from))
            &&& column(text.take(end)) <= column(text.take(from)) + units
        }),
    decreases text.len() - from,
{
    if from < text.len() && text[from] != '\n' && utf16_len(text[from]) <= units {
        assert(text.take(from + 1).drop_last() =~= text.take(from));
        assert(text.take(from + 1).last() == text[from]);
        lemma_within_line_fits(text, from + 1, (units - utf16_len(text[from])) as nat);
    }
}

/// A text that has fewer lines has no characters where the line would start.
proof fn lemma_no_such_line(text: Seq<char>, from: int, lines: nat)
    requires
        0 <= from <= text.len(),
        line_feeds(text.take(from)) + lines > line_feeds(text),
    ensures
        line_start(text, from, lines) == text.len(),
    decreases text.len() - from,
{
    if from < text.len() {
        assert(text.take(from + 1).drop_last() =~= text.take(from));
        assert(text.take(from + 1).last() == text[from]);
        if lines == 0 {
            lemma_more_text(text.take(from), text.skip(from));
            assert(text.take(from) + text.skip(from) =~= text);
        } else if text[from] == '\n' {
            lemma_no_such_line(text, from + 1, (lines - 1) as nat);
        } else {
            lemma_no_such_line(text, from + 1, lines);
        }
    }
}

/// The offset of a position does not lie behind the position, also where the
/// text has no such line, the line is shorter, or the position falls within a
/// character.
pub proof fn law_offset_is_not_behind_its_position(text: Seq<char>, position: Position)
    ensures
        is_at_or_before(position_at(text, offset_at(text, position)), position),
{
    let start = line_start(text, 0, position.line as nat);
    assert(text.take(0) =~= Seq::<char>::empty());
    lemma_line_start_bounds(text, 0, position.line as nat);
    lemma_within_line_fits(text, start, position.character as nat);
    lemma_offset_on_boundary(text, position);
    if position.line > line_feeds(text) {
        lemma_no_such_line(text, 0, position.line as nat);
        assert(text.take(text.len() as int) =~= text);
    } else if position.line > 0 {
        lemma_line_exists(text, 0, position.line as nat);
    }
}

/// An offset whose position is at or before another position is at or before
/// the offset of that.
pub proof fn lemma_offset_reaches(text: Seq<char>, position: Position, other: int)
    requires
        0 <= other <= encode_utf8(text).len(),
        on_boundary(text, other),
        position_fits(text, other),
        is_at_or_before(position_at(text, other), position),
    ensures
        other <= offset_at(text, position),
{
    lemma_boundary_index(text, other);
    let n = chars_before(text, other).len() as int;
    lemma_index_from(text, position, n);
    let lines = line_feeds(text.take(n));
    let units = column(text.take(n));
    if lines < position.line {
        let start = line_start(text, n, (position.line - lines) as nat);
        lemma_line_start_bounds(text, n, (position.line - lines) as nat);
        lemma_within_line_bounds(text, start, position.character as nat);
    } else {
        lemma_within_line_bounds(text, n, (position.character - units) as nat);
    }
    let end = index_at(text, position);
    lemma_encoding_concatenates(text.take(n), text.subrange(n, end));
    assert(text.take(end) =~= text.take(n) + text.subrange(n, end));
}

/// Whether a position is at or before another.
pub open spec fn is_at_or_before(a: Position, b: Position) -> bool {
    a.line < b.line || (a.line == b.line && a.character <= b.character)
}

/// More text ends on a later line, or further in the same line.
proof fn lemma_more_text(chars: Seq<char>, more: Seq<char>)
    ensures
        line_feeds(chars) <= line_feeds(chars + more),
        line_feeds(chars) == line_feeds(chars + more) ==> column(chars) <= column(chars + more),
    decreases more.len(),
{
    if more.len() == 0 {
        assert(chars + more =~= chars);
    } else {
        assert((chars + more).drop_last() =~= chars + more.drop_last());
        assert((chars + more).last() == more.last());
        lemma_more_text(chars, more.drop_last());
    }
}

/// A later offset does not have an earlier position.
pub proof fn law_positions_in_order(text: Seq<char>, a: int, b: int)
    requires
        0 <= a <= b,
        on_boundary(text, clamped(text, a)),
        on_boundary(text, clamped(text, b)),
        position_fits(text, a),
        position_fits(text, b),
    ensures
        is_at_or_before(position_at(text, a), position_at(text, b)),
{
    lemma_boundary_index(text, clamped(text, a));
    lemma_boundary_index(text, clamped(text, b));
    let first = chars_before(text, clamped(text, a));
    let second = chars_before(text, clamped(text, b));
    if first.len() <= second.len() {
        let more = text.subrange(first.len() as int, second.len() as int);
        assert(second =~= first + more);
        lemma_more_text(first, more);
    } else {
        let more = text.subrange(second.len() as int, first.len() as int);
        assert(first =~= second + more);
        lemma_encoding_concatenates(second, more);
        lemma_chars_within_bytes(more);
    }
}

/// An offset beyond the text has the position of the end of the text.
pub proof fn law_offset_beyond_the_text(text: Seq<char>, offset: int)
    requires
        offset >= encode_utf8(text).len(),
    ensures
        position_at(text, offset) == position_at(text, encode_utf8(text).len() as int),
{
}

/// The column of an ASCII text is the number of characters after its last line
/// feed.
proof fn lemma_ascii_column(chars: Seq<char>)
    requires
        is_ascii_chars(chars),
    ensures
        column(chars) <= chars.len(),
        forall|i: int| chars.len() - column(chars) <= i < chars.len() ==> chars[i] != '\n',
        column(chars) < chars.len() ==> chars[chars.len() - column(chars) - 1] == '\n',
    decreases chars.len(),
{
    if chars.len() > 0 && chars.last() != '\n' {
        let before = chars.drop_last();
        lemma_ascii_column(before);
        assert('\0' <= chars[chars.len() - 1] <= '\u{7f}');
        assert forall|i: int| chars.len() - column(chars) <= i < chars.len() implies chars[i]
            != '\n' by {
            if i < before.len() {
                assert(chars[i] == before[i]);
            }
        }
    }
}

/// In an ASCII text the character of a position is the number of bytes between
/// the last line feed before the offset, or the start of the text, and the
/// offset.
pub proof fn law_ascii_positions_count_bytes(text: Seq<char>, offset: int)
    requires
        is_ascii_chars(text),
        0 <= offset <= encode_utf8(text).len(),
        position_fits(text, offset),
    ensures
        ({
            let bytes = encode_utf8(text);
            let start = offset - position_at(text, offset).character;
            &&& 0 <= start
            &&& forall|i: int| start <= i < offset ==> bytes[i] != LINE_FEED
            &&& start > 0 ==> bytes[start - 1] == LINE_FEED
        }),
{
    let bytes = encode_utf8(text);
    is_ascii_chars_encode_utf8(text);
    let before = text.take(offset);
    assert(is_ascii_chars(before));
    is_ascii_chars_encode_utf8(before);
    lemma_index_on_boundary(text, offset);
    lemma_ascii_column(before);
    let start = offset - column(before);
    assert forall|i: int| start <= i < offset implies bytes[i] != LINE_FEED by {
        assert(before[i] == text[i]);
        assert('\0' <= text[i] <= '\u{7f}');
        assert(text[i] as u8 == bytes[i]);
    }
    if start > 0 {
        assert(before[start - 1] == text[start - 1]);
        assert(text[start - 1] as u8 == bytes[start - 1]);
    }
}

/// A range does not end before it starts.
pub proof fn law_range_is_in_order(text: Seq<char>, start: int, end: int)
    requires
        0 <= start,
        range_on_boundaries(text, start, end),
        position_fits(text, start),
        position_fits(text, range_end(start, end)),
    ensures
        is_at_or_before(range_at(text, start, end).start, range_at(text, start, end).end),
{
    law_positions_in_order(text, start, range_end(start, end));
}

} // verus!
