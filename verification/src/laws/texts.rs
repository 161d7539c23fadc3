//! Laws of searching, positions, words and arguments.

use crate::arguments::{are_parts_of, call_spans, calls_closed, literal_spans, string_spans};
use crate::bytes::{
    first_byte, first_occurrence, lemma_first_byte, lemma_first_occurrence, occurs_at, offset_of,
};
use crate::position::{
    first_line_length, is_at_or_before, lemma_counts_within_bytes, lemma_index_on_boundary,
    lemma_offset_on_boundary, lemma_offset_reaches, lemma_positions_fit, offset_at, position_at,
    range_at, utf16_len, Position,
};
use crate::words::{
    in_word, law_word_is_maximal, lemma_word_under, word_end, word_start, word_under,
};
use vstd::prelude::*;
use vstd::utf8::{encode_utf8, is_char_boundary};

verus! {

/// Whether a pattern stands in a text at an offset, byte by byte.
pub open spec fn stands_at(text: Seq<u8>, pattern: Seq<u8>, at: int) -> bool {
    &&& 0 <= at
    &&& at + pattern.len() <= text.len()
    &&& forall|k: int| 0 <= k < pattern.len() ==> #[trigger] text[at + k] == pattern[k]
}

/// A pattern occurs where it stands byte by byte, and nowhere else.
pub proof fn law_occurrence(text: Seq<u8>, pattern: Seq<u8>, at: int)
    ensures
        occurs_at(text, pattern, at) <==> stands_at(text, pattern, at),
{
    if 0 <= at && at + pattern.len() <= text.len() {
        let part = text.subrange(at, at + pattern.len());
        if stands_at(text, pattern, at) {
            assert forall|k: int| 0 <= k < part.len() implies part[k] == pattern[k] by {
                assert(text[at + k] == pattern[k]);
            }
            assert(part =~= pattern);
        }
        if part == pattern {
            assert forall|k: int| 0 <= k < pattern.len() implies #[trigger] text[at + k]
                == pattern[k] by {
                assert(part[k] == text[at + k]);
            }
        }
    }
}

/// A search finds the first place from an offset on at which the pattern
/// stands, and finds nothing only where it stands nowhere.
pub proof fn law_search(text: Seq<u8>, pattern: Seq<u8>, from: int, at: int)
    requires
        0 <= from,
    ensures
        first_occurrence(text, pattern, from) == Some(at) <==> {
            &&& from <= at
            &&& stands_at(text, pattern, at)
            &&& forall|k: int| from <= k < at ==> !#[trigger] stands_at(text, pattern, k)
        },
        first_occurrence(text, pattern, from) is None <==> forall|k: int|
            from <= k ==> !#[trigger] stands_at(text, pattern, k),
{
    lemma_first_occurrence(text, pattern, from);
    assert forall|k: int| #[trigger]
        stands_at(text, pattern, k) <==> occurs_at(text, pattern, k) by {
        law_occurrence(text, pattern, k);
    }
    if let Some(found) = first_occurrence(text, pattern, from) {
        assert(stands_at(text, pattern, found));
        if from <= at && stands_at(text, pattern, at) && found != at {
            if found < at {
                assert(stands_at(text, pattern, found));
            } else {
                assert(occurs_at(text, pattern, at));
            }
        }
    } else {
        if from <= at && stands_at(text, pattern, at) {
            assert(occurs_at(text, pattern, at));
        }
    }
}

/// An offset that is found is the offset itself.
pub proof fn law_offset_of(found: Option<usize>)
    ensures
        found is None <==> offset_of(found) is None,
        found matches Some(at) ==> offset_of(found) == Some(at as int),
{
}

/// A character takes two UTF-16 code units if its number needs more than sixteen
/// bits, and else one.
pub proof fn law_utf16_width(c: char)
    ensures
        c as u32 >= 0x10000 ==> utf16_len(c) == 2,
        (c as u32) < 0x10000 ==> utf16_len(c) == 1,
{
}

/// The start of a text is the first line and its first column.
pub proof fn law_position_of_the_start(text: Seq<char>)
    ensures
        position_at(text, 0) == (Position { line: 0, character: 0 }),
{
    assert(text.take(0) =~= Seq::<char>::empty());
    lemma_index_on_boundary(text, 0);
}

/// One character further, the position is one line further and at its start if
/// the character is a line feed, and else one column further, or two if the
/// character needs two UTF-16 code units.
pub proof fn law_position_step(text: Seq<char>, n: int)
    requires
        0 <= n < text.len(),
        encode_utf8(text.take(n + 1)).len() <= u32::MAX,
    ensures
        ({
            let before = position_at(text, encode_utf8(text.take(n)).len() as int);
            let after = position_at(text, encode_utf8(text.take(n + 1)).len() as int);
            if text[n] == '\n' {
                after.line == before.line + 1 && after.character == 0
            } else if text[n] as u32 >= 0x10000 {
                after.line == before.line && after.character == before.character + 2
            } else {
                after.line == before.line && after.character == before.character + 1
            }
        }),
{
    lemma_index_on_boundary(text, n);
    lemma_index_on_boundary(text, n + 1);
    lemma_counts_within_bytes(text.take(n + 1));
    assert(text.take(n + 1).drop_last() =~= text.take(n));
    assert(text.take(n + 1).last() == text[n]);
}

/// The offset of a position is the last one that is not behind it: every offset
/// whose position is at or before the position asked for is at or before it.
pub proof fn law_offset_is_the_last_not_behind(text: Seq<char>, position: Position, other: int)
    requires
        encode_utf8(text).len() <= u32::MAX,
        0 <= other <= encode_utf8(text).len(),
        is_char_boundary(encode_utf8(text), other),
        is_at_or_before(position_at(text, other), position),
    ensures
        other <= offset_at(text, position),
{
    lemma_positions_fit(text, other);
    lemma_offset_reaches(text, position, other);
}

/// Whether a position is at or before another, by line and then by character.
pub proof fn law_position_order(a: Position, b: Position)
    ensures
        is_at_or_before(a, b) <==> a.line * 0x1_0000_0000 + a.character <= b.line * 0x1_0000_0000
            + b.character,
{
}

/// A range runs from the position of its start to that of its end, or to that
/// of the next offset if it would hold nothing.
pub proof fn law_range_ends(text: Seq<char>, start: int, end: int)
    ensures
        range_at(text, start, end).start == position_at(text, start),
        start < end ==> range_at(text, start, end).end == position_at(text, end),
        start >= end ==> range_at(text, start, end).end == position_at(text, start + 1),
{
}

/// The first line ends where its line ending starts, a line feed or a carriage
/// return and a line feed, or where the text ends.
pub proof fn law_first_line(text: Seq<u8>)
    requires
        text.len() > 0,
    ensures
        ({
            let n = first_line_length(text);
            &&& 0 <= n <= text.len()
            &&& forall|i: int| 0 <= i < n ==> text[i] != 0x0a
            &&& n < text.len() ==> text[n] == 0x0a || (n + 1 < text.len() && text[n] == 0x0d
                && text[n + 1] == 0x0a)
            &&& n > 0 && n < text.len() && text[n] == 0x0a ==> text[n - 1] != 0x0d
        }),
{
    lemma_first_byte(text, 0x0a, 0, text.len() as int);
}

/// The range of an empty text is asked for one byte.
pub proof fn law_first_line_of_nothing()
    ensures
        first_line_length(Seq::empty()) == 1,
{
}

/// The word at a position is the whole run of word bytes on both sides of it.
pub proof fn law_word_under(text: Seq<char>, position: Position) -> (span: (int, int))
    ensures
        ({
            let bytes = encode_utf8(text);
            let (start, end) = span;
            &&& 0 <= start <= offset_at(text, position) <= end <= bytes.len()
            &&& encode_utf8(word_under(text, position)) == bytes.subrange(start, end)
            &&& forall|i: int| start <= i < end ==> in_word(#[trigger] bytes[i])
            &&& start > 0 ==> !in_word(bytes[start - 1])
            &&& end < bytes.len() ==> !in_word(bytes[end])
        }),
{
    let bytes = encode_utf8(text);
    let offset = offset_at(text, position);
    lemma_offset_on_boundary(text, position);
    law_word_is_maximal(bytes, offset);
    lemma_word_under(text, position);
    (word_start(bytes, offset), word_end(bytes, offset))
}

/// The bytes of words are the ASCII letters and digits, the underscore, the
/// hyphen and the dot.
pub proof fn law_word_bytes(byte: u8)
    ensures
        in_word(byte) <==> {
            let c = byte as char;
            ('a' <= c <= 'z') || ('A' <= c <= 'Z') || ('0' <= c <= '9') || c == '_' || c == '-' || c
                == '.'
        },
{
}

/// What is found as arguments are the parts of the text at the spans.
pub proof fn law_arguments_are_parts(
    text: Seq<char>,
    arguments: Seq<(&str, usize, usize)>,
    spans: Seq<(int, int)>,
)
    requires
        are_parts_of(text, arguments, spans),
    ensures
        arguments.len() == spans.len(),
        forall|i: int|
            0 <= i < spans.len() ==> {
                &&& (#[trigger] arguments[i]).1 == spans[i].0
                &&& arguments[i].2 == spans[i].1
                &&& encode_utf8(arguments[i].0@) == encode_utf8(text).subrange(
                    spans[i].0,
                    spans[i].1,
                )
            },
{
}

/// Whether the bytes between two offsets do not hold a byte.
pub open spec fn lacks(text: Seq<u8>, byte: u8, from: int, to: int) -> bool {
    forall|i: int| from <= i < to ==> #[trigger] text[i] != byte
}

/// The scan for arguments takes the first prefix that has a quote behind it up
/// to that quote, and goes on behind the quote.
pub proof fn law_string_arguments_step(
    text: Seq<u8>,
    prefix: Seq<u8>,
    from: int,
    at: int,
    quote: int,
)
    requires
        0 <= from <= at,
        stands_at(text, prefix, at),
        forall|k: int| from <= k < at ==> !#[trigger] stands_at(text, prefix, k),
        at + prefix.len() <= quote < text.len(),
        text[quote] == 0x22,
        lacks(text, 0x22, at + prefix.len(), quote),
    ensures
        string_spans(text, prefix, from) == seq![(at + prefix.len(), quote)] + string_spans(
            text,
            prefix,
            quote + 1,
        ),
{
    law_search(text, prefix, from, at);
    lemma_first_byte(text, 0x22, at + prefix.len(), text.len() as int);
}

/// The scan for arguments finds nothing where no prefix with a quote behind it
/// is left.
pub proof fn law_string_arguments_end(text: Seq<u8>, prefix: Seq<u8>, from: int)
    requires
        0 <= from,
        forall|at: int|
            from <= at && #[trigger] stands_at(text, prefix, at) ==> lacks(
                text,
                0x22,
                at + prefix.len(),
                text.len() as int,
            ),
    ensures
        string_spans(text, prefix, from) == Seq::<(int, int)>::empty(),
{
    if let Some(at) = first_occurrence(text, prefix, from) {
        law_search(text, prefix, from, at);
        lemma_first_byte(text, 0x22, at + prefix.len(), text.len() as int);
        assert(stands_at(text, prefix, at));
    }
}

/// The literals of a call are taken one after the other: the first two quotes
/// hold the first, and the others follow behind them.
pub proof fn law_call_literals_step(
    text: Seq<u8>,
    from: int,
    to: int,
    limit: nat,
    open: int,
    close: int,
)
    requires
        limit > 0,
        0 <= from <= open < close < to <= text.len(),
        text[open] == 0x22,
        text[close] == 0x22,
        lacks(text, 0x22, from, open),
        lacks(text, 0x22, open + 1, close),
    ensures
        literal_spans(text, from, to, limit) == seq![(open + 1, close)] + literal_spans(
            text,
            close + 1,
            to,
            (limit - 1) as nat,
        ),
{
    lemma_first_byte(text, 0x22, from, to);
    lemma_first_byte(text, 0x22, open + 1, to);
}

/// A call has no more literals where the limit is reached, or fewer than two
/// quotes are left.
pub proof fn law_call_literals_end(text: Seq<u8>, from: int, to: int, limit: nat, open: int)
    requires
        0 <= from <= open <= to <= text.len(),
        limit == 0 || (lacks(text, 0x22, from, open) && lacks(text, 0x22, open + 1, to)),
    ensures
        literal_spans(text, from, to, limit) == Seq::<(int, int)>::empty(),
{
    lemma_first_byte(text, 0x22, from, to);
    if let Some(first) = first_byte(text, 0x22, from, to) {
        assert(text[first] == 0x22);
        lemma_first_byte(text, 0x22, first + 1, to);
    }
}

/// The scan for calls takes the literals of the first call up to its closing
/// parenthesis, and goes on behind that.
pub proof fn law_call_arguments_step(
    text: Seq<u8>,
    prefix: Seq<u8>,
    limit: nat,
    from: int,
    at: int,
    close: int,
)
    requires
        0 <= from <= at,
        stands_at(text, prefix, at),
        forall|k: int| from <= k < at ==> !#[trigger] stands_at(text, prefix, k),
        at + prefix.len() <= close < text.len(),
        text[close] == 0x29,
        lacks(text, 0x29, at + prefix.len(), close),
    ensures
        call_spans(text, prefix, limit, from) == literal_spans(
            text,
            at + prefix.len(),
            close,
            limit,
        ) + call_spans(text, prefix, limit, close + 1),
        calls_closed(text, prefix, from) == calls_closed(text, prefix, close + 1),
{
    law_search(text, prefix, from, at);
    lemma_first_byte(text, 0x29, at + prefix.len(), text.len() as int);
}

/// The scan for calls finds nothing where no call is left, and all calls that
/// are left are closed.
pub proof fn law_call_arguments_end(text: Seq<u8>, prefix: Seq<u8>, limit: nat, from: int)
    requires
        0 <= from,
        forall|at: int| from <= at ==> !#[trigger] stands_at(text, prefix, at),
    ensures
        call_spans(text, prefix, limit, from) == Seq::<(int, int)>::empty(),
        calls_closed(text, prefix, from),
{
    law_search(text, prefix, from, from);
}

/// A call that no closing parenthesis follows is not closed.
pub proof fn law_open_call(text: Seq<u8>, prefix: Seq<u8>, from: int, at: int)
    requires
        0 <= from <= at,
        stands_at(text, prefix, at),
        forall|k: int| from <= k < at ==> !#[trigger] stands_at(text, prefix, k),
        lacks(text, 0x29, at + prefix.len(), text.len() as int),
    ensures
        !calls_closed(text, prefix, from),
{
    law_search(text, prefix, from, at);
    lemma_first_byte(text, 0x29, at + prefix.len(), text.len() as int);
}

} // verus!
