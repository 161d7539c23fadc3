//! String literals that a script passes to engine calls.
//!
//! A script is scanned as text: an argument is found by what stands before it,
//! whether or not the surrounding code compiles.

use crate::bytes::{
    find, find_byte, first_byte, first_occurrence, lemma_ascii_byte_boundaries, lemma_first_byte,
    lemma_first_occurrence, lemma_occurrence_ends_on_boundary, lemma_occurrence_starts_on_boundary,
    occurs_at, on_boundary, slice, CLOSE_PAREN, QUOTE,
};
use vstd::prelude::*;
use vstd::string::StringSliceAdditionalSpecFns;
use vstd::utf8::{
    encode_utf8, encode_utf8_valid_utf8, is_char_boundary_start_end_of_seq, valid_utf8,
};

verus! {

/// Where the literals start and end that follow `prefix`, scanning from
/// `from`: each runs from the end of the prefix to the next quote, and the
/// scan goes on behind that quote.
pub open spec fn string_spans(text: Seq<u8>, prefix: Seq<u8>, from: int) -> Seq<(int, int)>
    decreases text.len() - from,
{
    if from < 0 || from > text.len() {
        Seq::empty()
    } else {
        match first_occurrence(text, prefix, from) {
            None => Seq::empty(),
            Some(at) => {
                let start = at + prefix.len();
                match first_byte(text, QUOTE, start, text.len() as int) {
                    None => Seq::empty(),
                    Some(end) => {
                        proof {
                            lemma_first_occurrence(text, prefix, from);
                            lemma_first_byte(text, QUOTE, start, text.len() as int);
                        }
                        seq![(start, end)] + string_spans(text, prefix, end + 1)
                    },
                }
            },
        }
    }
}

/// The end of the call whose arguments start at `start`: the next closing
/// parenthesis, or the end of the text if there is none.
pub open spec fn call_end(text: Seq<u8>, start: int) -> int {
    match first_byte(text, CLOSE_PAREN, start, text.len() as int) {
        Some(at) => at,
        None => text.len() as int,
    }
}

/// Where the first `limit` literals between `from` and `to` start and end.
pub open spec fn literal_spans(text: Seq<u8>, from: int, to: int, limit: nat) -> Seq<(int, int)>
    decreases limit,
{
    if limit == 0 {
        Seq::empty()
    } else {
        match first_byte(text, QUOTE, from, to) {
            None => Seq::empty(),
            Some(open) => match first_byte(text, QUOTE, open + 1, to) {
                None => Seq::empty(),
                Some(close) => seq![(open + 1, close)] + literal_spans(
                    text,
                    close + 1,
                    to,
                    (limit - 1) as nat,
                ),
            },
        }
    }
}

/// Where the literals start and end that stand in the calls that `prefix`
/// opens, at most `limit` in each call, scanning from `from`. The scan goes on
/// behind the end of a call.
pub open spec fn call_spans(text: Seq<u8>, prefix: Seq<u8>, limit: nat, from: int) -> Seq<
    (int, int),
>
    decreases text.len() + 1 - from,
{
    if from < 0 || from > text.len() {
        Seq::empty()
    } else {
        match first_occurrence(text, prefix, from) {
            None => Seq::empty(),
            Some(at) => {
                let start = at + prefix.len();
                let end = call_end(text, start);
                proof {
                    lemma_first_occurrence(text, prefix, from);
                    lemma_first_byte(text, CLOSE_PAREN, start, text.len() as int);
                }
                literal_spans(text, start, end, limit) + call_spans(text, prefix, limit, end + 1)
            },
        }
    }
}

/// Whether each call that `prefix` opens is closed, scanning from `from`.
pub open spec fn calls_closed(text: Seq<u8>, prefix: Seq<u8>, from: int) -> bool
    decreases text.len() + 1 - from,
{
    if from < 0 || from > text.len() {
        true
    } else {
        match first_occurrence(text, prefix, from) {
            None => true,
            Some(at) => {
                let start = at + prefix.len();
                match first_byte(text, CLOSE_PAREN, start, text.len() as int) {
                    None => false,
                    Some(end) => {
                        proof {
                            lemma_first_occurrence(text, prefix, from);
                            lemma_first_byte(text, CLOSE_PAREN, start, text.len() as int);
                        }
                        calls_closed(text, prefix, end + 1)
                    },
                }
            },
        }
    }
}

/// Whether the arguments found are the parts of the text at the given spans.
pub open spec fn are_parts_of(
    text: Seq<char>,
    arguments: Seq<(&str, usize, usize)>,
    spans: Seq<(int, int)>,
) -> bool {
    &&& arguments.len() == spans.len()
    &&& forall|i: int|
        0 <= i < spans.len() ==> {
            &&& (#[trigger] arguments[i]).1 == spans[i].0
            &&& arguments[i].2 == spans[i].1
            &&& 0 <= spans[i].0 <= spans[i].1 <= encode_utf8(text).len()
            &&& on_boundary(text, spans[i].0)
            &&& on_boundary(text, spans[i].1)
            &&& arguments[i].0.spec_bytes() == encode_utf8(text).subrange(spans[i].0, spans[i].1)
        }
}

/// One more part of the text, behind the others.
proof fn lemma_parts_push(
    text: Seq<char>,
    arguments: Seq<(&str, usize, usize)>,
    spans: Seq<(int, int)>,
    next: (&str, usize, usize),
)
    requires
        are_parts_of(text, arguments, spans),
        next.1 <= next.2 <= encode_utf8(text).len(),
        on_boundary(text, next.1 as int),
        on_boundary(text, next.2 as int),
        next.0.spec_bytes() == encode_utf8(text).subrange(next.1 as int, next.2 as int),
    ensures
        are_parts_of(text, arguments.push(next), spans.push((next.1 as int, next.2 as int))),
{
    let more = arguments.push(next);
    let more_spans = spans.push((next.1 as int, next.2 as int));
    assert forall|i: int| 0 <= i < more_spans.len() implies {
        &&& (#[trigger] more[i]).1 == more_spans[i].0
        &&& more[i].2 == more_spans[i].1
        &&& 0 <= more_spans[i].0 <= more_spans[i].1 <= encode_utf8(text).len()
        &&& on_boundary(text, more_spans[i].0)
        &&& on_boundary(text, more_spans[i].1)
        &&& more[i].0.spec_bytes() == encode_utf8(text).subrange(more_spans[i].0, more_spans[i].1)
    } by {
        if i < spans.len() {
            assert(more[i] == arguments[i]);
        }
    }
}

/// The literals that stand in `text` right behind `prefix`, each with the
/// offsets at which it starts and ends.
pub fn string_arguments<'a>(text: &'a str, prefix: &str) -> (res: Vec<(&'a str, usize, usize)>)
    ensures
        are_parts_of(text@, res@, string_spans(text.spec_bytes(), prefix.spec_bytes(), 0)),
{
    let bytes = text.as_bytes();
    let pattern = prefix.as_bytes();
    let length: usize = bytes.len();
    let mut out: Vec<(&'a str, usize, usize)> = Vec::new();
    let mut from: usize = 0;
    let ghost mut spans: Seq<(int, int)> = Seq::empty();
    let ghost all = string_spans(bytes@, pattern@, 0);
    proof {
        encode_utf8_valid_utf8(text@);
        encode_utf8_valid_utf8(prefix@);
        is_char_boundary_start_end_of_seq(bytes@);
        assert(all =~= spans + all);
    }
    loop
        invariant
            bytes@ == text.spec_bytes(),
            pattern@ == prefix.spec_bytes(),
            valid_utf8(bytes@),
            valid_utf8(pattern@),
            length == bytes@.len(),
            from <= length,
            on_boundary(text@, from as int),
            are_parts_of(text@, out@, spans),
            all == string_spans(bytes@, pattern@, 0),
            all == spans + string_spans(bytes@, pattern@, from as int),
        decreases length - from,
    {
        proof {
            lemma_first_occurrence(bytes@, pattern@, from as int);
        }
        let at: usize = match find(bytes, pattern, from) {
            Some(at) => at,
            None => {
                assert(all =~= spans);
                return out;
            },
        };
        let start: usize = at + pattern.len();
        proof {
            if pattern@.len() > 0 {
                lemma_occurrence_starts_on_boundary(bytes@, pattern@, at as int);
            } else {
                assert(bytes@.subrange(from as int, from as int) =~= pattern@);
                assert(at == from);
            }
            lemma_occurrence_ends_on_boundary(bytes@, pattern@, at as int);
            lemma_first_byte(bytes@, QUOTE, start as int, length as int);
        }
        let end: usize = match find_byte(bytes, QUOTE, start, length) {
            Some(end) => end,
            None => {
                assert(all =~= spans);
                return out;
            },
        };
        proof {
            lemma_ascii_byte_boundaries(bytes@, end as int);
        }
        let ghost before = out@;
        let value = slice(text, start, end);
        out.push((value, start, end));
        proof {
            lemma_parts_push(text@, before, spans, (value, start, end));
            let rest = string_spans(bytes@, pattern@, end + 1);
            assert(spans + (seq![(start as int, end as int)] + rest) =~= spans.push(
                (start as int, end as int),
            ) + rest);
            spans = spans.push((start as int, end as int));
        }
        from = end + 1;
    }
}

/// Adds the first `limit` literals between two boundaries of the text.
fn push_literals<'a>(
    text: &'a str,
    from: usize,
    to: usize,
    limit: usize,
    out: &mut Vec<(&'a str, usize, usize)>,
    Ghost(spans): Ghost<Seq<(int, int)>>,
)
    requires
        from <= to <= text.spec_bytes().len(),
        are_parts_of(text@, old(out)@, spans),
    ensures
        are_parts_of(
            text@,
            final(out)@,
            spans + literal_spans(text.spec_bytes(), from as int, to as int, limit as nat),
        ),
{
    let bytes = text.as_bytes();
    let mut cursor: usize = from;
    let mut count: usize = 0;
    let ghost mut found = spans;
    let ghost all = spans + literal_spans(bytes@, from as int, to as int, limit as nat);
    proof {
        encode_utf8_valid_utf8(text@);
    }
    while cursor < to && count < limit
        invariant
            bytes@ == text.spec_bytes(),
            valid_utf8(bytes@),
            cursor <= to <= bytes@.len(),
            count <= limit,
            are_parts_of(text@, out@, found),
            all == spans + literal_spans(bytes@, from as int, to as int, limit as nat),
            all == found + literal_spans(
                bytes@,
                cursor as int,
                to as int,
                (limit - count) as nat,
            ),
        decreases limit - count,
    {
        proof {
            lemma_first_byte(bytes@, QUOTE, cursor as int, to as int);
        }
        let open: usize = match find_byte(bytes, QUOTE, cursor, to) {
            Some(open) => open,
            None => {
                assert(all =~= found);
                return;
            },
        };
        let start: usize = open + 1;
        proof {
            lemma_ascii_byte_boundaries(bytes@, open as int);
            lemma_first_byte(bytes@, QUOTE, start as int, to as int);
        }
        let end: usize = match find_byte(bytes, QUOTE, start, to) {
            Some(end) => end,
            None => {
                assert(all =~= found);
                return;
            },
        };
        proof {
            lemma_ascii_byte_boundaries(bytes@, end as int);
        }
        let ghost before = out@;
        let value = slice(text, start, end);
        out.push((value, start, end));
        proof {
            lemma_parts_push(text@, before, found, (value, start, end));
            let rest = literal_spans(bytes@, end + 1, to as int, (limit - count - 1) as nat);
            assert(found + (seq![(start as int, end as int)] + rest) =~= found.push(
                (start as int, end as int),
            ) + rest);
            found = found.push((start as int, end as int));
        }
        count += 1;
        cursor = end + 1;
    }
    proof {
        assert(all =~= found);
    }
}

/// The literals that stand in `text` in the calls that `prefix` opens, at most
/// `limit` in each call, each with the offsets at which it starts and ends.
/// A literal ends at the next quote, and a call at the next closing
/// parenthesis, whatever they are part of.
pub fn call_string_arguments<'a>(text: &'a str, prefix: &str, limit: usize) -> (res: Vec<
    (&'a str, usize, usize),
>)
    requires
        calls_closed(text.spec_bytes(), prefix.spec_bytes(), 0),
    ensures
        are_parts_of(
            text@,
            res@,
            call_spans(text.spec_bytes(), prefix.spec_bytes(), limit as nat, 0),
        ),
{
    let bytes = text.as_bytes();
    let pattern = prefix.as_bytes();
    let length: usize = bytes.len();
    let mut out: Vec<(&'a str, usize, usize)> = Vec::new();
    let mut from: usize = 0;
    let ghost mut spans: Seq<(int, int)> = Seq::empty();
    let ghost all = call_spans(bytes@, pattern@, limit as nat, 0);
    proof {
        assert(all =~= spans + all);
    }
    loop
        invariant
            bytes@ == text.spec_bytes(),
            pattern@ == prefix.spec_bytes(),
            length == bytes@.len(),
            from <= length,
            calls_closed(bytes@, pattern@, from as int),
            are_parts_of(text@, out@, spans),
            all == call_spans(bytes@, pattern@, limit as nat, 0),
            all == spans + call_spans(bytes@, pattern@, limit as nat, from as int),
        decreases length - from,
    {
        proof {
            lemma_first_occurrence(bytes@, pattern@, from as int);
        }
        let at: usize = match find(bytes, pattern, from) {
            Some(at) => at,
            None => {
                assert(all =~= spans);
                return out;
            },
        };
        let start: usize = at + pattern.len();
        proof {
            lemma_first_byte(bytes@, CLOSE_PAREN, start as int, length as int);
        }
        let end: usize = match find_byte(bytes, CLOSE_PAREN, start, length) {
            Some(end) => end,
            None => length,
        };
        push_literals(text, start, end, limit, &mut out, Ghost(spans));
        proof {
            let found = literal_spans(bytes@, start as int, end as int, limit as nat);
            let rest = call_spans(bytes@, pattern@, limit as nat, end + 1);
            assert(spans + (found + rest) =~= (spans + found) + rest);
            spans = spans + found;
        }
        from = end + 1;
    }
}

/// Whether each call that `prefix` opens in the text is closed, so that
/// `call_string_arguments` can be asked for its arguments.
pub fn are_calls_closed(text: &str, prefix: &str) -> (res: bool)
    ensures
        res == calls_closed(text.spec_bytes(), prefix.spec_bytes(), 0),
{
    let bytes = text.as_bytes();
    let pattern = prefix.as_bytes();
    let length: usize = bytes.len();
    let mut from: usize = 0;
    loop
        invariant
            bytes@ == text.spec_bytes(),
            pattern@ == prefix.spec_bytes(),
            length == bytes@.len(),
            from <= length,
            calls_closed(bytes@, pattern@, 0) == calls_closed(bytes@, pattern@, from as int),
        decreases length - from,
    {
        proof {
            lemma_first_occurrence(bytes@, pattern@, from as int);
        }
        let at: usize = match find(bytes, pattern, from) {
            Some(at) => at,
            None => {
                return true;
            },
        };
        let start: usize = at + pattern.len();
        proof {
            lemma_first_byte(bytes@, CLOSE_PAREN, start as int, length as int);
        }
        match find_byte(bytes, CLOSE_PAREN, start, length) {
            Some(end) => {
                from = end + 1;
            },
            None => {
                return false;
            },
        }
    }
}

/// Whether the span is a literal: it has no quote in it and one behind it.
pub open spec fn is_literal(text: Seq<u8>, span: (int, int)) -> bool {
    &&& 0 <= span.0 <= span.1 < text.len()
    &&& text[span.1] == QUOTE
    &&& forall|k: int| span.0 <= k < span.1 ==> text[k] != QUOTE
}

/// Whether a closing parenthesis stands anywhere behind the opening of a call.
pub open spec fn is_followed_by_close(text: Seq<u8>, prefix: Seq<u8>, at: int) -> bool {
    exists|k: int| at + prefix.len() <= k < text.len() && #[trigger] text[k] == CLOSE_PAREN
}

/// Whether a quote stands anywhere behind the prefix that stands at `at`.
pub open spec fn is_followed_by_quote(text: Seq<u8>, prefix: Seq<u8>, at: int) -> bool {
    exists|k: int| at + prefix.len() <= k < text.len() && #[trigger] text[k] == QUOTE
}

/// Whether one of the spans answers the prefix at `at`, or that prefix starts
/// within an earlier prefix or its span.
pub open spec fn is_covered(prefix: Seq<u8>, spans: Seq<(int, int)>, at: int) -> bool {
    exists|i: int|
        0 <= i < spans.len() && (#[trigger] spans[i]).0 - prefix.len() <= at <= spans[i].1
}

/// Every argument found is a literal right behind the prefix, and the
/// arguments come in the order of the text without overlapping.
pub proof fn law_string_arguments_are_literals(text: Seq<u8>, prefix: Seq<u8>, from: int)
    requires
        0 <= from,
    ensures
        ({
            let spans = string_spans(text, prefix, from);
            &&& forall|i: int|
                0 <= i < spans.len() ==> {
                    &&& is_literal(text, #[trigger] spans[i])
                    &&& occurs_at(text, prefix, spans[i].0 - prefix.len())
                    &&& from <= spans[i].0 - prefix.len()
                }
            &&& forall|i: int, j: int|
                0 <= i < j < spans.len() ==> (#[trigger] spans[i]).1 < (#[trigger] spans[j]).0
                    - prefix.len()
        }),
    decreases text.len() - from,
{
    let spans = string_spans(text, prefix, from);
    lemma_first_occurrence(text, prefix, from);
    if spans.len() > 0 {
        let at = first_occurrence(text, prefix, from)->0;
        let start = at + prefix.len();
        lemma_first_byte(text, QUOTE, start, text.len() as int);
        let end = first_byte(text, QUOTE, start, text.len() as int)->0;
        let rest = string_spans(text, prefix, end + 1);
        law_string_arguments_are_literals(text, prefix, end + 1);
        assert(spans[0] == (start, end));
        assert forall|i: int| 0 < i < spans.len() implies #[trigger] spans[i] == rest[i - 1] by {}
    }
}

/// Every prefix with a quote behind it is answered by an argument, unless it
/// starts within an earlier prefix or its argument.
pub proof fn law_string_arguments_are_complete(
    text: Seq<u8>,
    prefix: Seq<u8>,
    from: int,
    at: int,
)
    requires
        0 <= from <= at,
        occurs_at(text, prefix, at),
        is_followed_by_quote(text, prefix, at),
    ensures
        is_covered(prefix, string_spans(text, prefix, from), at),
    decreases text.len() - from,
{
    let spans = string_spans(text, prefix, from);
    lemma_first_occurrence(text, prefix, from);
    let first = first_occurrence(text, prefix, from)->0;
    let start = first + prefix.len();
    lemma_first_byte(text, QUOTE, start, text.len() as int);
    let end = first_byte(text, QUOTE, start, text.len() as int)->0;
    assert(spans[0] == (start, end));
    if at > end {
        let rest = string_spans(text, prefix, end + 1);
        law_string_arguments_are_complete(text, prefix, end + 1, at);
        let i = choose|i: int|
            0 <= i < rest.len() && (#[trigger] rest[i]).0 - prefix.len() <= at <= rest[i].1;
        assert(spans[i + 1] == rest[i]);
    }
}

/// The literals between two offsets are literals that a quote opens, in the
/// order of the text.
proof fn lemma_literal_spans(text: Seq<u8>, from: int, to: int, limit: nat)
    requires
        0 <= from,
        to <= text.len(),
    ensures
        ({
            let spans = literal_spans(text, from, to, limit);
            &&& spans.len() <= limit
            &&& forall|i: int|
                0 <= i < spans.len() ==> {
                    &&& is_literal(text, #[trigger] spans[i])
                    &&& from < spans[i].0
                    &&& spans[i].1 < to
                    &&& text[spans[i].0 - 1] == QUOTE
                }
            &&& forall|i: int, j: int|
                0 <= i < j < spans.len() ==> (#[trigger] spans[i]).1 < (#[trigger] spans[j]).0
        }),
    decreases limit,
{
    let spans = literal_spans(text, from, to, limit);
    if spans.len() > 0 {
        lemma_first_byte(text, QUOTE, from, to);
        let open = first_byte(text, QUOTE, from, to)->0;
        lemma_first_byte(text, QUOTE, open + 1, to);
        let close = first_byte(text, QUOTE, open + 1, to)->0;
        let rest = literal_spans(text, close + 1, to, (limit - 1) as nat);
        lemma_literal_spans(text, close + 1, to, (limit - 1) as nat);
        assert(spans[0] == (open + 1, close));
        assert forall|i: int| 0 < i < spans.len() implies #[trigger] spans[i] == rest[i - 1] by {}
    }
}

/// Whether the span lies in the call that the prefix at `at` opens: behind the
/// prefix, and before the first closing parenthesis.
pub open spec fn is_in_call(text: Seq<u8>, prefix: Seq<u8>, span: (int, int), at: int) -> bool {
    &&& occurs_at(text, prefix, at)
    &&& at + prefix.len() < span.0
    &&& span.1 < call_end(text, at + prefix.len())
}

/// Every argument found in a call is a literal between two quotes, and lies in
/// a call that the prefix opens; and the arguments come in the order of the
/// text without overlapping.
pub proof fn law_call_arguments_are_literals(
    text: Seq<u8>,
    prefix: Seq<u8>,
    limit: nat,
    from: int,
)
    requires
        0 <= from,
    ensures
        ({
            let spans = call_spans(text, prefix, limit, from);
            &&& forall|i: int|
                0 <= i < spans.len() ==> {
                    &&& is_literal(text, #[trigger] spans[i])
                    &&& text[spans[i].0 - 1] == QUOTE
                    &&& exists|at: int| from <= at && is_in_call(text, prefix, spans[i], at)
                }
            &&& forall|i: int, j: int|
                0 <= i < j < spans.len() ==> (#[trigger] spans[i]).1 < (#[trigger] spans[j]).0
        }),
    decreases text.len() + 1 - from,
{
    let spans = call_spans(text, prefix, limit, from);
    lemma_first_occurrence(text, prefix, from);
    if spans.len() > 0 {
        let at = first_occurrence(text, prefix, from)->0;
        let start = at + prefix.len();
        lemma_first_byte(text, CLOSE_PAREN, start, text.len() as int);
        let end = call_end(text, start);
        let found = literal_spans(text, start, end, limit);
        let rest = call_spans(text, prefix, limit, end + 1);
        lemma_literal_spans(text, start, end, limit);
        law_call_arguments_are_literals(text, prefix, limit, end + 1);
        assert forall|i: int| 0 <= i < spans.len() implies {
            &&& is_literal(text, #[trigger] spans[i])
            &&& text[spans[i].0 - 1] == QUOTE
            &&& exists|at: int| from <= at && is_in_call(text, prefix, spans[i], at)
        } by {
            if i < found.len() {
                assert(spans[i] == found[i]);
                assert(is_in_call(text, prefix, spans[i], at));
            } else {
                assert(spans[i] == rest[i - found.len()]);
            }
        }
        assert forall|i: int, j: int| 0 <= i < j < spans.len() implies (#[trigger] spans[i]).1
            < (#[trigger] spans[j]).0 by {
            if i < found.len() {
                assert(spans[i] == found[i]);
            } else {
                assert(spans[i] == rest[i - found.len()]);
            }
            if j < found.len() {
                assert(spans[j] == found[j]);
            } else {
                assert(spans[j] == rest[j - found.len()]);
                let opened = choose|at: int|
                    end + 1 <= at && is_in_call(text, prefix, spans[j], at);
                assert(is_in_call(text, prefix, spans[j], opened));
            }
        }
    }
}

/// Whether each of the first `limit` literals of the call that the prefix at
/// `at` opens is among the spans.
pub open spec fn call_is_reported(
    text: Seq<u8>,
    prefix: Seq<u8>,
    limit: nat,
    spans: Seq<(int, int)>,
    at: int,
) -> bool {
    let start = at + prefix.len();
    let literals = literal_spans(text, start, call_end(text, start), limit);
    forall|i: int| 0 <= i < literals.len() ==> spans.contains(#[trigger] literals[i])
}

/// Whether the prefix at `at` starts within a call that the same prefix opens
/// before it, at or after `from`.
pub open spec fn is_within_call(text: Seq<u8>, prefix: Seq<u8>, from: int, at: int) -> bool {
    exists|before: int|
        from <= before < at <= call_end(text, before + prefix.len()) && #[trigger] occurs_at(
            text,
            prefix,
            before,
        )
}

/// The first literals of every call that a prefix opens are reported, unless
/// the call starts within an earlier one.
pub proof fn law_call_arguments_are_complete(
    text: Seq<u8>,
    prefix: Seq<u8>,
    limit: nat,
    from: int,
    at: int,
)
    requires
        0 <= from <= at,
        occurs_at(text, prefix, at),
    ensures
        call_is_reported(text, prefix, limit, call_spans(text, prefix, limit, from), at)
            || is_within_call(text, prefix, from, at),
    decreases text.len() + 1 - from,
{
    let spans = call_spans(text, prefix, limit, from);
    lemma_first_occurrence(text, prefix, from);
    let first = first_occurrence(text, prefix, from)->0;
    let start = first + prefix.len();
    lemma_first_byte(text, CLOSE_PAREN, start, text.len() as int);
    let end = call_end(text, start);
    let found = literal_spans(text, start, end, limit);
    let rest = call_spans(text, prefix, limit, end + 1);
    if at == first {
        assert forall|i: int| 0 <= i < found.len() implies spans.contains(#[trigger] found[i]) by {
            assert(spans[i] == found[i]);
        }
    } else if at <= end {
        assert(occurs_at(text, prefix, first));
    } else {
        law_call_arguments_are_complete(text, prefix, limit, end + 1, at);
        if call_is_reported(text, prefix, limit, rest, at) {
            let begin = at + prefix.len();
            let literals = literal_spans(text, begin, call_end(text, begin), limit);
            assert forall|i: int| 0 <= i < literals.len() implies spans.contains(
                #[trigger] literals[i],
            ) by {
                assert(rest.contains(literals[i]));
                let k = choose|k: int| 0 <= k < rest.len() && rest[k] == literals[i];
                assert(spans[found.len() + k] == literals[i]);
            }
        } else {
            let before = choose|before: int|
                end + 1 <= before < at <= call_end(text, before + prefix.len())
                    && #[trigger] occurs_at(text, prefix, before);
            assert(occurs_at(text, prefix, before));
        }
    }
}

/// With a prefix that closes no parenthesis itself, the calls of a text are
/// closed exactly when a closing parenthesis follows each prefix.
pub proof fn law_calls_closed(text: Seq<u8>, prefix: Seq<u8>, from: int)
    requires
        0 <= from,
        !prefix.contains(CLOSE_PAREN),
    ensures
        calls_closed(text, prefix, from) <==> forall|at: int|
            from <= at && #[trigger] occurs_at(text, prefix, at) ==> is_followed_by_close(
                text,
                prefix,
                at,
            ),
    decreases text.len() + 1 - from,
{
    lemma_first_occurrence(text, prefix, from);
    if let Some(first) = first_occurrence(text, prefix, from) {
        let start = first + prefix.len();
        lemma_first_byte(text, CLOSE_PAREN, start, text.len() as int);
        match first_byte(text, CLOSE_PAREN, start, text.len() as int) {
            None => {
                assert(occurs_at(text, prefix, first));
                assert(!is_followed_by_close(text, prefix, first));
            },
            Some(end) => {
                law_calls_closed(text, prefix, end + 1);
                assert forall|at: int|
                    from <= at <= end && #[trigger] occurs_at(
                        text,
                        prefix,
                        at,
                    ) implies is_followed_by_close(text, prefix, at) by {
                    if end < at + prefix.len() {
                        assert(text.subrange(at, at + prefix.len())[end - at] == text[end]);
                        assert(prefix[end - at] == CLOSE_PAREN);
                    }
                    assert(text[end] == CLOSE_PAREN);
                }
            },
        }
    }
}

} // verus!
