//! Laws of explaining words, and of finding where they are defined.

use crate::bytes::{
    first_occurrence, lemma_ascii_byte_boundaries, lemma_encoding_concatenates, lemma_same_encoding,
    DOT,
};
use crate::completion::{
    detail_of, project_detail_of, project_items, text_of, ItemView, Project,
};
use crate::definition::{
    answers, answers_first, defined_at, definition_location, definition_patterns, first_definition,
    is_first_answer, law_first_answer, word_definition, ProjectSources, SourceFile,
};
use crate::engine::{
    documentation_location, engine_names, first_file, first_named, last_segment,
    last_segment_start, lemma_first_named, lemma_last_segment_has_no_dot,
    names, DocumentationCandidate, ENGINE_SYMBOLS,
};
use crate::laws::texts::{law_search, stands_at};
use crate::order::{components, path_before};
use crate::position::{
    chars_before, lemma_boundary_index, lemma_encoding_step, location_view, position_at, Location,
    Position,
};
use vstd::prelude::*;
use vstd::utf8::{encode_scalar, encode_utf8, encode_utf8_valid_utf8};

verus! {

/// Whether a word calls a label: it is the label, or what follows the last dot
/// of the label.
pub open spec fn calls(word: Seq<char>, label: Seq<char>) -> bool {
    ||| word == label
    ||| {
        let dot = label.len() - word.len() - 1;
        &&& dot >= 0
        &&& label[dot] == '.'
        &&& label.skip(dot + 1) == word
        &&& !word.contains('.')
    }
}

/// The last byte of a character is a dot only if the character is.
proof fn lemma_dot_character(c: char)
    ensures
        encode_scalar(c as u32).len() > 0,
        encode_scalar(c as u32).last() == DOT <==> c == '.',
        c == '.' ==> encode_scalar(c as u32) == seq![DOT],
        c != '.' ==> forall|i: int|
            0 <= i < encode_scalar(c as u32).len() ==> #[trigger] encode_scalar(c as u32)[i] != DOT,
{
    let v = c as u32;
    assert(v <= 0x7f && v != 0x2e ==> (v & 0x7f) as u8 != 0x2eu8) by (bit_vector);
    assert(v == 0x2e ==> (v & 0x7f) as u8 == 0x2eu8) by (bit_vector);
    assert((0xC0u8 | ((v >> 6) & 0x1F) as u8) != 0x2eu8) by (bit_vector);
    assert((0xE0u8 | ((v >> 12) & 0x0F) as u8) != 0x2eu8) by (bit_vector);
    assert((0xF0u8 | ((v >> 18) & 0x7) as u8) != 0x2eu8) by (bit_vector);
    assert((0x80u8 | (v & 0x3F) as u8) != 0x2eu8) by (bit_vector);
    assert((0x80u8 | ((v >> 6) & 0x3F) as u8) != 0x2eu8) by (bit_vector);
    assert((0x80u8 | ((v >> 12) & 0x3F) as u8) != 0x2eu8) by (bit_vector);
    if c == '.' {
        assert(encode_scalar(v) =~= seq![DOT]);
    }
}

/// A text holds a dot exactly when its encoding does.
proof fn lemma_dots(chars: Seq<char>)
    ensures
        chars.contains('.') <==> encode_utf8(chars).contains(DOT),
    decreases chars.len(),
{
    if chars.len() > 0 {
        let n = chars.len() - 1;
        let before = chars.drop_last();
        let c = chars.last();
        lemma_dots(before);
        lemma_dot_character(c);
        lemma_encoding_step(chars, n);
        assert(chars.take(n) =~= before);
        assert(chars.take(n + 1) =~= chars);
        let head = encode_utf8(before);
        let tail = encode_scalar(c as u32);
        let all = encode_utf8(chars);
        if chars.contains('.') {
            let k = choose|k: int| 0 <= k < chars.len() && chars[k] == '.';
            if k < n {
                assert(before[k] == '.');
                let j = choose|j: int| 0 <= j < head.len() && head[j] == DOT;
                assert(all[j] == DOT);
            } else {
                assert(all[head.len() as int] == tail[0]);
            }
        }
        if all.contains(DOT) {
            let j = choose|j: int| 0 <= j < all.len() && all[j] == DOT;
            if j < head.len() {
                assert(head[j] == DOT);
                let k = choose|k: int| 0 <= k < before.len() && before[k] == '.';
                assert(chars[k] == '.');
            } else {
                assert(tail[j - head.len()] == DOT);
                assert(chars[n] == '.');
            }
        }
    }
}

/// The last segment of what ends in a dot and bytes without one are those.
proof fn lemma_segment_behind_dot(head: Seq<u8>, tail: Seq<u8>)
    requires
        !tail.contains(DOT),
        head.len() > 0,
        head.last() == DOT,
    ensures
        last_segment_start(head + tail) == head.len(),
    decreases tail.len(),
{
    if tail.len() == 0 {
        assert(head + tail =~= head);
    } else {
        let rest = tail.drop_last();
        assert((head + tail).drop_last() =~= head + rest);
        assert((head + tail).last() == tail[tail.len() - 1]);
        assert(tail.contains(tail[tail.len() - 1]));
        if rest.contains(DOT) {
            let k = choose|k: int| 0 <= k < rest.len() && rest[k] == DOT;
            assert(tail[k] == DOT);
        }
        lemma_segment_behind_dot(head, rest);
    }
}

/// A last segment that is not all of a name starts behind a dot.
proof fn lemma_dot_before_segment(name: Seq<u8>)
    ensures
        0 <= last_segment_start(name) <= name.len(),
        last_segment_start(name) > 0 ==> name[last_segment_start(name) - 1] == DOT,
    decreases name.len(),
{
    if name.len() > 0 && name.last() != DOT {
        lemma_dot_before_segment(name.drop_last());
        let start = last_segment_start(name);
        if start > 0 {
            assert(name.drop_last()[start - 1] == name[start - 1]);
        }
    }
}

/// A word names a label exactly when it calls it.
pub proof fn law_naming(label: Seq<char>, word: Seq<char>)
    ensures
        names(label, word) <==> calls(word, label),
{
    let bytes = encode_utf8(label);
    let wanted = encode_utf8(word);
    lemma_dots(word);
    if calls(word, label) && word != label {
        let n = label.len() - word.len();
        lemma_dot_character(label[n - 1]);
        lemma_encoding_step(label, n - 1);
        assert(label =~= label.take(n) + label.skip(n));
        lemma_encoding_concatenates(label.take(n), label.skip(n));
        let head = encode_utf8(label.take(n));
        assert(head.last() == DOT);
        lemma_segment_behind_dot(head, wanted);
        assert(last_segment(bytes) =~= wanted);
    }
    if names(label, word) && word != label {
        lemma_dot_before_segment(bytes);
        lemma_last_segment_has_no_dot(bytes);
        let start = last_segment_start(bytes);
        if wanted.contains(DOT) {
            let k = choose|k: int| 0 <= k < wanted.len() && wanted[k] == DOT;
            assert(last_segment(bytes)[k] == bytes[start + k]);
        }
        if start == 0 {
            assert(last_segment(bytes) =~= bytes);
            lemma_same_encoding(label, word);
        } else {
            encode_utf8_valid_utf8(label);
            lemma_ascii_byte_boundaries(bytes, start - 1);
            lemma_boundary_index(label, start);
            let n = chars_before(label, start).len() as int;
            assert(label =~= label.take(n) + label.skip(n));
            lemma_encoding_concatenates(label.take(n), label.skip(n));
            assert(encode_utf8(label.skip(n)) =~= last_segment(bytes));
            lemma_same_encoding(label.skip(n), word);
            if n == 0 {
                assert(label.take(0) =~= Seq::<char>::empty());
            }
            lemma_encoding_step(label, n - 1);
            lemma_dot_character(label[n - 1]);
            let tail = encode_scalar(label[n - 1] as u32);
            let head = encode_utf8(label.take(n - 1));
            assert(encode_utf8(label.take(n))[start - 1] == bytes[start - 1]);
            assert(encode_utf8(label.take(n))[start - 1] == tail.last());
        }
    }
}

/// Whether a label is the first of several that a word calls.
pub open spec fn calls_first(word: Seq<char>, labels: Seq<Seq<char>>, at: int) -> bool {
    &&& 0 <= at < labels.len()
    &&& calls(word, labels[at])
    &&& forall|i: int| 0 <= i < at ==> !calls(word, #[trigger] labels[i])
}

/// The label that is found for a word is the first one that it calls, and none
/// is found only where it calls none.
pub proof fn law_first_label(labels: Seq<Seq<char>>, word: Seq<char>, at: int)
    ensures
        first_named(labels, word, 0) == Some(at) <==> calls_first(word, labels, at),
        first_named(labels, word, 0) is None <==> forall|i: int|
            0 <= i < labels.len() ==> !calls(word, #[trigger] labels[i]),
{
    lemma_first_named(labels, word, 0);
    assert forall|i: int| 0 <= i < labels.len() implies names(labels[i], word) == calls(
        word,
        #[trigger] labels[i],
    ) by {
        law_naming(labels[i], word);
    }
    if let Some(found) = first_named(labels, word, 0) {
        assert(calls(word, labels[found]));
        if calls_first(word, labels, at) && at != found {
            if found < at {
                assert(!calls(word, labels[found]));
            } else {
                assert(!names(labels[at], word));
            }
        }
    }
}

/// The names of the engine calls are those of the symbols.
pub proof fn law_engine_names()
    ensures
        engine_names().len() == ENGINE_SYMBOLS@.len(),
        forall|i: int|
            0 <= i < ENGINE_SYMBOLS@.len() ==> #[trigger] engine_names()[i]
                == ENGINE_SYMBOLS@[i].0@,
{
}

/// The engine calls and what is said of them.
pub proof fn law_engine_symbols()
    ensures
        ENGINE_SYMBOLS@ == seq![
            ("Input.action_held", "bool — named action is currently held"),
            ("Input.action_pressed", "bool — named action became held this frame"),
            ("Input.action_released", "bool — named action was released this frame"),
            ("Input.action_axis", "i16 — positive action minus negative action"),
            ("Physics.hit", "bool — deterministic AABB overlap query"),
            ("Physics.move_x", "i16 — fixed-tick AABB slide on the X axis"),
            ("ProjectSave.valid", "bool — validate the generated KSAV record"),
            ("ProjectSave.compatible", "bool — test schema/version compatibility"),
            ("Audio.tone", "void — submit a lightweight tone command"),
            ("Audio.stop", "void — stop platform audio"),
            ("Draw.sprite", "void — draw a packed sprite"),
            ("Draw.sprite_region", "void — draw a packed sprite region"),
            ("Draw.sprite_frame", "void — draw a spritesheet frame"),
            ("Draw.tilemap", "void — draw a packed CSV tilemap"),
            ("Draw.camera", "void — set the integer 2D camera offset"),
        ],
{
    assert(ENGINE_SYMBOLS@ =~= seq![
        ("Input.action_held", "bool — named action is currently held"),
        ("Input.action_pressed", "bool — named action became held this frame"),
        ("Input.action_released", "bool — named action was released this frame"),
        ("Input.action_axis", "i16 — positive action minus negative action"),
        ("Physics.hit", "bool — deterministic AABB overlap query"),
        ("Physics.move_x", "i16 — fixed-tick AABB slide on the X axis"),
        ("ProjectSave.valid", "bool — validate the generated KSAV record"),
        ("ProjectSave.compatible", "bool — test schema/version compatibility"),
        ("Audio.tone", "void — submit a lightweight tone command"),
        ("Audio.stop", "void — stop platform audio"),
        ("Draw.sprite", "void — draw a packed sprite"),
        ("Draw.sprite_region", "void — draw a packed sprite region"),
        ("Draw.sprite_frame", "void — draw a spritesheet frame"),
        ("Draw.tilemap", "void — draw a packed CSV tilemap"),
        ("Draw.camera", "void — set the integer 2D camera offset"),
    ]);
}

/// A word that calls the engine is explained by what the first engine call does
/// that it calls, whatever the project holds.
pub proof fn law_hover_over_the_engine<P>(
    project: Option<&Project<P>>,
    word: Seq<char>,
    i: int,
    res: Option<String>,
)
    requires
        text_of(res) == detail_of(project, word),
        calls_first(word, engine_names(), i),
    ensures
        res matches Some(said) && said@ == ENGINE_SYMBOLS@[i].1@,
{
    law_first_label(engine_names(), word, i);
}

/// The labels of several completions.
pub open spec fn labels_of(items: Seq<ItemView>) -> Seq<Seq<char>> {
    Seq::new(items.len(), |i: int| items[i].label)
}

/// What a project says of a word is the detail of the first of its completions
/// that the word calls, and nothing if it calls none.
pub proof fn law_project_detail<P>(
    project: Option<&Project<P>>,
    word: Seq<char>,
    k: int,
    res: Option<String>,
)
    requires
        text_of(res) == project_detail_of(project, word),
    ensures
        calls_first(word, labels_of(project_items(project)), k) ==> (res matches Some(said) && said@
            == project_items(project)[k].detail),
        res is None <==> forall|i: int|
            0 <= i < project_items(project).len() ==> !calls(
                word,
                (#[trigger] project_items(project)[i]).label,
            ),
{
    let items = project_items(project);
    let labels = items.map_values(|item: ItemView| item.label);
    assert(labels =~= labels_of(items));
    law_first_label(labels, word, k);
    if res is None {
        assert forall|i: int| 0 <= i < items.len() implies !calls(
            word,
            (#[trigger] items[i]).label,
        ) by {
            assert(labels[i] == items[i].label);
        }
    } else {
        lemma_first_named(labels, word, 0);
        let at = first_named(labels, word, 0)->0;
        law_naming(labels[at], word);
        assert(labels[at] == items[at].label);
    }
}

/// A word that does not call the engine is explained by the detail of the first
/// completion of the project that it calls, and by nothing if it calls none.
pub proof fn law_hover_over_the_project<P>(
    project: Option<&Project<P>>,
    word: Seq<char>,
    k: int,
    res: Option<String>,
)
    requires
        text_of(res) == detail_of(project, word),
        forall|i: int| 0 <= i < engine_names().len() ==> !calls(word, #[trigger] engine_names()[i]),
    ensures
        calls_first(word, labels_of(project_items(project)), k) ==> (res matches Some(said) && said@
            == project_items(project)[k].detail),
        res is None <==> forall|i: int|
            0 <= i < project_items(project).len() ==> !calls(
                word,
                (#[trigger] project_items(project)[i]).label,
            ),
{
    law_first_label(engine_names(), word, 0);
    law_project_detail(project, word, k, res);
}

/// A location that may be absent is taken with all of its fields.
pub proof fn law_location_view(location: Option<Location>)
    ensures
        location is Some <==> location_view(location) is Some,
        location matches Some(found) ==> {
            &&& location_view(location)->0.uri == found.uri@
            &&& location_view(location)->0.range == found.range
        },
{
}

/// The start of a document.
pub open spec fn at_the_start(location: Location) -> bool {
    let start = Position { line: 0, character: 0 };
    location.range.start == start && location.range.end == start
}

/// Whether a place is the first, in the order in which they are tried, at which
/// there is a file.
pub open spec fn is_nearest(candidates: Seq<DocumentationCandidate>, at: int) -> bool {
    &&& 0 <= at < candidates.len()
    &&& candidates[at].is_file
    &&& forall|i: int| 0 <= i < at ==> !(#[trigger] candidates[i]).is_file
}

proof fn lemma_first_file(candidates: Seq<DocumentationCandidate>, from: int)
    requires
        0 <= from,
    ensures
        match first_file(candidates, from) {
            Some(at) => {
                &&& from <= at < candidates.len()
                &&& candidates[at].is_file
                &&& forall|i: int| from <= i < at ==> !(#[trigger] candidates[i]).is_file
            },
            None => forall|i: int|
                from <= i < candidates.len() ==> !(#[trigger] candidates[i]).is_file,
        },
    decreases candidates.len() - from,
{
    if from < candidates.len() && !candidates[from].is_file {
        lemma_first_file(candidates, from + 1);
    }
}

/// The engine documentation is the nearest file, at its start; there is none if
/// there is no file, or the nearest has no URI.
pub proof fn law_documentation(
    candidates: Seq<DocumentationCandidate>,
    at: int,
    res: Option<Location>,
)
    requires
        location_view(res) == documentation_location(candidates),
    ensures
        is_nearest(candidates, at) && candidates[at].uri is Some ==> (res matches Some(found)
            && found.uri@ == candidates[at].uri->0@ && at_the_start(found)),
        is_nearest(candidates, at) && candidates[at].uri is None ==> res is None,
        (forall|i: int| 0 <= i < candidates.len() ==> !(#[trigger] candidates[i]).is_file) ==> res
            is None,
{
    lemma_first_file(candidates, 0);
    if let Some(found) = first_file(candidates, 0) {
        if is_nearest(candidates, at) && at != found {
            if at < found {
                assert(!candidates[at].is_file);
            } else {
                assert(!candidates[found].is_file);
            }
        }
    }
}

/// Going to the definition of a word that calls the engine leads to the nearest
/// engine documentation, whatever the files of the project hold.
pub proof fn law_goto_the_engine(
    sources: ProjectSources,
    word: Seq<char>,
    i: int,
    at: int,
    res: Option<Location>,
)
    requires
        location_view(res) == word_definition(sources, word),
        0 <= i < ENGINE_SYMBOLS@.len(),
        calls(word, ENGINE_SYMBOLS@[i].0@),
        is_nearest(sources.documentation@, at),
        sources.documentation@[at].uri is Some,
    ensures
        res matches Some(found) && found.uri@ == sources.documentation@[at].uri->0@ && at_the_start(
            found,
        ),
{
    assert(calls(word, engine_names()[i]));
    law_first_label(engine_names(), word, 0);
    lemma_first_file(sources.documentation@, 0);
    let found = first_file(sources.documentation@, 0)->0;
    if at < found {
        assert(!sources.documentation@[at].is_file);
    } else if found < at {
        assert(!sources.documentation@[found].is_file);
    }
}

/// Where the engine is not called, or has no documentation, a word leads to
/// where the files of the project define it.
pub proof fn law_goto_the_project(sources: ProjectSources, word: Seq<char>, at: int)
    requires
        (forall|i: int|
            0 <= i < ENGINE_SYMBOLS@.len() ==> !calls(word, (#[trigger] ENGINE_SYMBOLS@[i]).0@)) || (
        forall|i: int|
            0 <= i < sources.documentation@.len() ==> !(#[trigger] sources.documentation@[i]).is_file)
            || (is_nearest(sources.documentation@, at) && sources.documentation@[at].uri is None),
    ensures
        sources.files matches Some(files) ==> word_definition(sources, word)
            == definition_location(Some(&files), word),
        sources.files is None ==> word_definition(sources, word) is None,
{
    assert forall|i: int| 0 <= i < engine_names().len() implies #[trigger] engine_names()[i]
        == ENGINE_SYMBOLS@[i].0@ by {}
    if forall|i: int|
        0 <= i < ENGINE_SYMBOLS@.len() ==> !calls(word, (#[trigger] ENGINE_SYMBOLS@[i]).0@) {
        assert forall|i: int| 0 <= i < engine_names().len() implies !calls(
            word,
            #[trigger] engine_names()[i],
        ) by {
            assert(!calls(word, ENGINE_SYMBOLS@[i].0@));
        }
        law_first_label(engine_names(), word, 0);
    }
    lemma_first_file(sources.documentation@, 0);
    if let Some(found) = first_file(sources.documentation@, 0) {
        if is_nearest(sources.documentation@, at) {
            if at < found {
                assert(!sources.documentation@[at].is_file);
            } else if found < at {
                assert(!sources.documentation@[found].is_file);
            }
        }
    }
}

/// The texts by which a word is defined: the word as a class, a function, a
/// signal or a variable, or a value that is given to it.
pub open spec fn defining(word: Seq<char>, i: int) -> Seq<char> {
    if i == 0 {
        "class "@ + word
    } else if i == 1 {
        "fn "@ + word
    } else if i == 2 {
        "signal "@ + word
    } else if i == 3 {
        "var "@ + word
    } else if i == 4 {
        word + "="@
    } else {
        word + " ="@
    }
}

/// Whether a text holds another.
pub open spec fn holds(text: Seq<char>, part: Seq<char>) -> bool {
    exists|at: int| #[trigger] stands_at(encode_utf8(text), encode_utf8(part), at)
}

/// Whether `at` is the first place at which a text holds another.
pub open spec fn holds_first_at(text: Seq<char>, part: Seq<char>, at: int) -> bool {
    &&& stands_at(encode_utf8(text), encode_utf8(part), at)
    &&& forall|k: int|
        0 <= k < at ==> !#[trigger] stands_at(encode_utf8(text), encode_utf8(part), k)
}

proof fn lemma_definition_from(text: Seq<char>, word: Seq<char>, from: int, i: int, at: int)
    requires
        0 <= from <= i <= 6,
        forall|j: int| from <= j < i ==> !holds(text, #[trigger] defining(word, j)),
        i < 6 ==> holds_first_at(text, defining(word, i), at),
    ensures
        first_definition(encode_utf8(text), definition_patterns(word), word, from) == if i < 6 {
            Some(at + encode_utf8(defining(word, i)).len() - encode_utf8(word).len())
        } else {
            None
        },
    decreases i - from,
{
    if from < 6 {
        let pattern = encode_utf8(defining(word, from));
        assert(definition_patterns(word)[from] == defining(word, from));
        law_search(encode_utf8(text), pattern, 0, at);
        if from < i {
            assert(!holds(text, defining(word, from)));
            assert forall|k: int| 0 <= k implies !#[trigger] stands_at(
                encode_utf8(text),
                pattern,
                k,
            ) by {}
            lemma_definition_from(text, word, from + 1, i, at);
        }
    }
}

/// A text defines a word by the first of the defining texts that it holds, at
/// the first place: as far into that text as it is longer than the word.
pub proof fn law_definition_in_text(text: Seq<char>, word: Seq<char>, i: int, at: int)
    requires
        0 <= i < 6,
        forall|j: int| 0 <= j < i ==> !holds(text, #[trigger] defining(word, j)),
        holds_first_at(text, defining(word, i), at),
    ensures
        defined_at(text, word) == Some(
            at + encode_utf8(defining(word, i)).len() - encode_utf8(word).len(),
        ),
{
    lemma_definition_from(text, word, 0, i, at);
}

/// A text that holds none of the defining texts does not define the word.
pub proof fn law_no_definition_in_text(text: Seq<char>, word: Seq<char>)
    requires
        forall|j: int| 0 <= j < 6 ==> !holds(text, #[trigger] defining(word, j)),
    ensures
        defined_at(text, word) is None,
{
    lemma_definition_from(text, word, 0, 6, 0);
}

/// Whether a file can be gone to for a word: it has that name, or its text holds
/// one of the texts that define the word.
pub open spec fn is_about(file: SourceFile, word: Seq<char>) -> bool {
    ||| file.name matches Some(name) && name@ == word
    ||| file.text matches Some(text) && exists|i: int|
        0 <= i < 6 && holds(text@, #[trigger] defining(word, i))
}

/// A file answers a word exactly when it is about it.
pub proof fn law_answering_file(file: SourceFile, word: Seq<char>)
    ensures
        answers(file, word) <==> is_about(file, word),
{
    if let Some(text) = file.text {
        if exists|i: int| 0 <= i < 6 && holds(text@, #[trigger] defining(word, i)) {
            let i = lemma_least_defining(text@, word, 0);
            let bytes = encode_utf8(text@);
            let pattern = encode_utf8(defining(word, i));
            let some = choose|at: int| #[trigger] stands_at(bytes, pattern, at);
            law_search(bytes, pattern, 0, some);
            let at = first_occurrence(bytes, pattern, 0)->0;
            law_search(bytes, pattern, 0, at);
            law_definition_in_text(text@, word, i, at);
        } else {
            law_no_definition_in_text(text@, word);
        }
    }
}

proof fn lemma_least_defining(text: Seq<char>, word: Seq<char>, from: int) -> (i: int)
    requires
        0 <= from < 6,
        exists|j: int| from <= j < 6 && holds(text, #[trigger] defining(word, j)),
        forall|j: int| 0 <= j < from ==> !holds(text, #[trigger] defining(word, j)),
    ensures
        0 <= i < 6,
        holds(text, defining(word, i)),
        forall|j: int| 0 <= j < i ==> !holds(text, #[trigger] defining(word, j)),
    decreases 6 - from,
{
    if holds(text, defining(word, from)) {
        from
    } else {
        lemma_least_defining(text, word, from + 1)
    }
}

/// Whether a file comes before all others that are about a word, in the order
/// of the paths, and of several with the same path is the first.
pub open spec fn is_gone_to(files: Seq<SourceFile>, word: Seq<char>, at: int) -> bool {
    &&& 0 <= at < files.len()
    &&& is_about(files[at], word)
    &&& forall|i: int|
        0 <= i < files.len() && i != at && is_about(#[trigger] files[i], word) ==> {
            ||| path_before(components(files[at].path@), components(files[i].path@))
            ||| components(files[at].path@) == components(files[i].path@) && at < i
        }
}

/// A word leads to the first file, in the order of the paths, that is about it:
/// to where its text defines the word, or else to its start; and nowhere if
/// that file has no URI.
pub proof fn law_definition_in_files(
    files: &Vec<SourceFile>,
    word: Seq<char>,
    at: int,
    res: Option<Location>,
)
    requires
        location_view(res) == definition_location(Some(files), word),
        word.len() > 0,
        is_gone_to(files@, word, at),
    ensures
        files@[at].uri is None ==> res is None,
        files@[at].uri matches Some(uri) ==> {
            &&& res is Some
            &&& res->0.uri@ == uri@
            &&& res->0.range.start == res->0.range.end
            &&& match files@[at].text {
                Some(text) => match defined_at(text@, word) {
                    Some(offset) => res->0.range.start == position_at(text@, offset),
                    None => at_the_start(res->0),
                },
                None => at_the_start(res->0),
            }
        },
{
    assert forall|i: int| 0 <= i < files@.len() implies answers(#[trigger] files@[i], word)
        == is_about(files@[i], word) by {
        law_answering_file(files@[i], word);
    }
    law_first_answer(files@, word);
    assert(answers_first(files@, word, at));
    assert(is_first_answer(files@, word, Some(at)));
}

/// A word leads nowhere if it is empty, if there are no files, or if none of
/// them is about it.
pub proof fn law_no_definition_in_files(files: Option<&Vec<SourceFile>>, word: Seq<char>)
    requires
        word.len() == 0 || files is None || forall|i: int|
            0 <= i < files->0@.len() ==> !is_about(#[trigger] files->0@[i], word),
    ensures
        definition_location(files, word) is None,
{
    if word.len() > 0 && files is Some {
        let all = files->0@;
        assert forall|i: int| 0 <= i < all.len() implies !answers(#[trigger] all[i], word) by {
            law_answering_file(all[i], word);
        }
        law_first_answer(all, word);
        assert(is_first_answer(all, word, None));
    }
}

} // verus!
