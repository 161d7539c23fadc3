//! What the server knows of the engine itself.

use crate::bytes::{matches_at, same_text, DOT};
use crate::position::{document_start, location_view, Location, LocationView, Position, Range};
use vstd::prelude::*;
use vstd::utf8::{encode_utf8, is_ascii_chars, is_ascii_chars_encode_utf8};

verus! {

/// The engine calls that are completed and explained, each with its result
/// type and what it does.
pub const ENGINE_SYMBOLS: [(&'static str, &'static str); 15] = [
    ("Input.action_held", "bool — named action is currently held"),
    ("Input.action_pressed", "bool — named action became held this frame"),
    ("Input.action_released", "bool — named action was released this frame"),
    ("Input.action_axis", "i16 — positive action minus negative action"),
    ("Physics.hit", "bool — deterministic AABB overlap query"),
    ("Physics.move_x", "i16 — fixed-tick AABB slide on the X axis"),
    ("ProjectSave.valid", "bool — validate the generated KSAV record"),
    ("ProjectSave.compatible", "bool — test schema/version compatibility"),
    ("Audio.tone", "void — submit a lightweight tone command"),
    ("Audio.stop", "void — stop platform audio"),
    ("Draw.sprite", "void — draw a packed sprite"),
    ("Draw.sprite_region", "void — draw a packed sprite region"),
    ("Draw.sprite_frame", "void — draw a spritesheet frame"),
    ("Draw.tilemap", "void — draw a packed CSV tilemap"),
    ("Draw.camera", "void — set the integer 2D camera offset"),
];

/// The names of the engine calls.
pub open spec fn engine_names() -> Seq<Seq<char>> {
    ENGINE_SYMBOLS@.map_values(|symbol: (&'static str, &'static str)| symbol.0@)
}

/// Where the last segment of a dotted name starts.
pub open spec fn last_segment_start(name: Seq<u8>) -> int
    decreases name.len(),
{
    if name.len() == 0 || name.last() == DOT {
        name.len() as int
    } else {
        last_segment_start(name.drop_last())
    }
}

/// The last segment of a dotted name: all of it if it has no dot.
pub open spec fn last_segment(name: Seq<u8>) -> Seq<u8> {
    name.subrange(last_segment_start(name), name.len() as int)
}

/// Whether a word names a label: it is the label, or its last segment.
pub open spec fn names(label: Seq<char>, word: Seq<char>) -> bool {
    word == label || last_segment(encode_utf8(label)) == encode_utf8(word)
}

/// The first of the labels, from `from` on, that the word names.
pub open spec fn first_named(labels: Seq<Seq<char>>, word: Seq<char>, from: int) -> Option<int>
    decreases labels.len() - from,
{
    if from < 0 || from >= labels.len() {
        None
    } else if names(labels[from], word) {
        Some(from)
    } else {
        first_named(labels, word, from + 1)
    }
}

/// The first label that a word names is named by it and no earlier one is, and
/// there is none exactly when the word names none of the labels.
pub proof fn lemma_first_named(labels: Seq<Seq<char>>, word: Seq<char>, from: int)
    requires
        0 <= from,
    ensures
        match first_named(labels, word, from) {
            Some(at) => {
                &&& from <= at < labels.len()
                &&& names(labels[at], word)
                &&& forall|i: int| from <= i < at ==> !names(#[trigger] labels[i], word)
            },
            None => forall|i: int| from <= i < labels.len() ==> !names(#[trigger] labels[i], word),
        },
    decreases labels.len() - from,
{
    if from < labels.len() && !names(labels[from], word) {
        lemma_first_named(labels, word, from + 1);
    }
}

/// The last segment starts within the name.
pub proof fn lemma_last_segment_bounds(name: Seq<u8>)
    ensures
        0 <= last_segment_start(name) <= name.len(),
    decreases name.len(),
{
    if name.len() > 0 && name.last() != DOT {
        lemma_last_segment_bounds(name.drop_last());
    }
}

/// Whether a word names a label.
pub fn is_named(label: &str, word: &str) -> (res: bool)
    ensures
        res == names(label@, word@),
{
    if same_text(word, label) {
        return true;
    }
    let name = label.as_bytes();
    let wanted = word.as_bytes();
    let mut start: usize = name.len();
    proof {
        assert(name@.take(name@.len() as int) =~= name@);
    }
    while start > 0 && name[start - 1] != DOT
        invariant
            start <= name@.len(),
            last_segment_start(name@) == last_segment_start(name@.take(start as int)),
        decreases start,
    {
        proof {
            assert(name@.take(start as int).drop_last() =~= name@.take(start - 1));
        }
        start -= 1;
    }
    name.len() - start == wanted.len() && matches_at(name, wanted, start)
}

/// What the engine call does that a word names, by its full name or by the
/// part behind its last dot.
pub fn engine_detail(word: &str) -> (res: Option<&'static str>)
    ensures
        match first_named(engine_names(), word@, 0) {
            Some(at) => res matches Some(detail) && detail@ == ENGINE_SYMBOLS@[at].1@,
            None => res is None,
        },
{
    let mut i: usize = 0;
    proof {
        lemma_first_named(engine_names(), word@, 0);
    }
    while i < ENGINE_SYMBOLS.len()
        invariant
            i <= ENGINE_SYMBOLS.len(),
            first_named(engine_names(), word@, 0) == first_named(engine_names(), word@, i as int),
        decreases ENGINE_SYMBOLS.len() - i,
    {
        assert(engine_names()[i as int] == ENGINE_SYMBOLS@[i as int].0@);
        if is_named(ENGINE_SYMBOLS[i].0, word) {
            return Some(ENGINE_SYMBOLS[i].1);
        }
        i += 1;
    }
    None
}

/// A place where the engine documentation may be: in the project directory or
/// one that holds it.
#[derive(Debug, PartialEq, Eq)]
pub struct DocumentationCandidate {
    /// Whether there is a file.
    pub is_file: bool,
    /// The URI of the file, if it has one.
    pub uri: Option<String>,
}

/// The first candidate, from `from` on, that is a file.
pub open spec fn first_file(candidates: Seq<DocumentationCandidate>, from: int) -> Option<int>
    decreases candidates.len() - from,
{
    if from < 0 || from >= candidates.len() {
        None
    } else if candidates[from].is_file {
        Some(from)
    } else {
        first_file(candidates, from + 1)
    }
}

/// The start of the engine documentation that is found first, going outwards
/// from the project directory.
pub open spec fn documentation_location(candidates: Seq<DocumentationCandidate>) -> Option<
    LocationView,
> {
    match first_file(candidates, 0) {
        Some(at) => match candidates[at].uri {
            Some(uri) => Some(LocationView { uri: uri@, range: document_start() }),
            None => None,
        },
        None => None,
    }
}

/// The start of the engine documentation. The candidates are given in the
/// order in which they are tried; only the first that is a file counts.
pub fn engine_documentation(candidates: &Vec<DocumentationCandidate>) -> (res: Option<Location>)
    ensures
        location_view(res) == documentation_location(candidates@),
{
    let mut i: usize = 0;
    while i < candidates.len()
        invariant
            i <= candidates@.len(),
            first_file(candidates@, 0) == first_file(candidates@, i as int),
        decreases candidates@.len() - i,
    {
        if candidates[i].is_file {
            return match &candidates[i].uri {
                Some(uri) => Some(
                    Location {
                        uri: uri.clone(),
                        range: Range {
                            start: Position { line: 0, character: 0 },
                            end: Position { line: 0, character: 0 },
                        },
                    },
                ),
                None => None,
            };
        }
        i += 1;
    }
    None
}

/// The names of the engine calls are ASCII and dotted, and no two have the same
/// length, first and last character.
proof fn lemma_engine_name(i: int)
    requires
        0 <= i < ENGINE_SYMBOLS@.len(),
    ensures
        ({
            let name = engine_names()[i];
            &&& is_ascii_chars(name)
            &&& name.contains('.')
            &&& name.len() == seq![
                17nat, 20, 21, 17, 11, 14, 17, 22, 10, 10, 11, 18, 17, 12, 11,
            ][i]
            &&& name[0] == seq![
                'I', 'I', 'I', 'I', 'P', 'P', 'P', 'P', 'A', 'A', 'D', 'D', 'D', 'D', 'D',
            ][i]
            &&& name.last() == seq![
                'd', 'd', 'd', 's', 't', 'x', 'd', 'e', 'e', 'p', 'e', 'n', 'e', 'p', 'a',
            ][i]
        }),
{
    reveal_strlit("Input.action_held");
    reveal_strlit("Input.action_pressed");
    reveal_strlit("Input.action_released");
    reveal_strlit("Input.action_axis");
    reveal_strlit("Physics.hit");
    reveal_strlit("Physics.move_x");
    reveal_strlit("ProjectSave.valid");
    reveal_strlit("ProjectSave.compatible");
    reveal_strlit("Audio.tone");
    reveal_strlit("Audio.stop");
    reveal_strlit("Draw.sprite");
    reveal_strlit("Draw.sprite_region");
    reveal_strlit("Draw.sprite_frame");
    reveal_strlit("Draw.tilemap");
    reveal_strlit("Draw.camera");
    let name = engine_names()[i];
    let dot = seq![
        5int, 5, 5, 5, 7, 7, 11, 11, 5, 5, 4, 4, 4, 4, 4,
    ][i];
    assert(name == ENGINE_SYMBOLS@[i].0@);
    assert(name[dot] == '.');
}

/// No two engine calls have the same name.
pub proof fn lemma_engine_names_distinct(i: int, j: int)
    requires
        0 <= i < ENGINE_SYMBOLS@.len(),
        0 <= j < ENGINE_SYMBOLS@.len(),
        i != j,
    ensures
        engine_names()[i] != engine_names()[j],
{
    lemma_engine_name(i);
    lemma_engine_name(j);
}

/// The last segment of a name has no dot.
pub proof fn lemma_last_segment_has_no_dot(name: Seq<u8>)
    ensures
        forall|i: int| last_segment_start(name) <= i < name.len() ==> name[i] != DOT,
    decreases name.len(),
{
    if name.len() > 0 && name.last() != DOT {
        let rest = name.drop_last();
        lemma_last_segment_has_no_dot(rest);
        lemma_last_segment_bounds(rest);
        assert forall|i: int| last_segment_start(name) <= i < name.len() implies name[i] != DOT by {
            if i < rest.len() {
                assert(rest[i] == name[i]);
            }
        }
    }
}

/// The full name of an engine call names that call and none before it.
pub proof fn lemma_engine_name_found(i: int)
    requires
        0 <= i < ENGINE_SYMBOLS@.len(),
    ensures
        first_named(engine_names(), engine_names()[i], 0) == Some(i),
{
    let word = engine_names()[i];
    lemma_engine_name(i);
    is_ascii_chars_encode_utf8(word);
    let dot = choose|k: int| 0 <= k < word.len() && word[k] == '.';
    let bytes = encode_utf8(word);
    assert(word[dot] as u8 == bytes[dot]);
    assert forall|k: int| 0 <= k < i implies !names(#[trigger] engine_names()[k], word) by {
        lemma_engine_names_distinct(k, i);
        let label = encode_utf8(engine_names()[k]);
        lemma_last_segment_bounds(label);
        lemma_last_segment_has_no_dot(label);
        if last_segment(label) == bytes {
            assert(last_segment(label)[dot] == label[last_segment_start(label) + dot]);
        }
    }
    lemma_first_named(engine_names(), word, 0);
}

} // verus!
