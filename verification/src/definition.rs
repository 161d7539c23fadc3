//! Finding where a project defines a word.

use crate::bytes::{
    find, first_occurrence, joined, lemma_ascii_byte_boundaries, lemma_encoding_concatenates,
    lemma_first_occurrence, occurs_at, offset_of, on_boundary, same_text,
};
use crate::engine::{
    documentation_location, engine_detail, engine_documentation, engine_names, first_named,
    DocumentationCandidate,
};
use crate::order::{
    components, lemma_path_before_total, lemma_path_before_transitive, path_before, place_paths,
    PathPart, Place,
};
use crate::position::{
    byte_position, clamped, document_start, location_view, position_at, Location,
    LocationView, Position, Range,
};
use crate::words::{lemma_word_is_ascii, word_at, word_under};
use vstd::prelude::*;
use vstd::utf8::{
    encode_utf8, encode_utf8_valid_utf8, is_ascii_chars, is_ascii_chars_encode_utf8,
};

verus! {

/// The texts that define a word, the most telling first.
pub open spec fn definition_patterns(word: Seq<char>) -> Seq<Seq<char>> {
    seq![
        "class "@ + word,
        "fn "@ + word,
        "signal "@ + word,
        "var "@ + word,
        word + "="@,
        word + " ="@,
    ]
}

/// The offset of the first pattern, from `from` on, that stands in the text:
/// as far behind the start of the pattern as the pattern is longer than the
/// word.
pub open spec fn first_definition(
    text: Seq<u8>,
    patterns: Seq<Seq<char>>,
    word: Seq<char>,
    from: int,
) -> Option<int>
    decreases patterns.len() - from,
{
    if from < 0 || from >= patterns.len() {
        None
    } else {
        match first_occurrence(text, encode_utf8(patterns[from]), 0) {
            Some(at) => Some(at + encode_utf8(patterns[from]).len() - encode_utf8(word).len()),
            None => first_definition(text, patterns, word, from + 1),
        }
    }
}

/// The offset at which a text defines a word.
pub open spec fn defined_at(text: Seq<char>, word: Seq<char>) -> Option<int> {
    first_definition(encode_utf8(text), definition_patterns(word), word, 0)
}

/// The offset at which a text defines a word. A class, function, signal or
/// variable is found at its name. An assignment is found as many bytes into
/// its name as stand behind the name up to and with the equals sign.
pub fn definition_offset(text: &str, word: &str) -> (res: Option<usize>)
    ensures
        offset_of(res) == defined_at(text@, word@),
{
    let mut patterns: Vec<String> = Vec::new();
    patterns.push(joined("class ", word));
    patterns.push(joined("fn ", word));
    patterns.push(joined("signal ", word));
    patterns.push(joined("var ", word));
    patterns.push(joined(word, "="));
    patterns.push(joined(word, " ="));
    let ghost wanted = definition_patterns(word@);
    let bytes = text.as_bytes();
    let end: usize = bytes.len();
    let length: usize = word.as_bytes().len();
    let mut i: usize = 0;
    while i < patterns.len()
        invariant
            bytes@ == encode_utf8(text@),
            end == bytes@.len(),
            length == encode_utf8(word@).len(),
            wanted == definition_patterns(word@),
            patterns@.len() == wanted.len(),
            forall|k: int| 0 <= k < wanted.len() ==> (#[trigger] patterns@[k])@ == wanted[k],
            i <= patterns@.len(),
            defined_at(text@, word@) == first_definition(bytes@, wanted, word@, i as int),
        decreases patterns@.len() - i,
    {
        let pattern = patterns[i].as_str().as_bytes();
        proof {
            assert(pattern@ == encode_utf8(wanted[i as int]));
            lemma_pattern_length(word@, i as int);
            lemma_first_occurrence(bytes@, pattern@, 0);
        }
        if let Some(at) = find(bytes, pattern, 0) {
            return Some(at + (pattern.len() - length));
        }
        i += 1;
    }
    None
}

/// A pattern is longer than the word that it defines, by the text around it.
proof fn lemma_pattern_length(word: Seq<char>, i: int)
    requires
        0 <= i < definition_patterns(word).len(),
    ensures
        encode_utf8(definition_patterns(word)[i]).len() >= encode_utf8(word).len(),
{
    lemma_encoding_concatenates("class "@, word);
    lemma_encoding_concatenates("fn "@, word);
    lemma_encoding_concatenates("signal "@, word);
    lemma_encoding_concatenates("var "@, word);
    lemma_encoding_concatenates(word, "="@);
    lemma_encoding_concatenates(word, " ="@);
}

/// A file of a project in which definitions are looked for.
#[derive(Debug, PartialEq, Eq)]
pub struct SourceFile {
    /// The parts of the path, which decide the order of the files.
    pub path: Vec<PathPart>,
    /// The file name, if it is well-formed text.
    pub name: Option<String>,
    /// The text of the file, if it can be read.
    pub text: Option<String>,
    /// The URI of the file, if it has one.
    pub uri: Option<String>,
}

/// The offset at which a file defines a word.
pub open spec fn file_offset(file: SourceFile, word: Seq<char>) -> Option<int> {
    match file.text {
        Some(text) => defined_at(text@, word),
        None => None,
    }
}

/// Whether a file answers a word: it has that name, or defines it.
pub open spec fn answers(file: SourceFile, word: Seq<char>) -> bool {
    (file.name matches Some(name) && name@ == word) || file_offset(file, word) is Some
}

/// Whether the file at `at` answers the word, and comes before every other file
/// that does, by its path or, if the paths are the same, in the list.
pub open spec fn answers_first(files: Seq<SourceFile>, word: Seq<char>, at: int) -> bool {
    &&& 0 <= at < files.len()
    &&& answers(files[at], word)
    &&& forall|i: int|
        0 <= i < files.len() && i != at && answers(#[trigger] files[i], word) ==> {
            ||| path_before(components(files[at].path@), components(files[i].path@))
            ||| components(files[at].path@) == components(files[i].path@) && at < i
        }
}

/// The place to which a file answers a word: where it defines the word, or its
/// start if only its name is the word.
pub open spec fn answer_location(file: SourceFile, word: Seq<char>) -> Option<LocationView> {
    match file.uri {
        Some(uri) => {
            let range = match file_offset(file, word) {
                Some(offset) => {
                    let position = position_at(file.text->0@, offset);
                    Range { start: position, end: position }
                },
                None => document_start(),
            };
            Some(LocationView { uri: uri@, range })
        },
        None => None,
    }
}

/// Whether the place to which a file answers a word stands between two
/// characters.
pub open spec fn answer_on_boundary(file: SourceFile, word: Seq<char>) -> bool {
    file.uri is Some ==> match file_offset(file, word) {
        Some(offset) => on_boundary(file.text->0@, clamped(file.text->0@, offset)),
        None => true,
    }
}

/// Whether a file answers a word.
fn is_answer(file: &SourceFile, word: &str) -> (res: bool)
    ensures
        res == answers(*file, word@),
{
    let named: bool = match &file.name {
        Some(name) => same_text(name.as_str(), word),
        None => false,
    };
    named || match &file.text {
        Some(text) => definition_offset(text.as_str(), word).is_some(),
        None => false,
    }
}

/// The place to which a file answers a word.
fn answer(file: &SourceFile, word: &str) -> (res: Option<Location>)
    requires
        answer_on_boundary(*file, word@),
    ensures
        location_view(res) == answer_location(*file, word@),
{
    let uri: &String = match &file.uri {
        Some(uri) => uri,
        None => {
            return None;
        },
    };
    let position: Position = match &file.text {
        Some(text) => match definition_offset(text.as_str(), word) {
            Some(offset) => byte_position(text.as_str(), offset),
            None => Position { line: 0, character: 0 },
        },
        None => Position { line: 0, character: 0 },
    };
    Some(Location { uri: uri.clone(), range: Range { start: position, end: position } })
}

/// Whether `best` is the file that answers the word first, or none does.
pub open spec fn is_first_answer(
    files: Seq<SourceFile>,
    word: Seq<char>,
    best: Option<int>,
) -> bool {
    match best {
        Some(at) => answers_first(files, word, at),
        None => forall|i: int| 0 <= i < files.len() ==> !answers(#[trigger] files[i], word),
    }
}

/// The file that answers the word first.
pub open spec fn first_answer(files: Seq<SourceFile>, word: Seq<char>) -> Option<int> {
    choose|best: Option<int>| is_first_answer(files, word, best)
}

/// Where a project defines a word. There are no files if the project cannot be
/// loaded, and no definitions of an empty word.
pub open spec fn definition_location(
    files: Option<&Vec<SourceFile>>,
    word: Seq<char>,
) -> Option<LocationView> {
    if word.len() == 0 {
        None
    } else {
        match files {
            Some(files) => match first_answer(files@, word) {
                Some(at) => answer_location(files@[at], word),
                None => None,
            },
            None => None,
        }
    }
}

/// Whether the place where a project defines a word stands between two
/// characters of its file.
pub open spec fn definition_on_boundary(
    files: Option<&Vec<SourceFile>>,
    word: Seq<char>,
) -> bool {
    word.len() > 0 ==> match files {
        Some(files) => match first_answer(files@, word) {
            Some(at) => answer_on_boundary(files@[at], word),
            None => true,
        },
        None => true,
    }
}

/// The file that answers first among the first `i + 1` files, from the one
/// among the first `i`.
pub open spec fn better_answer(
    files: Seq<SourceFile>,
    word: Seq<char>,
    best: Option<int>,
    i: int,
) -> Option<int> {
    if !answers(files[i], word) {
        best
    } else {
        match best {
            None => Some(i),
            Some(at) => if path_before(components(files[i].path@), components(files[at].path@)) {
                Some(i)
            } else {
                best
            },
        }
    }
}

proof fn lemma_better_answer(
    files: Seq<SourceFile>,
    word: Seq<char>,
    best: Option<int>,
    i: int,
)
    requires
        0 <= i < files.len(),
        is_first_answer(files.take(i), word, best),
    ensures
        is_first_answer(files.take(i + 1), word, better_answer(files, word, best, i)),
{
    let seen = files.take(i);
    let more = files.take(i + 1);
    assert forall|k: int| 0 <= k < i implies #[trigger] more[k] == seen[k] by {}
    assert(more[i] == files[i]);
    if let Some(at) = best {
        let new = components(files[i].path@);
        let old = components(files[at].path@);
        lemma_path_before_total(new, old);
        if answers(files[i], word) && path_before(new, old) {
            assert forall|k: int|
                0 <= k < i && answers(#[trigger] more[k], word) implies path_before(
                new,
                components(more[k].path@),
            ) by {
                if k != at && path_before(old, components(seen[k].path@)) {
                    lemma_path_before_transitive(new, old, components(seen[k].path@));
                }
            }
        }
    }
}

proof fn lemma_first_answer_exists(files: Seq<SourceFile>, word: Seq<char>, n: int) -> (best:
    Option<int>)
    requires
        0 <= n <= files.len(),
    ensures
        is_first_answer(files.take(n), word, best),
    decreases n,
{
    if n == 0 {
        None
    } else {
        let best = lemma_first_answer_exists(files, word, n - 1);
        lemma_better_answer(files, word, best, n - 1);
        better_answer(files, word, best, n - 1)
    }
}

/// Exactly one file answers a word first, if any does; and a word that no file
/// answers has no first answer.
pub proof fn law_first_answer(files: Seq<SourceFile>, word: Seq<char>)
    ensures
        is_first_answer(files, word, first_answer(files, word)),
        forall|best: Option<int>| #[trigger]
            is_first_answer(files, word, best) ==> best == first_answer(files, word),
{
    let found = lemma_first_answer_exists(files, word, files.len() as int);
    assert(files.take(files.len() as int) =~= files);
    assert(is_first_answer(files, word, found));
    let first = first_answer(files, word);
    assert forall|best: Option<int>| #[trigger] is_first_answer(files, word, best) implies best
        == first by {
        if let (Some(a), Some(b)) = (best, first) {
            lemma_path_before_total(components(files[a].path@), components(files[b].path@));
        }
    }
}

/// Where a project defines a word: in the first of its files, in the order of
/// their paths, that has the word as its name or defines it. There are no
/// files if the project cannot be loaded.
pub fn find_definition(files: Option<&Vec<SourceFile>>, word: &str) -> (res: Option<Location>)
    requires
        definition_on_boundary(files, word@),
    ensures
        location_view(res) == definition_location(files, word@),
{
    if word.is_empty() {
        return None;
    }
    let files: &Vec<SourceFile> = match files {
        Some(files) => files,
        None => {
            return None;
        },
    };
    let mut best: Option<usize> = None;
    let mut i: usize = 0;
    while i < files.len()
        invariant
            i <= files@.len(),
            best matches Some(at) ==> at < i,
            is_first_answer(files@.take(i as int), word@, offset_of(best)),
        decreases files@.len() - i,
    {
        proof {
            lemma_better_answer(files@, word@, offset_of(best), i as int);
        }
        if is_answer(&files[i], word) {
            match best {
                None => {
                    best = Some(i);
                },
                Some(at) => {
                    proof {
                        lemma_path_before_total(
                            components(files@[i as int].path@),
                            components(files@[at as int].path@),
                        );
                    }
                    if let Place::Before = place_paths(&files[i].path, &files[at].path) {
                        best = Some(i);
                    }
                },
            }
        }
        i += 1;
    }
    proof {
        assert(files@.take(files@.len() as int) =~= files@);
        law_first_answer(files@, word@);
    }
    match best {
        Some(at) => answer(&files[at], word),
        None => None,
    }
}

/// An offset at which a text defines a word of ASCII characters stands between
/// two characters.
pub proof fn lemma_ascii_definition_on_boundary(text: Seq<char>, word: Seq<char>)
    requires
        word.len() > 0,
        is_ascii_chars(word),
    ensures
        defined_at(text, word) matches Some(offset) ==> 0 <= offset <= encode_utf8(text).len()
            && on_boundary(text, offset),
{
    lemma_ascii_definition_from(text, word, 0);
}

proof fn lemma_ascii_definition_from(text: Seq<char>, word: Seq<char>, from: int)
    requires
        word.len() > 0,
        is_ascii_chars(word),
        0 <= from,
    ensures
        first_definition(encode_utf8(text), definition_patterns(word), word, from) matches Some(
            offset,
        ) ==> 0 <= offset <= encode_utf8(text).len() && on_boundary(text, offset),
    decreases definition_patterns(word).len() - from,
{
    let bytes = encode_utf8(text);
    let patterns = definition_patterns(word);
    if from < patterns.len() {
        let pattern = patterns[from];
        reveal_strlit("class ");
        reveal_strlit("fn ");
        reveal_strlit("signal ");
        reveal_strlit("var ");
        reveal_strlit("=");
        reveal_strlit(" =");
        assert(is_ascii_chars(pattern));
        is_ascii_chars_encode_utf8(pattern);
        is_ascii_chars_encode_utf8(word);
        lemma_first_occurrence(bytes, encode_utf8(pattern), 0);
        match first_occurrence(bytes, encode_utf8(pattern), 0) {
            Some(at) => {
                let offset = at + encode_utf8(pattern).len() - encode_utf8(word).len();
                let i = offset - at;
                assert(bytes.subrange(at, at + encode_utf8(pattern).len())[i] == bytes[offset]);
                assert(pattern[i] as u8 == bytes[offset]);
                encode_utf8_valid_utf8(text);
                lemma_ascii_byte_boundaries(bytes, offset);
            },
            None => {
                lemma_ascii_definition_from(text, word, from + 1);
            },
        }
    }
}

/// Where a project defines a word of ASCII characters, it does so between two
/// characters.
pub proof fn lemma_ascii_definitions_on_boundary(files: Option<&Vec<SourceFile>>, word: Seq<char>)
    requires
        is_ascii_chars(word),
    ensures
        definition_on_boundary(files, word),
{
    if word.len() > 0 {
        if let Some(files) = files {
            if let Some(at) = first_answer(files@, word) {
                if let Some(text) = files@[at].text {
                    lemma_ascii_definition_on_boundary(text@, word);
                }
            }
        }
    }
}

/// Whether one of the patterns that name what they define stands in the text.
pub open spec fn is_declared(text: Seq<char>, word: Seq<char>) -> bool {
    exists|i: int|
        0 <= i < 4 && first_occurrence(
            encode_utf8(text),
            encode_utf8(#[trigger] definition_patterns(word)[i]),
            0,
        ) is Some
}

/// A class, function, signal or variable is found at its name.
pub proof fn law_declaration_is_found_at_its_name(text: Seq<char>, word: Seq<char>)
    requires
        is_declared(text, word),
    ensures
        defined_at(text, word) matches Some(offset) && occurs_at(
            encode_utf8(text),
            encode_utf8(word),
            offset,
        ),
{
    lemma_declared_from(text, word, 0);
}

proof fn lemma_declared_from(text: Seq<char>, word: Seq<char>, from: int)
    requires
        0 <= from < 4,
        exists|i: int|
            from <= i < 4 && first_occurrence(
                encode_utf8(text),
                encode_utf8(#[trigger] definition_patterns(word)[i]),
                0,
            ) is Some,
    ensures
        first_definition(encode_utf8(text), definition_patterns(word), word, from) matches Some(
            offset,
        ) && occurs_at(encode_utf8(text), encode_utf8(word), offset),
    decreases 4 - from,
{
    let bytes = encode_utf8(text);
    let patterns = definition_patterns(word);
    let pattern = encode_utf8(patterns[from]);
    match first_occurrence(bytes, pattern, 0) {
        Some(at) => {
            let before = seq!["class "@, "fn "@, "signal "@, "var "@][from];
            assert(patterns[from] == before + word);
            lemma_encoding_concatenates(before, word);
            lemma_first_occurrence(bytes, pattern, 0);
            let offset = at + encode_utf8(before).len();
            assert(bytes.subrange(offset, offset + encode_utf8(word).len()) =~= encode_utf8(word))
                by {
                assert forall|k: int| 0 <= k < encode_utf8(word).len() implies bytes[offset + k]
                    == encode_utf8(word)[k] by {
                    assert(bytes.subrange(at, at + pattern.len())[encode_utf8(before).len() + k]
                        == pattern[encode_utf8(before).len() + k]);
                }
            }
        },
        None => {
            lemma_declared_from(text, word, from + 1);
        },
    }
}

/// What a project offers to look up definitions in.
#[derive(Debug, PartialEq, Eq)]
pub struct ProjectSources {
    /// Where the engine documentation may be, in the order in which the places
    /// are tried.
    pub documentation: Vec<DocumentationCandidate>,
    /// The files of the project, if it can be loaded.
    pub files: Option<Vec<SourceFile>>,
}

/// The definition of a word: the engine documentation for the name of an
/// engine call, if there is any, and else what a file of the project defines.
pub open spec fn word_definition(sources: ProjectSources, word: Seq<char>) -> Option<
    LocationView,
> {
    if first_named(engine_names(), word, 0) is Some && documentation_location(
        sources.documentation@,
    ) is Some {
        documentation_location(sources.documentation@)
    } else {
        definition_location(
            match sources.files {
                Some(files) => Some(&files),
                None => None,
            },
            word,
        )
    }
}

/// The definition of the word at a position of a text. There is none outside
/// of a project.
pub fn goto_definition(
    text: &str,
    position: Position,
    sources: Option<&ProjectSources>,
) -> (res: Option<Location>)
    ensures
        location_view(res) == match sources {
            Some(sources) => word_definition(*sources, word_under(text@, position)),
            None => None,
        },
{
    let word: String = word_at(text, position);
    let sources: &ProjectSources = match sources {
        Some(sources) => sources,
        None => {
            return None;
        },
    };
    if engine_detail(word.as_str()).is_some() {
        let documentation = engine_documentation(&sources.documentation);
        if documentation.is_some() {
            return documentation;
        }
    }
    let files: Option<&Vec<SourceFile>> = match &sources.files {
        Some(files) => Some(files),
        None => None,
    };
    proof {
        lemma_word_is_ascii(text@, position, word@);
        lemma_ascii_definitions_on_boundary(files, word@);
    }
    find_definition(files, word.as_str())
}

} // verus!
