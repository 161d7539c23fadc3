//! Where a project uses a word, and what renaming the word changes.

use crate::bytes::{lemma_ascii_byte_boundaries, matches_at, occurs_at};
use crate::definition::SourceFile;
use crate::engine::{engine_detail, engine_names, first_named};
use crate::position::{
    byte_range, law_position_round_trip, lemma_offset_on_boundary, lemma_positions_fit, offset_at,
    range_at, range_on_boundaries, Location, LocationView, Position, Range,
};
use crate::words::{
    in_word, is_word_byte, law_word_is_maximal, lemma_word_is_ascii, word_at, word_end, word_start,
    word_under,
};
use vstd::prelude::*;
use vstd::utf8::{
    encode_utf8, encode_utf8_valid_utf8, is_ascii_chars, is_ascii_chars_encode_utf8,
};

verus! {

/// Whether a text uses a word at an offset: the word stands there, and no byte
/// next to it makes it part of a longer one.
pub open spec fn is_use_at(text: Seq<u8>, word: Seq<u8>, at: int) -> bool {
    &&& occurs_at(text, word, at)
    &&& at > 0 ==> !in_word(text[at - 1])
    &&& at + word.len() < text.len() ==> !in_word(text[at + word.len()])
}

/// Whether a text stands right before an offset.
pub open spec fn is_behind(text: Seq<u8>, keyword: Seq<char>, at: int) -> bool {
    occurs_at(text, encode_utf8(keyword), at - encode_utf8(keyword).len())
}

/// Whether what stands at an offset is declared there, as a class, a function,
/// a signal or a variable.
pub open spec fn is_declaration_at(text: Seq<u8>, at: int) -> bool {
    ||| is_behind(text, "class "@, at)
    ||| is_behind(text, "fn "@, at)
    ||| is_behind(text, "signal "@, at)
    ||| is_behind(text, "var "@, at)
}

/// Whether the use of a word at an offset is wanted: declarations only if they
/// are asked for.
pub open spec fn is_wanted_at(
    text: Seq<u8>,
    word: Seq<u8>,
    with_declarations: bool,
    at: int,
) -> bool {
    is_use_at(text, word, at) && (with_declarations || !is_declaration_at(text, at))
}

/// The parts of a text before the offset `n` at which it uses a word.
pub open spec fn use_ranges(
    text: Seq<char>,
    word: Seq<char>,
    with_declarations: bool,
    n: nat,
) -> Seq<Range>
    decreases n,
{
    if n == 0 {
        Seq::empty()
    } else {
        let before = use_ranges(text, word, with_declarations, (n - 1) as nat);
        if is_wanted_at(encode_utf8(text), encode_utf8(word), with_declarations, n - 1) {
            before.push(range_at(text, n - 1, n - 1 + encode_utf8(word).len()))
        } else {
            before
        }
    }
}

/// The parts of a text at which it uses a word.
pub open spec fn uses(text: Seq<char>, word: Seq<char>, with_declarations: bool) -> Seq<Range> {
    use_ranges(text, word, with_declarations, encode_utf8(text).len())
}

/// Whether a text stands right before an offset.
fn stands_behind(text: &[u8], keyword: &str, at: usize) -> (res: bool)
    requires
        at <= text@.len(),
    ensures
        res == is_behind(text@, keyword@, at as int),
{
    let pattern = keyword.as_bytes();
    pattern.len() <= at && matches_at(text, pattern, at - pattern.len())
}

/// A use of an ASCII word is a range between whole characters.
proof fn lemma_use_on_boundaries(text: Seq<char>, word: Seq<char>, at: int)
    requires
        encode_utf8(text).len() <= usize::MAX,
        word.len() > 0,
        is_ascii_chars(word),
        occurs_at(encode_utf8(text), encode_utf8(word), at),
    ensures
        encode_utf8(word).len() == word.len(),
        range_on_boundaries(text, at, at + encode_utf8(word).len()),
{
    let bytes = encode_utf8(text);
    let pattern = encode_utf8(word);
    let last = pattern.len() - 1;
    is_ascii_chars_encode_utf8(word);
    encode_utf8_valid_utf8(text);
    assert(word[0] as u8 == pattern[0]);
    assert(word[last] as u8 == pattern[last]);
    assert(bytes.subrange(at, at + pattern.len())[0] == bytes[at]);
    assert(bytes.subrange(at, at + pattern.len())[last] == bytes[at + last]);
    lemma_ascii_byte_boundaries(bytes, at);
    lemma_ascii_byte_boundaries(bytes, at + last);
}

/// The parts of a text at which it uses a word of ASCII characters.
fn find_uses(text: &str, word: &str, with_declarations: bool) -> (res: Vec<Range>)
    requires
        word@.len() > 0,
        is_ascii_chars(word@),
    ensures
        res@ == uses(text@, word@, with_declarations),
{
    let bytes = text.as_bytes();
    let pattern = word.as_bytes();
    let length: usize = bytes.len();
    let width: usize = pattern.len();
    let mut out: Vec<Range> = Vec::new();
    let mut at: usize = 0;
    while at < length
        invariant
            bytes@ == encode_utf8(text@),
            pattern@ == encode_utf8(word@),
            length == bytes@.len(),
            width == pattern@.len(),
            word@.len() > 0,
            is_ascii_chars(word@),
            at <= length,
            out@ == use_ranges(text@, word@, with_declarations, at as nat),
        decreases length - at,
    {
        if width <= length - at && matches_at(bytes, pattern, at) {
            let end: usize = at + width;
            let is_whole: bool = (at == 0 || !is_word_byte(bytes[at - 1])) && (end == length
                || !is_word_byte(bytes[end]));
            let is_declared: bool = stands_behind(bytes, "class ", at) || stands_behind(
                bytes,
                "fn ",
                at,
            ) || stands_behind(bytes, "signal ", at) || stands_behind(bytes, "var ", at);
            if is_whole && (with_declarations || !is_declared) {
                proof {
                    lemma_use_on_boundaries(text@, word@, at as int);
                }
                out.push(byte_range(text, at, end));
            }
        }
        at += 1;
    }
    out
}

/// Several locations, with the text of their URIs.
pub open spec fn locations_of(locations: Seq<Location>) -> Seq<LocationView> {
    locations.map_values(|location: Location| location@)
}

/// Where a file uses a word: nowhere if it has no URI or cannot be read.
pub open spec fn file_uses(file: SourceFile, word: Seq<char>, with_declarations: bool) -> Seq<
    Range,
> {
    match (file.uri, file.text) {
        (Some(_), Some(text)) => uses(text@, word, with_declarations),
        _ => Seq::empty(),
    }
}

/// Where the first `n` files use a word.
pub open spec fn files_uses(
    files: Seq<SourceFile>,
    word: Seq<char>,
    with_declarations: bool,
    n: nat,
) -> Seq<LocationView>
    decreases n,
{
    if n == 0 {
        Seq::empty()
    } else {
        let file = files[n - 1];
        files_uses(files, word, with_declarations, (n - 1) as nat) + file_uses(
            file,
            word,
            with_declarations,
        ).map_values(|range: Range| LocationView { uri: file.uri->0@, range })
    }
}

/// Where several files use a word: an empty word is used nowhere.
pub open spec fn references_of(
    files: Seq<SourceFile>,
    word: Seq<char>,
    with_declarations: bool,
) -> Seq<LocationView> {
    if word.len() == 0 {
        Seq::empty()
    } else {
        files_uses(files, word, with_declarations, files.len())
    }
}

/// Where a file uses a word of ASCII characters.
fn find_file_uses(file: &SourceFile, word: &str, with_declarations: bool) -> (res: Vec<Range>)
    requires
        word@.len() > 0,
        is_ascii_chars(word@),
    ensures
        res@ == file_uses(*file, word@, with_declarations),
{
    match (&file.uri, &file.text) {
        (Some(_), Some(text)) => find_uses(text.as_str(), word, with_declarations),
        _ => Vec::new(),
    }
}

/// Adds a location for each of several parts of a file.
fn push_locations(uri: &String, ranges: &Vec<Range>, out: &mut Vec<Location>)
    ensures
        locations_of(final(out)@) == locations_of(old(out)@) + ranges@.map_values(
            |range: Range| LocationView { uri: uri@, range },
        ),
{
    let ghost before = locations_of(out@);
    let ghost all = ranges@.map_values(|range: Range| LocationView { uri: uri@, range });
    let mut i: usize = 0;
    proof {
        assert(before =~= before + all.take(0));
    }
    while i < ranges.len()
        invariant
            i <= ranges@.len(),
            all == ranges@.map_values(|range: Range| LocationView { uri: uri@, range }),
            locations_of(out@) == before + all.take(i as int),
        decreases ranges@.len() - i,
    {
        let ghost prior = locations_of(out@);
        let location = Location { uri: uri.clone(), range: ranges[i] };
        out.push(location);
        proof {
            assert(locations_of(out@) =~= prior.push(location@));
            assert(all.take(i + 1) =~= all.take(i as int).push(all[i as int]));
            assert(before + all.take(i + 1) =~= (before + all.take(i as int)).push(all[i as int]));
        }
        i += 1;
    }
    proof {
        assert(all.take(all.len() as int) =~= all);
    }
}

/// Where several files use the word at a position of a text, in the order of
/// the files.
pub fn references(
    text: &str,
    position: Position,
    files: &Vec<SourceFile>,
    with_declarations: bool,
) -> (res: Vec<Location>)
    ensures
        locations_of(res@) == references_of(
            files@,
            word_under(text@, position),
            with_declarations,
        ),
{
    let word: String = word_at(text, position);
    let mut out: Vec<Location> = Vec::new();
    proof {
        lemma_word_is_ascii(text@, position, word@);
        assert(locations_of(out@) =~= Seq::empty());
    }
    if word.as_str().is_empty() {
        return out;
    }
    let mut i: usize = 0;
    while i < files.len()
        invariant
            word@.len() > 0,
            is_ascii_chars(word@),
            i <= files@.len(),
            locations_of(out@) == files_uses(files@, word@, with_declarations, i as nat),
        decreases files@.len() - i,
    {
        let ranges: Vec<Range> = find_file_uses(&files[i], word.as_str(), with_declarations);
        let ghost prior = locations_of(out@);
        match &files[i].uri {
            Some(uri) => {
                push_locations(uri, &ranges, &mut out);
            },
            None => {},
        }
        proof {
            let file = files@[i as int];
            let more = file_uses(file, word@, with_declarations).map_values(
                |range: Range| LocationView { uri: file.uri->0@, range },
            );
            assert(locations_of(out@) =~= prior + more);
        }
        i += 1;
    }
    out
}

/// A text that replaces a part of a file.
#[derive(Debug, PartialEq, Eq)]
pub struct TextEdit {
    pub range: Range,
    pub new_text: String,
}

/// What is replaced in a file.
#[derive(Debug, PartialEq, Eq)]
pub struct FileEdits {
    pub uri: String,
    pub edits: Vec<TextEdit>,
}

/// A replaced part of a file, with the characters of the new text.
pub struct EditView {
    pub range: Range,
    pub new_text: Seq<char>,
}

/// What is replaced in a file, with the characters of its texts.
pub struct FileEditsView {
    pub uri: Seq<char>,
    pub edits: Seq<EditView>,
}

impl View for TextEdit {
    type V = EditView;

    open spec fn view(&self) -> EditView {
        EditView { range: self.range, new_text: self.new_text@ }
    }
}

impl View for FileEdits {
    type V = FileEditsView;

    open spec fn view(&self) -> FileEditsView {
        FileEditsView {
            uri: self.uri@,
            edits: self.edits@.map_values(|edit: TextEdit| edit@),
        }
    }
}

/// What is replaced in several files, with the characters of its texts.
pub open spec fn edits_of(files: Seq<FileEdits>) -> Seq<FileEditsView> {
    files.map_values(|file: FileEdits| file@)
}

/// A replacement of each of several parts of a file by the same text.
pub open spec fn replaced(ranges: Seq<Range>, new_text: Seq<char>) -> Seq<EditView> {
    ranges.map_values(|range: Range| EditView { range, new_text })
}

/// What renaming a word replaces in the first `n` files: each use of the word,
/// declared or not. A file that does not use it is left out.
pub open spec fn files_edits(
    files: Seq<SourceFile>,
    word: Seq<char>,
    new_name: Seq<char>,
    n: nat,
) -> Seq<FileEditsView>
    decreases n,
{
    if n == 0 {
        Seq::empty()
    } else {
        let before = files_edits(files, word, new_name, (n - 1) as nat);
        let ranges = file_uses(files[n - 1], word, true);
        if ranges.len() == 0 {
            before
        } else {
            before.push(
                FileEditsView { uri: files[n - 1].uri->0@, edits: replaced(ranges, new_name) },
            )
        }
    }
}

/// Whether a text can be the name of something: it is a word.
pub open spec fn is_name(name: Seq<char>) -> bool {
    &&& name.len() > 0
    &&& forall|i: int|
        0 <= i < encode_utf8(name).len() ==> in_word(#[trigger] encode_utf8(name)[i])
}

/// Whether a word can be renamed: it is not empty, and does not name a call of
/// the engine.
pub open spec fn is_renameable(word: Seq<char>) -> bool {
    word.len() > 0 && first_named(engine_names(), word, 0) is None
}

/// Whether a text can be the name of something.
pub fn is_valid_name(name: &str) -> (res: bool)
    ensures
        res == is_name(name@),
{
    let bytes = name.as_bytes();
    let mut i: usize = 0;
    while i < bytes.len()
        invariant
            bytes@ == encode_utf8(name@),
            i <= bytes@.len(),
            forall|k: int| 0 <= k < i ==> in_word(#[trigger] bytes@[k]),
        decreases bytes@.len() - i,
    {
        if !is_word_byte(bytes[i]) {
            return false;
        }
        i += 1;
    }
    !name.is_empty()
}

/// A replacement of each of several parts of a file by the same text.
fn replace_all(ranges: &Vec<Range>, new_text: &str) -> (res: Vec<TextEdit>)
    ensures
        res@.map_values(|edit: TextEdit| edit@) == replaced(ranges@, new_text@),
{
    let mut out: Vec<TextEdit> = Vec::new();
    let ghost all = replaced(ranges@, new_text@);
    let mut i: usize = 0;
    while i < ranges.len()
        invariant
            i <= ranges@.len(),
            all == replaced(ranges@, new_text@),
            out@.len() == i,
            forall|k: int| 0 <= k < i ==> (#[trigger] out@[k])@ == all[k],
        decreases ranges@.len() - i,
    {
        out.push(TextEdit { range: ranges[i], new_text: new_text.to_owned() });
        i += 1;
    }
    proof {
        assert(out@.map_values(|edit: TextEdit| edit@) =~= all);
    }
    out
}

/// What renaming the word at a position of a text replaces in several files.
/// Nothing can be renamed to what is not a word, nor an engine call.
pub fn rename(
    text: &str,
    position: Position,
    new_name: &str,
    files: &Vec<SourceFile>,
) -> (res: Option<Vec<FileEdits>>)
    ensures
        ({
            let word = word_under(text@, position);
            match res {
                Some(edits) => {
                    &&& is_renameable(word)
                    &&& is_name(new_name@)
                    &&& edits_of(edits@) == files_edits(files@, word, new_name@, files@.len())
                },
                None => !is_renameable(word) || !is_name(new_name@),
            }
        }),
{
    let word: String = word_at(text, position);
    if word.as_str().is_empty() || engine_detail(word.as_str()).is_some() || !is_valid_name(
        new_name,
    ) {
        return None;
    }
    let mut out: Vec<FileEdits> = Vec::new();
    proof {
        lemma_word_is_ascii(text@, position, word@);
        assert(edits_of(out@) =~= Seq::empty());
    }
    let mut i: usize = 0;
    while i < files.len()
        invariant
            word@.len() > 0,
            is_ascii_chars(word@),
            i <= files@.len(),
            edits_of(out@) == files_edits(files@, word@, new_name@, i as nat),
        decreases files@.len() - i,
    {
        let ranges: Vec<Range> = find_file_uses(&files[i], word.as_str(), true);
        let ghost prior = edits_of(out@);
        match &files[i].uri {
            Some(uri) => {
                if ranges.len() > 0 {
                    let file = FileEdits {
                        uri: uri.clone(),
                        edits: replace_all(&ranges, new_name),
                    };
                    out.push(file);
                    proof {
                        assert(edits_of(out@) =~= prior.push(file@));
                    }
                }
            },
            None => {},
        }
        i += 1;
    }
    Some(out)
}

/// Each wanted use of a word in a text is among the parts that are found.
pub proof fn law_uses_are_complete(
    text: Seq<char>,
    word: Seq<char>,
    with_declarations: bool,
    n: nat,
    at: int,
)
    requires
        0 <= at < n,
        is_wanted_at(encode_utf8(text), encode_utf8(word), with_declarations, at),
    ensures
        use_ranges(text, word, with_declarations, n).contains(
            range_at(text, at, at + encode_utf8(word).len()),
        ),
    decreases n,
{
    let found = use_ranges(text, word, with_declarations, n);
    let before = use_ranges(text, word, with_declarations, (n - 1) as nat);
    let range = range_at(text, at, at + encode_utf8(word).len());
    if at == n - 1 {
        assert(found[before.len() as int] == range);
    } else {
        law_uses_are_complete(text, word, with_declarations, (n - 1) as nat, at);
        let k = choose|k: int| 0 <= k < before.len() && before[k] == range;
        assert(found[k] == range);
    }
}

/// Each part that is found is a wanted use of the word.
pub proof fn law_only_uses_are_found(
    text: Seq<char>,
    word: Seq<char>,
    with_declarations: bool,
    n: nat,
    k: int,
)
    requires
        0 <= k < use_ranges(text, word, with_declarations, n).len(),
    ensures
        exists|at: int|
            0 <= at < n && #[trigger] is_wanted_at(
                encode_utf8(text),
                encode_utf8(word),
                with_declarations,
                at,
            ) && use_ranges(text, word, with_declarations, n)[k] == range_at(
                text,
                at,
                at + encode_utf8(word).len(),
            ),
    decreases n,
{
    if n > 0 {
        let found = use_ranges(text, word, with_declarations, n);
        let before = use_ranges(text, word, with_declarations, (n - 1) as nat);
        if k < before.len() {
            law_only_uses_are_found(text, word, with_declarations, (n - 1) as nat, k);
            assert(found[k] == before[k]);
        } else {
            assert(is_wanted_at(
                encode_utf8(text),
                encode_utf8(word),
                with_declarations,
                n - 1,
            ));
        }
    }
}

/// Each use of a word in each of the files is among the references.
pub proof fn law_references_cover_every_file(
    files: Seq<SourceFile>,
    word: Seq<char>,
    with_declarations: bool,
    n: nat,
    i: int,
    k: int,
)
    requires
        0 <= i < n <= files.len(),
        0 <= k < file_uses(files[i], word, with_declarations).len(),
    ensures
        files_uses(files, word, with_declarations, n).contains(
            LocationView {
                uri: files[i].uri->0@,
                range: file_uses(files[i], word, with_declarations)[k],
            },
        ),
    decreases n,
{
    let all = files_uses(files, word, with_declarations, n);
    let before = files_uses(files, word, with_declarations, (n - 1) as nat);
    let wanted = LocationView {
        uri: files[i].uri->0@,
        range: file_uses(files[i], word, with_declarations)[k],
    };
    if i == n - 1 {
        assert(all[before.len() + k] == wanted);
    } else {
        law_references_cover_every_file(files, word, with_declarations, (n - 1) as nat, i, k);
        let j = choose|j: int| 0 <= j < before.len() && before[j] == wanted;
        assert(all[j] == wanted);
    }
}

/// Two uses of a word stand apart, so that no replacement touches another.
pub proof fn law_uses_stand_apart(text: Seq<u8>, word: Seq<u8>, a: int, b: int)
    requires
        word.len() > 0,
        forall|i: int| 0 <= i < word.len() ==> in_word(#[trigger] word[i]),
        is_use_at(text, word, a),
        is_use_at(text, word, b),
        a < b,
    ensures
        a + word.len() < b,
{
    if b < a + word.len() {
        assert(text.subrange(a, a + word.len())[b - 1 - a] == text[b - 1]);
        assert(in_word(word[b - 1 - a]));
    } else if b == a + word.len() {
        assert(text.subrange(b, b + word.len())[0] == text[b]);
        assert(in_word(word[0]));
    }
}

/// The range of a use gives back the offsets at which the word starts and ends,
/// so that what is replaced there is the word and nothing else.
pub proof fn law_use_range_covers_the_word(text: Seq<char>, word: Seq<char>, at: int)
    requires
        encode_utf8(text).len() <= u32::MAX,
        word.len() > 0,
        is_ascii_chars(word),
        is_use_at(encode_utf8(text), encode_utf8(word), at),
    ensures
        ({
            let end = at + encode_utf8(word).len();
            let range = range_at(text, at, end);
            offset_at(text, range.start) == at && offset_at(text, range.end) == end
        }),
{
    let end = at + encode_utf8(word).len();
    lemma_use_on_boundaries(text, word, at);
    lemma_positions_fit(text, at);
    lemma_positions_fit(text, end);
    law_position_round_trip(text, at);
    law_position_round_trip(text, end);
}

/// The word at a position is used where it stands: the place from which its
/// uses are asked for is one of them.
pub proof fn law_word_is_used_at_its_position(text: Seq<char>, position: Position)
    ensures
        ({
            let bytes = encode_utf8(text);
            let offset = offset_at(text, position);
            is_use_at(
                bytes,
                bytes.subrange(word_start(bytes, offset), word_end(bytes, offset)),
                word_start(bytes, offset),
            )
        }),
{
    lemma_offset_on_boundary(text, position);
    law_word_is_maximal(encode_utf8(text), offset_at(text, position));
}

} // verus!
