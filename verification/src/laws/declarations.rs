//! Laws of the symbols that scripts declare, of the uses of words, of what is
//! highlighted, and of what is remembered between messages.

use crate::definition::SourceFile;
use crate::engine::{engine_names, ENGINE_SYMBOLS};
use crate::highlight::{
    are_tokens_of, mark_at, marks, sent_tokens, token_type, Mark, SemanticTokenType, TOKEN_TYPES,
};
use crate::laws::answers::{calls, law_first_label};
use crate::laws::texts::{law_occurrence, law_search, stands_at};
use crate::position::{position_at, range_on_boundaries, Location, LocationView, Range};
use crate::references::{
    edits_of, file_uses, files_edits, files_uses, is_name, is_renameable, is_wanted_at,
    locations_of, references_of, use_ranges, uses, FileEdits,
};
use crate::session::{
    after_change, after_close, after_open, last_text, open_text, workspace_root,
};
use crate::symbols::{
    answering, answers_query, declared_symbols, found_symbols, is_declared_at, names_on_boundaries,
    outline, script_on_boundaries, script_symbols, symbols_of, Script, SymbolInformation,
    SymbolKind, SymbolView,
};
use crate::syntax::{Token, TokenKind};
use crate::words::in_word;
use vstd::prelude::*;
use vstd::utf8::{encode_utf8, is_char_boundary};

verus! {

/// Whether indices are those below a bound that are wanted, in their order.
pub open spec fn picks(picked: Seq<int>, bound: int, wanted: spec_fn(int) -> bool) -> bool {
    &&& forall|k: int, l: int|
        0 <= k < l < picked.len() ==> #[trigger] picked[k] < #[trigger] picked[l]
    &&& forall|k: int|
        0 <= k < picked.len() ==> 0 <= #[trigger] picked[k] < bound && wanted(picked[k])
    &&& forall|i: int| 0 <= i < bound && #[trigger] wanted(i) ==> picked.contains(i)
}

/// One index more is picked if it is wanted.
proof fn lemma_picks_step(picked: Seq<int>, bound: int, wanted: spec_fn(int) -> bool)
    requires
        0 <= bound,
        picks(picked, bound, wanted),
    ensures
        wanted(bound) ==> picks(picked.push(bound), bound + 1, wanted),
        !wanted(bound) ==> picks(picked, bound + 1, wanted),
{
    let more = picked.push(bound);
    assert forall|i: int| 0 <= i < bound && #[trigger] wanted(i) implies more.contains(i) by {
        let k = choose|k: int| 0 <= k < picked.len() && picked[k] == i;
        assert(more[k] == i);
    }
    assert(more[picked.len() as int] == bound);
    assert forall|k: int| 0 <= k < more.len() && wanted(bound) implies 0 <= #[trigger] more[k]
        < bound + 1 && wanted(more[k]) by {
        if k < picked.len() {
            assert(more[k] == picked[k]);
        }
    }
    assert forall|k: int, l: int| 0 <= k < l < more.len() implies #[trigger] more[k]
        < #[trigger] more[l] by {
        assert(more[k] == picked[k]);
        if l < picked.len() {
            assert(more[l] == picked[l]);
        }
    }
}

/// A range stands between whole characters when its ends do, each taken back to
/// the end of the text if it is beyond it.
pub proof fn law_range_between_characters(text: Seq<char>, start: int, end: int)
    ensures
        range_on_boundaries(text, start, end) <==> {
            let length = encode_utf8(text).len() as int;
            let last = if end > start {
                end
            } else {
                start + 1
            };
            &&& start < usize::MAX
            &&& is_char_boundary(
                encode_utf8(text),
                if start < length {
                    start
                } else {
                    length
                },
            )
            &&& is_char_boundary(
                encode_utf8(text),
                if last < length {
                    last
                } else {
                    length
                },
            )
        },
{
}

/// Symbols are taken by the characters of their texts, each in its place and
/// with all of its fields.
pub proof fn law_symbols_of(symbols: Seq<SymbolInformation>)
    ensures
        symbols_of(symbols).len() == symbols.len(),
        forall|i: int|
            0 <= i < symbols.len() ==> {
                &&& symbols_of(symbols)[i].name == (#[trigger] symbols[i]).name@
                &&& symbols_of(symbols)[i].kind == symbols[i].kind
                &&& symbols_of(symbols)[i].location.uri == symbols[i].location.uri@
                &&& symbols_of(symbols)[i].location.range == symbols[i].location.range
            },
{
}

/// Whether a keyword declares symbols of a kind.
pub open spec fn declares_kind(keyword: TokenKind, kind: SymbolKind) -> bool {
    match kind {
        SymbolKind::Class => keyword is Class,
        SymbolKind::Function => keyword is Fn,
        SymbolKind::Event => keyword is Signal,
        SymbolKind::Variable => keyword is Var,
    }
}

/// Whether the token at an index is a name that follows `class`, `fn`, `signal`
/// or `var`.
pub open spec fn follows_keyword(tokens: Seq<Token>, i: int) -> bool {
    &&& 0 < i < tokens.len()
    &&& tokens[i].kind is Ident
    &&& tokens[i - 1].kind is Class || tokens[i - 1].kind is Fn || tokens[i - 1].kind is Signal
        || tokens[i - 1].kind is Var
}

/// Whether a symbol is the one whose name is the token at an index.
pub open spec fn is_symbol_of(
    symbol: SymbolView,
    text: Seq<char>,
    tokens: Seq<Token>,
    uri: Seq<char>,
    i: int,
) -> bool {
    let start = tokens[i].start as int;
    let end = tokens[i].end as int;
    &&& tokens[i].kind matches TokenKind::Ident(name) && name@ == symbol.name
    &&& declares_kind(tokens[i - 1].kind, symbol.kind)
    &&& symbol.location.uri == uri
    &&& symbol.location.range.start == position_at(text, start)
    &&& symbol.location.range.end == position_at(
        text,
        if end > start {
            end
        } else {
            start + 1
        },
    )
}

/// The indices of names behind keywords, as what is wanted.
pub open spec fn names_behind_keywords(tokens: Seq<Token>) -> spec_fn(int) -> bool {
    |i: int| follows_keyword(tokens, i)
}

proof fn lemma_outline(text: Seq<char>, tokens: Seq<Token>, n: nat, uri: Seq<char>) -> (picked: Seq<
    int,
>)
    requires
        n < tokens.len(),
    ensures
        picks(picked, n as int + 1, names_behind_keywords(tokens)),
        picked.len() == declared_symbols(text, tokens, n, uri).len(),
        forall|k: int|
            0 <= k < picked.len() ==> is_symbol_of(
                declared_symbols(text, tokens, n, uri)[k],
                text,
                tokens,
                uri,
                #[trigger] picked[k],
            ),
    decreases n,
{
    let wanted = names_behind_keywords(tokens);
    let symbols = declared_symbols(text, tokens, n, uri);
    if n == 0 {
        let picked = Seq::<int>::empty();
        assert forall|i: int| 0 <= i < 1 && #[trigger] wanted(i) implies picked.contains(i) by {}
        picked
    } else {
        let before = lemma_outline(text, tokens, (n - 1) as nat, uri);
        let fewer = declared_symbols(text, tokens, (n - 1) as nat, uri);
        lemma_picks_step(before, n as int, wanted);
        assert(wanted(n as int) == follows_keyword(tokens, n as int));
        assert(is_declared_at(tokens, n as int) == follows_keyword(tokens, n as int));
        if follows_keyword(tokens, n as int) {
            let picked = before.push(n as int);
            assert forall|k: int| 0 <= k < picked.len() implies is_symbol_of(
                symbols[k],
                text,
                tokens,
                uri,
                #[trigger] picked[k],
            ) by {
                if k < before.len() {
                    assert(picked[k] == before[k]);
                    assert(symbols[k] == fewer[k]);
                }
            }
            picked
        } else {
            before
        }
    }
}

/// The outline of a script holds one symbol for each name behind `class`, `fn`,
/// `signal` or `var`, in the order of the tokens and nothing else: the k-th
/// symbol is that of the token at `picked[k]`.
pub proof fn law_outline(
    text: Seq<char>,
    tokens: &Vec<Token>,
    uri: Seq<char>,
    res: Seq<SymbolInformation>,
) -> (picked: Seq<int>)
    requires
        symbols_of(res) == outline(text, Some(tokens), uri),
    ensures
        picks(picked, tokens@.len() as int, names_behind_keywords(tokens@)),
        picked.len() == res.len(),
        forall|k: int|
            0 <= k < picked.len() ==> is_symbol_of(
                symbols_of(res)[k],
                text,
                tokens@,
                uri,
                #[trigger] picked[k],
            ),
{
    law_symbols_of(res);
    if tokens@.len() == 0 {
        Seq::empty()
    } else {
        lemma_outline(text, tokens@, (tokens@.len() - 1) as nat, uri)
    }
}

/// Each name behind `class`, `fn`, `signal` or `var` is in the outline, with the
/// kind of the keyword and the range of the name.
pub proof fn law_declarations_are_outlined(
    text: Seq<char>,
    tokens: &Vec<Token>,
    uri: Seq<char>,
    res: Seq<SymbolInformation>,
    i: int,
    name: String,
)
    requires
        symbols_of(res) == outline(text, Some(tokens), uri),
        0 < i < tokens@.len(),
        tokens@[i].kind == TokenKind::Ident(name),
        tokens@[i - 1].kind is Class || tokens@[i - 1].kind is Fn || tokens@[i - 1].kind is Signal
            || tokens@[i - 1].kind is Var,
    ensures
        exists|k: int|
            {
                &&& 0 <= k < res.len()
                &&& (#[trigger] res[k]).name@ == name@
                &&& tokens@[i - 1].kind is Class ==> res[k].kind is Class
                &&& tokens@[i - 1].kind is Fn ==> res[k].kind is Function
                &&& tokens@[i - 1].kind is Signal ==> res[k].kind is Event
                &&& tokens@[i - 1].kind is Var ==> res[k].kind is Variable
                &&& res[k].location.uri@ == uri
                &&& res[k].location.range.start == position_at(text, tokens@[i].start as int)
                &&& tokens@[i].start < tokens@[i].end ==> res[k].location.range.end == position_at(
                    text,
                    tokens@[i].end as int,
                )
            },
{
    let picked = law_outline(text, tokens, uri, res);
    let wanted = names_behind_keywords(tokens@);
    assert(wanted(i));
    let k = choose|k: int| 0 <= k < picked.len() && picked[k] == i;
    assert(is_symbol_of(symbols_of(res)[k], text, tokens@, uri, picked[k]));
    law_symbols_of(res);
    assert(res[k].name@ == name@);
}

/// A script that cannot be split into tokens has no outline.
pub proof fn law_no_outline(text: Seq<char>, uri: Seq<char>)
    ensures
        outline(text, None, uri).len() == 0,
{
}

/// The outline can be asked for when the names behind keywords stand between
/// whole characters.
pub proof fn law_outline_can_be_asked_for(text: Seq<char>, tokens: Seq<Token>)
    ensures
        names_on_boundaries(text, tokens) <==> forall|i: int| #[trigger]
            follows_keyword(tokens, i) ==> range_on_boundaries(
                text,
                tokens[i].start as int,
                tokens[i].end as int,
            ),
{
    assert forall|i: int| #[trigger] follows_keyword(tokens, i) == is_declared_at(tokens, i) by {}
    if names_on_boundaries(text, tokens) {
        assert forall|i: int| #[trigger] follows_keyword(tokens, i) implies range_on_boundaries(
            text,
            tokens[i].start as int,
            tokens[i].end as int,
        ) by {
            assert(is_declared_at(tokens, i));
        }
    } else {
        let i = choose|i: int| #[trigger]
            is_declared_at(tokens, i) && !range_on_boundaries(
                text,
                tokens[i].start as int,
                tokens[i].end as int,
            );
        assert(follows_keyword(tokens, i));
    }
}

/// Whether a text holds a query.
pub open spec fn is_found_in(query: Seq<char>, text: Seq<char>) -> bool {
    exists|at: int| #[trigger] stands_at(encode_utf8(text), encode_utf8(query), at)
}

/// The symbols whose names hold a query, as what is wanted.
pub open spec fn with_query(symbols: Seq<SymbolView>, query: Seq<char>) -> spec_fn(int) -> bool {
    |i: int| 0 <= i < symbols.len() && is_found_in(query, symbols[i].name)
}

proof fn lemma_query(symbol: SymbolView, query: Seq<char>)
    ensures
        answers_query(symbol, query) <==> is_found_in(query, symbol.name),
{
    let name = encode_utf8(symbol.name);
    let wanted = encode_utf8(query);
    law_search(name, wanted, 0, 0);
    if is_found_in(query, symbol.name) {
        let at = choose|at: int| #[trigger] stands_at(name, wanted, at);
        assert(0 <= at);
    }
}

/// The symbols that answer a query are those whose names hold it, in their
/// order: the k-th is the one at `picked[k]`.
pub proof fn law_answering(symbols: Seq<SymbolView>, query: Seq<char>, n: nat) -> (picked: Seq<int>)
    requires
        n <= symbols.len(),
    ensures
        picks(picked, n as int, with_query(symbols, query)),
        picked.len() == answering(symbols, query, n).len(),
        forall|k: int|
            0 <= k < picked.len() ==> answering(symbols, query, n)[k]
                == symbols[#[trigger] picked[k]],
    decreases n,
{
    if n == 0 {
        Seq::empty()
    } else {
        let wanted = with_query(symbols, query);
        let before = law_answering(symbols, query, (n - 1) as nat);
        let fewer = answering(symbols, query, (n - 1) as nat);
        let found = answering(symbols, query, n);
        lemma_picks_step(before, n - 1, wanted);
        lemma_query(symbols[n - 1], query);
        assert(wanted(n - 1) == is_found_in(query, symbols[n - 1].name));
        if answers_query(symbols[n - 1], query) {
            let picked = before.push(n - 1);
            assert forall|k: int| 0 <= k < picked.len() implies found[k]
                == symbols[#[trigger] picked[k]] by {
                if k < before.len() {
                    assert(picked[k] == before[k]);
                    assert(found[k] == fewer[k]);
                }
            }
            picked
        } else {
            before
        }
    }
}

/// What a query finds in several scripts is what it finds in the first of them
/// and then in the others, wherever they are divided.
pub proof fn law_divided_search(first: Seq<Script>, second: Seq<Script>, query: Seq<char>)
    ensures
        found_symbols(first + second, query, (first + second).len()) == found_symbols(
            first,
            query,
            first.len(),
        ) + found_symbols(second, query, second.len()),
{
    lemma_search_second(first, second, query, second.len());
}

proof fn lemma_search_first(first: Seq<Script>, second: Seq<Script>, query: Seq<char>, n: nat)
    requires
        n <= first.len(),
    ensures
        found_symbols(first + second, query, n) == found_symbols(first, query, n),
    decreases n,
{
    if n > 0 {
        lemma_search_first(first, second, query, (n - 1) as nat);
        assert((first + second)[n - 1] == first[n - 1]);
    }
}

proof fn lemma_search_second(first: Seq<Script>, second: Seq<Script>, query: Seq<char>, n: nat)
    requires
        n <= second.len(),
    ensures
        found_symbols(first + second, query, first.len() + n) == found_symbols(
            first,
            query,
            first.len(),
        ) + found_symbols(second, query, n),
    decreases n,
{
    let head = found_symbols(first, query, first.len());
    if n > 0 {
        lemma_search_second(first, second, query, (n - 1) as nat);
        assert((first + second)[first.len() + n - 1] == second[n - 1]);
        assert(found_symbols(first + second, query, first.len() + n) =~= head + found_symbols(
            second,
            query,
            n,
        ));
    } else {
        lemma_search_first(first, second, query, first.len());
        assert(head + found_symbols(second, query, 0) =~= head);
    }
}

/// What a query finds in one script are those of the symbols of its outline that
/// answer it; and where there is no script it finds nothing.
pub proof fn law_single_search(script: Script, query: Seq<char>)
    ensures
        script.tokens matches Some(tokens) ==> {
            let symbols = outline(script.text@, Some(&tokens), script.uri@);
            found_symbols(seq![script], query, 1) == answering(symbols, query, symbols.len())
        },
        script.tokens is None ==> found_symbols(seq![script], query, 1).len() == 0,
        found_symbols(Seq::empty(), query, 0).len() == 0,
        script_on_boundaries(script) <==> (script.tokens matches Some(tokens)
            ==> names_on_boundaries(script.text@, tokens@)),
{
    let symbols = script_symbols(script);
    assert(found_symbols(seq![script], query, 0) =~= Seq::<SymbolView>::empty());
    assert(found_symbols(seq![script], query, 1) =~= answering(symbols, query, symbols.len()));
}

/// Whether a keyword stands right before an offset.
pub open spec fn follows(text: Seq<u8>, keyword: Seq<char>, at: int) -> bool {
    stands_at(text, encode_utf8(keyword), at - encode_utf8(keyword).len())
}

/// Whether a text uses a word at an offset, and not as part of a longer word;
/// as a declaration only if those are wanted too.
pub open spec fn is_used_at(
    text: Seq<char>,
    word: Seq<char>,
    with_declarations: bool,
    at: int,
) -> bool {
    let bytes = encode_utf8(text);
    let end = at + encode_utf8(word).len();
    &&& stands_at(bytes, encode_utf8(word), at)
    &&& at == 0 || !in_word(bytes[at - 1])
    &&& end == bytes.len() || !in_word(bytes[end])
    &&& with_declarations || !(follows(bytes, "class "@, at) || follows(bytes, "fn "@, at)
        || follows(bytes, "signal "@, at) || follows(bytes, "var "@, at))
}

/// The offsets at which a text uses a word, as what is wanted.
pub open spec fn uses_of(text: Seq<char>, word: Seq<char>, with_declarations: bool) -> spec_fn(
    int,
) -> bool {
    |at: int| is_used_at(text, word, with_declarations, at)
}

proof fn lemma_wanted(text: Seq<char>, word: Seq<char>, with_declarations: bool, at: int)
    ensures
        is_wanted_at(encode_utf8(text), encode_utf8(word), with_declarations, at) == is_used_at(
            text,
            word,
            with_declarations,
            at,
        ),
{
    let bytes = encode_utf8(text);
    law_occurrence(bytes, encode_utf8(word), at);
    law_occurrence(bytes, encode_utf8("class "@), at - encode_utf8("class "@).len());
    law_occurrence(bytes, encode_utf8("fn "@), at - encode_utf8("fn "@).len());
    law_occurrence(bytes, encode_utf8("signal "@), at - encode_utf8("signal "@).len());
    law_occurrence(bytes, encode_utf8("var "@), at - encode_utf8("var "@).len());
}

proof fn lemma_uses(text: Seq<char>, word: Seq<char>, with_declarations: bool, n: nat) -> (picked:
    Seq<int>)
    requires
        word.len() > 0,
    ensures
        picks(picked, n as int, uses_of(text, word, with_declarations)),
        picked.len() == use_ranges(text, word, with_declarations, n).len(),
        forall|k: int|
            0 <= k < picked.len() ==> {
                let range = use_ranges(text, word, with_declarations, n)[k];
                &&& range.start == position_at(text, #[trigger] picked[k])
                &&& range.end == position_at(text, picked[k] + encode_utf8(word).len())
            },
    decreases n,
{
    if n == 0 {
        Seq::empty()
    } else {
        let wanted = uses_of(text, word, with_declarations);
        let before = lemma_uses(text, word, with_declarations, (n - 1) as nat);
        let fewer = use_ranges(text, word, with_declarations, (n - 1) as nat);
        let ranges = use_ranges(text, word, with_declarations, n);
        lemma_picks_step(before, n - 1, wanted);
        lemma_wanted(text, word, with_declarations, n - 1);
        assert(wanted(n - 1) == is_used_at(text, word, with_declarations, n - 1));
        assert(encode_utf8(word).len() > 0);
        if is_used_at(text, word, with_declarations, n - 1) {
            let picked = before.push(n - 1);
            assert forall|k: int| 0 <= k < picked.len() implies {
                &&& ranges[k].start == position_at(text, #[trigger] picked[k])
                &&& ranges[k].end == position_at(text, picked[k] + encode_utf8(word).len())
            } by {
                if k < before.len() {
                    assert(picked[k] == before[k]);
                    assert(ranges[k] == fewer[k]);
                }
            }
            picked
        } else {
            before
        }
    }
}

/// The uses of a word in a text are all the places at which it stands as a whole
/// word, in their order, each from its first byte to its last: the k-th starts
/// at the offset `picked[k]`.
pub proof fn law_uses(text: Seq<char>, word: Seq<char>, with_declarations: bool) -> (picked: Seq<
    int,
>)
    requires
        word.len() > 0,
    ensures
        picks(picked, encode_utf8(text).len() as int, uses_of(text, word, with_declarations)),
        picked.len() == uses(text, word, with_declarations).len(),
        forall|k: int|
            0 <= k < picked.len() ==> {
                let range = uses(text, word, with_declarations)[k];
                &&& range.start == position_at(text, #[trigger] picked[k])
                &&& range.end == position_at(text, picked[k] + encode_utf8(word).len())
            },
{
    lemma_uses(text, word, with_declarations, encode_utf8(text).len())
}

/// A file uses a word where its text does; a file without a URI or a text uses
/// none.
pub proof fn law_uses_in_file(file: SourceFile, word: Seq<char>, with_declarations: bool)
    ensures
        file.uri is Some && file.text is Some ==> file_uses(file, word, with_declarations) == uses(
            file.text->0@,
            word,
            with_declarations,
        ),
        file.uri is None || file.text is None ==> file_uses(file, word, with_declarations).len()
            == 0,
{
}

/// Locations are taken by the characters of their URIs, each in its place.
pub proof fn law_locations_of(locations: Seq<Location>)
    ensures
        locations_of(locations).len() == locations.len(),
        forall|i: int|
            0 <= i < locations.len() ==> {
                &&& locations_of(locations)[i].uri == (#[trigger] locations[i]).uri@
                &&& locations_of(locations)[i].range == locations[i].range
            },
{
}

/// The references to a word in several files are those in the first of them and
/// then those in the others, wherever they are divided.
pub proof fn law_divided_references(
    first: Seq<SourceFile>,
    second: Seq<SourceFile>,
    word: Seq<char>,
    with_declarations: bool,
)
    ensures
        references_of(first + second, word, with_declarations) == references_of(
            first,
            word,
            with_declarations,
        ) + references_of(second, word, with_declarations),
{
    if word.len() > 0 {
        lemma_references_second(first, second, word, with_declarations, second.len());
    } else {
        assert(Seq::<LocationView>::empty() + Seq::<LocationView>::empty() =~= Seq::<
            LocationView,
        >::empty());
    }
}

proof fn lemma_references_first(
    first: Seq<SourceFile>,
    second: Seq<SourceFile>,
    word: Seq<char>,
    with: bool,
    n: nat,
)
    requires
        n <= first.len(),
    ensures
        files_uses(first + second, word, with, n) == files_uses(first, word, with, n),
    decreases n,
{
    if n > 0 {
        lemma_references_first(first, second, word, with, (n - 1) as nat);
        assert((first + second)[n - 1] == first[n - 1]);
    }
}

proof fn lemma_references_second(
    first: Seq<SourceFile>,
    second: Seq<SourceFile>,
    word: Seq<char>,
    with: bool,
    n: nat,
)
    requires
        n <= second.len(),
    ensures
        files_uses(first + second, word, with, first.len() + n) == files_uses(
            first,
            word,
            with,
            first.len(),
        ) + files_uses(second, word, with, n),
    decreases n,
{
    let head = files_uses(first, word, with, first.len());
    if n > 0 {
        lemma_references_second(first, second, word, with, (n - 1) as nat);
        assert((first + second)[first.len() + n - 1] == second[n - 1]);
        assert(files_uses(first + second, word, with, first.len() + n) =~= head + files_uses(
            second,
            word,
            with,
            n,
        ));
    } else {
        lemma_references_first(first, second, word, with, first.len());
        assert(head + files_uses(second, word, with, 0) =~= head);
    }
}

/// The references to a word in one file are its uses of it, under its URI; an
/// empty word has none.
pub proof fn law_single_reference(file: SourceFile, word: Seq<char>, with_declarations: bool)
    ensures
        word.len() == 0 ==> references_of(seq![file], word, with_declarations).len() == 0,
        word.len() > 0 ==> {
            let found = references_of(seq![file], word, with_declarations);
            let ranges = file_uses(file, word, with_declarations);
            &&& found.len() == ranges.len()
            &&& forall|k: int|
                0 <= k < found.len() ==> {
                    &&& (#[trigger] found[k]).range == ranges[k]
                    &&& found[k].uri == file.uri->0@
                }
        },
        references_of(Seq::empty(), word, with_declarations).len() == 0,
{
    let files = seq![file];
    assert(files_uses(files, word, with_declarations, 0) =~= Seq::<LocationView>::empty());
    let more = file_uses(file, word, with_declarations).map_values(
        |range: Range| LocationView { uri: file.uri->0@, range },
    );
    assert(files_uses(files, word, with_declarations, 1) =~= more);
}

/// A word can be renamed if it is not empty and calls nothing of the engine, and
/// to whatever is not empty and holds only word bytes.
pub proof fn law_what_can_be_renamed(word: Seq<char>, name: Seq<char>)
    ensures
        is_renameable(word) <==> word.len() > 0 && forall|i: int|
            0 <= i < ENGINE_SYMBOLS@.len() ==> !calls(word, (#[trigger] ENGINE_SYMBOLS@[i]).0@),
        is_name(name) <==> name.len() > 0 && forall|i: int|
            0 <= i < encode_utf8(name).len() ==> in_word(#[trigger] encode_utf8(name)[i]),
{
    let labels = engine_names();
    assert forall|i: int| 0 <= i < labels.len() implies #[trigger] labels[i]
        == ENGINE_SYMBOLS@[i].0@ by {}
    law_first_label(labels, word, 0);
    if forall|i: int|
        0 <= i < ENGINE_SYMBOLS@.len() ==> !calls(word, (#[trigger] ENGINE_SYMBOLS@[i]).0@) {
        assert forall|i: int| 0 <= i < labels.len() implies !calls(word, #[trigger] labels[i]) by {
            assert(!calls(word, ENGINE_SYMBOLS@[i].0@));
        }
    } else {
        let i = choose|i: int|
            0 <= i < ENGINE_SYMBOLS@.len() && calls(word, (#[trigger] ENGINE_SYMBOLS@[i]).0@);
        assert(calls(word, labels[i]));
    }
}

/// The files that use a word, as what is wanted.
pub open spec fn files_with(files: Seq<SourceFile>, word: Seq<char>) -> spec_fn(int) -> bool {
    |i: int| 0 <= i < files.len() && file_uses(files[i], word, true).len() > 0
}

/// Renaming a word changes each file that uses it, and in it each use, to the
/// new name, and nothing else: the k-th changed file is the one at `picked[k]`.
pub proof fn law_rename(
    files: Seq<SourceFile>,
    word: Seq<char>,
    new_name: Seq<char>,
    n: nat,
) -> (picked: Seq<int>)
    requires
        n <= files.len(),
    ensures
        picks(picked, n as int, files_with(files, word)),
        picked.len() == files_edits(files, word, new_name, n).len(),
        forall|k: int|
            0 <= k < picked.len() ==> {
                let changed = files_edits(files, word, new_name, n)[k];
                let ranges = file_uses(files[#[trigger] picked[k]], word, true);
                &&& changed.uri == files[picked[k]].uri->0@
                &&& changed.edits.len() == ranges.len()
                &&& forall|j: int|
                    0 <= j < ranges.len() ==> (#[trigger] changed.edits[j]).range == ranges[j]
                        && changed.edits[j].new_text == new_name
            },
    decreases n,
{
    if n == 0 {
        Seq::empty()
    } else {
        let wanted = files_with(files, word);
        let before = law_rename(files, word, new_name, (n - 1) as nat);
        let fewer = files_edits(files, word, new_name, (n - 1) as nat);
        let edits = files_edits(files, word, new_name, n);
        lemma_picks_step(before, n - 1, wanted);
        assert(wanted(n - 1) == (file_uses(files[n - 1], word, true).len() > 0));
        if file_uses(files[n - 1], word, true).len() > 0 {
            let picked = before.push(n - 1);
            assert forall|k: int| 0 <= k < picked.len() implies {
                let changed = edits[k];
                let ranges = file_uses(files[#[trigger] picked[k]], word, true);
                &&& changed.uri == files[picked[k]].uri->0@
                &&& changed.edits.len() == ranges.len()
                &&& forall|j: int|
                    0 <= j < ranges.len() ==> (#[trigger] changed.edits[j]).range == ranges[j]
                        && changed.edits[j].new_text == new_name
            } by {
                if k < before.len() {
                    assert(picked[k] == before[k]);
                    assert(edits[k] == fewer[k]);
                }
            }
            picked
        } else {
            before
        }
    }
}

/// What is replaced in files is taken by the characters of its texts, each in
/// its place and with all of its fields.
pub proof fn law_edits_of(files: Seq<FileEdits>)
    ensures
        edits_of(files).len() == files.len(),
        forall|i: int|
            0 <= i < files.len() ==> {
                &&& edits_of(files)[i].uri == (#[trigger] files[i]).uri@
                &&& edits_of(files)[i].edits.len() == files[i].edits@.len()
                &&& forall|j: int|
                    0 <= j < files[i].edits@.len() ==> {
                        &&& edits_of(files)[i].edits[j].range == (
                        #[trigger] files[i].edits@[j]).range
                        &&& edits_of(files)[i].edits[j].new_text == files[i].edits@[j].new_text@
                    }
            },
{
}

/// Tokens are those of a text when each stands between two characters of it and
/// none before the end of an earlier one.
pub proof fn law_tokens_of_a_text(text: Seq<char>, tokens: Seq<Token>)
    ensures
        are_tokens_of(text, tokens) <==> {
            &&& forall|i: int|
                0 <= i < tokens.len() ==> {
                    &&& (#[trigger] tokens[i]).start <= tokens[i].end <= encode_utf8(text).len()
                    &&& is_char_boundary(encode_utf8(text), tokens[i].start as int)
                    &&& is_char_boundary(encode_utf8(text), tokens[i].end as int)
                }
            &&& forall|i: int, j: int|
                0 <= i < j < tokens.len() ==> (#[trigger] tokens[i]).end <= (
                #[trigger] tokens[j]).start
        },
{
}

/// Whether a token is one of several texts.
pub open spec fn reads(text: Seq<u8>, token: Token, wanted: Seq<char>) -> bool {
    &&& token.start <= token.end
    &&& token.end - token.start == encode_utf8(wanted).len()
    &&& stands_at(text, encode_utf8(wanted), token.start as int)
}

/// Keywords are highlighted as such: those that declare something, and any
/// other word that is not a name.
pub proof fn law_highlighted_keywords(text: Seq<u8>, tokens: Seq<Token>, i: int)
    requires
        0 <= i < tokens.len(),
        tokens[i].start <= tokens[i].end <= text.len(),
        tokens[i].kind is Class || tokens[i].kind is Fn || tokens[i].kind is Signal
            || tokens[i].kind is Var || (tokens[i].kind is Other && tokens[i].start < tokens[i].end
            && ({
            let c = text[tokens[i].start as int] as char;
            ('a' <= c <= 'z') || ('A' <= c <= 'Z') || c == '_'
        })),
    ensures
        token_type(text, tokens, i) == Some(SemanticTokenType::Keyword),
{
}

/// Numbers and string literals are highlighted as such, and what is neither a
/// word nor one of them is not highlighted.
pub proof fn law_highlighted_literals(text: Seq<u8>, tokens: Seq<Token>, i: int)
    requires
        0 <= i < tokens.len(),
        tokens[i].start <= tokens[i].end <= text.len(),
        tokens[i].kind is Other,
    ensures
        tokens[i].start == tokens[i].end ==> token_type(text, tokens, i) is None,
        tokens[i].start < tokens[i].end ==> ({
            let c = text[tokens[i].start as int] as char;
            &&& '0' <= c <= '9' ==> token_type(text, tokens, i) == Some(SemanticTokenType::Number)
            &&& c == '"' ==> token_type(text, tokens, i) == Some(SemanticTokenType::StringLiteral)
            &&& !(('a' <= c <= 'z') || ('A' <= c <= 'Z') || c == '_' || ('0' <= c <= '9') || c
                == '"') ==> token_type(text, tokens, i) is None
        }),
{
}

/// Names are highlighted by what stands next to them: a name behind `class`, a
/// colon or an arrow as a type, as is any other with a capital that nothing
/// declares; one behind `fn`, or before a parenthesis, as a function; and one
/// behind `var`, or next to none of these, as a variable.
pub proof fn law_highlighted_names(text: Seq<u8>, tokens: Seq<Token>, i: int)
    requires
        0 <= i < tokens.len(),
        tokens[i].kind is Ident,
        forall|k: int|
            0 <= k < tokens.len() ==> (#[trigger] tokens[k]).start <= tokens[k].end <= text.len(),
    ensures
        ({
            let found = token_type(text, tokens, i);
            let keyword = i > 0 && (tokens[i - 1].kind is Class || tokens[i - 1].kind is Fn
                || tokens[i - 1].kind is Var);
            let typed = i > 0 && (reads(text, tokens[i - 1], ":"@) || reads(
                text,
                tokens[i - 1],
                "->"@,
            ));
            let capital = tokens[i].start < text.len() && 'A' <= text[tokens[i].start as int] as char
                <= 'Z';
            let called = i + 1 < tokens.len() && reads(text, tokens[i + 1], "("@);
            &&& i > 0 && tokens[i - 1].kind is Class ==> found == Some(SemanticTokenType::Type)
            &&& i > 0 && tokens[i - 1].kind is Fn ==> found == Some(SemanticTokenType::Function)
            &&& i > 0 && tokens[i - 1].kind is Var ==> found == Some(SemanticTokenType::Variable)
            &&& !keyword && (typed || capital) ==> found == Some(SemanticTokenType::Type)
            &&& !keyword && !typed && !capital && called ==> found == Some(
                SemanticTokenType::Function,
            )
            &&& !keyword && !typed && !capital && !called ==> found == Some(
                SemanticTokenType::Variable,
            )
        }),
{
    if i > 0 {
        law_occurrence(text, encode_utf8(":"@), tokens[i - 1].start as int);
        law_occurrence(text, encode_utf8("->"@), tokens[i - 1].start as int);
    }
    if i + 1 < tokens.len() {
        law_occurrence(text, encode_utf8("("@), tokens[i + 1].start as int);
    }
}

/// The tokens that are highlighted: those of a type that end in the line in
/// which they start, behind their start.
pub open spec fn shown(text: Seq<char>, tokens: Seq<Token>) -> spec_fn(int) -> bool {
    |i: int|
        {
            let start = position_at(text, tokens[i].start as int);
            let end = position_at(text, tokens[i].end as int);
            &&& token_type(encode_utf8(text), tokens, i) is Some
            &&& start.line == end.line
            &&& start.character < end.character
        }
}

/// Each token that is to be highlighted is, in the order of the tokens, from its
/// start and over its length: the k-th is the one at `picked[k]`.
pub proof fn law_highlighted_tokens(text: Seq<char>, tokens: Seq<Token>, n: nat) -> (picked: Seq<
    int,
>)
    requires
        n <= tokens.len(),
    ensures
        picks(picked, n as int, shown(text, tokens)),
        picked.len() == marks(text, tokens, n).len(),
        forall|k: int|
            0 <= k < picked.len() ==> {
                let mark = marks(text, tokens, n)[k];
                let token = tokens[#[trigger] picked[k]];
                &&& mark.start == position_at(text, token.start as int)
                &&& mark.start.character + mark.length == position_at(
                    text,
                    token.end as int,
                ).character
                &&& token_type(encode_utf8(text), tokens, picked[k]) == Some(mark.token_type)
            },
    decreases n,
{
    if n == 0 {
        Seq::empty()
    } else {
        let wanted = shown(text, tokens);
        let before = law_highlighted_tokens(text, tokens, (n - 1) as nat);
        let fewer = marks(text, tokens, (n - 1) as nat);
        let all = marks(text, tokens, n);
        lemma_picks_step(before, n - 1, wanted);
        assert(wanted(n - 1) == (mark_at(text, tokens, n - 1) is Some));
        if mark_at(text, tokens, n - 1) is Some {
            let picked = before.push(n - 1);
            assert forall|k: int| 0 <= k < picked.len() implies {
                let mark = all[k];
                let token = tokens[#[trigger] picked[k]];
                &&& mark.start == position_at(text, token.start as int)
                &&& mark.start.character + mark.length == position_at(
                    text,
                    token.end as int,
                ).character
                &&& token_type(encode_utf8(text), tokens, picked[k]) == Some(mark.token_type)
            } by {
                if k < before.len() {
                    assert(picked[k] == before[k]);
                    assert(all[k] == fewer[k]);
                }
            }
            picked
        } else {
            before
        }
    }
}

/// A token is sent with its length, the number at which the name of its type
/// stands, and no modifiers.
pub proof fn law_sent_tokens(marks: Seq<Mark>)
    ensures
        sent_tokens(marks).len() == marks.len(),
        forall|i: int|
            0 <= i < marks.len() ==> {
                let sent = #[trigger] sent_tokens(marks)[i];
                &&& sent.length == marks[i].length
                &&& sent.token_modifiers == 0
                &&& sent.token_type < TOKEN_TYPES@.len()
                &&& TOKEN_TYPES@[sent.token_type as int]@ == match marks[i].token_type {
                    SemanticTokenType::Keyword => "keyword"@,
                    SemanticTokenType::Type => "type"@,
                    SemanticTokenType::Function => "function"@,
                    SemanticTokenType::Variable => "variable"@,
                    SemanticTokenType::Number => "number"@,
                    SemanticTokenType::StringLiteral => "string"@,
                }
            },
{
}

/// The text of a document is the one that it was opened with last, and a
/// document that was not opened, or was closed since, has none.
pub proof fn law_open_documents(
    documents: Map<Seq<char>, Seq<char>>,
    uri: Seq<char>,
    text: Seq<char>,
    other: Seq<char>,
)
    ensures
        open_text(Map::empty(), uri) is None,
        open_text(after_open(documents, uri, text), other) == if other == uri {
            Some(text)
        } else {
            open_text(documents, other)
        },
        open_text(after_close(documents, uri), other) == if other == uri {
            None
        } else {
            open_text(documents, other)
        },
{
}

/// A change leaves a document with the last of the texts that were sent, and as
/// it was if none was.
pub proof fn law_changed_documents(
    documents: Map<Seq<char>, Seq<char>>,
    uri: Seq<char>,
    changes: Seq<String>,
)
    ensures
        changes.len() == 0 ==> after_change(documents, uri, changes) == documents,
        changes.len() > 0 ==> after_change(documents, uri, changes) == after_open(
            documents,
            uri,
            changes[changes.len() - 1]@,
        ),
        changes.len() == 0 <==> last_text(changes) is None,
{
}

/// The client works in its first folder if that is a file, and else in its root
/// if that is one, and else nowhere.
pub proof fn law_workspace_root<P>(folders: Option<Vec<Option<P>>>, root: Option<Option<P>>)
    ensures
        folders is Some && folders->0@.len() > 0 && folders->0@[0] is Some ==> workspace_root(
            folders,
            root,
        ) == folders->0@[0],
        folders is None || folders->0@.len() == 0 || folders->0@[0] is None ==> {
            &&& root matches Some(path) ==> workspace_root(folders, root) == path
            &&& root is None ==> workspace_root(folders, root) is None
        },
{
}

} // verus!
