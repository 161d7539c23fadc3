//! The symbols that scripts declare.

use crate::bytes::{find, first_occurrence};
use crate::position::{
    byte_range, is_range, range_at, range_on_boundaries, Location, LocationView,
};
use crate::syntax::{Token, TokenKind};
use vstd::prelude::*;
use vstd::utf8::encode_utf8;

verus! {

/// What a symbol is.
#[derive(Clone, Copy, Debug, PartialEq, Eq, Structural)]
pub enum SymbolKind {
    Class,
    Event,
    Function,
    Variable,
}

/// A symbol that a script declares, and where.
#[derive(Debug, PartialEq, Eq)]
pub struct SymbolInformation {
    pub name: String,
    pub kind: SymbolKind,
    pub location: Location,
}

/// A symbol, with the characters of its texts.
pub struct SymbolView {
    pub name: Seq<char>,
    pub kind: SymbolKind,
    pub location: LocationView,
}

impl View for SymbolInformation {
    type V = SymbolView;

    open spec fn view(&self) -> SymbolView {
        SymbolView { name: self.name@, kind: self.kind, location: self.location@ }
    }
}

/// Several symbols, with the characters of their texts.
pub open spec fn symbols_of(symbols: Seq<SymbolInformation>) -> Seq<SymbolView> {
    symbols.map_values(|symbol: SymbolInformation| symbol@)
}

/// What a keyword declares.
pub open spec fn declared_kind(keyword: TokenKind) -> Option<SymbolKind> {
    match keyword {
        TokenKind::Class => Some(SymbolKind::Class),
        TokenKind::Fn => Some(SymbolKind::Function),
        TokenKind::Signal => Some(SymbolKind::Event),
        TokenKind::Var => Some(SymbolKind::Variable),
        _ => None,
    }
}

/// Whether two tokens that follow each other declare a symbol: a keyword that
/// declares one, and its name.
pub open spec fn declares(keyword: Token, name: Token) -> bool {
    declared_kind(keyword.kind) is Some && name.kind is Ident
}

/// Whether the token at `i` is the name of a symbol that the token before it
/// declares.
pub open spec fn is_declared_at(tokens: Seq<Token>, i: int) -> bool {
    0 < i < tokens.len() && declares(tokens[i - 1], tokens[i])
}

/// The symbol that two tokens declare, at its name.
pub open spec fn declared_symbol(
    text: Seq<char>,
    keyword: Token,
    name: Token,
    uri: Seq<char>,
) -> SymbolView {
    SymbolView {
        name: name.kind->Ident_0@,
        kind: declared_kind(keyword.kind)->0,
        location: LocationView { uri, range: range_at(text, name.start as int, name.end as int) },
    }
}

/// The symbols that the first `n` pairs of following tokens declare.
pub open spec fn declared_symbols(
    text: Seq<char>,
    tokens: Seq<Token>,
    n: nat,
    uri: Seq<char>,
) -> Seq<SymbolView>
    decreases n,
{
    if n == 0 || n >= tokens.len() {
        Seq::empty()
    } else {
        let before = declared_symbols(text, tokens, (n - 1) as nat, uri);
        if is_declared_at(tokens, n as int) {
            before.push(declared_symbol(text, tokens[n - 1], tokens[n as int], uri))
        } else {
            before
        }
    }
}

/// The outline of a script, from its tokens: nothing if it cannot be split into
/// tokens.
pub open spec fn outline(
    text: Seq<char>,
    tokens: Option<&Vec<Token>>,
    uri: Seq<char>,
) -> Seq<SymbolView> {
    match tokens {
        Some(tokens) => if tokens@.len() == 0 {
            Seq::empty()
        } else {
            declared_symbols(text, tokens@, (tokens@.len() - 1) as nat, uri)
        },
        None => Seq::empty(),
    }
}

/// Whether the names of declared symbols stand between whole characters.
pub open spec fn names_on_boundaries(text: Seq<char>, tokens: Seq<Token>) -> bool {
    forall|i: int| #[trigger]
        is_declared_at(tokens, i) ==> range_on_boundaries(
            text,
            tokens[i].start as int,
            tokens[i].end as int,
        )
}

/// What a keyword declares.
fn kind_of(keyword: &TokenKind) -> (res: Option<SymbolKind>)
    ensures
        res == declared_kind(*keyword),
{
    match keyword {
        TokenKind::Class => Some(SymbolKind::Class),
        TokenKind::Fn => Some(SymbolKind::Function),
        TokenKind::Signal => Some(SymbolKind::Event),
        TokenKind::Var => Some(SymbolKind::Variable),
        _ => None,
    }
}

/// Whether the names of declared symbols stand between whole characters, so
/// that `document_symbols` can be asked for them.
pub fn are_names_in_text(text: &str, tokens: &Vec<Token>) -> (res: bool)
    ensures
        res == names_on_boundaries(text@, tokens@),
{
    let mut i: usize = 1;
    while i < tokens.len()
        invariant
            1 <= i,
            i <= tokens@.len() || i == 1,
            forall|k: int|
                k < i && #[trigger] is_declared_at(tokens@, k) ==> range_on_boundaries(
                    text@,
                    tokens@[k].start as int,
                    tokens@[k].end as int,
                ),
        decreases tokens@.len() - i,
    {
        if kind_of(&tokens[i - 1].kind).is_some() {
            if let TokenKind::Ident(_) = &tokens[i].kind {
                if !is_range(text, tokens[i].start, tokens[i].end) {
                    assert(is_declared_at(tokens@, i as int));
                    return false;
                }
            }
        }
        i += 1;
    }
    true
}

/// The outline of a script: each class, function, signal and variable that it
/// declares, in the order of the text. There are no tokens if the script cannot
/// be split into them.
pub fn document_symbols(
    text: &str,
    tokens: Option<&Vec<Token>>,
    uri: &str,
) -> (res: Vec<SymbolInformation>)
    requires
        tokens matches Some(tokens) ==> names_on_boundaries(text@, tokens@),
    ensures
        symbols_of(res@) == outline(text@, tokens, uri@),
{
    let mut out: Vec<SymbolInformation> = Vec::new();
    proof {
        assert(symbols_of(out@) =~= Seq::empty());
    }
    let tokens: &Vec<Token> = match tokens {
        Some(tokens) => tokens,
        None => {
            return out;
        },
    };
    let mut i: usize = 1;
    while i < tokens.len()
        invariant
            1 <= i,
            i <= tokens@.len() || i == 1,
            names_on_boundaries(text@, tokens@),
            symbols_of(out@) == declared_symbols(text@, tokens@, (i - 1) as nat, uri@),
        decreases tokens@.len() - i,
    {
        let ghost prior = symbols_of(out@);
        if let Some(kind) = kind_of(&tokens[i - 1].kind) {
            if let TokenKind::Ident(name) = &tokens[i].kind {
                assert(is_declared_at(tokens@, i as int));
                let symbol = SymbolInformation {
                    name: name.clone(),
                    kind,
                    location: Location {
                        uri: uri.to_owned(),
                        range: byte_range(text, tokens[i].start, tokens[i].end),
                    },
                };
                out.push(symbol);
                proof {
                    assert(symbols_of(out@) =~= prior.push(symbol@));
                }
            }
        }
        i += 1;
    }
    out
}

/// Each keyword that declares a symbol, followed by a name, is in the outline.
pub proof fn law_outline_is_complete(
    text: Seq<char>,
    tokens: Seq<Token>,
    n: nat,
    uri: Seq<char>,
    i: int,
)
    requires
        i <= n < tokens.len(),
        is_declared_at(tokens, i),
    ensures
        declared_symbols(text, tokens, n, uri).contains(
            declared_symbol(text, tokens[i - 1], tokens[i], uri),
        ),
    decreases n,
{
    let symbol = declared_symbol(text, tokens[i - 1], tokens[i], uri);
    let symbols = declared_symbols(text, tokens, n, uri);
    let before = declared_symbols(text, tokens, (n - 1) as nat, uri);
    if i == n {
        assert(symbols[before.len() as int] == symbol);
    } else {
        law_outline_is_complete(text, tokens, (n - 1) as nat, uri, i);
        let k = choose|k: int| 0 <= k < before.len() && before[k] == symbol;
        assert(symbols[k] == symbol);
    }
}

/// Each symbol of the outline is declared by a keyword that a name follows.
pub proof fn law_outline_is_declared(
    text: Seq<char>,
    tokens: Seq<Token>,
    n: nat,
    uri: Seq<char>,
    k: int,
)
    requires
        n < tokens.len(),
        0 <= k < declared_symbols(text, tokens, n, uri).len(),
    ensures
        exists|i: int|
            i <= n && #[trigger] is_declared_at(tokens, i) && declared_symbols(
                text,
                tokens,
                n,
                uri,
            )[k] == declared_symbol(text, tokens[i - 1], tokens[i], uri),
    decreases n,
{
    if n > 0 {
        let symbols = declared_symbols(text, tokens, n, uri);
        let before = declared_symbols(text, tokens, (n - 1) as nat, uri);
        if k < before.len() {
            law_outline_is_declared(text, tokens, (n - 1) as nat, uri, k);
            let i = choose|i: int|
                i <= n - 1 && #[trigger] is_declared_at(tokens, i) && before[k] == declared_symbol(
                    text,
                    tokens[i - 1],
                    tokens[i],
                    uri,
                );
            assert(symbols[k] == before[k]);
            assert(is_declared_at(tokens, i));
        } else {
            assert(is_declared_at(tokens, n as int));
        }
    }
}

/// A script of a project.
#[derive(Debug, PartialEq, Eq)]
pub struct Script {
    pub uri: String,
    pub text: String,
    /// The tokens, if the script can be split into them.
    pub tokens: Option<Vec<Token>>,
}

/// Whether the names that a script declares stand between whole characters.
pub open spec fn script_on_boundaries(script: Script) -> bool {
    script.tokens matches Some(tokens) ==> names_on_boundaries(script.text@, tokens@)
}

/// The outline of a script.
pub open spec fn script_symbols(script: Script) -> Seq<SymbolView> {
    outline(
        script.text@,
        match script.tokens {
            Some(tokens) => Some(&tokens),
            None => None,
        },
        script.uri@,
    )
}

/// Whether a symbol answers a query: the query stands in its name.
pub open spec fn answers_query(symbol: SymbolView, query: Seq<char>) -> bool {
    first_occurrence(encode_utf8(symbol.name), encode_utf8(query), 0) is Some
}

/// Those of the first `n` symbols that answer a query.
pub open spec fn answering(symbols: Seq<SymbolView>, query: Seq<char>, n: nat) -> Seq<SymbolView>
    decreases n,
{
    if n == 0 {
        Seq::empty()
    } else {
        let before = answering(symbols, query, (n - 1) as nat);
        if answers_query(symbols[n - 1], query) {
            before.push(symbols[n - 1])
        } else {
            before
        }
    }
}

/// The symbols of the first `n` scripts that answer a query.
pub open spec fn found_symbols(scripts: Seq<Script>, query: Seq<char>, n: nat) -> Seq<SymbolView>
    decreases n,
{
    if n == 0 {
        Seq::empty()
    } else {
        let symbols = script_symbols(scripts[n - 1]);
        found_symbols(scripts, query, (n - 1) as nat) + answering(symbols, query, symbols.len())
    }
}

/// Whether the names that a script declares stand between whole characters, so
/// that `workspace_symbols` can be asked for them.
pub fn is_script_in_text(script: &Script) -> (res: bool)
    ensures
        res == script_on_boundaries(*script),
{
    match &script.tokens {
        Some(tokens) => are_names_in_text(script.text.as_str(), tokens),
        None => true,
    }
}

/// Adds those of several symbols that answer a query.
fn push_answering(
    symbols: Vec<SymbolInformation>,
    query: &str,
    out: &mut Vec<SymbolInformation>,
)
    ensures
        symbols_of(final(out)@) == symbols_of(old(out)@) + answering(
            symbols_of(symbols@),
            query@,
            symbols@.len(),
        ),
{
    let ghost before = symbols_of(out@);
    let ghost all = symbols_of(symbols@);
    proof {
        assert(before =~= before + answering(all, query@, 0));
    }
    for symbol in iter: symbols
        invariant
            all == symbols_of(iter.seq()),
            symbols_of(out@) == before + answering(all, query@, iter.index() as nat),
    {
        let ghost prior = symbols_of(out@);
        proof {
            assert(all[iter.index() as int] == symbol@);
        }
        if find(symbol.name.as_str().as_bytes(), query.as_bytes(), 0).is_some() {
            let ghost view = symbol@;
            out.push(symbol);
            proof {
                assert(symbols_of(out@) =~= prior.push(view));
            }
        }
        proof {
            assert(symbols_of(out@) =~= before + answering(
                all,
                query@,
                (iter.index() + 1) as nat,
            ));
        }
    }
}

/// The symbols that several scripts declare and whose names hold the query, in
/// the order of the scripts. An empty query asks for all of them.
pub fn workspace_symbols(scripts: &Vec<Script>, query: &str) -> (res: Vec<SymbolInformation>)
    requires
        forall|i: int| 0 <= i < scripts@.len() ==> script_on_boundaries(#[trigger] scripts@[i]),
    ensures
        symbols_of(res@) == found_symbols(scripts@, query@, scripts@.len()),
{
    let mut out: Vec<SymbolInformation> = Vec::new();
    proof {
        assert(symbols_of(out@) =~= Seq::empty());
    }
    let mut i: usize = 0;
    while i < scripts.len()
        invariant
            forall|k: int| 0 <= k < scripts@.len() ==> script_on_boundaries(#[trigger] scripts@[k]),
            i <= scripts@.len(),
            symbols_of(out@) == found_symbols(scripts@, query@, i as nat),
        decreases scripts@.len() - i,
    {
        let script: &Script = &scripts[i];
        assert(script_on_boundaries(scripts@[i as int]));
        let tokens: Option<&Vec<Token>> = match &script.tokens {
            Some(tokens) => Some(tokens),
            None => None,
        };
        let symbols: Vec<SymbolInformation> = document_symbols(
            script.text.as_str(),
            tokens,
            script.uri.as_str(),
        );
        proof {
            assert(symbols_of(symbols@) == script_symbols(scripts@[i as int]));
            assert(symbols_of(symbols@).len() == symbols@.len());
        }
        push_answering(symbols, query, &mut out);
        i += 1;
    }
    out
}

/// Each symbol that answers the query is among those that are found.
pub proof fn law_answering_symbols_are_found(
    symbols: Seq<SymbolView>,
    query: Seq<char>,
    n: nat,
    i: int,
)
    requires
        0 <= i < n <= symbols.len(),
        answers_query(symbols[i], query),
    ensures
        answering(symbols, query, n).contains(symbols[i]),
    decreases n,
{
    let found = answering(symbols, query, n);
    let before = answering(symbols, query, (n - 1) as nat);
    if i == n - 1 {
        assert(found[before.len() as int] == symbols[i]);
    } else {
        law_answering_symbols_are_found(symbols, query, (n - 1) as nat, i);
        let k = choose|k: int| 0 <= k < before.len() && before[k] == symbols[i];
        assert(found[k] == symbols[i]);
    }
}

/// An empty query finds every symbol of every script.
pub proof fn law_empty_query_finds_all(symbols: Seq<SymbolView>, n: nat)
    requires
        n <= symbols.len(),
    ensures
        answering(symbols, Seq::empty(), n) == symbols.take(n as int),
    decreases n,
{
    if n > 0 {
        law_empty_query_finds_all(symbols, (n - 1) as nat);
        let name = encode_utf8(symbols[n - 1].name);
        assert(encode_utf8(Seq::<char>::empty()) =~= Seq::<u8>::empty());
        assert(name.subrange(0, 0) =~= Seq::<u8>::empty());
        assert(symbols.take(n as int) =~= symbols.take(n - 1).push(symbols[n - 1]));
    }
}

} // verus!
