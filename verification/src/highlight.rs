//! The semantic tokens by which a client highlights a script.

use crate::bytes::{matches_at, occurs_at, on_boundary};
use crate::position::{
    byte_position, is_at_or_before, law_positions_in_order, lemma_positions_fit, position_at,
    Position,
};
use crate::syntax::{Token, TokenKind};
use vstd::prelude::*;
use vstd::utf8::encode_utf8;

verus! {

/// What a token is highlighted as.
#[derive(Clone, Copy, Debug, PartialEq, Eq, Structural)]
pub enum SemanticTokenType {
    Keyword,
    Type,
    Function,
    Variable,
    Number,
    StringLiteral,
}

/// The names of the token types, in the order of their numbers.
pub const TOKEN_TYPES: [&'static str; 6] = [
    "keyword",
    "type",
    "function",
    "variable",
    "number",
    "string",
];

/// The name of a token type.
pub open spec fn name_of_type(token_type: SemanticTokenType) -> Seq<char> {
    match token_type {
        SemanticTokenType::Keyword => "keyword"@,
        SemanticTokenType::Type => "type"@,
        SemanticTokenType::Function => "function"@,
        SemanticTokenType::Variable => "variable"@,
        SemanticTokenType::Number => "number"@,
        SemanticTokenType::StringLiteral => "string"@,
    }
}

/// The number of a token type.
pub open spec fn type_number(token_type: SemanticTokenType) -> u32 {
    match token_type {
        SemanticTokenType::Keyword => 0,
        SemanticTokenType::Type => 1,
        SemanticTokenType::Function => 2,
        SemanticTokenType::Variable => 3,
        SemanticTokenType::Number => 4,
        SemanticTokenType::StringLiteral => 5,
    }
}

/// The number of a token type, at which its name stands among the names.
pub fn number_of_type(token_type: SemanticTokenType) -> (res: u32)
    ensures
        res == type_number(token_type),
        res < TOKEN_TYPES@.len(),
        TOKEN_TYPES@[res as int]@ == name_of_type(token_type),
{
    match token_type {
        SemanticTokenType::Keyword => 0,
        SemanticTokenType::Type => 1,
        SemanticTokenType::Function => 2,
        SemanticTokenType::Variable => 3,
        SemanticTokenType::Number => 4,
        SemanticTokenType::StringLiteral => 5,
    }
}

/// Whether a byte starts a keyword: an ASCII letter or the underscore.
pub open spec fn starts_keyword(byte: u8) -> bool {
    0x41 <= byte <= 0x5a || 0x61 <= byte <= 0x7a || byte == 0x5f
}

/// What a token is highlighted as that neither declares nor names anything: by
/// the first byte of its text, a keyword, a number or a string literal.
pub open spec fn literal_type(text: Seq<u8>, token: Token) -> Option<SemanticTokenType> {
    if token.start >= token.end || token.end > text.len() {
        None
    } else if starts_keyword(text[token.start as int]) {
        Some(SemanticTokenType::Keyword)
    } else if 0x30 <= text[token.start as int] <= 0x39 {
        Some(SemanticTokenType::Number)
    } else if text[token.start as int] == 0x22 {
        Some(SemanticTokenType::StringLiteral)
    } else {
        None
    }
}

/// Whether the text of the token at `i` is the given one; there may be no such
/// token.
pub open spec fn reads_at(text: Seq<u8>, tokens: Seq<Token>, i: int, wanted: Seq<char>) -> bool {
    &&& 0 <= i < tokens.len()
    &&& tokens[i].end - tokens[i].start == encode_utf8(wanted).len()
    &&& occurs_at(text, encode_utf8(wanted), tokens[i].start as int)
}

/// Whether a token starts with an ASCII capital.
pub open spec fn is_capitalised(text: Seq<u8>, token: Token) -> bool {
    token.start < text.len() && 0x41 <= text[token.start as int] <= 0x5a
}

/// What an identifier is highlighted as. What a keyword declares is known from
/// the keyword. Behind a colon or an arrow stands a type, as does a name with a
/// capital; before a parenthesis stands a function; the rest are variables.
pub open spec fn identifier_type(text: Seq<u8>, tokens: Seq<Token>, i: int) -> SemanticTokenType {
    if i > 0 && tokens[i - 1].kind is Class {
        SemanticTokenType::Type
    } else if i > 0 && tokens[i - 1].kind is Fn {
        SemanticTokenType::Function
    } else if i > 0 && tokens[i - 1].kind is Var {
        SemanticTokenType::Variable
    } else if reads_at(text, tokens, i - 1, ":"@) || reads_at(text, tokens, i - 1, "->"@) {
        SemanticTokenType::Type
    } else if is_capitalised(text, tokens[i]) {
        SemanticTokenType::Type
    } else if reads_at(text, tokens, i + 1, "("@) {
        SemanticTokenType::Function
    } else {
        SemanticTokenType::Variable
    }
}

/// What the token at `i` is highlighted as, if it is.
pub open spec fn token_type(text: Seq<u8>, tokens: Seq<Token>, i: int) -> Option<
    SemanticTokenType,
> {
    match tokens[i].kind {
        TokenKind::Ident(_) => Some(identifier_type(text, tokens, i)),
        TokenKind::Other => literal_type(text, tokens[i]),
        _ => Some(SemanticTokenType::Keyword),
    }
}

/// A token that is highlighted: where it starts, how many UTF-16 code units it
/// takes, and as what.
#[derive(Clone, Copy, Debug, PartialEq, Eq, Structural)]
pub struct Mark {
    pub start: Position,
    pub length: u32,
    pub token_type: SemanticTokenType,
}

/// The token at `i` as it is highlighted. A token that goes on in another line
/// is not.
pub open spec fn mark_at(text: Seq<char>, tokens: Seq<Token>, i: int) -> Option<Mark> {
    let start = position_at(text, tokens[i].start as int);
    let end = position_at(text, tokens[i].end as int);
    match token_type(encode_utf8(text), tokens, i) {
        Some(token_type) => if start.line == end.line && start.character < end.character {
            Some(Mark { start, length: (end.character - start.character) as u32, token_type })
        } else {
            None
        },
        None => None,
    }
}

/// Those of the first `n` tokens that are highlighted.
pub open spec fn marks(text: Seq<char>, tokens: Seq<Token>, n: nat) -> Seq<Mark>
    decreases n,
{
    if n == 0 {
        Seq::empty()
    } else {
        let before = marks(text, tokens, (n - 1) as nat);
        match mark_at(text, tokens, n - 1) {
            Some(mark) => before.push(mark),
            None => before,
        }
    }
}

/// Whether a token stands between two characters of a text.
pub open spec fn is_token_of(text: Seq<char>, token: Token) -> bool {
    &&& token.start <= token.end <= encode_utf8(text).len()
    &&& on_boundary(text, token.start as int)
    &&& on_boundary(text, token.end as int)
}

/// Whether tokens are those of a text: each stands between two characters, and
/// behind the tokens before it.
pub open spec fn are_tokens_of(text: Seq<char>, tokens: Seq<Token>) -> bool {
    &&& forall|i: int| 0 <= i < tokens.len() ==> is_token_of(text, #[trigger] tokens[i])
    &&& forall|i: int, j: int|
        0 <= i < j < tokens.len() ==> (#[trigger] tokens[i]).end <= (#[trigger] tokens[j]).start
}

/// Whether tokens are those of a text.
pub fn is_split_of(text: &str, tokens: &Vec<Token>) -> (res: bool)
    ensures
        res == are_tokens_of(text@, tokens@),
{
    let length: usize = text.as_bytes().len();
    let mut i: usize = 0;
    while i < tokens.len()
        invariant
            length == encode_utf8(text@).len(),
            i <= tokens@.len(),
            are_tokens_of(text@, tokens@.take(i as int)),
        decreases tokens@.len() - i,
    {
        let ghost seen = tokens@.take(i as int);
        let ghost more = tokens@.take(i + 1);
        proof {
            assert forall|k: int| 0 <= k < i implies #[trigger] more[k] == seen[k] by {}
            assert(more[i as int] == tokens@[i as int]);
        }
        if tokens[i].start > tokens[i].end || tokens[i].end > length || !text.is_char_boundary(
            tokens[i].start,
        ) || !text.is_char_boundary(tokens[i].end) {
            assert(!is_token_of(text@, tokens@[i as int]));
            return false;
        }
        if i > 0 && tokens[i - 1].end > tokens[i].start {
            assert(tokens@[i - 1].end > tokens@[i as int].start);
            return false;
        }
        proof {
            assert forall|k: int, j: int| 0 <= k < j < more.len() implies (#[trigger] more[k]).end
                <= (#[trigger] more[j]).start by {
                if j == i && k < i - 1 {
                    assert(seen[k].end <= seen[i - 1].start);
                    assert(is_token_of(text@, seen[i - 1]));
                }
            }
        }
        i += 1;
    }
    proof {
        assert(tokens@.take(tokens@.len() as int) =~= tokens@);
    }
    true
}

/// Whether the text of the token at `i` is the given one.
fn has_text(text: &[u8], tokens: &Vec<Token>, i: usize, wanted: &str) -> (res: bool)
    requires
        i < tokens@.len(),
        tokens@[i as int].start <= tokens@[i as int].end <= text@.len(),
    ensures
        res == reads_at(text@, tokens@, i as int, wanted@),
{
    let pattern = wanted.as_bytes();
    tokens[i].end - tokens[i].start == pattern.len() && matches_at(text, pattern, tokens[i].start)
}

/// What an identifier is highlighted as.
fn type_of_identifier(text: &str, tokens: &Vec<Token>, i: usize) -> (res: SemanticTokenType)
    requires
        i < tokens@.len(),
        are_tokens_of(text@, tokens@),
    ensures
        res == identifier_type(encode_utf8(text@), tokens@, i as int),
{
    let bytes = text.as_bytes();
    assert(is_token_of(text@, tokens@[i as int]));
    if i > 0 {
        assert(is_token_of(text@, tokens@[i - 1]));
        match &tokens[i - 1].kind {
            TokenKind::Class => {
                return SemanticTokenType::Type;
            },
            TokenKind::Fn => {
                return SemanticTokenType::Function;
            },
            TokenKind::Var => {
                return SemanticTokenType::Variable;
            },
            _ => {},
        }
        if has_text(bytes, tokens, i - 1, ":") || has_text(bytes, tokens, i - 1, "->") {
            return SemanticTokenType::Type;
        }
    }
    let start: usize = tokens[i].start;
    if start < bytes.len() && 0x41 <= bytes[start] && bytes[start] <= 0x5a {
        return SemanticTokenType::Type;
    }
    if tokens.len() - i > 1 {
        assert(is_token_of(text@, tokens@[i + 1]));
        if has_text(bytes, tokens, i + 1, "(") {
            return SemanticTokenType::Function;
        }
    }
    SemanticTokenType::Variable
}

/// What the token at `i` is highlighted as, if it is.
fn type_of_token(text: &str, tokens: &Vec<Token>, i: usize) -> (res: Option<SemanticTokenType>)
    requires
        i < tokens@.len(),
        are_tokens_of(text@, tokens@),
    ensures
        res == token_type(encode_utf8(text@), tokens@, i as int),
{
    match &tokens[i].kind {
        TokenKind::Ident(_) => Some(type_of_identifier(text, tokens, i)),
        TokenKind::Other => {
            assert(is_token_of(text@, tokens@[i as int]));
            if tokens[i].start >= tokens[i].end {
                return None;
            }
            let first: u8 = text.as_bytes()[tokens[i].start];
            if (0x41 <= first && first <= 0x5a) || (0x61 <= first && first <= 0x7a) || first
                == 0x5f {
                Some(SemanticTokenType::Keyword)
            } else if 0x30 <= first && first <= 0x39 {
                Some(SemanticTokenType::Number)
            } else if first == 0x22 {
                Some(SemanticTokenType::StringLiteral)
            } else {
                None
            }
        },
        _ => Some(SemanticTokenType::Keyword),
    }
}

/// Those of the tokens of a text that are highlighted.
pub fn highlighted(text: &str, tokens: &Vec<Token>) -> (res: Vec<Mark>)
    requires
        are_tokens_of(text@, tokens@),
    ensures
        res@ == marks(text@, tokens@, tokens@.len()),
{
    let mut out: Vec<Mark> = Vec::new();
    let mut i: usize = 0;
    while i < tokens.len()
        invariant
            are_tokens_of(text@, tokens@),
            i <= tokens@.len(),
            out@ == marks(text@, tokens@, i as nat),
        decreases tokens@.len() - i,
    {
        assert(is_token_of(text@, tokens@[i as int]));
        if let Some(token_type) = type_of_token(text, tokens, i) {
            let start: Position = byte_position(text, tokens[i].start);
            let end: Position = byte_position(text, tokens[i].end);
            if start.line == end.line && start.character < end.character {
                out.push(Mark { start, length: end.character - start.character, token_type });
            }
        }
        i += 1;
    }
    out
}

/// A highlighted token as it is sent: how many lines it starts below the token
/// before it, and how far into its line, counted from that token if it starts
/// in the same line.
#[derive(Clone, Copy, Debug, PartialEq, Eq, Structural)]
pub struct SemanticToken {
    pub delta_line: u32,
    pub delta_start: u32,
    pub length: u32,
    pub token_type: u32,
    pub token_modifiers: u32,
}

/// The start of the token before the one at `i`, or of the text.
pub open spec fn start_before(marks: Seq<Mark>, i: int) -> Position {
    if 0 < i <= marks.len() {
        marks[i - 1].start
    } else {
        Position { line: 0, character: 0 }
    }
}

/// A highlighted token as it is sent behind another.
pub open spec fn sent_token(before: Position, mark: Mark) -> SemanticToken {
    SemanticToken {
        delta_line: (mark.start.line - before.line) as u32,
        delta_start: if mark.start.line == before.line {
            (mark.start.character - before.character) as u32
        } else {
            mark.start.character
        },
        length: mark.length,
        token_type: type_number(mark.token_type),
        token_modifiers: 0,
    }
}

/// Highlighted tokens as they are sent.
pub open spec fn sent_tokens(marks: Seq<Mark>) -> Seq<SemanticToken> {
    Seq::new(marks.len(), |i: int| sent_token(start_before(marks, i), marks[i]))
}

/// Whether no token starts before one that stands before it.
pub open spec fn in_position_order(marks: Seq<Mark>) -> bool {
    forall|i: int, j: int|
        0 <= i < j < marks.len() ==> is_at_or_before(
            (#[trigger] marks[i]).start,
            (#[trigger] marks[j]).start,
        )
}

/// Each highlighted token is one of the tokens of the text.
proof fn lemma_mark_of_token(text: Seq<char>, tokens: Seq<Token>, n: nat, k: int) -> (i: int)
    requires
        n <= tokens.len(),
        0 <= k < marks(text, tokens, n).len(),
    ensures
        0 <= i < n,
        mark_at(text, tokens, i) == Some(marks(text, tokens, n)[k]),
    decreases n,
{
    let before = marks(text, tokens, (n - 1) as nat);
    if k < before.len() {
        lemma_mark_of_token(text, tokens, (n - 1) as nat, k)
    } else {
        n - 1
    }
}

/// The highlighted tokens of a text stand in the order of the text.
pub proof fn law_marks_in_order(text: Seq<char>, tokens: Seq<Token>, n: nat)
    requires
        encode_utf8(text).len() <= u32::MAX,
        are_tokens_of(text, tokens),
        n <= tokens.len(),
    ensures
        in_position_order(marks(text, tokens, n)),
    decreases n,
{
    if n > 0 {
        let all = marks(text, tokens, n);
        let before = marks(text, tokens, (n - 1) as nat);
        law_marks_in_order(text, tokens, (n - 1) as nat);
        assert forall|i: int, j: int| 0 <= i < j < all.len() implies is_at_or_before(
            (#[trigger] all[i]).start,
            (#[trigger] all[j]).start,
        ) by {
            assert(all[i] == before[i]);
            if j < before.len() {
                assert(all[j] == before[j]);
            } else {
                let k = lemma_mark_of_token(text, tokens, (n - 1) as nat, i);
                assert(is_token_of(text, tokens[k]));
                assert(is_token_of(text, tokens[n - 1]));
                assert(tokens[k].end <= tokens[n - 1].start);
                lemma_positions_fit(text, tokens[k].start as int);
                lemma_positions_fit(text, tokens[n - 1].start as int);
                law_positions_in_order(
                    text,
                    tokens[k].start as int,
                    tokens[n - 1].start as int,
                );
            }
        }
    }
}

/// Highlighted tokens as they are sent.
pub fn encoded(marks: &Vec<Mark>) -> (res: Vec<SemanticToken>)
    requires
        in_position_order(marks@),
    ensures
        res@ == sent_tokens(marks@),
{
    let mut out: Vec<SemanticToken> = Vec::new();
    let mut before: Position = Position { line: 0, character: 0 };
    let mut i: usize = 0;
    while i < marks.len()
        invariant
            in_position_order(marks@),
            i <= marks@.len(),
            before == start_before(marks@, i as int),
            out@.len() == i,
            forall|k: int| 0 <= k < i ==> #[trigger] out@[k] == sent_tokens(marks@)[k],
        decreases marks@.len() - i,
    {
        let mark: Mark = marks[i];
        assert(is_at_or_before(before, mark.start)) by {
            if i > 0 {
                assert(marks@[i - 1].start == before);
            }
        }
        out.push(
            SemanticToken {
                delta_line: mark.start.line - before.line,
                delta_start: if mark.start.line == before.line {
                    mark.start.character - before.character
                } else {
                    mark.start.character
                },
                length: mark.length,
                token_type: number_of_type(mark.token_type),
                token_modifiers: 0,
            },
        );
        before = mark.start;
        i += 1;
    }
    proof {
        assert(out@ =~= sent_tokens(marks@));
    }
    out
}

/// The semantic tokens of a script. There are none if it cannot be split into
/// tokens, if what it is split into are not its tokens, or if its length does
/// not fit the integers that hold a position.
pub fn semantic_tokens(text: &str, tokens: Option<&Vec<Token>>) -> (res: Option<
    Vec<SemanticToken>,
>)
    ensures
        match (tokens, res) {
            (Some(tokens), Some(sent)) => {
                &&& are_tokens_of(text@, tokens@)
                &&& encode_utf8(text@).len() <= u32::MAX
                &&& sent@ == sent_tokens(marks(text@, tokens@, tokens@.len()))
            },
            (Some(tokens), None) => !are_tokens_of(text@, tokens@) || encode_utf8(text@).len()
                > u32::MAX,
            (None, _) => res is None,
        },
{
    let tokens: &Vec<Token> = match tokens {
        Some(tokens) => tokens,
        None => {
            return None;
        },
    };
    if text.as_bytes().len() as u64 > u32::MAX as u64 || !is_split_of(text, tokens) {
        return None;
    }
    let marks: Vec<Mark> = highlighted(text, tokens);
    proof {
        law_marks_in_order(text@, tokens@, tokens@.len());
    }
    Some(encoded(&marks))
}

/// Where a client takes the last of the first `n` tokens that it is sent to
/// start.
pub open spec fn received_start(sent: Seq<SemanticToken>, n: nat) -> (int, int)
    decreases n,
{
    if n == 0 {
        (0, 0)
    } else {
        let before = received_start(sent, (n - 1) as nat);
        let token = sent[n - 1];
        (
            before.0 + token.delta_line,
            if token.delta_line == 0 {
                before.1 + token.delta_start
            } else {
                token.delta_start as int
            },
        )
    }
}

/// A client takes each token that it is sent to start where it does.
pub proof fn law_sent_tokens_are_received(marks: Seq<Mark>, n: nat)
    requires
        in_position_order(marks),
        n <= marks.len(),
    ensures
        received_start(sent_tokens(marks), n) == (
            start_before(marks, n as int).line as int,
            start_before(marks, n as int).character as int,
        ),
    decreases n,
{
    if n > 0 {
        law_sent_tokens_are_received(marks, (n - 1) as nat);
        if n > 1 {
            assert(is_at_or_before(marks[n - 2].start, marks[n - 1].start));
        }
    }
}

} // verus!
