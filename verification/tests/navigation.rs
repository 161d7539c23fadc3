use kalcite_lsp::definition::SourceFile;
use kalcite_lsp::highlight::{
    encoded, highlighted, is_split_of, number_of_type, semantic_tokens, Mark, SemanticToken,
    SemanticTokenType, TOKEN_TYPES,
};
use kalcite_lsp::position::{Location, Position, Range};
use kalcite_lsp::references::{is_valid_name, references, rename, FileEdits, TextEdit};
use kalcite_lsp::symbols::{is_script_in_text, workspace_symbols, Script, SymbolKind};
use kalcite_lsp::syntax::{Token, TokenKind};

fn at(line: u32, character: u32) -> Position {
    Position { line, character }
}

fn span(line: u32, start: u32, end: u32) -> Range {
    Range { start: at(line, start), end: at(line, end) }
}

fn location(uri: &str, range: Range) -> Location {
    Location { uri: uri.to_string(), range }
}

fn file(uri: Option<&str>, text: Option<&str>) -> SourceFile {
    SourceFile {
        path: vec![],
        name: None,
        text: text.map(str::to_string),
        uri: uri.map(str::to_string),
    }
}

fn files() -> Vec<SourceFile> {
    vec![
        file(Some("file:///a"), Some("class Player {}\n\u{1F600} Player PlayerTwo Player.x")),
        file(Some("file:///b"), Some("nothing")),
        file(Some("file:///c"), None),
        file(None, Some("Player")),
        file(Some("file:///d"), Some("é(Player)Player")),
    ]
}

#[test]
fn references_are_whole_words_in_all_files() {
    let expected = vec![
        location("file:///a", span(0, 6, 12)),
        location("file:///a", span(1, 3, 9)),
        location("file:///d", span(0, 2, 8)),
        location("file:///d", span(0, 9, 15)),
    ];
    assert_eq!(references("new Player", at(0, 5), &files(), true), expected);
    assert_eq!(references("new Player", at(0, 5), &files(), false), expected[1..]);
    assert_eq!(references("new Player", at(0, 1), &files(), true), vec![]);
    assert_eq!(references("( )", at(0, 1), &files(), true), vec![]);
}

#[test]
fn declarations_are_told_from_other_uses() {
    let held = vec![file(Some("u"), Some("fn x signal x var x class x let x"))];
    let found = references("x", at(0, 0), &held, false);
    assert_eq!(found, vec![location("u", span(0, 32, 33))]);
    assert_eq!(references("x", at(0, 0), &held, true).len(), 5);
}

#[test]
fn the_word_at_the_position_is_one_of_its_uses() {
    let text = "é ab.c";
    let held = vec![file(Some("u"), Some(text))];
    for character in 2..7 {
        let found = references(text, at(0, character), &held, true);
        assert_eq!(found, vec![location("u", span(0, 2, 6))]);
    }
}

#[test]
fn renaming_replaces_each_use() {
    let edit = |range| TextEdit { range, new_text: "Hero".to_string() };
    assert_eq!(
        rename("Player", at(0, 0), "Hero", &files()),
        Some(vec![
            FileEdits {
                uri: "file:///a".to_string(),
                edits: vec![edit(span(0, 6, 12)), edit(span(1, 3, 9))],
            },
            FileEdits {
                uri: "file:///d".to_string(),
                edits: vec![edit(span(0, 2, 8)), edit(span(0, 9, 15))],
            },
        ])
    );
    assert_eq!(rename("Other", at(0, 0), "Hero", &files()), Some(vec![]));
}

#[test]
fn only_words_of_the_project_are_renamed_to_words() {
    assert_eq!(rename("Audio.tone", at(0, 0), "Hero", &files()), None);
    assert_eq!(rename("tone", at(0, 0), "Hero", &files()), None);
    assert_eq!(rename("", at(0, 0), "Hero", &files()), None);
    assert_eq!(rename("Player", at(0, 0), "", &files()), None);
    assert_eq!(rename("Player", at(0, 0), "two words", &files()), None);
    assert_eq!(rename("Player", at(0, 0), "é", &files()), None);
    assert!(is_valid_name("a_1-b.c"));
    assert!(!is_valid_name("a b"));
    assert!(!is_valid_name(""));
}

fn token(kind: TokenKind, start: usize, end: usize) -> Token {
    Token { kind, start, end }
}

fn ident(name: &str, start: usize) -> Token {
    token(TokenKind::Ident(name.to_string()), start, start + name.len())
}

fn script(uri: &str, text: &str, tokens: Option<Vec<Token>>) -> Script {
    Script { uri: uri.to_string(), text: text.to_string(), tokens }
}

#[test]
fn symbols_of_all_scripts_are_searched() {
    let scripts = vec![
        script(
            "u",
            "class Main fn jump",
            Some(vec![
                token(TokenKind::Class, 0, 5),
                ident("Main", 6),
                token(TokenKind::Fn, 11, 13),
                ident("jump", 14),
            ]),
        ),
        script("v", "?", None),
        script("w", "var jumps", Some(vec![token(TokenKind::Var, 0, 3), ident("jumps", 4)])),
    ];
    assert!(scripts.iter().all(is_script_in_text));
    let found = workspace_symbols(&scripts, "jump");
    assert_eq!(found.len(), 2);
    assert_eq!(found[0].name, "jump");
    assert_eq!(found[0].kind, SymbolKind::Function);
    assert_eq!(found[0].location, location("u", span(0, 14, 18)));
    assert_eq!(found[1].name, "jumps");
    assert_eq!(found[1].location, location("w", span(0, 4, 9)));
    assert_eq!(workspace_symbols(&scripts, "").len(), 3);
    assert_eq!(workspace_symbols(&scripts, "x"), vec![]);
    let split = vec![token(TokenKind::Var, 0, 1), ident("x", 1)];
    assert!(!is_script_in_text(&script("u", "öx", Some(split))));
}

#[test]
fn tokens_are_highlighted_as_what_they_are() {
    let text = "class a fn b() -> i16 { defer c(\"é\", 12, D) } var e: f";
    let kinds = vec![
        (token(TokenKind::Class, 0, 5), Some(SemanticTokenType::Keyword)),
        (ident("a", 6), Some(SemanticTokenType::Type)),
        (token(TokenKind::Fn, 8, 10), Some(SemanticTokenType::Keyword)),
        (ident("b", 11), Some(SemanticTokenType::Function)),
        (token(TokenKind::Other, 12, 13), None),
        (token(TokenKind::Other, 13, 14), None),
        (token(TokenKind::Other, 15, 17), None),
        (ident("i16", 18), Some(SemanticTokenType::Type)),
        (token(TokenKind::Other, 22, 23), None),
        (token(TokenKind::Other, 24, 29), Some(SemanticTokenType::Keyword)),
        (ident("c", 30), Some(SemanticTokenType::Function)),
        (token(TokenKind::Other, 31, 32), None),
        (token(TokenKind::Other, 32, 36), Some(SemanticTokenType::StringLiteral)),
        (token(TokenKind::Other, 36, 37), None),
        (token(TokenKind::Other, 38, 40), Some(SemanticTokenType::Number)),
        (token(TokenKind::Other, 40, 41), None),
        (ident("D", 42), Some(SemanticTokenType::Type)),
        (token(TokenKind::Other, 43, 44), None),
        (token(TokenKind::Other, 45, 46), None),
        (token(TokenKind::Var, 47, 50), Some(SemanticTokenType::Keyword)),
        (ident("e", 51), Some(SemanticTokenType::Variable)),
        (token(TokenKind::Other, 52, 53), None),
        (ident("f", 54), Some(SemanticTokenType::Type)),
        (token(TokenKind::Other, 55, 55), None),
    ];
    let expected: Vec<_> = kinds.iter().filter_map(|(_, kind)| *kind).collect();
    let tokens: Vec<_> = kinds.into_iter().map(|(token, _)| token).collect();
    assert!(is_split_of(text, &tokens));
    let marks = highlighted(text, &tokens);
    let found: Vec<_> = marks.iter().map(|mark| mark.token_type).collect();
    assert_eq!(found, expected);
    assert_eq!(marks[6].start, at(0, 30));
    assert_eq!((marks[7].start, marks[7].length), (at(0, 32), 3));
    assert_eq!((marks[8].start, marks[8].length), (at(0, 37), 2));
}

#[test]
fn token_types_have_names() {
    let names = [
        (SemanticTokenType::Keyword, "keyword"),
        (SemanticTokenType::Type, "type"),
        (SemanticTokenType::Function, "function"),
        (SemanticTokenType::Variable, "variable"),
        (SemanticTokenType::Number, "number"),
        (SemanticTokenType::StringLiteral, "string"),
    ];
    for (token_type, name) in names {
        assert_eq!(TOKEN_TYPES[number_of_type(token_type) as usize], name);
    }
}

#[test]
fn tokens_are_sent_by_their_distance() {
    let mark = |line, character, token_type| Mark { start: at(line, character), length: 1, token_type };
    let sent = |delta_line, delta_start, token_type| SemanticToken {
        delta_line,
        delta_start,
        length: 1,
        token_type,
        token_modifiers: 0,
    };
    let marks = vec![
        mark(0, 2, SemanticTokenType::Keyword),
        mark(0, 5, SemanticTokenType::Number),
        mark(3, 4, SemanticTokenType::Variable),
        mark(3, 9, SemanticTokenType::StringLiteral),
    ];
    assert_eq!(
        encoded(&marks),
        vec![sent(0, 2, 0), sent(0, 3, 4), sent(3, 4, 3), sent(0, 5, 5)]
    );
    assert_eq!(encoded(&vec![]), vec![]);
}

#[test]
fn semantic_tokens_count_utf16_code_units() {
    let text = "\"\u{1F600}\"x\n\"a\nb\" y";
    let tokens = vec![
        token(TokenKind::Other, 0, 6),
        ident("x", 6),
        token(TokenKind::Other, 8, 13),
        ident("y", 14),
    ];
    let sent = |delta_line, delta_start, length, token_type| SemanticToken {
        delta_line,
        delta_start,
        length,
        token_type,
        token_modifiers: 0,
    };
    assert_eq!(
        semantic_tokens(text, Some(&tokens)),
        Some(vec![sent(0, 0, 4, 5), sent(0, 4, 1, 3), sent(2, 3, 1, 3)])
    );
    assert_eq!(semantic_tokens(text, None), None);
}

#[test]
fn what_are_not_the_tokens_of_a_text_is_noticed() {
    assert!(!is_split_of("ab", &vec![ident("b", 1), ident("a", 0)]));
    assert!(!is_split_of("ab", &vec![ident("abc", 0)]));
    assert!(!is_split_of("ö", &vec![ident("x", 0)]));
    assert!(!is_split_of("ab", &vec![token(TokenKind::Other, 1, 0)]));
    assert_eq!(semantic_tokens("ö", Some(&vec![ident("x", 0)])), None);
}
