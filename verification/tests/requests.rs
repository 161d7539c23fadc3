use kalcite_lsp::completion::{
    collect_asset_completions, collect_module_completions, complete, completion, hover, listed,
    project_completions, project_detail, CompletionItem, CompletionItemKind, Project,
    ProjectIndex, SaveField,
};
use kalcite_lsp::definition::{
    definition_offset, find_definition, goto_definition, ProjectSources, SourceFile,
};
use kalcite_lsp::engine::{
    engine_detail, engine_documentation, is_named, DocumentationCandidate, ENGINE_SYMBOLS,
};
use kalcite_lsp::files::{
    asset_names_in_order, collect_asset_names, collect_files, definition_files, Entry, EntryKind,
    ProjectTree,
};
use kalcite_lsp::order::{place_bytes, place_parts, place_paths, PathPart, Place};
use kalcite_lsp::position::{Location, Position, Range};
use kalcite_lsp::symbols::{are_names_in_text, document_symbols, SymbolInformation, SymbolKind};
use kalcite_lsp::syntax::{
    Class, Field, Function, Item, Member, Module, Signal, Token, TokenKind,
};
use kalcite_lsp::words::word_at;
use std::collections::BTreeSet;

fn at(line: u32, character: u32) -> Position {
    Position { line, character }
}

fn strings(texts: &[&str]) -> Vec<String> {
    texts.iter().map(|text| text.to_string()).collect()
}

fn entry(name: &str, kind: EntryKind<u32>) -> Entry<u32> {
    Entry {
        path: name.len() as u32,
        name: name.as_bytes().to_vec(),
        text_name: Some(name.to_string()),
        kind,
    }
}

fn item(label: &str, kind: CompletionItemKind, detail: &str) -> CompletionItem {
    CompletionItem { label: label.to_string(), kind, detail: detail.to_string() }
}

fn script() -> Module {
    Module {
        items: vec![
            Item::Other,
            Item::Class(Class {
                members: vec![
                    Member::Field(Field {
                        name: "speed".to_string(),
                        attributes: strings(&["range", "export"]),
                    }),
                    Member::Field(Field { name: "hidden".to_string(), attributes: vec![] }),
                    Member::Function(Function { name: "ready".to_string() }),
                    Member::Signal(Signal { name: "moved".to_string() }),
                    Member::Class,
                ],
            }),
            Item::Function(Function { name: "helper".to_string() }),
        ],
    }
}

fn script_items() -> Vec<CompletionItem> {
    vec![
        item("speed", CompletionItemKind::Field, "exported scene property"),
        item("hidden", CompletionItemKind::Field, "class field"),
        item("ready", CompletionItemKind::Method, "class method"),
        item("moved", CompletionItemKind::Event, "typed signal"),
        item("helper", CompletionItemKind::Function, "project function"),
    ]
}

fn assets() -> Option<Vec<Entry<u32>>> {
    Some(vec![
        entry("tiles.png", EntryKind::File),
        entry(
            "maps",
            EntryKind::Directory(Some(vec![
                entry("two.csv", EntryKind::File),
                entry("one.csv", EntryKind::Other),
            ])),
        ),
        entry("closed", EntryKind::Directory(None)),
        Entry { path: 0, name: vec![0xff], text_name: None, kind: EntryKind::File },
        entry("Hero.png", EntryKind::File),
    ])
}

fn project() -> Project<u32> {
    Project {
        index: Some(ProjectIndex {
            classes: strings(&["Main", "Player"]),
            modules: vec![None, Some(script())],
        }),
        actions: Some(strings(&["Jump"])),
        save_fields: Some(vec![SaveField { name: "score".to_string(), ty: "u32".to_string() }]),
        assets: assets(),
    }
}

#[test]
fn locates_words_and_definitions() {
    let text = "class Player extends Node {}\nInput.action_held(\"Left\");";
    assert_eq!(word_at(text, Position { line: 1, character: 10 }), "Input.action_held");
    assert_eq!(definition_offset(text, "Player"), Some(6));
}

#[test]
fn engine_completions_cover_runtime_subsystems() {
    let labels = ENGINE_SYMBOLS.iter().map(|item| item.0).collect::<BTreeSet<_>>();
    assert!(labels.contains("Input.action_pressed"));
    assert!(labels.contains("Physics.move_x"));
    assert!(labels.contains("ProjectSave.compatible"));
    assert!(labels.contains("Audio.tone"));
    assert!(labels.contains("Draw.sprite_frame"));
}

#[test]
fn engine_calls_are_explained_by_full_and_short_name() {
    for (name, detail) in ENGINE_SYMBOLS {
        assert_eq!(engine_detail(name), Some(detail));
    }
    assert_eq!(engine_detail("tilemap"), Some("void — draw a packed CSV tilemap"));
    assert_eq!(engine_detail("Draw"), None);
    assert_eq!(engine_detail(""), None);
    assert!(is_named("a.b.c", "c"));
    assert!(is_named("a.b.c", "a.b.c"));
    assert!(!is_named("a.b.c", "b.c"));
    assert!(is_named("plain", "plain"));
    assert!(is_named("dot.", ""));
}

#[test]
fn scripts_offer_their_declarations() {
    let mut out = vec![completion("first", CompletionItemKind::Class, "before")];
    collect_module_completions(&script(), &mut out);
    let mut expected = vec![item("first", CompletionItemKind::Class, "before")];
    expected.extend(script_items());
    assert_eq!(out, expected);
}

#[test]
fn assets_are_offered_in_the_order_of_their_names() {
    let names = strings(&["Hero.png", "one.csv", "two.csv", "tiles.png"]);
    assert_eq!(asset_names_in_order(&assets()), names);
    assert_eq!(asset_names_in_order::<u32>(&None), strings(&[]));
    let mut out = vec![];
    collect_asset_completions(&assets(), &mut out);
    let items: Vec<_> = names
        .iter()
        .map(|name| item(name, CompletionItemKind::File, "packed project asset"))
        .collect();
    assert_eq!(out, items);
}

#[test]
fn asset_names_are_collected_from_all_directories() {
    let mut names = strings(&["before"]);
    collect_asset_names(&assets(), &mut names);
    assert_eq!(names, strings(&["before", "tiles.png", "two.csv", "one.csv", "Hero.png"]));
}

#[test]
fn projects_offer_all_that_they_hold() {
    let mut expected = vec![
        item("Main", CompletionItemKind::Class, "project class"),
        item("Player", CompletionItemKind::Class, "project class"),
    ];
    expected.extend(script_items());
    expected.push(item("Jump", CompletionItemKind::Event, "input action"));
    expected.push(item(
        "ProjectSave.score",
        CompletionItemKind::Method,
        "load typed save field (u32)",
    ));
    expected.push(item(
        "ProjectSave.set_score",
        CompletionItemKind::Method,
        "store typed save field (u32)",
    ));
    for name in ["Hero.png", "one.csv", "two.csv", "tiles.png"] {
        expected.push(item(name, CompletionItemKind::File, "packed project asset"));
    }
    assert_eq!(project_completions(Some(&project())), expected);
    assert_eq!(project_completions::<u32>(None), vec![]);
    let empty: Project<u32> = Project { index: None, actions: None, save_fields: None, assets: None };
    assert_eq!(project_completions(Some(&empty)), vec![]);
}

#[test]
fn lists_keep_the_first_of_each_label_in_order() {
    let items = vec![
        item("b", CompletionItemKind::Class, "first b"),
        item("a", CompletionItemKind::File, "only a"),
        item("b", CompletionItemKind::Field, "second b"),
        item("ab", CompletionItemKind::Event, "longer"),
        item("Z", CompletionItemKind::Event, "upper case"),
    ];
    assert_eq!(
        listed(items),
        vec![
            item("Z", CompletionItemKind::Event, "upper case"),
            item("a", CompletionItemKind::File, "only a"),
            item("ab", CompletionItemKind::Event, "longer"),
            item("b", CompletionItemKind::Class, "first b"),
        ]
    );
}

#[test]
fn engine_calls_are_always_offered() {
    let mut with_rival = project();
    with_rival.actions = Some(strings(&["Audio.tone"]));
    for list in [complete::<u32>(None), complete(Some(&with_rival))] {
        for (label, detail) in ENGINE_SYMBOLS {
            let expected = item(label, CompletionItemKind::Method, detail);
            assert_eq!(list.iter().filter(|item| item.label == label).count(), 1);
            assert!(list.contains(&expected));
        }
        assert!(list.windows(2).all(|pair| pair[0].label < pair[1].label));
    }
    assert_eq!(complete::<u32>(None).len(), 15);
}

#[test]
fn hovering_prefers_the_engine() {
    let mut held = project();
    held.actions = Some(strings(&["stop", "Jump"]));
    let text = "stop Jump score nothing";
    assert_eq!(
        hover(text, at(0, 1), Some(&held)),
        Some("void — stop platform audio".to_string())
    );
    assert_eq!(hover(text, at(0, 6), Some(&held)), Some("input action".to_string()));
    assert_eq!(
        hover(text, at(0, 12), Some(&held)),
        Some("load typed save field (u32)".to_string())
    );
    assert_eq!(hover(text, at(0, 18), Some(&held)), None);
    assert_eq!(hover::<u32>(text, at(0, 6), None), None);
}

#[test]
fn offered_labels_are_explained() {
    let held = project();
    for item in project_completions(Some(&held)) {
        assert!(project_detail(Some(&held), &item.label).is_some());
    }
    for item in complete(Some(&held)) {
        assert!(hover(&item.label, at(0, 0), Some(&held)).is_some());
    }
    assert_eq!(project_detail(Some(&held), "csv"), Some("packed project asset".to_string()));
    assert_eq!(project_detail::<u32>(None, "Main"), None);
}

#[test]
fn declarations_are_found_before_assignments() {
    assert_eq!(definition_offset("x=1 fn x", "x"), Some(7));
    assert_eq!(definition_offset("var a; signal a; class a", "a"), Some(23));
    assert_eq!(definition_offset("signal moved(value: i16)", "moved"), Some(7));
    assert_eq!(definition_offset("var speed: i16", "speed"), Some(4));
    assert_eq!(definition_offset("a Jump=OK", "Jump"), Some(3));
    assert_eq!(definition_offset("a Jump =OK", "Jump"), Some(4));
    assert_eq!(definition_offset("nothing", "Jump"), None);
    assert_eq!(definition_offset("class é", "é"), Some(6));
}

fn parts(path: &[&str]) -> Vec<PathPart> {
    path.iter().map(|part| PathPart::Normal(part.as_bytes().to_vec())).collect()
}

fn source(path: &[&str], text: Option<&str>) -> SourceFile {
    SourceFile {
        path: parts(path),
        name: path.last().map(|name| name.to_string()),
        text: text.map(str::to_string),
        uri: Some(format!("file:///{}", path.join("/"))),
    }
}

fn location(uri: &str, position: Position) -> Location {
    Location { uri: uri.to_string(), range: Range { start: position, end: position } }
}

#[test]
fn definitions_come_from_the_first_path() {
    let mut files = vec![
        source(&["scripts", "b.klc"], Some("\nclass Main")),
        source(&["scripts-old", "a.klc"], Some("class Main")),
        source(&["scripts", "a.klc"], Some("// none")),
        source(&["scripts", "c.klc"], Some("class Main")),
        source(&["assets", "Main"], None),
    ];
    assert_eq!(
        find_definition(Some(&files), "Main"),
        Some(location("file:///assets/Main", at(0, 0)))
    );
    files.pop();
    assert_eq!(
        find_definition(Some(&files), "Main"),
        Some(location("file:///scripts/b.klc", at(1, 6)))
    );
    assert_eq!(find_definition(Some(&files), "Other"), None);
    assert_eq!(find_definition(Some(&files), ""), None);
    assert_eq!(find_definition(None, "Main"), None);
}

#[test]
fn a_definition_without_an_uri_is_not_given() {
    let mut first = source(&["a"], Some("class Main"));
    first.uri = None;
    let files = vec![source(&["b"], Some("class Main")), first];
    assert_eq!(find_definition(Some(&files), "Main"), None);
}

#[test]
fn engine_documentation_is_the_nearest() {
    let candidates = vec![
        DocumentationCandidate { is_file: false, uri: Some("file:///a/b/docs".to_string()) },
        DocumentationCandidate { is_file: true, uri: Some("file:///a/docs".to_string()) },
        DocumentationCandidate { is_file: true, uri: Some("file:///docs".to_string()) },
    ];
    assert_eq!(engine_documentation(&candidates), Some(location("file:///a/docs", at(0, 0))));
    let nameless = vec![
        DocumentationCandidate { is_file: true, uri: None },
        DocumentationCandidate { is_file: true, uri: Some("file:///docs".to_string()) },
    ];
    assert_eq!(engine_documentation(&nameless), None);
    assert_eq!(engine_documentation(&vec![]), None);
}

#[test]
fn going_to_a_definition_prefers_the_documentation_of_the_engine() {
    let text = "tone Main";
    let mut sources = ProjectSources {
        documentation: vec![DocumentationCandidate {
            is_file: true,
            uri: Some("file:///docs".to_string()),
        }],
        files: Some(vec![source(&["main.klc"], Some("class Main fn tone"))]),
    };
    assert_eq!(
        goto_definition(text, at(0, 2), Some(&sources)),
        Some(location("file:///docs", at(0, 0)))
    );
    assert_eq!(
        goto_definition(text, at(0, 6), Some(&sources)),
        Some(location("file:///main.klc", at(0, 6)))
    );
    sources.documentation.clear();
    assert_eq!(
        goto_definition(text, at(0, 2), Some(&sources)),
        Some(location("file:///main.klc", at(0, 14)))
    );
    sources.files = None;
    assert_eq!(goto_definition(text, at(0, 6), Some(&sources)), None);
    assert_eq!(goto_definition(text, at(0, 6), None), None);
}

#[test]
fn files_are_collected_below_directories() {
    let tree = ProjectTree {
        scripts: entry(
            "s",
            EntryKind::Directory(Some(vec![
                entry("ab", EntryKind::File),
                entry("deep", EntryKind::Directory(Some(vec![entry("abc", EntryKind::File)]))),
                entry("other", EntryKind::Other),
            ])),
        ),
        packages: entry("p", EntryKind::Other),
        scenes: entry("sixsix", EntryKind::File),
        input_map: 77,
        assets: entry("a", EntryKind::Directory(None)),
    };
    assert_eq!(definition_files(&tree), vec![&2, &3, &6, &77]);
    let mut out = vec![&tree.input_map];
    collect_files(&tree.scripts, &mut out);
    assert_eq!(out, vec![&77, &2, &3]);
}

#[test]
fn orders_compare_bytes_and_components() {
    assert_eq!(place_bytes(b"a", b"ab"), Place::Before);
    assert_eq!(place_bytes(b"b", b"ab"), Place::After);
    assert_eq!(place_bytes(b"ab", b"ab"), Place::Same);
    assert_eq!(place_paths(&parts(&["a", "z"]), &parts(&["a-b"])), Place::Before);
    assert_eq!(place_paths(&parts(&["a", "b"]), &parts(&["a"])), Place::After);
    assert_eq!(place_paths(&parts(&["a"]), &parts(&["a"])), Place::Same);
    let kinds = [
        PathPart::Prefix(b"z".to_vec()),
        PathPart::RootDir,
        PathPart::CurDir,
        PathPart::ParentDir,
        PathPart::Normal(vec![]),
        PathPart::Normal(b"a".to_vec()),
    ];
    for (i, kind) in kinds.iter().enumerate() {
        assert_eq!(place_parts(kind, kind), Place::Same);
        for later in &kinds[i + 1..] {
            assert_eq!(place_parts(kind, later), Place::Before);
            assert_eq!(place_parts(later, kind), Place::After);
        }
    }
}

fn token(kind: TokenKind, start: usize, end: usize) -> Token {
    Token { kind, start, end }
}

#[test]
fn outlines_list_declared_names() {
    let text = "class A {\nvar b; fn c() signal d class class";
    let tokens = vec![
        token(TokenKind::Class, 0, 5),
        token(TokenKind::Ident("A".to_string()), 6, 7),
        token(TokenKind::Other, 8, 9),
        token(TokenKind::Var, 10, 13),
        token(TokenKind::Ident("b".to_string()), 14, 15),
        token(TokenKind::Fn, 17, 19),
        token(TokenKind::Ident("c".to_string()), 20, 21),
        token(TokenKind::Signal, 24, 30),
        token(TokenKind::Ident("d".to_string()), 31, 32),
        token(TokenKind::Ident("e".to_string()), 31, 32),
        token(TokenKind::Class, 33, 38),
        token(TokenKind::Class, 39, 44),
    ];
    let symbol = |name: &str, kind, line, character| SymbolInformation {
        name: name.to_string(),
        kind,
        location: Location {
            uri: "file:///a.klc".to_string(),
            range: Range { start: at(line, character), end: at(line, character + 1) },
        },
    };
    assert!(are_names_in_text(text, &tokens));
    assert_eq!(
        document_symbols(text, Some(&tokens), "file:///a.klc"),
        vec![
            symbol("A", SymbolKind::Class, 0, 6),
            symbol("b", SymbolKind::Variable, 1, 4),
            symbol("c", SymbolKind::Function, 1, 10),
            symbol("d", SymbolKind::Event, 1, 21),
        ]
    );
    assert_eq!(document_symbols(text, None, "file:///a.klc"), vec![]);
    assert_eq!(document_symbols(text, Some(&vec![]), "file:///a.klc"), vec![]);
}

#[test]
fn names_within_a_character_are_noticed() {
    let tokens = vec![
        token(TokenKind::Var, 0, 1),
        token(TokenKind::Ident("x".to_string()), 1, 2),
    ];
    assert!(!are_names_in_text("öx", &tokens));
    assert!(are_names_in_text("xöx", &vec![]));
}
