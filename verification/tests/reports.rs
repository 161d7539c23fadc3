use kalcite_lsp::diagnostics::{
    are_script_calls_closed, checker_for, diagnostics_for, project_diagnostics,
    project_reference_diagnostic, validate, CheckFailure, Checker, Diagnostic, DiagnosticSeverity,
    ProjectFacts, SceneFinding,
};
use kalcite_lsp::files::{Entry, EntryKind};
use kalcite_lsp::position::{Position, Range};
use kalcite_lsp::session::{
    Action, DocumentText, InitializeResult, RootLookup, ServerCapabilities, Session,
    TextDocumentSyncKind,
};

fn span(start: (u32, u32), end: (u32, u32)) -> Range {
    Range {
        start: Position { line: start.0, character: start.1 },
        end: Position { line: end.0, character: end.1 },
    }
}

fn failure(message: &str, start: usize, end: usize) -> Option<CheckFailure> {
    Some(CheckFailure { message: message.to_string(), start, end })
}

fn diagnostic(range: Range, code: &str, source: &str, message: &str) -> Diagnostic {
    Diagnostic {
        range,
        severity: DiagnosticSeverity::Error,
        code: code.to_string(),
        source: source.to_string(),
        message: message.to_string(),
    }
}

fn finding(code: &str) -> SceneFinding {
    SceneFinding { code: code.to_string(), message: format!("finding {code}") }
}

fn facts() -> ProjectFacts<()> {
    ProjectFacts {
        scene_findings: None,
        actions: Some(vec!["Jump".to_string()]),
        assets: Some(vec![Entry {
            path: (),
            name: b"level.csv".to_vec(),
            text_name: Some("level.csv".to_string()),
            kind: EntryKind::File,
        }]),
    }
}

#[test]
fn diagnoses_engine_resource_formats() {
    let rejected = failure("rejected", 0, 0);
    assert_eq!(diagnostics_for("kmap", "Jump=NoSuchKey", &rejected).len(), 1);
    assert_eq!(diagnostics_for("kschema", "version=1", &rejected).len(), 1);
    assert_eq!(diagnostics_for("kscn", "[node", &rejected).len(), 1);
}

#[test]
fn diagnoses_project_actions_assets_signals_and_exports() {
    let klc = "Input.action_axis(\"Missing\", \"Jump\"); Draw.tilemap(\"level.csv\", \"missing.png\", 8, 8, 0, 0);";
    let klc_diagnostics = project_diagnostics(Some(&facts()), "klc", klc);
    assert!(klc_diagnostics.iter().any(|item| item.code == "KLP3001"));
    assert!(klc_diagnostics.iter().any(|item| item.code == "KLP3002"));

    let scene = "[scene]\nroot=\"Main\"\n[node \"Main\"]\nscript=\"Main\"\nunknown_export=2\n[node \"Child\" parent=\"Main\"]\nscript=\"MissingClass\"\n@signal Main.moved -> Main.nope\n";
    let mut found = facts();
    found.scene_findings = Some(vec![finding("KLP2001"), finding("KLP2005"), finding("KLP2003")]);
    let scene_diagnostics = project_diagnostics(Some(&found), "kscn", scene);
    assert!(scene_diagnostics.iter().any(|item| item.code == "KLP2001"));
    assert!(scene_diagnostics.iter().any(|item| item.code == "KLP2005"));
    assert!(scene_diagnostics.iter().any(|item| item.code == "KLP2003"));
}

#[test]
fn each_extension_has_its_checker_and_code() {
    let cases = [
        ("klc", Checker::Script, "KLC0001"),
        ("kscn", Checker::Scene, "KSCN0001"),
        ("kmap", Checker::InputMap, "KMAP0001"),
        ("kschema", Checker::SaveSchema, "KSAVE0001"),
        ("csv", Checker::Tilemap, "KASSET0001"),
        ("ksheet", Checker::Spritesheet, "KASSET0002"),
    ];
    for (extension, checker, code) in cases {
        assert_eq!(checker_for(extension), Some(checker));
        let range = if checker == Checker::Script {
            span((0, 1), (0, 2))
        } else {
            span((0, 0), (0, 3))
        };
        assert_eq!(
            diagnostics_for(extension, "one\ntwo", &failure("broken", 1, 2)),
            vec![diagnostic(range, code, "kalcite", "broken")]
        );
        assert_eq!(diagnostics_for(extension, "one\ntwo", &None), vec![]);
    }
    assert_eq!(checker_for("txt"), None);
    assert_eq!(checker_for(""), None);
    assert_eq!(diagnostics_for("txt", "one", &failure("broken", 1, 2)), vec![]);
}

#[test]
fn unknown_references_are_named() {
    assert_eq!(
        project_reference_diagnostic("a \"b\"", 3, 4, "KLP3002", "asset", "b"),
        diagnostic(
            span((0, 3), (0, 4)),
            "KLP3002",
            "kalcite-project",
            "unknown project asset `b`"
        )
    );
}

#[test]
fn scripts_are_checked_call_by_call() {
    let text = "Draw.sprite(\"\");\nInput.action_held(\"Jump\"); Input.action_held(\"A\")\nInput.action_released(\"B\") Input.action_pressed(\"C\")\nDraw.sprite_frame(\"level.csv\") Draw.sprite_region(\"D\") Input.action_axis(\"Jump\", \"E\", \"F\") Draw.tilemap(\"G\")";
    assert!(are_script_calls_closed(text));
    let action = |start, end, value: &str| {
        diagnostic(
            span(start, end),
            "KLP3001",
            "kalcite-project",
            &format!("unknown project input action `{value}`"),
        )
    };
    let asset = |start, end, value: &str| {
        diagnostic(
            span(start, end),
            "KLP3002",
            "kalcite-project",
            &format!("unknown project asset `{value}`"),
        )
    };
    let last = text.lines().last().unwrap();
    let column = |value: &str| last.find(value).unwrap() as u32 + 1;
    let d = column("\"D\"");
    let e = column("\"E\"");
    let g = column("\"G\"");
    assert_eq!(
        project_diagnostics(Some(&facts()), "klc", text),
        vec![
            action((1, 46), (1, 47), "A"),
            action((2, 49), (2, 50), "C"),
            action((2, 23), (2, 24), "B"),
            action((3, e), (3, e + 1), "E"),
            asset((0, 13), (0, 14), ""),
            asset((3, d), (3, d + 1), "D"),
            asset((3, g), (3, g + 1), "G"),
        ]
    );
}

#[test]
fn known_references_are_not_reported() {
    let text = "Input.action_held(\"Jump\"); Draw.tilemap(\"level.csv\", \"level.csv\")";
    assert_eq!(project_diagnostics(Some(&facts()), "klc", text), vec![]);
    let mut unread = facts();
    unread.actions = None;
    unread.assets = None;
    assert_eq!(project_diagnostics(Some(&unread), "klc", text).len(), 3);
}

#[test]
fn projects_report_only_scenes_and_scripts() {
    let text = "Input.action_held(\"A\")";
    assert_eq!(project_diagnostics::<()>(None, "klc", text), vec![]);
    assert_eq!(project_diagnostics(Some(&facts()), "kmap", text), vec![]);
    assert_eq!(project_diagnostics(Some(&facts()), "kscn", text), vec![]);
    let mut found = facts();
    found.scene_findings = Some(vec![finding("KLP2001")]);
    assert_eq!(
        project_diagnostics(Some(&found), "kscn", "[scene]\r\nroot"),
        vec![diagnostic(
            span((0, 0), (0, 7)),
            "KLP2001",
            "kalcite-project",
            "finding KLP2001"
        )]
    );
    assert_eq!(project_diagnostics(Some(&found), "klc", text).len(), 1);
}

#[test]
fn calls_without_an_end_are_noticed() {
    assert!(!are_script_calls_closed("Input.action_axis(\"A\""));
    assert!(!are_script_calls_closed("Draw.tilemap("));
    assert!(are_script_calls_closed("Draw.sprite(\"A\""));
}

#[test]
fn the_project_is_asked_only_of_accepted_documents() {
    let text = "Input.action_held(\"A\")";
    let found = facts();
    assert_eq!(
        validate("klc", text, &failure("no", 0, 5), Some(&found)),
        vec![diagnostic(span((0, 0), (0, 5)), "KLC0001", "kalcite", "no")]
    );
    assert_eq!(validate("klc", text, &None, Some(&found))[0].code, "KLP3001");
    assert_eq!(validate::<()>("klc", text, &None, None), vec![]);
    assert_eq!(validate("txt", text, &failure("no", 0, 5), Some(&found)), vec![]);
}

#[test]
fn sessions_keep_the_last_text_of_open_documents() {
    let mut session: Session<String> = Session::new();
    assert_eq!(session.document_text("a"), DocumentText::OnDisk);
    assert_eq!(
        session.did_open("a".to_string(), "one".to_string()),
        Action::Validate { uri: "a".to_string(), text: "one".to_string() }
    );
    session.did_open("b".to_string(), "other".to_string());
    assert_eq!(session.document_text("a"), DocumentText::Open(&"one".to_string()));
    assert_eq!(session.did_change("a".to_string(), vec![]), None);
    assert_eq!(session.document_text("a"), DocumentText::Open(&"one".to_string()));
    assert_eq!(
        session.did_change("a".to_string(), vec!["two".to_string(), "three".to_string()]),
        Some(Action::Validate { uri: "a".to_string(), text: "three".to_string() })
    );
    assert_eq!(session.document_text("a"), DocumentText::Open(&"three".to_string()));
    assert_eq!(
        session.did_close("a".to_string()),
        Action::Publish { uri: "a".to_string(), diagnostics: vec![] }
    );
    assert_eq!(session.document_text("a"), DocumentText::OnDisk);
    assert_eq!(session.document_text("b"), DocumentText::Open(&"other".to_string()));
}

#[test]
fn sessions_start_with_the_name_and_capabilities_of_the_server() {
    let mut session: Session<u32> = Session::new();
    assert_eq!(
        session.initialize(None, None),
        InitializeResult {
            capabilities: ServerCapabilities {
                text_document_sync: TextDocumentSyncKind::Full,
                hover_provider: true,
                completion_provider: true,
                definition_provider: true,
                document_symbol_provider: true,
                references_provider: true,
                rename_provider: true,
                workspace_symbol_provider: true,
                semantic_tokens_provider: true,
            },
            server_name: "Kalcite LSP".to_string(),
        }
    );
    assert_eq!(session.project_root(&RootLookup::NotFound), None);
}

#[test]
fn the_nearest_project_comes_before_the_workspace() {
    let mut session: Session<u32> = Session::new();
    session.initialize(Some(vec![Some(1), Some(2)]), Some(Some(3)));
    assert_eq!(session.project_root(&RootLookup::NotFound), Some(&1));
    assert_eq!(session.project_root(&RootLookup::Found(9)), Some(&9));
    assert_eq!(session.project_root(&RootLookup::NotAFile), None);
    session.initialize(Some(vec![None, Some(2)]), Some(Some(3)));
    assert_eq!(session.project_root(&RootLookup::NotFound), Some(&3));
    session.initialize(Some(vec![]), Some(Some(4)));
    assert_eq!(session.project_root(&RootLookup::NotFound), Some(&4));
    session.initialize(None, Some(None));
    assert_eq!(session.project_root(&RootLookup::NotFound), None);
}
