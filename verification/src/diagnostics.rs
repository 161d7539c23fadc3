//! What is reported of a document.

use crate::arguments::{
    are_calls_closed, are_parts_of, call_spans, call_string_arguments, calls_closed, is_literal,
    law_call_arguments_are_literals, law_string_arguments_are_literals, string_arguments,
    string_spans,
};
use crate::bytes::{lemma_ascii_byte_boundaries, on_boundary, same_text};
use crate::files::{asset_names, collect_asset_names, texts, Entry};
use crate::position::{
    byte_range, first_line_length, first_range, range_at, range_on_boundaries, Range,
};
use vstd::prelude::*;
use vstd::utf8::{decode_utf8, encode_utf8, encode_utf8_decode_utf8, encode_utf8_valid_utf8};

verus! {

/// How grave a diagnostic is.
#[derive(Clone, Copy, Debug, PartialEq, Eq, Structural)]
pub enum DiagnosticSeverity {
    Error,
}

/// A fault that is reported of a part of a document.
#[derive(Debug, PartialEq, Eq)]
pub struct Diagnostic {
    pub range: Range,
    pub severity: DiagnosticSeverity,
    pub code: String,
    pub source: String,
    pub message: String,
}

/// A diagnostic, with the characters of its texts.
pub struct DiagnosticView {
    pub range: Range,
    pub severity: DiagnosticSeverity,
    pub code: Seq<char>,
    pub source: Seq<char>,
    pub message: Seq<char>,
}

impl View for Diagnostic {
    type V = DiagnosticView;

    open spec fn view(&self) -> DiagnosticView {
        DiagnosticView {
            range: self.range,
            severity: self.severity,
            code: self.code@,
            source: self.source@,
            message: self.message@,
        }
    }
}

/// Several diagnostics, with the characters of their texts.
pub open spec fn diagnostics_of(diagnostics: Seq<Diagnostic>) -> Seq<DiagnosticView> {
    diagnostics.map_values(|diagnostic: Diagnostic| diagnostic@)
}

/// What checks a document on its own.
#[derive(Clone, Copy, Debug, PartialEq, Eq, Structural)]
pub enum Checker {
    /// The script compiler.
    Script,
    /// The scene parser.
    Scene,
    /// The input map parser.
    InputMap,
    /// The save schema parser.
    SaveSchema,
    /// The tilemap reader.
    Tilemap,
    /// The spritesheet reader.
    Spritesheet,
}

/// What checks a document with the given file extension.
pub open spec fn checker_of(extension: Seq<char>) -> Option<Checker> {
    if extension == "klc"@ {
        Some(Checker::Script)
    } else if extension == "kscn"@ {
        Some(Checker::Scene)
    } else if extension == "kmap"@ {
        Some(Checker::InputMap)
    } else if extension == "kschema"@ {
        Some(Checker::SaveSchema)
    } else if extension == "csv"@ {
        Some(Checker::Tilemap)
    } else if extension == "ksheet"@ {
        Some(Checker::Spritesheet)
    } else {
        None
    }
}

/// What checks a document with the given file extension, if anything does.
pub fn checker_for(extension: &str) -> (res: Option<Checker>)
    ensures
        res == checker_of(extension@),
{
    if same_text(extension, "klc") {
        Some(Checker::Script)
    } else if same_text(extension, "kscn") {
        Some(Checker::Scene)
    } else if same_text(extension, "kmap") {
        Some(Checker::InputMap)
    } else if same_text(extension, "kschema") {
        Some(Checker::SaveSchema)
    } else if same_text(extension, "csv") {
        Some(Checker::Tilemap)
    } else if same_text(extension, "ksheet") {
        Some(Checker::Spritesheet)
    } else {
        None
    }
}

/// The code under which the failures of a checker are reported.
pub open spec fn checker_code(checker: Checker) -> Seq<char> {
    match checker {
        Checker::Script => "KLC0001"@,
        Checker::Scene => "KSCN0001"@,
        Checker::InputMap => "KMAP0001"@,
        Checker::SaveSchema => "KSAVE0001"@,
        Checker::Tilemap => "KASSET0001"@,
        Checker::Spritesheet => "KASSET0002"@,
    }
}

/// Why a checker rejects a document.
#[derive(Debug, PartialEq, Eq)]
pub struct CheckFailure {
    pub message: String,
    /// The part of the document that is at fault, in byte offsets. Only the
    /// script compiler points at one; of the other checkers it is not read.
    pub start: usize,
    pub end: usize,
}

/// The part of a document at which a failure is reported: what the script
/// compiler points at, or the first line.
pub open spec fn failure_range(checker: Checker, text: Seq<char>, failure: CheckFailure) -> Range {
    match checker {
        Checker::Script => range_at(text, failure.start as int, failure.end as int),
        _ => range_at(text, 0, first_line_length(encode_utf8(text))),
    }
}

/// What is reported of a document that its checker rejects: nothing of one that
/// no checker is for.
pub open spec fn failure_diagnostics(
    extension: Seq<char>,
    text: Seq<char>,
    failure: Option<CheckFailure>,
) -> Seq<DiagnosticView> {
    match (checker_of(extension), failure) {
        (Some(checker), Some(failure)) => seq![
            DiagnosticView {
                range: failure_range(checker, text, failure),
                severity: DiagnosticSeverity::Error,
                code: checker_code(checker),
                source: "kalcite"@,
                message: failure.message@,
            },
        ],
        _ => Seq::empty(),
    }
}

/// Whether what the script compiler points at stands between whole characters.
pub open spec fn failure_on_boundaries(
    extension: Seq<char>,
    text: Seq<char>,
    failure: Option<CheckFailure>,
) -> bool {
    match (checker_of(extension), failure) {
        (Some(Checker::Script), Some(failure)) => range_on_boundaries(
            text,
            failure.start as int,
            failure.end as int,
        ),
        _ => true,
    }
}

/// What is reported of a document from what its checker says of it.
pub fn diagnostics_for(
    extension: &str,
    text: &str,
    failure: &Option<CheckFailure>,
) -> (res: Vec<Diagnostic>)
    requires
        failure_on_boundaries(extension@, text@, *failure),
    ensures
        diagnostics_of(res@) == failure_diagnostics(extension@, text@, *failure),
{
    let mut out: Vec<Diagnostic> = Vec::new();
    if let Some(checker) = checker_for(extension) {
        if let Some(failure) = failure {
            let (code, range): (&str, Range) = match checker {
                Checker::Script => ("KLC0001", byte_range(text, failure.start, failure.end)),
                Checker::Scene => ("KSCN0001", first_range(text)),
                Checker::InputMap => ("KMAP0001", first_range(text)),
                Checker::SaveSchema => ("KSAVE0001", first_range(text)),
                Checker::Tilemap => ("KASSET0001", first_range(text)),
                Checker::Spritesheet => ("KASSET0002", first_range(text)),
            };
            out.push(
                Diagnostic {
                    range,
                    severity: DiagnosticSeverity::Error,
                    code: code.to_owned(),
                    source: "kalcite".to_owned(),
                    message: failure.message.clone(),
                },
            );
        }
    }
    proof {
        assert(diagnostics_of(out@) =~= failure_diagnostics(extension@, text@, *failure));
    }
    out
}

/// What is said of a name that the project does not hold.
pub open spec fn unknown_message(noun: Seq<char>, value: Seq<char>) -> Seq<char> {
    "unknown project "@ + noun + " `"@ + value + "`"@
}

/// The diagnostic of a name that the project does not hold.
pub open spec fn unknown_reference(
    text: Seq<char>,
    span: (int, int),
    code: Seq<char>,
    noun: Seq<char>,
    value: Seq<char>,
) -> DiagnosticView {
    DiagnosticView {
        range: range_at(text, span.0, span.1),
        severity: DiagnosticSeverity::Error,
        code,
        source: "kalcite-project"@,
        message: unknown_message(noun, value),
    }
}

/// The diagnostic of a name that the project does not hold.
pub fn project_reference_diagnostic(
    text: &str,
    start: usize,
    end: usize,
    code: &str,
    noun: &str,
    value: &str,
) -> (res: Diagnostic)
    requires
        range_on_boundaries(text@, start as int, end as int),
    ensures
        res@ == unknown_reference(text@, (start as int, end as int), code@, noun@, value@),
{
    let mut message: String = "unknown project ".to_owned();
    message.append(noun);
    message.append(" `");
    message.append(value);
    message.append("`");
    Diagnostic {
        range: byte_range(text, start, end),
        severity: DiagnosticSeverity::Error,
        code: code.to_owned(),
        source: "kalcite-project".to_owned(),
        message,
    }
}

/// The characters of a part of a text.
pub open spec fn part(text: Seq<char>, span: (int, int)) -> Seq<char> {
    decode_utf8(encode_utf8(text).subrange(span.0, span.1))
}

/// The diagnostics of those of the first `n` names that are not known.
pub open spec fn unknown_references(
    text: Seq<char>,
    spans: Seq<(int, int)>,
    n: nat,
    known: Seq<Seq<char>>,
    code: Seq<char>,
    noun: Seq<char>,
) -> Seq<DiagnosticView>
    decreases n,
{
    if n == 0 {
        Seq::empty()
    } else {
        let before = unknown_references(text, spans, (n - 1) as nat, known, code, noun);
        let value = part(text, spans[n - 1]);
        if known.contains(value) {
            before
        } else {
            before.push(unknown_reference(text, spans[n - 1], code, noun, value))
        }
    }
}

/// Whether a text is among others.
fn is_known(known: &Vec<String>, value: &str) -> (res: bool)
    ensures
        res == texts(known@).contains(value@),
{
    let ghost all = texts(known@);
    let mut i: usize = 0;
    while i < known.len()
        invariant
            i <= known@.len(),
            all == texts(known@),
            forall|k: int| 0 <= k < i ==> all[k] != value@,
        decreases known@.len() - i,
    {
        assert(all[i as int] == known@[i as int]@);
        if same_text(known[i].as_str(), value) {
            return true;
        }
        i += 1;
    }
    false
}

/// A literal of a text is a range between whole characters.
proof fn lemma_literal_on_boundaries(text: Seq<char>, span: (int, int))
    requires
        encode_utf8(text).len() <= usize::MAX,
        is_literal(encode_utf8(text), span),
        on_boundary(text, span.0),
    ensures
        range_on_boundaries(text, span.0, span.1),
{
    encode_utf8_valid_utf8(text);
    lemma_ascii_byte_boundaries(encode_utf8(text), span.1);
}

/// Adds the diagnostics of those arguments that are not known.
fn report_unknown<'a>(
    text: &'a str,
    arguments: Vec<(&'a str, usize, usize)>,
    known: &Vec<String>,
    code: &str,
    noun: &str,
    out: &mut Vec<Diagnostic>,
    Ghost(spans): Ghost<Seq<(int, int)>>,
)
    requires
        are_parts_of(text@, arguments@, spans),
        forall|i: int| 0 <= i < spans.len() ==> is_literal(encode_utf8(text@), #[trigger] spans[i]),
    ensures
        diagnostics_of(final(out)@) == diagnostics_of(old(out)@) + unknown_references(
            text@,
            spans,
            spans.len(),
            texts(known@),
            code@,
            noun@,
        ),
{
    let ghost before = diagnostics_of(out@);
    let length: usize = text.as_bytes().len();
    let mut i: usize = 0;
    proof {
        assert(before =~= before + unknown_references(
            text@,
            spans,
            0,
            texts(known@),
            code@,
            noun@,
        ));
    }
    while i < arguments.len()
        invariant
            length == encode_utf8(text@).len(),
            are_parts_of(text@, arguments@, spans),
            forall|k: int|
                0 <= k < spans.len() ==> is_literal(encode_utf8(text@), #[trigger] spans[k]),
            i <= arguments@.len(),
            diagnostics_of(out@) == before + unknown_references(
                text@,
                spans,
                i as nat,
                texts(known@),
                code@,
                noun@,
            ),
        decreases arguments@.len() - i,
    {
        let (value, start, end) = arguments[i];
        let ghost prior = diagnostics_of(out@);
        proof {
            assert(arguments@[i as int].1 == spans[i as int].0);
            assert(spans[i as int] == (start as int, end as int));
            encode_utf8_decode_utf8(value@);
            assert(value@ == part(text@, spans[i as int]));
            lemma_literal_on_boundaries(text@, spans[i as int]);
        }
        if !is_known(known, value) {
            let diagnostic: Diagnostic = project_reference_diagnostic(
                text,
                start,
                end,
                code,
                noun,
                value,
            );
            out.push(diagnostic);
            proof {
                assert(diagnostics_of(out@) =~= prior.push(diagnostic@));
            }
        }
        proof {
            assert(diagnostics_of(out@) =~= before + unknown_references(
                text@,
                spans,
                (i + 1) as nat,
                texts(known@),
                code@,
                noun@,
            ));
        }
        i += 1;
    }
}

/// A fault that the project finds in a scene.
#[derive(Debug, PartialEq, Eq)]
pub struct SceneFinding {
    pub code: String,
    pub message: String,
}

/// What a project holds that documents are checked against.
#[derive(Debug, PartialEq, Eq)]
#[verifier::reject_recursive_types(P)]
pub struct ProjectFacts<P> {
    /// The faults of the document as a scene, if the classes and scripts of
    /// the project can be discovered and the document can be parsed as one.
    pub scene_findings: Option<Vec<SceneFinding>>,
    /// The input actions, if the input map can be read.
    pub actions: Option<Vec<String>>,
    /// The entries of the asset directory, if it can be read.
    pub assets: Option<Vec<Entry<P>>>,
}

/// The diagnostic of a fault in a scene, at its first line.
pub open spec fn scene_diagnostic(text: Seq<char>, finding: SceneFinding) -> DiagnosticView {
    DiagnosticView {
        range: range_at(text, 0, first_line_length(encode_utf8(text))),
        severity: DiagnosticSeverity::Error,
        code: finding.code@,
        source: "kalcite-project"@,
        message: finding.message@,
    }
}

/// The input actions of a project; none if the input map cannot be read.
pub open spec fn known_actions(actions: Option<Vec<String>>) -> Seq<Seq<char>> {
    match actions {
        Some(actions) => texts(actions@),
        None => Seq::empty(),
    }
}

/// The diagnostics of the unknown literals right behind a prefix.
pub open spec fn unknown_behind(
    text: Seq<char>,
    prefix: Seq<char>,
    known: Seq<Seq<char>>,
    code: Seq<char>,
    noun: Seq<char>,
) -> Seq<DiagnosticView> {
    let spans = string_spans(encode_utf8(text), encode_utf8(prefix), 0);
    unknown_references(text, spans, spans.len(), known, code, noun)
}

/// The diagnostics of the unknown among the first two literals of each call
/// that a prefix opens.
pub open spec fn unknown_in_calls(
    text: Seq<char>,
    prefix: Seq<char>,
    known: Seq<Seq<char>>,
    code: Seq<char>,
    noun: Seq<char>,
) -> Seq<DiagnosticView> {
    let spans = call_spans(encode_utf8(text), encode_utf8(prefix), 2, 0);
    unknown_references(text, spans, spans.len(), known, code, noun)
}

/// The diagnostics of a script: the input actions and the assets that it names
/// and the project does not hold.
pub open spec fn script_diagnostics(
    text: Seq<char>,
    actions: Seq<Seq<char>>,
    assets: Seq<Seq<char>>,
) -> Seq<DiagnosticView> {
    unknown_behind(text, "Input.action_held(\""@, actions, "KLP3001"@, "input action"@)
        + unknown_behind(text, "Input.action_pressed(\""@, actions, "KLP3001"@, "input action"@)
        + unknown_behind(text, "Input.action_released(\""@, actions, "KLP3001"@, "input action"@)
        + unknown_in_calls(text, "Input.action_axis("@, actions, "KLP3001"@, "input action"@)
        + unknown_behind(text, "Draw.sprite(\""@, assets, "KLP3002"@, "asset"@)
        + unknown_behind(text, "Draw.sprite_region(\""@, assets, "KLP3002"@, "asset"@)
        + unknown_behind(text, "Draw.sprite_frame(\""@, assets, "KLP3002"@, "asset"@)
        + unknown_in_calls(text, "Draw.tilemap("@, assets, "KLP3002"@, "asset"@)
}

/// Whether the calls with several literals are closed in a script.
pub open spec fn script_calls_closed(text: Seq<char>) -> bool {
    &&& calls_closed(encode_utf8(text), encode_utf8("Input.action_axis("@), 0)
    &&& calls_closed(encode_utf8(text), encode_utf8("Draw.tilemap("@), 0)
}

/// Whether the calls with several literals are closed in a script, so that its
/// references to the project can be checked.
pub fn are_script_calls_closed(text: &str) -> (res: bool)
    ensures
        res == script_calls_closed(text@),
{
    are_calls_closed(text, "Input.action_axis(") && are_calls_closed(text, "Draw.tilemap(")
}

/// What is reported of a document from what the project holds.
pub open spec fn facts_diagnostics<P>(
    facts: Option<&ProjectFacts<P>>,
    extension: Seq<char>,
    text: Seq<char>,
) -> Seq<DiagnosticView> {
    match facts {
        None => Seq::empty(),
        Some(facts) => if extension == "kscn"@ && facts.scene_findings is Some {
            facts.scene_findings->0@.map_values(
                |finding: SceneFinding| scene_diagnostic(text, finding),
            )
        } else if extension == "klc"@ {
            script_diagnostics(text, known_actions(facts.actions), asset_names(facts.assets))
        } else {
            Seq::empty()
        },
    }
}

/// Adds the diagnostics of the unknown literals right behind a prefix.
fn report_behind(
    text: &str,
    prefix: &str,
    known: &Vec<String>,
    code: &str,
    noun: &str,
    out: &mut Vec<Diagnostic>,
)
    ensures
        diagnostics_of(final(out)@) == diagnostics_of(old(out)@) + unknown_behind(
            text@,
            prefix@,
            texts(known@),
            code@,
            noun@,
        ),
{
    let arguments = string_arguments(text, prefix);
    let ghost spans = string_spans(encode_utf8(text@), encode_utf8(prefix@), 0);
    proof {
        law_string_arguments_are_literals(encode_utf8(text@), encode_utf8(prefix@), 0);
    }
    report_unknown(text, arguments, known, code, noun, out, Ghost(spans));
}

/// Adds the diagnostics of the unknown among the first two literals of each
/// call that a prefix opens.
fn report_in_calls(
    text: &str,
    prefix: &str,
    known: &Vec<String>,
    code: &str,
    noun: &str,
    out: &mut Vec<Diagnostic>,
)
    requires
        calls_closed(encode_utf8(text@), encode_utf8(prefix@), 0),
    ensures
        diagnostics_of(final(out)@) == diagnostics_of(old(out)@) + unknown_in_calls(
            text@,
            prefix@,
            texts(known@),
            code@,
            noun@,
        ),
{
    let arguments = call_string_arguments(text, prefix, 2);
    let ghost spans = call_spans(encode_utf8(text@), encode_utf8(prefix@), 2, 0);
    proof {
        law_call_arguments_are_literals(encode_utf8(text@), encode_utf8(prefix@), 2, 0);
    }
    report_unknown(text, arguments, known, code, noun, out, Ghost(spans));
}

/// Adds the diagnostics of a script.
fn report_script(
    text: &str,
    actions: &Vec<String>,
    assets: &Vec<String>,
    out: &mut Vec<Diagnostic>,
)
    requires
        script_calls_closed(text@),
        old(out)@.len() == 0,
    ensures
        diagnostics_of(final(out)@) == script_diagnostics(
            text@,
            texts(actions@),
            texts(assets@),
        ),
{
    proof {
        assert(diagnostics_of(out@) =~= Seq::empty());
        assert forall|a: Seq<DiagnosticView>| #[trigger] (Seq::<DiagnosticView>::empty() + a)
            == a by {
            assert(Seq::<DiagnosticView>::empty() + a =~= a);
        }
    }
    report_behind(text, "Input.action_held(\"", actions, "KLP3001", "input action", out);
    report_behind(text, "Input.action_pressed(\"", actions, "KLP3001", "input action", out);
    report_behind(text, "Input.action_released(\"", actions, "KLP3001", "input action", out);
    report_in_calls(text, "Input.action_axis(", actions, "KLP3001", "input action", out);
    report_behind(text, "Draw.sprite(\"", assets, "KLP3002", "asset", out);
    report_behind(text, "Draw.sprite_region(\"", assets, "KLP3002", "asset", out);
    report_behind(text, "Draw.sprite_frame(\"", assets, "KLP3002", "asset", out);
    report_in_calls(text, "Draw.tilemap(", assets, "KLP3002", "asset", out);
}

/// What is reported of a document from what the project holds: the faults of a
/// scene, and the unknown names in a script. There are no facts outside of a
/// project, nor where it cannot be loaded.
pub fn project_diagnostics<P>(
    facts: Option<&ProjectFacts<P>>,
    extension: &str,
    text: &str,
) -> (res: Vec<Diagnostic>)
    requires
        facts is Some && extension@ == "klc"@ ==> script_calls_closed(text@),
    ensures
        diagnostics_of(res@) == facts_diagnostics(facts, extension@, text@),
{
    let mut out: Vec<Diagnostic> = Vec::new();
    proof {
        assert(diagnostics_of(out@) =~= Seq::empty());
        reveal_strlit("klc");
        reveal_strlit("kscn");
    }
    let facts: &ProjectFacts<P> = match facts {
        Some(facts) => facts,
        None => {
            return out;
        },
    };
    if same_text(extension, "kscn") {
        if let Some(findings) = &facts.scene_findings {
            let ghost all = findings@.map_values(
                |finding: SceneFinding| scene_diagnostic(text@, finding),
            );
            let mut i: usize = 0;
            proof {
                assert(diagnostics_of(out@) =~= all.take(0));
            }
            while i < findings.len()
                invariant
                    i <= findings@.len(),
                    all == findings@.map_values(
                        |finding: SceneFinding| scene_diagnostic(text@, finding),
                    ),
                    diagnostics_of(out@) == all.take(i as int),
                decreases findings@.len() - i,
            {
                let ghost prior = diagnostics_of(out@);
                let diagnostic = Diagnostic {
                    range: first_range(text),
                    severity: DiagnosticSeverity::Error,
                    code: findings[i].code.clone(),
                    source: "kalcite-project".to_owned(),
                    message: findings[i].message.clone(),
                };
                out.push(diagnostic);
                proof {
                    assert(diagnostics_of(out@) =~= prior.push(diagnostic@));
                    assert(all.take(i + 1) =~= all.take(i as int).push(all[i as int]));
                }
                i += 1;
            }
            proof {
                assert(all.take(all.len() as int) =~= all);
            }
            return out;
        }
    }
    if !same_text(extension, "klc") {
        return out;
    }
    let no_actions: Vec<String> = Vec::new();
    let actions: &Vec<String> = match &facts.actions {
        Some(actions) => actions,
        None => &no_actions,
    };
    let mut assets: Vec<String> = Vec::new();
    collect_asset_names(&facts.assets, &mut assets);
    proof {
        assert(texts(no_actions@) =~= Seq::empty());
        assert(texts(Seq::<String>::empty()) + asset_names(facts.assets) =~= asset_names(
            facts.assets,
        ));
    }
    report_script(text, actions, &assets, &mut out);
    out
}

/// What is reported of a document: what its checker says of it, and if that is
/// nothing, what the project says of it.
pub open spec fn document_diagnostics<P>(
    extension: Seq<char>,
    text: Seq<char>,
    failure: Option<CheckFailure>,
    facts: Option<&ProjectFacts<P>>,
) -> Seq<DiagnosticView> {
    let own = failure_diagnostics(extension, text, failure);
    if own.len() == 0 {
        facts_diagnostics(facts, extension, text)
    } else {
        own
    }
}

/// What is reported of a document. The project is asked only of a document that
/// its checker accepts.
pub fn validate<P>(
    extension: &str,
    text: &str,
    failure: &Option<CheckFailure>,
    facts: Option<&ProjectFacts<P>>,
) -> (res: Vec<Diagnostic>)
    requires
        failure_on_boundaries(extension@, text@, *failure),
        failure is None && facts is Some && extension@ == "klc"@ ==> script_calls_closed(text@),
    ensures
        diagnostics_of(res@) == document_diagnostics(extension@, text@, *failure, facts),
{
    let own: Vec<Diagnostic> = diagnostics_for(extension, text, failure);
    proof {
        assert(diagnostics_of(own@).len() == own@.len());
    }
    if own.is_empty() {
        project_diagnostics(facts, extension, text)
    } else {
        own
    }
}

/// Each name that is not known is reported.
pub proof fn law_unknown_is_reported(
    text: Seq<char>,
    spans: Seq<(int, int)>,
    n: nat,
    known: Seq<Seq<char>>,
    code: Seq<char>,
    noun: Seq<char>,
    i: int,
)
    requires
        0 <= i < n <= spans.len(),
        !known.contains(part(text, spans[i])),
    ensures
        unknown_references(text, spans, n, known, code, noun).contains(
            unknown_reference(text, spans[i], code, noun, part(text, spans[i])),
        ),
    decreases n,
{
    let reported = unknown_references(text, spans, n, known, code, noun);
    let before = unknown_references(text, spans, (n - 1) as nat, known, code, noun);
    let wanted = unknown_reference(text, spans[i], code, noun, part(text, spans[i]));
    if i == n - 1 {
        assert(reported[before.len() as int] == wanted);
    } else {
        law_unknown_is_reported(text, spans, (n - 1) as nat, known, code, noun, i);
        let k = choose|k: int| 0 <= k < before.len() && before[k] == wanted;
        assert(reported[k] == wanted);
    }
}

/// Only names that are not known are reported.
pub proof fn law_only_unknown_is_reported(
    text: Seq<char>,
    spans: Seq<(int, int)>,
    n: nat,
    known: Seq<Seq<char>>,
    code: Seq<char>,
    noun: Seq<char>,
    k: int,
)
    requires
        n <= spans.len(),
        0 <= k < unknown_references(text, spans, n, known, code, noun).len(),
    ensures
        exists|i: int|
            0 <= i < n && !known.contains(part(text, #[trigger] spans[i])) && unknown_references(
                text,
                spans,
                n,
                known,
                code,
                noun,
            )[k] == unknown_reference(text, spans[i], code, noun, part(text, spans[i])),
    decreases n,
{
    if n > 0 {
        let reported = unknown_references(text, spans, n, known, code, noun);
        let before = unknown_references(text, spans, (n - 1) as nat, known, code, noun);
        if k < before.len() {
            law_only_unknown_is_reported(text, spans, (n - 1) as nat, known, code, noun, k);
            let i = choose|i: int|
                0 <= i < n - 1 && !known.contains(part(text, #[trigger] spans[i])) && before[k]
                    == unknown_reference(text, spans[i], code, noun, part(text, spans[i]));
            assert(reported[k] == before[k]);
            assert(!known.contains(part(text, spans[i])));
        } else {
            assert(!known.contains(part(text, spans[n - 1])));
        }
    }
}

/// Nothing is reported of references exactly when all of them are known.
pub proof fn law_known_references_are_silent(
    text: Seq<char>,
    spans: Seq<(int, int)>,
    n: nat,
    known: Seq<Seq<char>>,
    code: Seq<char>,
    noun: Seq<char>,
)
    requires
        n <= spans.len(),
    ensures
        unknown_references(text, spans, n, known, code, noun).len() == 0 <==> forall|i: int|
            0 <= i < n ==> known.contains(part(text, #[trigger] spans[i])),
{
    let reported = unknown_references(text, spans, n, known, code, noun);
    if reported.len() > 0 {
        law_only_unknown_is_reported(text, spans, n, known, code, noun, 0);
    } else {
        assert forall|i: int| 0 <= i < n implies known.contains(
            part(text, #[trigger] spans[i]),
        ) by {
            if !known.contains(part(text, spans[i])) {
                law_unknown_is_reported(text, spans, n, known, code, noun, i);
            }
        }
    }
}

/// Whether the literals right behind a prefix are all known.
pub open spec fn is_known_behind(
    text: Seq<char>,
    prefix: Seq<char>,
    known: Seq<Seq<char>>,
) -> bool {
    let spans = string_spans(encode_utf8(text), encode_utf8(prefix), 0);
    forall|i: int| 0 <= i < spans.len() ==> known.contains(part(text, #[trigger] spans[i]))
}

/// Whether the first two literals of each call that a prefix opens are known.
pub open spec fn is_known_in_calls(
    text: Seq<char>,
    prefix: Seq<char>,
    known: Seq<Seq<char>>,
) -> bool {
    let spans = call_spans(encode_utf8(text), encode_utf8(prefix), 2, 0);
    forall|i: int| 0 <= i < spans.len() ==> known.contains(part(text, #[trigger] spans[i]))
}

/// Nothing is reported of a script exactly when the project holds every input
/// action and every asset that the script names.
pub proof fn law_script_is_silent_when_all_is_known(
    text: Seq<char>,
    actions: Seq<Seq<char>>,
    assets: Seq<Seq<char>>,
)
    ensures
        script_diagnostics(text, actions, assets).len() == 0 <==> {
            &&& is_known_behind(text, "Input.action_held(\""@, actions)
            &&& is_known_behind(text, "Input.action_pressed(\""@, actions)
            &&& is_known_behind(text, "Input.action_released(\""@, actions)
            &&& is_known_in_calls(text, "Input.action_axis("@, actions)
            &&& is_known_behind(text, "Draw.sprite(\""@, assets)
            &&& is_known_behind(text, "Draw.sprite_region(\""@, assets)
            &&& is_known_behind(text, "Draw.sprite_frame(\""@, assets)
            &&& is_known_in_calls(text, "Draw.tilemap("@, assets)
        },
{
    assert forall|prefix: Seq<char>, known: Seq<Seq<char>>, code: Seq<char>, noun: Seq<char>|
        (#[trigger] unknown_behind(text, prefix, known, code, noun)).len() == 0 <==> is_known_behind(
            text,
            prefix,
            known,
        ) by {
        let spans = string_spans(encode_utf8(text), encode_utf8(prefix), 0);
        law_known_references_are_silent(text, spans, spans.len(), known, code, noun);
    }
    assert forall|prefix: Seq<char>, known: Seq<Seq<char>>, code: Seq<char>, noun: Seq<char>|
        (#[trigger] unknown_in_calls(text, prefix, known, code, noun)).len() == 0
            <==> is_known_in_calls(text, prefix, known) by {
        let spans = call_spans(encode_utf8(text), encode_utf8(prefix), 2, 0);
        law_known_references_are_silent(text, spans, spans.len(), known, code, noun);
    }
}

/// Whether a diagnostic reports a name of a kind that is not known.
pub open spec fn reports_unknown(
    diagnostic: DiagnosticView,
    known: Seq<Seq<char>>,
    code: Seq<char>,
    noun: Seq<char>,
) -> bool {
    &&& diagnostic.code == code
    &&& exists|value: Seq<char>|
        !known.contains(value) && diagnostic.message == #[trigger] unknown_message(noun, value)
}

/// Each diagnostic of a script reports an input action or an asset that the
/// project does not hold.
pub proof fn law_script_diagnostics_report_unknown_names(
    text: Seq<char>,
    actions: Seq<Seq<char>>,
    assets: Seq<Seq<char>>,
    k: int,
)
    requires
        0 <= k < script_diagnostics(text, actions, assets).len(),
    ensures
        ({
            let diagnostic = script_diagnostics(text, actions, assets)[k];
            ||| reports_unknown(diagnostic, actions, "KLP3001"@, "input action"@)
            ||| reports_unknown(diagnostic, assets, "KLP3002"@, "asset"@)
        }),
{
    let held = unknown_behind(text, "Input.action_held(\""@, actions, "KLP3001"@, "input action"@);
    let pressed = unknown_behind(
        text,
        "Input.action_pressed(\""@,
        actions,
        "KLP3001"@,
        "input action"@,
    );
    let released = unknown_behind(
        text,
        "Input.action_released(\""@,
        actions,
        "KLP3001"@,
        "input action"@,
    );
    let axis = unknown_in_calls(text, "Input.action_axis("@, actions, "KLP3001"@, "input action"@);
    let sprite = unknown_behind(text, "Draw.sprite(\""@, assets, "KLP3002"@, "asset"@);
    let region = unknown_behind(text, "Draw.sprite_region(\""@, assets, "KLP3002"@, "asset"@);
    let frame = unknown_behind(text, "Draw.sprite_frame(\""@, assets, "KLP3002"@, "asset"@);
    let tilemap = unknown_in_calls(text, "Draw.tilemap("@, assets, "KLP3002"@, "asset"@);
    let diagnostic = script_diagnostics(text, actions, assets)[k];
    lemma_behind_reports_unknown(text, "Input.action_held(\""@, actions, "KLP3001"@, "input action"@);
    lemma_behind_reports_unknown(
        text,
        "Input.action_pressed(\""@,
        actions,
        "KLP3001"@,
        "input action"@,
    );
    lemma_behind_reports_unknown(
        text,
        "Input.action_released(\""@,
        actions,
        "KLP3001"@,
        "input action"@,
    );
    lemma_calls_report_unknown(text, "Input.action_axis("@, actions, "KLP3001"@, "input action"@);
    lemma_behind_reports_unknown(text, "Draw.sprite(\""@, assets, "KLP3002"@, "asset"@);
    lemma_behind_reports_unknown(text, "Draw.sprite_region(\""@, assets, "KLP3002"@, "asset"@);
    lemma_behind_reports_unknown(text, "Draw.sprite_frame(\""@, assets, "KLP3002"@, "asset"@);
    lemma_calls_report_unknown(text, "Draw.tilemap("@, assets, "KLP3002"@, "asset"@);
    let a1 = held.len();
    let a2 = a1 + pressed.len();
    let a3 = a2 + released.len();
    let a4 = a3 + axis.len();
    let a5 = a4 + sprite.len();
    let a6 = a5 + region.len();
    let a7 = a6 + frame.len();
    if k < a1 {
        assert(diagnostic == held[k]);
    } else if k < a2 {
        assert(diagnostic == pressed[k - a1]);
    } else if k < a3 {
        assert(diagnostic == released[k - a2]);
    } else if k < a4 {
        assert(diagnostic == axis[k - a3]);
    } else if k < a5 {
        assert(diagnostic == sprite[k - a4]);
    } else if k < a6 {
        assert(diagnostic == region[k - a5]);
    } else if k < a7 {
        assert(diagnostic == frame[k - a6]);
    } else {
        assert(diagnostic == tilemap[k - a7]);
    }
}

proof fn lemma_references_report_unknown(
    text: Seq<char>,
    spans: Seq<(int, int)>,
    known: Seq<Seq<char>>,
    code: Seq<char>,
    noun: Seq<char>,
)
    ensures
        ({
            let reported = unknown_references(text, spans, spans.len(), known, code, noun);
            forall|k: int|
                0 <= k < reported.len() ==> reports_unknown(
                    #[trigger] reported[k],
                    known,
                    code,
                    noun,
                )
        }),
{
    let reported = unknown_references(text, spans, spans.len(), known, code, noun);
    assert forall|k: int| 0 <= k < reported.len() implies reports_unknown(
        #[trigger] reported[k],
        known,
        code,
        noun,
    ) by {
        law_only_unknown_is_reported(text, spans, spans.len(), known, code, noun, k);
        let i = choose|i: int|
            0 <= i < spans.len() && !known.contains(part(text, #[trigger] spans[i])) && reported[k]
                == unknown_reference(text, spans[i], code, noun, part(text, spans[i]));
        assert(reported[k].message == unknown_message(noun, part(text, spans[i])));
    }
}

proof fn lemma_behind_reports_unknown(
    text: Seq<char>,
    prefix: Seq<char>,
    known: Seq<Seq<char>>,
    code: Seq<char>,
    noun: Seq<char>,
)
    ensures
        forall|k: int|
            0 <= k < unknown_behind(text, prefix, known, code, noun).len() ==> reports_unknown(
                #[trigger] unknown_behind(text, prefix, known, code, noun)[k],
                known,
                code,
                noun,
            ),
{
    let spans = string_spans(encode_utf8(text), encode_utf8(prefix), 0);
    lemma_references_report_unknown(text, spans, known, code, noun);
}

proof fn lemma_calls_report_unknown(
    text: Seq<char>,
    prefix: Seq<char>,
    known: Seq<Seq<char>>,
    code: Seq<char>,
    noun: Seq<char>,
)
    ensures
        forall|k: int|
            0 <= k < unknown_in_calls(text, prefix, known, code, noun).len() ==> reports_unknown(
                #[trigger] unknown_in_calls(text, prefix, known, code, noun)[k],
                known,
                code,
                noun,
            ),
{
    let spans = call_spans(encode_utf8(text), encode_utf8(prefix), 2, 0);
    lemma_references_report_unknown(text, spans, known, code, noun);
}

} // verus!
