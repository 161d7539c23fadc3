//! Laws of what is reported of a document.

use crate::arguments::{call_spans, calls_closed, string_spans};
use crate::diagnostics::{
    checker_of, diagnostics_of, document_diagnostics, facts_diagnostics, failure_diagnostics,
    known_actions, part, script_calls_closed, unknown_behind, unknown_in_calls, unknown_reference,
    unknown_references, CheckFailure, Checker, Diagnostic, DiagnosticView, ProjectFacts,
};
use crate::files::asset_names;
use crate::position::{first_line_length, position_at};
use vstd::prelude::*;
use vstd::utf8::{decode_utf8, encode_utf8};

verus! {

/// Diagnostics are taken by the characters of their texts, each in its place
/// and with all of its fields.
pub proof fn law_diagnostics_of(diagnostics: Seq<Diagnostic>)
    ensures
        diagnostics_of(diagnostics).len() == diagnostics.len(),
        forall|i: int|
            0 <= i < diagnostics.len() ==> {
                let view = diagnostics_of(diagnostics)[i];
                &&& view.range == (#[trigger] diagnostics[i]).range
                &&& view.severity == diagnostics[i].severity
                &&& view.code == diagnostics[i].code@
                &&& view.source == diagnostics[i].source@
                &&& view.message == diagnostics[i].message@
            },
{
}

/// The file extension that a checker is for.
pub open spec fn extension_of(checker: Checker) -> Seq<char> {
    match checker {
        Checker::Script => "klc"@,
        Checker::Scene => "kscn"@,
        Checker::InputMap => "kmap"@,
        Checker::SaveSchema => "kschema"@,
        Checker::Tilemap => "csv"@,
        Checker::Spritesheet => "ksheet"@,
    }
}

/// The code that a checker reports.
pub open spec fn code_of(checker: Checker) -> Seq<char> {
    match checker {
        Checker::Script => "KLC0001"@,
        Checker::Scene => "KSCN0001"@,
        Checker::InputMap => "KMAP0001"@,
        Checker::SaveSchema => "KSAVE0001"@,
        Checker::Tilemap => "KASSET0001"@,
        Checker::Spritesheet => "KASSET0002"@,
    }
}

/// The extensions of the checkers are all different.
proof fn lemma_extensions_differ()
    ensures
        forall|a: Checker, b: Checker| #[trigger]
            extension_of(a) == #[trigger] extension_of(b) ==> a == b,
{
    reveal_strlit("klc");
    reveal_strlit("kscn");
    reveal_strlit("kmap");
    reveal_strlit("kschema");
    reveal_strlit("csv");
    reveal_strlit("ksheet");
    assert("klc"@.len() == 3 && "csv"@.len() == 3);
    assert("kscn"@.len() == 4 && "kmap"@.len() == 4);
    assert("kschema"@.len() == 7 && "ksheet"@.len() == 6);
    assert("klc"@[0] != "csv"@[0]);
    assert("kscn"@[1] != "kmap"@[1]);
}

/// A document is checked by the checker for its extension, and a document with
/// another extension by none.
pub proof fn law_checkers(extension: Seq<char>, checker: Checker)
    ensures
        checker_of(extension) == Some(checker) <==> extension == extension_of(checker),
        checker_of(extension) is None <==> forall|any: Checker|
            extension != #[trigger] extension_of(any),
{
    lemma_extensions_differ();
    if let Some(found) = checker_of(extension) {
        assert(extension == extension_of(found));
    }
    assert(extension_of(Checker::Script) == "klc"@);
    assert(extension_of(Checker::Scene) == "kscn"@);
    assert(extension_of(Checker::InputMap) == "kmap"@);
    assert(extension_of(Checker::SaveSchema) == "kschema"@);
    assert(extension_of(Checker::Tilemap) == "csv"@);
    assert(extension_of(Checker::Spritesheet) == "ksheet"@);
}

/// What a checker rejects is reported once, with the words and under the code
/// of the checker: where the script compiler points, or else at the first line.
pub proof fn law_rejection_is_reported(checker: Checker, text: Seq<char>, failure: CheckFailure)
    ensures
        ({
            let reported = failure_diagnostics(extension_of(checker), text, Some(failure));
            let start = if checker is Script {
                failure.start as int
            } else {
                0
            };
            let end = if checker is Script {
                failure.end as int
            } else {
                first_line_length(encode_utf8(text))
            };
            &&& reported.len() == 1
            &&& reported[0].message == failure.message@
            &&& reported[0].code == code_of(checker)
            &&& reported[0].source == "kalcite"@
            &&& reported[0].severity is Error
            &&& reported[0].range.start == position_at(text, start)
            &&& reported[0].range.end == position_at(
                text,
                if end > start {
                    end
                } else {
                    start + 1
                },
            )
        }),
{
    law_checkers(extension_of(checker), checker);
}

/// Nothing is reported by a checker that rejects nothing, nor of a document
/// that no checker is for.
pub proof fn law_nothing_rejected(
    extension: Seq<char>,
    text: Seq<char>,
    failure: Option<CheckFailure>,
)
    requires
        failure is None || forall|any: Checker| extension != #[trigger] extension_of(any),
    ensures
        failure_diagnostics(extension, text, failure).len() == 0,
{
    law_checkers(extension, Checker::Script);
}

/// What is reported of a document is what its checker reports; and where that
/// is nothing, what the project reports of it.
pub proof fn law_project_is_asked_second<P>(
    extension: Seq<char>,
    text: Seq<char>,
    failure: Option<CheckFailure>,
    facts: Option<&ProjectFacts<P>>,
)
    ensures
        failure_diagnostics(extension, text, failure).len() > 0 ==> document_diagnostics(
            extension,
            text,
            failure,
            facts,
        ) == failure_diagnostics(extension, text, failure),
        failure_diagnostics(extension, text, failure).len() == 0 ==> document_diagnostics(
            extension,
            text,
            failure,
            facts,
        ) == facts_diagnostics(facts, extension, text),
{
}

/// Outside of a project nothing is reported by it, nor of a document that is
/// neither a scene nor a script.
pub proof fn law_no_project_no_report<P>(
    facts: Option<&ProjectFacts<P>>,
    extension: Seq<char>,
    text: Seq<char>,
)
    requires
        facts is None || (extension != "kscn"@ && extension != "klc"@),
    ensures
        facts_diagnostics(facts, extension, text).len() == 0,
{
}

/// What the project finds in a scene is reported at its first line, finding by
/// finding; and of a scene that it cannot look into, nothing.
pub proof fn law_scene_findings<P>(facts: &ProjectFacts<P>, text: Seq<char>)
    ensures
        facts.scene_findings is None ==> facts_diagnostics(Some(facts), "kscn"@, text).len() == 0,
        facts.scene_findings matches Some(findings) ==> {
            let reported = facts_diagnostics(Some(facts), "kscn"@, text);
            let end = first_line_length(encode_utf8(text));
            &&& reported.len() == findings@.len()
            &&& forall|i: int|
                0 <= i < findings@.len() ==> {
                    &&& (#[trigger] reported[i]).code == findings@[i].code@
                    &&& reported[i].message == findings@[i].message@
                    &&& reported[i].source == "kalcite-project"@
                    &&& reported[i].severity is Error
                    &&& reported[i].range.start == position_at(text, 0)
                    &&& reported[i].range.end == position_at(
                        text,
                        if end > 0 {
                            end
                        } else {
                            1
                        },
                    )
                }
        },
{
    reveal_strlit("klc");
    reveal_strlit("kscn");
    assert("klc"@.len() != "kscn"@.len());
}

/// Whether a name is among those of a list that may be absent.
pub open spec fn is_listed(names: Option<Vec<String>>, name: Seq<char>) -> bool {
    names matches Some(names) && exists|k: int|
        0 <= k < names@.len() && (#[trigger] names@[k])@ == name
}

/// The characters between two offsets of a text.
pub open spec fn between(text: Seq<char>, span: (int, int)) -> Seq<char> {
    decode_utf8(encode_utf8(text).subrange(span.0, span.1))
}

/// What the project does not hold is reported where it is named, with its name
/// and what it would be.
pub proof fn law_unknown_reference(
    text: Seq<char>,
    span: (int, int),
    code: Seq<char>,
    noun: Seq<char>,
    value: Seq<char>,
)
    ensures
        ({
            let reported = unknown_reference(text, span, code, noun, value);
            &&& reported.code == code
            &&& reported.source == "kalcite-project"@
            &&& reported.severity is Error
            &&& reported.message == "unknown project "@ + noun + " `"@ + value + "`"@
            &&& reported.range.start == position_at(text, span.0)
            &&& reported.range.end == position_at(
                text,
                if span.1 > span.0 {
                    span.1
                } else {
                    span.0 + 1
                },
            )
        }),
{
}

/// Whether a diagnostic says of the part of a text at a span that the project
/// does not hold what it names.
pub open spec fn says_unknown(
    diagnostic: DiagnosticView,
    text: Seq<char>,
    span: (int, int),
    code: Seq<char>,
    noun: Seq<char>,
) -> bool {
    &&& diagnostic.code == code
    &&& diagnostic.source == "kalcite-project"@
    &&& diagnostic.severity is Error
    &&& diagnostic.message == "unknown project "@ + noun + " `"@ + between(text, span) + "`"@
    &&& diagnostic.range.start == position_at(text, span.0)
    &&& diagnostic.range.end == position_at(
        text,
        if span.1 > span.0 {
            span.1
        } else {
            span.0 + 1
        },
    )
}

/// Whether a report holds one diagnostic for each span that names something
/// unknown, in the order of the spans, and nothing else: the k-th diagnostic is
/// that of the span at `picked[k]`.
pub open spec fn reports_unknown_of(
    report: Seq<DiagnosticView>,
    picked: Seq<int>,
    text: Seq<char>,
    spans: Seq<(int, int)>,
    known: spec_fn(Seq<char>) -> bool,
    code: Seq<char>,
    noun: Seq<char>,
) -> bool {
    &&& report.len() == picked.len()
    &&& forall|k: int, l: int|
        0 <= k < l < picked.len() ==> #[trigger] picked[k] < #[trigger] picked[l]
    &&& forall|k: int|
        0 <= k < picked.len() ==> {
            &&& 0 <= #[trigger] picked[k] < spans.len()
            &&& !known(between(text, spans[picked[k]]))
            &&& says_unknown(report[k], text, spans[picked[k]], code, noun)
        }
    &&& forall|i: int|
        0 <= i < spans.len() && !known(between(text, #[trigger] spans[i])) ==> picked.contains(i)
}

proof fn lemma_report(
    text: Seq<char>,
    spans: Seq<(int, int)>,
    n: nat,
    names: Seq<Seq<char>>,
    known: spec_fn(Seq<char>) -> bool,
    code: Seq<char>,
    noun: Seq<char>,
) -> (picked: Seq<int>)
    requires
        n <= spans.len(),
        forall|name: Seq<char>| #[trigger] names.contains(name) <==> known(name),
    ensures
        reports_unknown_of(
            unknown_references(text, spans, n, names, code, noun),
            picked,
            text,
            spans.take(n as int),
            known,
            code,
            noun,
        ),
    decreases n,
{
    if n == 0 {
        Seq::empty()
    } else {
        let before = lemma_report(text, spans, (n - 1) as nat, names, known, code, noun);
        let fewer = spans.take(n - 1);
        let more = spans.take(n as int);
        let report = unknown_references(text, spans, (n - 1) as nat, names, code, noun);
        assert forall|i: int| 0 <= i < n - 1 implies #[trigger] more[i] == fewer[i] by {}
        assert(more[n - 1] == spans[n - 1]);
        let value = part(text, spans[n - 1]);
        assert(names.contains(value) <==> known(value));
        if names.contains(value) {
            assert forall|i: int|
                0 <= i < more.len() && !known(
                    between(text, #[trigger] more[i]),
                ) implies before.contains(i) by {
                assert(i < n - 1);
                assert(more[i] == fewer[i]);
            }
            before
        } else {
            let picked = before.push(n - 1);
            let longer = unknown_references(text, spans, n, names, code, noun);
            assert forall|k: int| 0 <= k < picked.len() implies {
                &&& 0 <= #[trigger] picked[k] < more.len()
                &&& !known(between(text, more[picked[k]]))
                &&& says_unknown(longer[k], text, more[picked[k]], code, noun)
            } by {
                if k < before.len() {
                    assert(picked[k] == before[k]);
                    assert(longer[k] == report[k]);
                    assert(more[before[k]] == fewer[before[k]]);
                }
            }
            assert forall|i: int|
                0 <= i < more.len() && !known(
                    between(text, #[trigger] more[i]),
                ) implies picked.contains(i) by {
                if i < n - 1 {
                    assert(more[i] == fewer[i]);
                    let k = choose|k: int| 0 <= k < before.len() && before[k] == i;
                    assert(picked[k] == i);
                } else {
                    assert(picked[before.len() as int] == i);
                }
            }
            picked
        }
    }
}

proof fn lemma_report_all(
    text: Seq<char>,
    spans: Seq<(int, int)>,
    names: Seq<Seq<char>>,
    known: spec_fn(Seq<char>) -> bool,
    code: Seq<char>,
    noun: Seq<char>,
) -> (picked: Seq<int>)
    requires
        forall|name: Seq<char>| #[trigger] names.contains(name) <==> known(name),
    ensures
        reports_unknown_of(
            unknown_references(text, spans, spans.len(), names, code, noun),
            picked,
            text,
            spans,
            known,
            code,
            noun,
        ),
{
    let picked = lemma_report(text, spans, spans.len(), names, known, code, noun);
    assert(spans.take(spans.len() as int) =~= spans);
    picked
}

/// The input actions of a project, as what is known.
pub open spec fn actions_of<P>(facts: &ProjectFacts<P>) -> spec_fn(Seq<char>) -> bool {
    |name: Seq<char>| is_listed(facts.actions, name)
}

/// The assets of a project, as what is known.
pub open spec fn assets_of<P>(facts: &ProjectFacts<P>) -> spec_fn(Seq<char>) -> bool {
    |name: Seq<char>| asset_names(facts.assets).contains(name)
}

/// The arguments right behind a prefix in a text.
pub open spec fn behind(text: Seq<char>, prefix: Seq<char>) -> Seq<(int, int)> {
    string_spans(encode_utf8(text), encode_utf8(prefix), 0)
}

/// The first two arguments of each call that a prefix opens in a text.
pub open spec fn in_calls(text: Seq<char>, prefix: Seq<char>) -> Seq<(int, int)> {
    call_spans(encode_utf8(text), encode_utf8(prefix), 2, 0)
}

proof fn lemma_actions_known(actions: Option<Vec<String>>, name: Seq<char>)
    ensures
        known_actions(actions).contains(name) <==> is_listed(actions, name),
{
    if let Some(names) = actions {
        let all = known_actions(actions);
        if all.contains(name) {
            let k = choose|k: int| 0 <= k < all.len() && all[k] == name;
            assert(names@[k]@ == name);
        }
        if is_listed(actions, name) {
            let k = choose|k: int| 0 <= k < names@.len() && (#[trigger] names@[k])@ == name;
            assert(all[k] == name);
        }
    }
}

/// What the project reports of a script are eight reports, one after the other:
/// the input actions that are not in the input map, among the arguments of the
/// calls that take one and then of those that take two, and the assets that the
/// project does not hold, likewise.
pub proof fn law_script_report<P>(facts: &ProjectFacts<P>, text: Seq<char>) -> (res: (
    Seq<Seq<DiagnosticView>>,
    Seq<Seq<int>>,
))
    ensures
        ({
            let (report, picked) = res;
            let actions = actions_of(facts);
            let assets = assets_of(facts);
            let action = "input action"@;
            &&& report.len() == 8
            &&& facts_diagnostics(Some(facts), "klc"@, text) == report[0] + report[1] + report[2]
                + report[3] + report[4] + report[5] + report[6] + report[7]
            &&& reports_unknown_of(
                report[0],
                picked[0],
                text,
                behind(text, "Input.action_held(\""@),
                actions,
                "KLP3001"@,
                action,
            )
            &&& reports_unknown_of(
                report[1],
                picked[1],
                text,
                behind(text, "Input.action_pressed(\""@),
                actions,
                "KLP3001"@,
                action,
            )
            &&& reports_unknown_of(
                report[2],
                picked[2],
                text,
                behind(text, "Input.action_released(\""@),
                actions,
                "KLP3001"@,
                action,
            )
            &&& reports_unknown_of(
                report[3],
                picked[3],
                text,
                in_calls(text, "Input.action_axis("@),
                actions,
                "KLP3001"@,
                action,
            )
            &&& reports_unknown_of(
                report[4],
                picked[4],
                text,
                behind(text, "Draw.sprite(\""@),
                assets,
                "KLP3002"@,
                "asset"@,
            )
            &&& reports_unknown_of(
                report[5],
                picked[5],
                text,
                behind(text, "Draw.sprite_region(\""@),
                assets,
                "KLP3002"@,
                "asset"@,
            )
            &&& reports_unknown_of(
                report[6],
                picked[6],
                text,
                behind(text, "Draw.sprite_frame(\""@),
                assets,
                "KLP3002"@,
                "asset"@,
            )
            &&& reports_unknown_of(
                report[7],
                picked[7],
                text,
                in_calls(text, "Draw.tilemap("@),
                assets,
                "KLP3002"@,
                "asset"@,
            )
        }),
{
    let actions = known_actions(facts.actions);
    let assets = asset_names(facts.assets);
    let listed = actions_of(facts);
    let held = assets_of(facts);
    let action = "input action"@;
    assert forall|name: Seq<char>| #[trigger] actions.contains(name) <==> listed(name) by {
        lemma_actions_known(facts.actions, name);
    }
    assert forall|name: Seq<char>| #[trigger] assets.contains(name) <==> held(name) by {}
    reveal_strlit("klc");
    reveal_strlit("kscn");
    assert("klc"@.len() != "kscn"@.len());
    let s0 = behind(text, "Input.action_held(\""@);
    let s1 = behind(text, "Input.action_pressed(\""@);
    let s2 = behind(text, "Input.action_released(\""@);
    let s3 = in_calls(text, "Input.action_axis("@);
    let s4 = behind(text, "Draw.sprite(\""@);
    let s5 = behind(text, "Draw.sprite_region(\""@);
    let s6 = behind(text, "Draw.sprite_frame(\""@);
    let s7 = in_calls(text, "Draw.tilemap("@);
    let p0 = lemma_report_all(text, s0, actions, listed, "KLP3001"@, action);
    let p1 = lemma_report_all(text, s1, actions, listed, "KLP3001"@, action);
    let p2 = lemma_report_all(text, s2, actions, listed, "KLP3001"@, action);
    let p3 = lemma_report_all(text, s3, actions, listed, "KLP3001"@, action);
    let p4 = lemma_report_all(text, s4, assets, held, "KLP3002"@, "asset"@);
    let p5 = lemma_report_all(text, s5, assets, held, "KLP3002"@, "asset"@);
    let p6 = lemma_report_all(text, s6, assets, held, "KLP3002"@, "asset"@);
    let p7 = lemma_report_all(text, s7, assets, held, "KLP3002"@, "asset"@);
    let report = seq![
        unknown_behind(text, "Input.action_held(\""@, actions, "KLP3001"@, action),
        unknown_behind(text, "Input.action_pressed(\""@, actions, "KLP3001"@, action),
        unknown_behind(text, "Input.action_released(\""@, actions, "KLP3001"@, action),
        unknown_in_calls(text, "Input.action_axis("@, actions, "KLP3001"@, action),
        unknown_behind(text, "Draw.sprite(\""@, assets, "KLP3002"@, "asset"@),
        unknown_behind(text, "Draw.sprite_region(\""@, assets, "KLP3002"@, "asset"@),
        unknown_behind(text, "Draw.sprite_frame(\""@, assets, "KLP3002"@, "asset"@),
        unknown_in_calls(text, "Draw.tilemap("@, assets, "KLP3002"@, "asset"@),
    ];
    (report, seq![p0, p1, p2, p3, p4, p5, p6, p7])
}

/// Whether all that the spans of a text name is known.
pub open spec fn all_known(
    text: Seq<char>,
    spans: Seq<(int, int)>,
    known: spec_fn(Seq<char>) -> bool,
) -> bool {
    forall|i: int| 0 <= i < spans.len() ==> known(between(text, #[trigger] spans[i]))
}

/// Whether the project holds every input action and every asset that a script
/// names.
pub open spec fn names_only_what_is_held<P>(facts: &ProjectFacts<P>, text: Seq<char>) -> bool {
    let actions = actions_of(facts);
    let assets = assets_of(facts);
    &&& all_known(text, behind(text, "Input.action_held(\""@), actions)
    &&& all_known(text, behind(text, "Input.action_pressed(\""@), actions)
    &&& all_known(text, behind(text, "Input.action_released(\""@), actions)
    &&& all_known(text, in_calls(text, "Input.action_axis("@), actions)
    &&& all_known(text, behind(text, "Draw.sprite(\""@), assets)
    &&& all_known(text, behind(text, "Draw.sprite_region(\""@), assets)
    &&& all_known(text, behind(text, "Draw.sprite_frame(\""@), assets)
    &&& all_known(text, in_calls(text, "Draw.tilemap("@), assets)
}

proof fn lemma_empty_report(
    report: Seq<DiagnosticView>,
    picked: Seq<int>,
    text: Seq<char>,
    spans: Seq<(int, int)>,
    known: spec_fn(Seq<char>) -> bool,
    code: Seq<char>,
    noun: Seq<char>,
)
    requires
        reports_unknown_of(report, picked, text, spans, known, code, noun),
    ensures
        report.len() == 0 <==> all_known(text, spans, known),
{
    if report.len() > 0 {
        assert(!known(between(text, spans[picked[0]])));
    } else {
        assert forall|i: int| 0 <= i < spans.len() implies known(
            between(text, #[trigger] spans[i]),
        ) by {
            if !known(between(text, spans[i])) {
                assert(picked.contains(i));
            }
        }
    }
}

/// What `project_diagnostics` gives of a script is empty exactly when the
/// project holds every input action and every asset that the script names.
pub proof fn law_silence_of_project_diagnostics<P>(
    facts: &ProjectFacts<P>,
    text: Seq<char>,
    res: Seq<Diagnostic>,
)
    requires
        diagnostics_of(res) == facts_diagnostics(Some(facts), "klc"@, text),
    ensures
        res.len() == 0 <==> names_only_what_is_held(facts, text),
{
    let (report, picked) = law_script_report(facts, text);
    let actions = actions_of(facts);
    let assets = assets_of(facts);
    let action = "input action"@;
    law_diagnostics_of(res);
    lemma_empty_report(
        report[0],
        picked[0],
        text,
        behind(text, "Input.action_held(\""@),
        actions,
        "KLP3001"@,
        action,
    );
    lemma_empty_report(
        report[1],
        picked[1],
        text,
        behind(text, "Input.action_pressed(\""@),
        actions,
        "KLP3001"@,
        action,
    );
    lemma_empty_report(
        report[2],
        picked[2],
        text,
        behind(text, "Input.action_released(\""@),
        actions,
        "KLP3001"@,
        action,
    );
    lemma_empty_report(
        report[3],
        picked[3],
        text,
        in_calls(text, "Input.action_axis("@),
        actions,
        "KLP3001"@,
        action,
    );
    lemma_empty_report(
        report[4],
        picked[4],
        text,
        behind(text, "Draw.sprite(\""@),
        assets,
        "KLP3002"@,
        "asset"@,
    );
    lemma_empty_report(
        report[5],
        picked[5],
        text,
        behind(text, "Draw.sprite_region(\""@),
        assets,
        "KLP3002"@,
        "asset"@,
    );
    lemma_empty_report(
        report[6],
        picked[6],
        text,
        behind(text, "Draw.sprite_frame(\""@),
        assets,
        "KLP3002"@,
        "asset"@,
    );
    lemma_empty_report(
        report[7],
        picked[7],
        text,
        in_calls(text, "Draw.tilemap("@),
        assets,
        "KLP3002"@,
        "asset"@,
    );
}

/// What `validate` gives of a script in a project is empty exactly when the
/// compiler accepts the script and the project holds every input action and
/// every asset that it names.
pub proof fn law_silence_of_validate<P>(
    facts: &ProjectFacts<P>,
    text: Seq<char>,
    failure: Option<CheckFailure>,
    res: Seq<Diagnostic>,
)
    requires
        diagnostics_of(res) == document_diagnostics("klc"@, text, failure, Some(facts)),
    ensures
        res.len() == 0 <==> failure is None && names_only_what_is_held(facts, text),
{
    law_diagnostics_of(res);
    law_project_is_asked_second("klc"@, text, failure, Some(facts));
    assert(extension_of(Checker::Script) == "klc"@);
    match failure {
        Some(failure) => {
            law_rejection_is_reported(Checker::Script, text, failure);
        },
        None => {
            law_nothing_rejected("klc"@, text, failure);
            law_silence_of_project_diagnostics(facts, text, res);
        },
    }
}

/// The references of a script can be checked when the calls that take two
/// arguments are closed.
pub proof fn law_script_calls(text: Seq<char>)
    ensures
        script_calls_closed(text) <==> {
            &&& calls_closed(
                encode_utf8(text),
                encode_utf8("Input.action_axis("@),
                0,
            )
            &&& calls_closed(encode_utf8(text), encode_utf8("Draw.tilemap("@), 0)
        },
{
}

} // verus!
