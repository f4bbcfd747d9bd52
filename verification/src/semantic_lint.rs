//! Lint findings on what BitBake resolved.
use crate::collections;
use crate::environment;
use crate::findings;
use crate::lint;
use crate::output;
use crate::recipes;
use crate::rules;
use crate::semantic;
use crate::text;
use crate::values;
use crate::checks::long_phrase;
use crate::checks::phrase;
use crate::environment::EnvironmentView;
use crate::environment::SemanticEnvironment;
use crate::environment::words_as_strings;
use crate::findings::LintDiagnostic;
use crate::lint::ExternalLintDiagnostic;
use crate::lint::LabeledView;
use crate::lint::arrange;
use crate::output::SemanticDiagnostic;
use crate::output::SemanticSeverity;
use crate::output::SemanticView;
use crate::output::contains_text;
use crate::recipes::is_closed_license;
use crate::recipes::is_unchecked_license;
use crate::recipes::is_unchecked_source;
use crate::rules::LintOptions;
use crate::rules::LintSeverity;
use crate::rules::RULE_AUTOREV;
use crate::rules::RULE_BITBAKE_DIAGNOSTIC;
use crate::rules::RULE_COUNT;
use crate::rules::RULE_GIT_URI_PROTOCOL;
use crate::rules::RULE_LICENSE_CHECKSUM;
use crate::rules::RULE_MISSING_DESCRIPTION;
use crate::rules::RULE_MISSING_LICENSE;
use crate::rules::RULE_MISSING_SUMMARY;
use crate::rules::RULE_SOURCE_CHECKSUM;
use crate::rules::RULE_URI_PARAMETERS;
use crate::semantic::BitBakeTranscript;
use crate::semantic::ReportView;
use crate::semantic::SemanticError;
use crate::semantic::SemanticOptions;
use crate::semantic::SemanticReport;
use crate::semantic::analyze_bitbake;
use crate::text::CharClass;
use crate::text::append_chars;
use crate::text::chars_of;
use crate::text::starts_with;
use crate::text::string_of;
use crate::text::trim;
use crate::values::lacks_protocol;
use crate::values::wrong_parameters;
use vstd::prelude::*;
use vstd::slice::slice_subrange;

verus! {

/// The lint severity of a BitBake message.
pub open spec fn lint_severity(severity: SemanticSeverity) -> LintSeverity {
    match severity {
        SemanticSeverity::Debug => LintSeverity::Info,
        SemanticSeverity::Note => LintSeverity::Info,
        SemanticSeverity::Warning => LintSeverity::Warning,
        SemanticSeverity::Error => LintSeverity::Error,
    }
}

/// A finding of a rule without a place, at the severity of the rule.
pub open spec fn rule_report(label: Seq<char>, rule: nat, message: Seq<char>) -> LabeledView {
    LabeledView {
        label,
        diagnostic: findings::external_diagnostic(rule, rules::rule_view(rule).severity, None, None, message),
    }
}

/// The finding on a BitBake message.
pub open spec fn message_report(d: SemanticView) -> LabeledView {
    LabeledView {
        label: match d.path {
            Some(path) => path,
            None => "bitbake"@,
        },
        diagnostic: findings::external_diagnostic(
            RULE_BITBAKE_DIAGNOSTIC as nat,
            lint_severity(d.severity),
            d.line,
            d.column,
            "BitBake: "@ + d.message + ""@,
        ),
    }
}

/// The findings on the BitBake messages `items[k..]`.
pub open spec fn message_reports(items: Seq<SemanticView>, k: int) -> Seq<LabeledView>
    decreases items.len() - k,
{
    if k < 0 || k >= items.len() {
        Seq::empty()
    } else {
        seq![message_report(items[k])] + message_reports(items, k + 1)
    }
}

/// A failure of BitBake that it does not explain.
pub open spec fn silent_failure(message: Seq<char>) -> LabeledView {
    LabeledView {
        label: "bitbake"@,
        diagnostic: findings::external_diagnostic(
            RULE_BITBAKE_DIAGNOSTIC as nat,
            LintSeverity::Error,
            None,
            None,
            message,
        ),
    }
}

/// The finding on a failure of BitBake without an error message.
pub open spec fn silent_failures(r: ReportView) -> Seq<LabeledView> {
    if !r.parse_succeeded && !semantic::report_has_errors(r) {
        seq![silent_failure("BitBake parse failed without a source diagnostic"@)]
    } else if r.parse_succeeded && !r.target_queries_succeeded && !semantic::report_has_errors(r) {
        seq![silent_failure("BitBake target query failed without a source diagnostic"@)]
    } else {
        Seq::empty()
    }
}

/// A variable has a value that is not blank.
pub open spec fn resolves(e: EnvironmentView, variable: Seq<char>) -> bool {
    environment::variable_of(e, variable) matches Some(value) && text::trimmed(value, CharClass::Whitespace).len() > 0
}

/// The finding on a variable without a value.
pub open spec fn empty_variable(
    e: EnvironmentView,
    label: Seq<char>,
    rule: nat,
    variable: Seq<char>,
    message: Seq<char>,
) -> Seq<LabeledView> {
    if resolves(e, variable) {
        Seq::empty()
    } else {
        seq![
            rule_report(
                label,
                rule,
                "target '"@ + e.target + "' has no resolved "@ + variable + ": "@ + message,
            ),
        ]
    }
}

/// A variable holds a text.
pub open spec fn variable_holds(e: EnvironmentView, variable: Seq<char>, part: Seq<char>) -> bool {
    environment::variable_of(e, variable) matches Some(value) && output::holds_text(value, part)
}

/// The source revision is not fixed.
pub open spec fn floats_revision(e: EnvironmentView) -> bool {
    variable_holds(e, "SRCREV"@, "${AUTOREV}"@) || variable_holds(e, "SRCREV"@, "AUTOINC"@)
        || variable_holds(e, "SRCPV"@, "AUTOINC"@)
}

/// The finding on a source revision that is not fixed.
pub open spec fn revision_reports(e: EnvironmentView, label: Seq<char>) -> Seq<LabeledView> {
    if floats_revision(e) {
        seq![
            rule_report(
                label,
                RULE_AUTOREV as nat,
                "target '"@ + e.target
                    + "' resolves SRCREV through AUTOREV; pin a source revision for reproducible builds"@,
            ),
        ]
    } else {
        Seq::empty()
    }
}

/// The findings on the parameters `bad[k..]` of a URI.
pub open spec fn parameter_reports(
    label: Seq<char>,
    target: Seq<char>,
    uri: Seq<char>,
    bad: Seq<int>,
    k: int,
) -> Seq<LabeledView>
    decreases bad.len() - k,
{
    if k < 0 || k >= bad.len() {
        Seq::empty()
    } else {
        seq![
            rule_report(
                label,
                RULE_URI_PARAMETERS as nat,
                "target '"@ + target + "' resolves SRC_URI entry '"@ + uri
                    + "' with invalid or conflicting parameter '"@ + values::pieces(uri, ';')[bad[k]] + "'"@,
            ),
        ] + parameter_reports(label, target, uri, bad, k + 1)
    }
}

/// The findings on a source URI.
pub open spec fn uri_reports(label: Seq<char>, target: Seq<char>, uri: Seq<char>) -> Seq<
    LabeledView,
> {
    (if values::git_uri(uri) && !values::names_protocol(uri) {
        seq![
            rule_report(
                label,
                RULE_GIT_URI_PROTOCOL as nat,
                "target '"@ + target + "' resolves Git URI '"@ + uri
                    + "' without a transport protocol"@,
            ),
        ]
    } else {
        Seq::empty()
    }) + (if recipes::unchecked_source(uri) {
        seq![
            rule_report(
                label,
                RULE_SOURCE_CHECKSUM as nat,
                "target '"@ + target + "' resolves remote source URI '"@ + uri
                    + "' without a valid md5sum or sha256sum"@,
            ),
        ]
    } else {
        Seq::empty()
    }) + parameter_reports(label, target, uri, values::bad_parameters(uri), 0)
}

/// The findings on the source URIs `uris[k..]`.
pub open spec fn uris_reports(
    label: Seq<char>,
    target: Seq<char>,
    uris: Seq<Seq<char>>,
    k: int,
) -> Seq<LabeledView>
    decreases uris.len() - k,
{
    if k < 0 || k >= uris.len() {
        Seq::empty()
    } else {
        uri_reports(label, target, uris[k]) + uris_reports(label, target, uris, k + 1)
    }
}

/// The findings on the sources of a target.
pub open spec fn source_reports(e: EnvironmentView, label: Seq<char>) -> Seq<LabeledView> {
    match environment::variable_of(e, "SRC_URI"@) {
        Some(value) => uris_reports(
            label,
            e.target,
            text::word_texts(value, CharClass::Whitespace),
            0,
        ),
        None => Seq::empty(),
    }
}

/// A list of URIs names a file.
pub open spec fn any_file(uris: Seq<Seq<char>>) -> bool {
    exists|k: int| 0 <= k < uris.len() && recipes::file_uri(#[trigger] uris[k])
}

/// A list of URIs names a file without a checksum.
pub open spec fn any_unchecked(uris: Seq<Seq<char>>) -> bool {
    exists|k: int| 0 <= k < uris.len() && recipes::unchecked_license(#[trigger] uris[k])
}

/// The entries of `LIC_FILES_CHKSUM`.
pub open spec fn license_uris(e: EnvironmentView) -> Seq<Seq<char>> {
    match environment::variable_of(e, "LIC_FILES_CHKSUM"@) {
        Some(value) => text::word_texts(value, CharClass::Whitespace),
        None => Seq::empty(),
    }
}

/// The finding on the license files of a target.
pub open spec fn license_reports(e: EnvironmentView, label: Seq<char>) -> Seq<LabeledView> {
    match environment::variable_of(e, "LICENSE"@) {
        Some(value) => if recipes::closed_license(value) {
            Seq::empty()
        } else if !any_file(license_uris(e)) {
            seq![
                rule_report(
                    label,
                    RULE_LICENSE_CHECKSUM as nat,
                    "target '"@ + e.target
                        + "' has non-CLOSED LICENSE but no resolved LIC_FILES_CHKSUM file entry"@,
                ),
            ]
        } else if any_unchecked(license_uris(e)) {
            seq![
                rule_report(
                    label,
                    RULE_LICENSE_CHECKSUM as nat,
                    "target '"@ + e.target
                        + "' resolves a license file without a valid md5 or sha256 checksum"@,
                ),
            ]
        } else {
            Seq::empty()
        },
        None => Seq::empty(),
    }
}

/// What the findings on the environment of a target are labeled with.
pub open spec fn environment_label(target: Seq<char>) -> Seq<char> {
    "bitbake -e "@ + target + ""@
}

/// The findings on the environment of a target.
pub open spec fn environment_reports(e: EnvironmentView) -> Seq<LabeledView> {
    let label = environment_label(e.target);
    empty_variable(
        e,
        label,
        RULE_MISSING_SUMMARY as nat,
        "SUMMARY"@,
        "BitBake resolved SUMMARY to an empty value"@,
    ) + empty_variable(
        e,
        label,
        RULE_MISSING_DESCRIPTION as nat,
        "DESCRIPTION"@,
        "BitBake resolved DESCRIPTION to an empty value"@,
    ) + empty_variable(
        e,
        label,
        RULE_MISSING_LICENSE as nat,
        "LICENSE"@,
        "BitBake resolved LICENSE to an empty value"@,
    ) + revision_reports(e, label) + source_reports(e, label) + license_reports(e, label)
}

/// The findings on the environments `items[k..]`.
pub open spec fn environments_reports(items: Seq<EnvironmentView>, k: int) -> Seq<LabeledView>
    decreases items.len() - k,
{
    if k < 0 || k >= items.len() {
        Seq::empty()
    } else {
        environment_reports(items[k]) + environments_reports(items, k + 1)
    }
}

/// The findings on a report, in the order in which they are found.
pub open spec fn semantic_reports(r: ReportView) -> Seq<LabeledView> {
    message_reports(r.diagnostics, 0) + silent_failures(r) + environments_reports(
        r.environments,
        0,
    )
}

// ---------------------------------------------------------------------------
fn push_report(
    out: &mut Vec<ExternalLintDiagnostic>,
    label: &[char],
    rule: usize,
    message: &[char],
)
    requires
        rule < RULE_COUNT,
    ensures
        lint::labeled_views(final(out)@) == lint::labeled_views(old(out)@) + seq![
            rule_report(label@, rule as nat, message@),
        ],
{
    let ghost before = lint::labeled_views(out@);
    let severity = crate::rules::rule(rule).severity();
    let item = ExternalLintDiagnostic {
        label: string_of(label),
        diagnostic: LintDiagnostic::external(rule, severity, None, None, message),
    };
    let ghost added = item@;
    out.push(item);
    assert(lint::labeled_views(out@) =~= before + seq![added]);
}

fn report_messages(out: &mut Vec<ExternalLintDiagnostic>, items: &Vec<SemanticDiagnostic>)
    ensures
        lint::labeled_views(final(out)@) == lint::labeled_views(old(out)@) + message_reports(
            output::semantic_views(items@),
            0,
        ),
{
    let ghost all = output::semantic_views(items@);
    let ghost goal = lint::labeled_views(out@) + message_reports(all, 0);
    let mut k: usize = 0;
    while k < items.len()
        invariant
            k <= items@.len(),
            all == output::semantic_views(items@),
            lint::labeled_views(out@) + message_reports(all, k as int) == goal,
        decreases items@.len() - k,
    {
        assert(all[k as int] == items@[k as int]@);
        let ghost before = lint::labeled_views(out@);
        let severity = match items[k].severity() {
            SemanticSeverity::Debug => LintSeverity::Info,
            SemanticSeverity::Note => LintSeverity::Info,
            SemanticSeverity::Warning => LintSeverity::Warning,
            SemanticSeverity::Error => LintSeverity::Error,
        };
        let label = match items[k].path() {
            Some(path) => path.to_owned(),
            None => "bitbake".to_owned(),
        };
        let message = phrase("BitBake: ", chars_of(items[k].message()).as_slice(), "");
        let item = ExternalLintDiagnostic {
            label,
            diagnostic: LintDiagnostic::external(
                RULE_BITBAKE_DIAGNOSTIC,
                severity,
                items[k].line(),
                items[k].column(),
                message.as_slice(),
            ),
        };
        let ghost added = item@;
        out.push(item);
        proof {
            assert(added == message_report(all[k as int]));
            let rest = message_reports(all, k + 1);
            assert(lint::labeled_views(out@) =~= before.push(added));
            assert(before + (seq![added] + rest) =~= before.push(added) + rest);
        }
        k += 1;
    }
    assert(lint::labeled_views(out@) + Seq::<LabeledView>::empty() =~= lint::labeled_views(out@));
}

fn report_silent_failure(out: &mut Vec<ExternalLintDiagnostic>, message: &str)
    ensures
        lint::labeled_views(final(out)@) == lint::labeled_views(old(out)@) + seq![silent_failure(message@)],
{
    let ghost before = lint::labeled_views(out@);
    let item = ExternalLintDiagnostic {
        label: "bitbake".to_owned(),
        diagnostic: LintDiagnostic::external(
            RULE_BITBAKE_DIAGNOSTIC,
            LintSeverity::Error,
            None,
            None,
            chars_of(message).as_slice(),
        ),
    };
    let ghost added = item@;
    out.push(item);
    assert(lint::labeled_views(out@) =~= before + seq![added]);
}

fn report_empty_variable(
    out: &mut Vec<ExternalLintDiagnostic>,
    environment: &SemanticEnvironment,
    label: &[char],
    rule: usize,
    variable: &str,
    message: &str,
)
    requires
        environment.wf(),
        rule < RULE_COUNT,
    ensures
        lint::labeled_views(final(out)@) == lint::labeled_views(old(out)@) + empty_variable(
            environment@,
            label@,
            rule as nat,
            variable@,
            message@,
        ),
{
    let resolved = match environment.get(variable) {
        Some(value) => trim(chars_of(value).as_slice(), CharClass::Whitespace).len() > 0,
        None => false,
    };
    if resolved {
        assert(lint::labeled_views(out@) + Seq::<LabeledView>::empty() =~= lint::labeled_views(out@));
        return;
    }
    let mut text = long_phrase(
        "target '",
        chars_of(environment.target()).as_slice(),
        "' has no resolved ",
        chars_of(variable).as_slice(),
        ": ",
    );
    append_chars(&mut text, chars_of(message).as_slice());
    push_report(out, label, rule, text.as_slice());
}

fn variable_contains(environment: &SemanticEnvironment, variable: &str, part: &str) -> (r: bool)
    requires
        environment.wf(),
    ensures
        r == variable_holds(environment@, variable@, part@),
{
    match environment.get(variable) {
        Some(value) => contains_text(chars_of(value).as_slice(), part),
        None => false,
    }
}

fn report_revision(
    out: &mut Vec<ExternalLintDiagnostic>,
    environment: &SemanticEnvironment,
    label: &[char],
)
    requires
        environment.wf(),
    ensures
        lint::labeled_views(final(out)@) == lint::labeled_views(old(out)@) + revision_reports(
            environment@,
            label@,
        ),
{
    if variable_contains(environment, "SRCREV", "${AUTOREV}") || variable_contains(
        environment,
        "SRCREV",
        "AUTOINC",
    ) || variable_contains(environment, "SRCPV", "AUTOINC") {
        let text = phrase(
            "target '",
            chars_of(environment.target()).as_slice(),
            "' resolves SRCREV through AUTOREV; pin a source revision for reproducible builds",
        );
        push_report(out, label, RULE_AUTOREV, text.as_slice());
    } else {
        assert(lint::labeled_views(out@) + Seq::<LabeledView>::empty() =~= lint::labeled_views(out@));
    }
}

fn report_parameters(
    out: &mut Vec<ExternalLintDiagnostic>,
    label: &[char],
    target: &[char],
    uri: &[char],
)
    ensures
        lint::labeled_views(final(out)@) == lint::labeled_views(old(out)@) + parameter_reports(
            label@,
            target@,
            uri@,
            values::bad_parameters(uri@),
            0,
        ),
{
    let wrong = wrong_parameters(uri);
    let ghost bad = values::bad_parameters(uri@);
    let ghost goal = lint::labeled_views(out@) + parameter_reports(label@, target@, uri@, bad, 0);
    let mut k: usize = 0;
    while k < wrong.len()
        invariant
            k <= wrong@.len(),
            wrong@.len() == bad.len(),
            forall|j: int|
                0 <= j < wrong@.len() ==> {
                    &&& (#[trigger] wrong@[j]).0 == bad[j]
                    &&& wrong@[j].0 < values::pieces(uri@, ';').len()
                    &&& wrong@[j].1.0 <= wrong@[j].1.1 <= uri@.len()
                    &&& values::pieces(uri@, ';')[wrong@[j].0 as int] == uri@.subrange(
                        wrong@[j].1.0 as int,
                        wrong@[j].1.1 as int,
                    )
                },
            lint::labeled_views(out@) + parameter_reports(label@, target@, uri@, bad, k as int) == goal,
        decreases wrong@.len() - k,
    {
        assert(wrong@[k as int].0 == bad[k as int]);
        let ghost before = lint::labeled_views(out@);
        let mut text = long_phrase(
            "target '",
            target,
            "' resolves SRC_URI entry '",
            uri,
            "' with invalid or conflicting parameter '",
        );
        append_chars(&mut text, slice_subrange(uri, wrong[k].1.0, wrong[k].1.1));
        append_chars(&mut text, chars_of("'").as_slice());
        let ghost added = rule_report(label@, RULE_URI_PARAMETERS as nat, text@);
        push_report(out, label, RULE_URI_PARAMETERS, text.as_slice());
        proof {
            let rest = parameter_reports(label@, target@, uri@, bad, k + 1);
            assert(before + (seq![added] + rest) =~= (before + seq![added]) + rest);
        }
        k += 1;
    }
    assert(lint::labeled_views(out@) + Seq::<LabeledView>::empty() =~= lint::labeled_views(out@));
}

fn report_uri(
    out: &mut Vec<ExternalLintDiagnostic>,
    label: &[char],
    target: &[char],
    uri: &[char],
)
    ensures
        lint::labeled_views(final(out)@) == lint::labeled_views(old(out)@) + uri_reports(
            label@,
            target@,
            uri@,
        ),
{
    let ghost before = lint::labeled_views(out@);
    if lacks_protocol(uri) {
        let text = long_phrase(
            "target '",
            target,
            "' resolves Git URI '",
            uri,
            "' without a transport protocol",
        );
        push_report(out, label, RULE_GIT_URI_PROTOCOL, text.as_slice());
    }
    if is_unchecked_source(uri) {
        let text = long_phrase(
            "target '",
            target,
            "' resolves remote source URI '",
            uri,
            "' without a valid md5sum or sha256sum",
        );
        push_report(out, label, RULE_SOURCE_CHECKSUM, text.as_slice());
    }
    report_parameters(out, label, target, uri);
    assert(lint::labeled_views(out@) =~= before + uri_reports(label@, target@, uri@));
}

fn report_sources(
    out: &mut Vec<ExternalLintDiagnostic>,
    environment: &SemanticEnvironment,
    label: &[char],
)
    requires
        environment.wf(),
    ensures
        lint::labeled_views(final(out)@) == lint::labeled_views(old(out)@) + source_reports(
            environment@,
            label@,
        ),
{
    if let Some(value) = environment.get("SRC_URI") {
        let target = chars_of(environment.target());
        let uris = words_as_strings(chars_of(value).as_slice(), CharClass::Whitespace);
        let ghost all = collections::string_texts(uris@);
        let ghost goal = lint::labeled_views(out@) + uris_reports(label@, target@, all, 0);
        let mut k: usize = 0;
        while k < uris.len()
            invariant
                k <= uris@.len(),
                all == collections::string_texts(uris@),
                lint::labeled_views(out@) + uris_reports(label@, target@, all, k as int) == goal,
            decreases uris@.len() - k,
        {
            assert(all[k as int] == uris@[k as int]@);
            let ghost before = lint::labeled_views(out@);
            report_uri(out, label, target.as_slice(), chars_of(uris[k].as_str()).as_slice());
            proof {
                let f = uri_reports(label@, target@, all[k as int]);
                let rest = uris_reports(label@, target@, all, k + 1);
                assert(before + (f + rest) =~= (before + f) + rest);
            }
            k += 1;
        }
        assert(lint::labeled_views(out@) + Seq::<LabeledView>::empty() =~= lint::labeled_views(out@));
    } else {
        assert(lint::labeled_views(out@) + Seq::<LabeledView>::empty() =~= lint::labeled_views(out@));
    }
}

/// Whether some of the URIs name a file, and whether one of those lacks a
/// checksum.
fn license_files(uris: &Vec<String>) -> (r: (bool, bool))
    ensures
        r.0 == any_file(collections::string_texts(uris@)),
        r.1 == any_unchecked(collections::string_texts(uris@)),
{
    let ghost all = collections::string_texts(uris@);
    let mut file = false;
    let mut unchecked = false;
    let mut k: usize = 0;
    while k < uris.len()
        invariant
            k <= uris@.len(),
            all == collections::string_texts(uris@),
            file == exists|j: int| 0 <= j < k && recipes::file_uri(#[trigger] all[j]),
            unchecked == exists|j: int| 0 <= j < k && recipes::unchecked_license(#[trigger] all[j]),
        decreases uris@.len() - k,
    {
        assert(all[k as int] == uris@[k as int]@);
        let uri = chars_of(uris[k].as_str());
        if starts_with(uri.as_slice(), "file://") {
            assert(recipes::file_uri(all[k as int]));
            file = true;
        }
        if is_unchecked_license(uri.as_slice()) {
            assert(recipes::unchecked_license(all[k as int]));
            unchecked = true;
        }
        k += 1;
    }
    (file, unchecked)
}

fn report_license(
    out: &mut Vec<ExternalLintDiagnostic>,
    environment: &SemanticEnvironment,
    label: &[char],
)
    requires
        environment.wf(),
    ensures
        lint::labeled_views(final(out)@) == lint::labeled_views(old(out)@) + license_reports(
            environment@,
            label@,
        ),
{
    let license_open = match environment.get("LICENSE") {
        Some(value) => !is_closed_license(chars_of(value).as_slice()),
        None => false,
    };
    if license_open {
        let uris = match environment.get("LIC_FILES_CHKSUM") {
            Some(value) => words_as_strings(chars_of(value).as_slice(), CharClass::Whitespace),
            None => {
                let none: Vec<String> = Vec::new();
                assert(collections::string_texts(none@) =~= Seq::empty());
                none
            },
        };
        let (file, unchecked) = license_files(&uris);
        let target = chars_of(environment.target());
        if !file {
            let text = phrase(
                "target '",
                target.as_slice(),
                "' has non-CLOSED LICENSE but no resolved LIC_FILES_CHKSUM file entry",
            );
            push_report(out, label, RULE_LICENSE_CHECKSUM, text.as_slice());
            return;
        }
        if unchecked {
            let text = phrase(
                "target '",
                target.as_slice(),
                "' resolves a license file without a valid md5 or sha256 checksum",
            );
            push_report(out, label, RULE_LICENSE_CHECKSUM, text.as_slice());
            return;
        }
    }
    assert(lint::labeled_views(out@) + Seq::<LabeledView>::empty() =~= lint::labeled_views(out@));
}

fn report_environment(out: &mut Vec<ExternalLintDiagnostic>, environment: &SemanticEnvironment)
    requires
        environment.wf(),
    ensures
        lint::labeled_views(final(out)@) == lint::labeled_views(old(out)@) + environment_reports(environment@),
{
    let ghost before = lint::labeled_views(out@);
    let label = phrase("bitbake -e ", chars_of(environment.target()).as_slice(), "");
    report_empty_variable(
        out,
        environment,
        label.as_slice(),
        RULE_MISSING_SUMMARY,
        "SUMMARY",
        "BitBake resolved SUMMARY to an empty value",
    );
    report_empty_variable(
        out,
        environment,
        label.as_slice(),
        RULE_MISSING_DESCRIPTION,
        "DESCRIPTION",
        "BitBake resolved DESCRIPTION to an empty value",
    );
    report_empty_variable(
        out,
        environment,
        label.as_slice(),
        RULE_MISSING_LICENSE,
        "LICENSE",
        "BitBake resolved LICENSE to an empty value",
    );
    report_revision(out, environment, label.as_slice());
    report_sources(out, environment, label.as_slice());
    report_license(out, environment, label.as_slice());
    assert(lint::labeled_views(out@) =~= before + environment_reports(environment@));
}

/// Converts an authoritative BitBake report into lint findings that can be
/// combined with source-local diagnostics by an external reporter.
///
/// The returned diagnostics respect disabled rules and severity overrides.
/// BitBake's own diagnostics use BBT019, while resolved-environment checks
/// reuse the corresponding recipe QA rule identifiers when there is no useful
/// source span in the expanded environment.
pub fn semantic_lint_diagnostics(
    report: &SemanticReport,
    options: &LintOptions,
) -> (r: Vec<ExternalLintDiagnostic>)
    requires
        options.wf(),
        report.wf(),
    ensures
        lint::labeled_views(r@) == lint::arranged_from(semantic_reports(report@), options@, 0),
{
    let mut out: Vec<ExternalLintDiagnostic> = Vec::new();
    assert(lint::labeled_views(out@) =~= Seq::empty());
    report_messages(&mut out, report.diagnostics());
    let ghost first = lint::labeled_views(out@);
    assert(first =~= message_reports(report@.diagnostics, 0));
    if !report.parse_succeeded() && !report.has_errors() {
        report_silent_failure(&mut out, "BitBake parse failed without a source diagnostic");
    }
    if report.parse_succeeded() && !report.target_queries_succeeded() && !report.has_errors() {
        report_silent_failure(&mut out, "BitBake target query failed without a source diagnostic");
    }
    assert(lint::labeled_views(out@) =~= first + silent_failures(report@));
    let environments = report.environments();
    let ghost all = semantic::environment_views(environments@);
    let ghost goal = lint::labeled_views(out@) + environments_reports(all, 0);
    let mut k: usize = 0;
    while k < environments.len()
        invariant
            k <= environments@.len(),
            semantic::environments_wf(environments@),
            all == semantic::environment_views(environments@),
            lint::labeled_views(out@) + environments_reports(all, k as int) == goal,
        decreases environments@.len() - k,
    {
        assert(all[k as int] == environments@[k as int]@);
        let ghost before = lint::labeled_views(out@);
        report_environment(&mut out, &environments[k]);
        proof {
            let f = environment_reports(all[k as int]);
            let rest = environments_reports(all, k + 1);
            assert(before + (f + rest) =~= (before + f) + rest);
        }
        k += 1;
    }
    assert(lint::labeled_views(out@) + Seq::<LabeledView>::empty() =~= lint::labeled_views(out@));
    arrange(out, options)
}

/// Reads the output of BitBake and turns what it resolved into lint findings.
///
/// Source-local rules still use [`lint_with_workspace`]; this function covers
/// BitBake diagnostics and checks that require resolved target environments.
pub fn lint_with_bitbake(
    semantic_options: &SemanticOptions,
    transcript: &BitBakeTranscript,
    lint_options: &LintOptions,
) -> (r: Result<(SemanticReport, Vec<ExternalLintDiagnostic>), SemanticError>)
    requires
        transcript.wf(),
        semantic::transcript_serves(transcript@, semantic_options@),
        lint_options.wf(),
    ensures
        match semantic::lacking_mode(semantic_options@) {
            Some(mode) => r matches Err(SemanticError::AnalysisTargetsRequired { mode: m }) && m@
                == mode,
            None => match output::reported_version(transcript@.version) {
                Some(version) => if transcript@.version.success {
                    r matches Ok((report, findings)) && report.wf() && report@ == semantic::report_of(
                        transcript@,
                        semantic_options@,
                        version,
                    ) && lint::labeled_views(findings@) == lint::arranged_from(
                        semantic_reports(report@),
                        lint_options@,
                        0,
                    )
                } else {
                    r matches Err(SemanticError::BitBakeVersion(output)) && output@ == output::combined(
                        transcript@.version,
                    )
                },
                None => r matches Err(SemanticError::BitBakeVersion(output)) && output@
                    == output::combined(transcript@.version),
            },
        },
{
    match analyze_bitbake(semantic_options, transcript) {
        Ok(report) => {
            let findings = semantic_lint_diagnostics(&report, lint_options);
            Ok((report, findings))
        },
        Err(error) => Err(error),
    }
}

} // verus!
