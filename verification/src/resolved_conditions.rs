//! When the checks on resolved environments report something: over the values
//! that BitBake resolved and the messages that it printed.
use crate::environment;
use crate::environment::EnvironmentView;
use crate::lint::LabeledView;
use crate::output::SemanticSeverity;
use crate::output::SemanticView;
use crate::recipes;
use crate::rules;
use crate::rules::LintSeverity;
use crate::rules::RULE_AUTOREV;
use crate::rules::RULE_BITBAKE_DIAGNOSTIC;
use crate::rules::RULE_COUNT;
use crate::rules::RULE_GIT_URI_PROTOCOL;
use crate::rules::RULE_LICENSE_CHECKSUM;
use crate::rules::RULE_MISSING_DESCRIPTION;
use crate::rules::RULE_MISSING_LICENSE;
use crate::rules::RULE_MISSING_SUMMARY;
use crate::rules::RULE_SOURCE_CHECKSUM;
use crate::rules::RULE_URI_PARAMETERS;
use crate::selection;
use crate::semantic::ReportView;
use crate::semantic_lint;
use crate::text;
use crate::text::CharClass;
use crate::values;
use vstd::prelude::*;

verus! {

/// No two rules have the same identifier.
pub proof fn law_rules_have_their_own_identifiers(a: nat, b: nat)
    requires
        a < RULE_COUNT,
        b < RULE_COUNT,
    ensures
        rules::rule_view(a).id == rules::rule_view(b).id <==> a == b,
{
    selection::lemma_rule_number(a);
    selection::lemma_rule_number(b);
}

/// Whether a rule is reported.
pub open spec fn tells(items: Seq<LabeledView>, rule: usize) -> bool {
    exists|i: int|
        0 <= i < items.len() && (#[trigger] items[i]).diagnostic.rule_id == rules::rule_view(
            rule as nat,
        ).id
}

proof fn lemma_tells_add(a: Seq<LabeledView>, b: Seq<LabeledView>, rule: usize)
    ensures
        tells(a + b, rule) <==> tells(a, rule) || tells(b, rule),
{
    let s = a + b;
    let id = rules::rule_view(rule as nat).id;
    if tells(a, rule) {
        let i = choose|i: int| 0 <= i < a.len() && (#[trigger] a[i]).diagnostic.rule_id == id;
        assert(s[i].diagnostic.rule_id == id);
    }
    if tells(b, rule) {
        let i = choose|i: int| 0 <= i < b.len() && (#[trigger] b[i]).diagnostic.rule_id == id;
        assert(s[a.len() + i].diagnostic.rule_id == id);
    }
    if tells(s, rule) {
        let i = choose|i: int| 0 <= i < s.len() && (#[trigger] s[i]).diagnostic.rule_id == id;
        if i < a.len() {
            assert(a[i].diagnostic.rule_id == id);
        } else {
            assert(b[i - a.len()].diagnostic.rule_id == id);
        }
    }
}

proof fn lemma_tells_one(label: Seq<char>, own: usize, message: Seq<char>, rule: usize)
    requires
        own < RULE_COUNT,
        rule < RULE_COUNT,
    ensures
        tells(seq![semantic_lint::rule_report(label, own as nat, message)], rule) <==> rule == own,
{
    law_rules_have_their_own_identifiers(own as nat, rule as nat);
    let s = seq![semantic_lint::rule_report(label, own as nat, message)];
    assert(s[0].diagnostic.rule_id == rules::rule_view(own as nat).id);
}

/// Whether a variable has no value, or one of blanks alone.
pub open spec fn lacks(e: EnvironmentView, variable: Seq<char>) -> bool {
    match environment::variable_of(e, variable) {
        Some(value) => forall|k: int|
            0 <= k < value.len() ==> text::in_class(CharClass::Whitespace, #[trigger] value[k]),
        None => true,
    }
}

proof fn lemma_lacks(e: EnvironmentView, variable: Seq<char>)
    ensures
        lacks(e, variable) <==> !semantic_lint::resolves(e, variable),
{
    match environment::variable_of(e, variable) {
        Some(value) => {
            let class = CharClass::Whitespace;
            let n = value.len() as int;
            text::lemma_lead(value, class, 0);
            let a = text::lead_from(value, class, 0);
            let rest = value.skip(a);
            text::lemma_tail(rest, class, rest.len() as int);
            let b = text::tail_from(rest, class, rest.len() as int);
            if lacks(e, variable) {
                if a < n {
                    assert(text::in_class(class, value[a]));
                }
                assert(text::trimmed(value, class).len() == 0);
            } else {
                assert(a < n);
                if b == 0 {
                    assert(rest[0] == value[a]);
                    assert(text::in_class(class, rest[0]));
                }
                assert(text::trimmed(value, class).len() == b);
            }
        },
        None => {},
    }
}

/// The words of a variable.
pub open spec fn resolved_words(e: EnvironmentView, variable: Seq<char>) -> Seq<Seq<char>> {
    match environment::variable_of(e, variable) {
        Some(value) => text::word_texts(value, CharClass::Whitespace),
        None => Seq::empty(),
    }
}

/// Whether a variable's value holds `part` at some place.
pub open spec fn value_holds(e: EnvironmentView, variable: Seq<char>, part: Seq<char>) -> bool {
    environment::variable_of(e, variable) matches Some(value) && exists|k: int|
        0 <= k <= value.len() - part.len() && #[trigger] value.subrange(k, k + part.len()) == part
}

proof fn lemma_find(t: Seq<char>, p: Seq<char>, i: int)
    requires
        0 <= i,
    ensures
        text::find_seq(t, p, i) >= 0 <==> exists|k: int|
            i <= k <= t.len() - p.len() && #[trigger] t.subrange(k, k + p.len()) == p,
    decreases t.len() + 1 - i,
{
    if i + p.len() <= t.len() && t.subrange(i, i + p.len()) != p {
        lemma_find(t, p, i + 1);
    }
}

proof fn lemma_parameter_reports(
    label: Seq<char>,
    target: Seq<char>,
    uri: Seq<char>,
    bad: Seq<int>,
    k: int,
    rule: usize,
)
    requires
        0 <= k <= bad.len(),
        rule < RULE_COUNT,
    ensures
        tells(semantic_lint::parameter_reports(label, target, uri, bad, k), rule) <==> k
            < bad.len() && rule == RULE_URI_PARAMETERS,
    decreases bad.len() - k,
{
    if k < bad.len() {
        lemma_parameter_reports(label, target, uri, bad, k + 1, rule);
        let message = "target '"@ + target + "' resolves SRC_URI entry '"@ + uri
            + "' with invalid or conflicting parameter '"@ + values::pieces(uri, ';')[bad[k]]
            + "'"@;
        lemma_tells_one(label, RULE_URI_PARAMETERS, message, rule);
        lemma_tells_add(
            seq![semantic_lint::rule_report(label, RULE_URI_PARAMETERS as nat, message)],
            semantic_lint::parameter_reports(label, target, uri, bad, k + 1),
            rule,
        );
    }
}

/// Whether a rule is broken by a source URI.
pub open spec fn uri_breaks(uri: Seq<char>, rule: usize) -> bool {
    ||| rule == RULE_GIT_URI_PROTOCOL && values::git_uri(uri) && !values::names_protocol(uri)
    ||| rule == RULE_SOURCE_CHECKSUM && recipes::unchecked_source(uri)
    ||| rule == RULE_URI_PARAMETERS && values::bad_parameters(uri).len() > 0
}

proof fn lemma_uri_reports(label: Seq<char>, target: Seq<char>, uri: Seq<char>, rule: usize)
    requires
        rule < RULE_COUNT,
    ensures
        tells(semantic_lint::uri_reports(label, target, uri), rule) <==> uri_breaks(uri, rule),
{
    let m1 = "target '"@ + target + "' resolves Git URI '"@ + uri
        + "' without a transport protocol"@;
    let m2 = "target '"@ + target + "' resolves remote source URI '"@ + uri
        + "' without a valid md5sum or sha256sum"@;
    let a = if values::git_uri(uri) && !values::names_protocol(uri) {
        seq![semantic_lint::rule_report(label, RULE_GIT_URI_PROTOCOL as nat, m1)]
    } else {
        Seq::empty()
    };
    let b = if recipes::unchecked_source(uri) {
        seq![semantic_lint::rule_report(label, RULE_SOURCE_CHECKSUM as nat, m2)]
    } else {
        Seq::empty()
    };
    let c = semantic_lint::parameter_reports(label, target, uri, values::bad_parameters(uri), 0);
    lemma_tells_one(label, RULE_GIT_URI_PROTOCOL, m1, rule);
    lemma_tells_one(label, RULE_SOURCE_CHECKSUM, m2, rule);
    lemma_parameter_reports(label, target, uri, values::bad_parameters(uri), 0, rule);
    lemma_tells_add(a, b, rule);
    lemma_tells_add(a + b, c, rule);
    assert(semantic_lint::uri_reports(label, target, uri) == a + b + c);
}

proof fn lemma_uris_reports(
    label: Seq<char>,
    target: Seq<char>,
    uris: Seq<Seq<char>>,
    k: int,
    rule: usize,
)
    requires
        0 <= k <= uris.len(),
        rule < RULE_COUNT,
    ensures
        tells(semantic_lint::uris_reports(label, target, uris, k), rule) <==> exists|i: int|
            k <= i < uris.len() && uri_breaks(#[trigger] uris[i], rule),
    decreases uris.len() - k,
{
    if k < uris.len() {
        lemma_uris_reports(label, target, uris, k + 1, rule);
        lemma_uri_reports(label, target, uris[k], rule);
        lemma_tells_add(
            semantic_lint::uri_reports(label, target, uris[k]),
            semantic_lint::uris_reports(label, target, uris, k + 1),
            rule,
        );
    }
}

/// Whether the license of a target needs a checksum that is not there: it is not
/// closed, and no file is named for it, or one without a checksum.
pub open spec fn license_unchecked(e: EnvironmentView) -> bool {
    let files = resolved_words(e, "LIC_FILES_CHKSUM"@);
    environment::variable_of(e, "LICENSE"@) matches Some(value) && !recipes::closed_license(value)
        && (!(exists|k: int| 0 <= k < files.len() && recipes::file_uri(#[trigger] files[k]))
        || exists|k: int| 0 <= k < files.len() && recipes::unchecked_license(#[trigger] files[k]))
}

proof fn lemma_license_reports(e: EnvironmentView, label: Seq<char>, rule: usize)
    requires
        rule < RULE_COUNT,
    ensures
        tells(semantic_lint::license_reports(e, label), rule) <==> rule == RULE_LICENSE_CHECKSUM
            && license_unchecked(e),
{
    let m1 = "target '"@ + e.target
        + "' has non-CLOSED LICENSE but no resolved LIC_FILES_CHKSUM file entry"@;
    let m2 = "target '"@ + e.target
        + "' resolves a license file without a valid md5 or sha256 checksum"@;
    lemma_tells_one(label, RULE_LICENSE_CHECKSUM, m1, rule);
    lemma_tells_one(label, RULE_LICENSE_CHECKSUM, m2, rule);
    assert(semantic_lint::license_uris(e) == resolved_words(e, "LIC_FILES_CHKSUM"@));
}

proof fn lemma_empty_variable(
    e: EnvironmentView,
    label: Seq<char>,
    own: usize,
    variable: Seq<char>,
    message: Seq<char>,
    rule: usize,
)
    requires
        own < RULE_COUNT,
        rule < RULE_COUNT,
    ensures
        tells(semantic_lint::empty_variable(e, label, own as nat, variable, message), rule) <==> rule
            == own && lacks(e, variable),
{
    lemma_lacks(e, variable);
    lemma_tells_one(
        label,
        own,
        "target '"@ + e.target + "' has no resolved "@ + variable + ": "@ + message,
        rule,
    );
}

proof fn lemma_revision_reports(e: EnvironmentView, label: Seq<char>, rule: usize)
    requires
        rule < RULE_COUNT,
    ensures
        tells(semantic_lint::revision_reports(e, label), rule) <==> rule == RULE_AUTOREV && (
        value_holds(e, "SRCREV"@, "${AUTOREV}"@) || value_holds(e, "SRCREV"@, "AUTOINC"@)
            || value_holds(e, "SRCPV"@, "AUTOINC"@)),
{
    lemma_tells_one(
        label,
        RULE_AUTOREV,
        "target '"@ + e.target
            + "' resolves SRCREV through AUTOREV; pin a source revision for reproducible builds"@,
        rule,
    );
    if let Some(value) = environment::variable_of(e, "SRCREV"@) {
        lemma_find(value, "${AUTOREV}"@, 0);
        lemma_find(value, "AUTOINC"@, 0);
    }
    if let Some(value) = environment::variable_of(e, "SRCPV"@) {
        lemma_find(value, "AUTOINC"@, 0);
    }
}

/// Whether a resolved environment breaks a rule: `SUMMARY`, `DESCRIPTION` or
/// `LICENSE` has no value; the source revision is not fixed; a source URI breaks it; or
/// the license needs a checksum that is not there.
pub open spec fn environment_breaks(e: EnvironmentView, rule: usize) -> bool {
    let uris = resolved_words(e, "SRC_URI"@);
    ||| rule == RULE_MISSING_SUMMARY && lacks(e, "SUMMARY"@)
    ||| rule == RULE_MISSING_DESCRIPTION && lacks(e, "DESCRIPTION"@)
    ||| rule == RULE_MISSING_LICENSE && lacks(e, "LICENSE"@)
    ||| rule == RULE_AUTOREV && (value_holds(e, "SRCREV"@, "${AUTOREV}"@) || value_holds(
        e,
        "SRCREV"@,
        "AUTOINC"@,
    ) || value_holds(e, "SRCPV"@, "AUTOINC"@))
    ||| exists|i: int| 0 <= i < uris.len() && uri_breaks(#[trigger] uris[i], rule)
    ||| rule == RULE_LICENSE_CHECKSUM && license_unchecked(e)
}

/// A rule is reported of a resolved environment exactly where the environment
/// breaks it.
pub proof fn law_resolved_rules(e: EnvironmentView, rule: usize)
    requires
        rule < RULE_COUNT,
    ensures
        tells(semantic_lint::environment_reports(e), rule) <==> environment_breaks(e, rule),
{
    let label = semantic_lint::environment_label(e.target);
    let a = semantic_lint::empty_variable(
        e,
        label,
        RULE_MISSING_SUMMARY as nat,
        "SUMMARY"@,
        "BitBake resolved SUMMARY to an empty value"@,
    );
    let b = semantic_lint::empty_variable(
        e,
        label,
        RULE_MISSING_DESCRIPTION as nat,
        "DESCRIPTION"@,
        "BitBake resolved DESCRIPTION to an empty value"@,
    );
    let c = semantic_lint::empty_variable(
        e,
        label,
        RULE_MISSING_LICENSE as nat,
        "LICENSE"@,
        "BitBake resolved LICENSE to an empty value"@,
    );
    let d = semantic_lint::revision_reports(e, label);
    let s = semantic_lint::source_reports(e, label);
    let l = semantic_lint::license_reports(e, label);
    lemma_empty_variable(
        e,
        label,
        RULE_MISSING_SUMMARY,
        "SUMMARY"@,
        "BitBake resolved SUMMARY to an empty value"@,
        rule,
    );
    lemma_empty_variable(
        e,
        label,
        RULE_MISSING_DESCRIPTION,
        "DESCRIPTION"@,
        "BitBake resolved DESCRIPTION to an empty value"@,
        rule,
    );
    lemma_empty_variable(
        e,
        label,
        RULE_MISSING_LICENSE,
        "LICENSE"@,
        "BitBake resolved LICENSE to an empty value"@,
        rule,
    );
    lemma_revision_reports(e, label, rule);
    lemma_license_reports(e, label, rule);
    lemma_uris_reports(label, e.target, resolved_words(e, "SRC_URI"@), 0, rule);
    lemma_tells_add(a, b, rule);
    lemma_tells_add(a + b, c, rule);
    lemma_tells_add(a + b + c, d, rule);
    lemma_tells_add(a + b + c + d, s, rule);
    lemma_tells_add(a + b + c + d + s, l, rule);
}

/// Whether `x` reports the message `d`: at its place, under its severity, a note
/// and a debug message as information.
pub open spec fn reports_message(x: LabeledView, d: SemanticView) -> bool {
    &&& d.path matches Some(path) ==> x.label == path
    &&& d.path is None ==> x.label == "bitbake"@
    &&& x.diagnostic.rule_id == rules::rule_view(RULE_BITBAKE_DIAGNOSTIC as nat).id
    &&& x.diagnostic.severity == LintSeverity::Error <==> d.severity == SemanticSeverity::Error
    &&& x.diagnostic.severity == LintSeverity::Warning <==> d.severity == SemanticSeverity::Warning
    &&& d.line matches Some(line) ==> line > 0 ==> x.diagnostic.line == line
    &&& d.column matches Some(column) ==> column > 0 ==> x.diagnostic.column == column
    &&& d.line is None ==> x.diagnostic.line == 1
    &&& d.column is None ==> x.diagnostic.column == 1
    &&& x.diagnostic.message == "BitBake: "@ + d.message
}

proof fn lemma_messages(items: Seq<SemanticView>, k: int)
    requires
        0 <= k <= items.len(),
    ensures
        semantic_lint::message_reports(items, k).len() == items.len() - k,
        forall|i: int|
            k <= i < items.len() ==> semantic_lint::message_reports(items, k)[i - k]
                == semantic_lint::message_report(#[trigger] items[i]),
    decreases items.len() - k,
{
    if k < items.len() {
        lemma_messages(items, k + 1);
        let rest = semantic_lint::message_reports(items, k + 1);
        let all = semantic_lint::message_reports(items, k);
        assert forall|i: int| k <= i < items.len() implies all[i - k]
            == semantic_lint::message_report(#[trigger] items[i]) by {
            if i > k {
                assert(all[i - k] == rest[i - (k + 1)]);
            }
        }
    }
}

/// Every message of BitBake is reported, in order; and where the parser check or
/// a target's query failed and no message is an error, one error says so.
pub proof fn law_messages_are_reported(r: ReportView, i: int)
    ensures
        0 <= i < r.diagnostics.len() ==> semantic_lint::semantic_reports(r).len() > i
            && reports_message(semantic_lint::semantic_reports(r)[i], r.diagnostics[i]),
        ({
            let errors = exists|k: int|
                0 <= k < r.diagnostics.len() && (#[trigger] r.diagnostics[k]).severity
                    == SemanticSeverity::Error;
            let failed = !r.parse_succeeded || !r.target_queries_succeeded;
            &&& semantic_lint::silent_failures(r).len() == if failed && !errors {
                1int
            } else {
                0
            }
            &&& failed && !errors ==> semantic_lint::silent_failures(
                r,
            )[0].diagnostic.severity == LintSeverity::Error
                && semantic_lint::semantic_reports(r)[r.diagnostics.len() as int]
                == semantic_lint::silent_failures(r)[0]
        }),
{
    lemma_messages(r.diagnostics, 0);
    let all = semantic_lint::semantic_reports(r);
    let messages = semantic_lint::message_reports(r.diagnostics, 0);
    if 0 <= i < r.diagnostics.len() {
        assert(messages[i - 0] == semantic_lint::message_report(r.diagnostics[i]));
        assert(all[i] == messages[i]);
        reveal_strlit("");
        let d = r.diagnostics[i];
        assert("BitBake: "@ + d.message + ""@ =~= "BitBake: "@ + d.message);
    }
}

} // verus!
