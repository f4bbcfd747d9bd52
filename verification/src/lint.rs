//! Linting of metadata files.
use crate::checks;
use crate::collections;
use crate::findings;
use crate::layer_rules;
use crate::numbers;
use crate::orders;
use crate::paths;
use crate::recipes;
use crate::references;
use crate::rules;
use crate::statements;
use crate::syntax;
use crate::text;
use crate::workspace;
use crate::checks::BodyDiagnostic;
use crate::checks::collect_findings;
use crate::checks::long_phrase;
use crate::collections::is_str_less;
use crate::dependencies::IndexView;
use crate::dependencies::WorkspaceIndex;
use crate::findings::DiagnosticView;
use crate::findings::FindingView;
use crate::findings::FixView;
use crate::findings::LintDiagnostic;
use crate::findings::diagnose;
use crate::layer_rules::check_layer_qa;
use crate::numbers::decimal_chars;
use crate::orders::TextOrder;
use crate::paths::has_extension;
use crate::paths::is_layer_configuration;
use crate::recipes::check_recipe_metadata;
use crate::recipes::check_recipe_qa;
use crate::references::PlaceView;
use crate::references::check_workspace_references;
use crate::rules::LintFailurePolicy;
use crate::rules::LintOptions;
use crate::rules::OptionsView;
use crate::statements::statements;
use crate::text::append_chars;
use crate::text::append_str;
use crate::text::byte_length;
use crate::text::char_index;
use crate::text::chars_of;
use crate::text::same_str;
use crate::text::string_of;
use crate::tree::FormatError;
use crate::tree::SyntaxTree;
use crate::tree::TextRange;
use crate::tree::parse;
use vstd::prelude::*;
use vstd::slice::slice_subrange;

verus! {

// ---------------------------------------------------------------------------
// Order
// ---------------------------------------------------------------------------
/// A lint diagnostic with the name of what it is about, such as a file, a
/// BitBake diagnostic or a fully expanded target environment.
#[derive(Clone, Debug, Eq, PartialEq)]
pub struct ExternalLintDiagnostic {
    pub label: String,
    pub diagnostic: LintDiagnostic,
}

#[verifier::ext_equal]
pub struct LabeledView {
    pub label: Seq<char>,
    pub diagnostic: DiagnosticView,
}

impl ExternalLintDiagnostic {
    pub open spec fn view(&self) -> LabeledView {
        LabeledView { label: self.label@, diagnostic: self.diagnostic@ }
    }
}

/// The contents of a list of labeled diagnostics.
pub open spec fn labeled_views(items: Seq<ExternalLintDiagnostic>) -> Seq<LabeledView> {
    items.map_values(|d: ExternalLintDiagnostic| d@)
}

/// The order of diagnostics: by label, line, column and rule.
pub open spec fn reported_before(a: LabeledView, b: LabeledView) -> bool {
    if a.label != b.label {
        collections::text_less(a.label, b.label)
    } else if a.diagnostic.line != b.diagnostic.line {
        a.diagnostic.line < b.diagnostic.line
    } else if a.diagnostic.column != b.diagnostic.column {
        a.diagnostic.column < b.diagnostic.column
    } else {
        collections::text_less(a.diagnostic.rule_id, b.diagnostic.rule_id)
    }
}

/// The first position from `k` whose diagnostic does not come before `x`.
pub open spec fn report_place(items: Seq<LabeledView>, x: LabeledView, k: int) -> int
    decreases items.len() - k,
{
    if k < 0 || k >= items.len() {
        items.len() as int
    } else if reported_before(items[k], x) {
        report_place(items, x, k + 1)
    } else {
        k
    }
}

/// Ordered diagnostics with one more, before those that are ordered like it.
pub open spec fn with_report(items: Seq<LabeledView>, x: LabeledView) -> Seq<LabeledView> {
    items.insert(report_place(items, x, 0), x)
}

/// A diagnostic at the severity that `options` gives its rule.
pub open spec fn adjusted_view(options: OptionsView, x: LabeledView) -> LabeledView {
    LabeledView {
        label: x.label,
        diagnostic: DiagnosticView {
            severity: rules::effective(options, x.diagnostic.rule_id, x.diagnostic.severity),
            ..x.diagnostic
        },
    }
}

/// Those of `items[k..]` whose rules `options` reports, at their severities.
pub open spec fn selected_from(items: Seq<LabeledView>, options: OptionsView, k: int) -> Seq<
    LabeledView,
>
    decreases items.len() - k,
{
    if k < 0 || k >= items.len() {
        Seq::empty()
    } else if options.disabled.contains(items[k].diagnostic.rule_id) {
        selected_from(items, options, k + 1)
    } else {
        seq![adjusted_view(options, items[k])] + selected_from(items, options, k + 1)
    }
}

/// Those of `items[k..]` whose rules `options` reports, in order.
pub open spec fn arranged_from(items: Seq<LabeledView>, options: OptionsView, k: int) -> Seq<
    LabeledView,
>
    decreases items.len() - k,
{
    if k < 0 || k >= items.len() {
        Seq::empty()
    } else if options.disabled.contains(items[k].diagnostic.rule_id) {
        arranged_from(items, options, k + 1)
    } else {
        with_report(arranged_from(items, options, k + 1), adjusted_view(options, items[k]))
    }
}

/// The diagnostics are in order.
pub open spec fn in_order(items: Seq<LabeledView>) -> bool {
    forall|i: int, j: int|
        0 <= i < j < items.len() ==> !reported_before(#[trigger] items[j], #[trigger] items[i])
}

/// What does not come before one that does not come before a third does not
/// come before the third.
pub proof fn lemma_reported_transitive(a: LabeledView, b: LabeledView, c: LabeledView)
    requires
        !reported_before(b, a),
        !reported_before(c, b),
    ensures
        !reported_before(c, a),
{
    if reported_before(c, a) {
        collections::lemma_text_less_total(a.label, b.label);
        collections::lemma_text_less_total(b.label, c.label);
        collections::lemma_text_less_irreflexive(a.label);
        collections::lemma_text_less_irreflexive(c.label);
        if a.label != b.label && b.label != c.label {
            collections::lemma_text_less_transitive(a.label, b.label, c.label);
            if c.label != a.label {
                collections::lemma_text_less_transitive(c.label, a.label, c.label);
            }
        }
        if a.label != b.label && b.label == c.label {
            collections::lemma_text_less_transitive(c.label, a.label, b.label);
        }
        if a.label == b.label && b.label != c.label {
            collections::lemma_text_less_transitive(c.label, a.label, c.label);
        }
        let (x, y, z) = (a.diagnostic.rule_id, b.diagnostic.rule_id, c.diagnostic.rule_id);
        collections::lemma_text_less_total(x, y);
        collections::lemma_text_less_total(y, z);
        collections::lemma_text_less_irreflexive(x);
        collections::lemma_text_less_irreflexive(z);
        if collections::text_less(z, x) {
            if collections::text_less(x, y) {
                collections::lemma_text_less_transitive(z, x, y);
            }
        }
    }
}

proof fn lemma_reported_asymmetric(a: LabeledView, b: LabeledView)
    requires
        reported_before(a, b),
    ensures
        !reported_before(b, a),
{
    collections::lemma_text_less_irreflexive(a.label);
    collections::lemma_text_less_irreflexive(a.diagnostic.rule_id);
    if collections::text_less(a.label, b.label) && collections::text_less(b.label, a.label) {
        collections::lemma_text_less_transitive(a.label, b.label, a.label);
    }
    if collections::text_less(a.diagnostic.rule_id, b.diagnostic.rule_id) && collections::text_less(
        b.diagnostic.rule_id,
        a.diagnostic.rule_id,
    ) {
        collections::lemma_text_less_transitive(
            a.diagnostic.rule_id,
            b.diagnostic.rule_id,
            a.diagnostic.rule_id,
        );
    }
}

pub proof fn lemma_report_place(items: Seq<LabeledView>, x: LabeledView, k: int)
    requires
        0 <= k <= items.len(),
    ensures
        k <= report_place(items, x, k) <= items.len(),
        forall|i: int| k <= i < report_place(items, x, k) ==> reported_before(#[trigger] items[i], x),
        report_place(items, x, k) < items.len() ==> !reported_before(
            items[report_place(items, x, k)],
            x,
        ),
    decreases items.len() - k,
{
    if k < items.len() && reported_before(items[k], x) {
        lemma_report_place(items, x, k + 1);
    }
}

proof fn lemma_with_report(items: Seq<LabeledView>, x: LabeledView)
    requires
        in_order(items),
    ensures
        in_order(with_report(items, x)),
{
    let p = report_place(items, x, 0);
    lemma_report_place(items, x, 0);
    let out = with_report(items, x);
    assert forall|i: int, j: int| 0 <= i < j < out.len() implies !reported_before(
        #[trigger] out[j],
        #[trigger] out[i],
    ) by {
        if j < p {
            assert(out[i] == items[i] && out[j] == items[j]);
        } else if j == p {
            assert(out[i] == items[i]);
            lemma_reported_asymmetric(items[i], x);
        } else if i < p {
            assert(out[i] == items[i] && out[j] == items[j - 1]);
        } else if i == p {
            assert(out[j] == items[j - 1]);
            if j - 1 > p {
                lemma_reported_transitive(x, items[p], items[j - 1]);
            }
        } else {
            assert(out[i] == items[i - 1] && out[j] == items[j - 1]);
        }
    }
}

proof fn lemma_insert_multiset(s: Seq<LabeledView>, i: int, x: LabeledView)
    requires
        0 <= i <= s.len(),
    ensures
        s.insert(i, x).to_multiset() == s.to_multiset().insert(x),
{
    let t = s.insert(i, x);
    vstd::seq_lib::to_multiset_remove(t, i);
    assert(t.remove(i) =~= s);
    assert(t[i] == x);
    vstd::seq_lib::to_multiset_contains(t, x);
    assert(t.contains(x));
    assert(t.to_multiset() =~= s.to_multiset().insert(x));
}

/// The diagnostics that are reported are exactly those of the enabled rules,
/// each as often as it was found, and they come in order of label, line,
/// column and rule.
pub proof fn law_reports_are_complete_and_ordered(
    items: Seq<LabeledView>,
    options: OptionsView,
    k: int,
)
    requires
        0 <= k <= items.len(),
    ensures
        in_order(arranged_from(items, options, k)),
        arranged_from(items, options, k).to_multiset() == selected_from(
            items,
            options,
            k,
        ).to_multiset(),
    decreases items.len() - k,
{
    if k < items.len() {
        law_reports_are_complete_and_ordered(items, options, k + 1);
        if !options.disabled.contains(items[k].diagnostic.rule_id) {
            let rest = arranged_from(items, options, k + 1);
            let x = adjusted_view(options, items[k]);
            lemma_with_report(rest, x);
            lemma_report_place(rest, x, 0);
            lemma_insert_multiset(rest, report_place(rest, x, 0), x);
            let tail = selected_from(items, options, k + 1);
            assert(seq![x] + tail =~= tail.insert(0, x));
            lemma_insert_multiset(tail, 0, x);
        }
    }
}

/// A rule that is disabled is not reported.
pub proof fn law_disabled_rules_are_absent(
    items: Seq<LabeledView>,
    options: OptionsView,
    k: int,
    j: int,
)
    requires
        0 <= k <= items.len(),
        0 <= j < arranged_from(items, options, k).len(),
    ensures
        !options.disabled.contains(arranged_from(items, options, k)[j].diagnostic.rule_id),
    decreases items.len() - k,
{
    if k < items.len() {
        let rest = arranged_from(items, options, k + 1);
        if options.disabled.contains(items[k].diagnostic.rule_id) {
            law_disabled_rules_are_absent(items, options, k + 1, j);
        } else {
            let x = adjusted_view(options, items[k]);
            let p = report_place(rest, x, 0);
            lemma_report_place(rest, x, 0);
            if j < p {
                law_disabled_rules_are_absent(items, options, k + 1, j);
            } else if j > p {
                law_disabled_rules_are_absent(items, options, k + 1, j - 1);
            }
        }
    }
}

fn is_reported_before(a: &ExternalLintDiagnostic, b: &ExternalLintDiagnostic) -> (r: bool)
    ensures
        r == reported_before(a@, b@),
{
    if !same_str(a.label.as_str(), b.label.as_str()) {
        is_str_less(a.label.as_str(), b.label.as_str())
    } else if a.diagnostic.line() != b.diagnostic.line() {
        a.diagnostic.line() < b.diagnostic.line()
    } else if a.diagnostic.column() != b.diagnostic.column() {
        a.diagnostic.column() < b.diagnostic.column()
    } else {
        is_str_less(a.diagnostic.rule_id(), b.diagnostic.rule_id())
    }
}

fn insert_report(items: &mut Vec<ExternalLintDiagnostic>, x: ExternalLintDiagnostic)
    ensures
        labeled_views(final(items)@) == with_report(labeled_views(old(items)@), x@),
{
    let ghost all = labeled_views(items@);
    let ghost view = x@;
    let mut k: usize = 0;
    while k < items.len() && is_reported_before(&items[k], &x)
        invariant
            k <= items@.len(),
            all == labeled_views(items@),
            x@ == view,
            report_place(all, view, 0) == report_place(all, view, k as int),
        decreases items@.len() - k,
    {
        assert(all[k as int] == items@[k as int]@);
        k += 1;
    }
    if k < items.len() {
        assert(all[k as int] == items@[k as int]@);
    }
    items.insert(k, x);
    assert(labeled_views(items@) =~= all.insert(k as int, view));
}

/// The diagnostics of the rules that `options` reports, at their severities
/// and in order of label, line, column and rule.
pub fn arrange(items: Vec<ExternalLintDiagnostic>, options: &LintOptions) -> (r: Vec<
    ExternalLintDiagnostic,
>)
    requires
        options.wf(),
    ensures
        labeled_views(r@) == arranged_from(labeled_views(items@), options@, 0),
{
    let ghost all = labeled_views(items@);
    let mut items = items;
    let mut out: Vec<ExternalLintDiagnostic> = Vec::new();
    assert(labeled_views(out@) =~= Seq::empty());
    assert(items@.take(items@.len() as int) =~= items@);
    while items.len() > 0
        invariant
            options.wf(),
            items@.len() <= all.len(),
            labeled_views(items@) == all.take(items@.len() as int),
            labeled_views(out@) == arranged_from(all, options@, items@.len() as int),
        decreases items@.len(),
    {
        let ghost before = items@;
        if let Some(x) = items.pop() {
            let ghost k = items@.len() as int;
            assert(labeled_views(before)[k] == x@);
            assert(all[k] == x@);
            assert(labeled_views(items@) =~= all.take(k));
            if options.is_enabled(x.diagnostic.rule_id()) {
                let adjusted = ExternalLintDiagnostic {
                    label: x.label,
                    diagnostic: x.diagnostic.adjusted(options),
                };
                insert_report(&mut out, adjusted);
            }
        }
    }
    out
}

/// Diagnostics with an empty label.
pub open spec fn unlabeled(items: Seq<DiagnosticView>) -> Seq<LabeledView> {
    items.map_values(|d: DiagnosticView| LabeledView { label: Seq::empty(), diagnostic: d })
}

/// Labeled diagnostics without their labels.
pub open spec fn without_labels(items: Seq<LabeledView>) -> Seq<DiagnosticView> {
    items.map_values(|d: LabeledView| d.diagnostic)
}

/// The diagnostics that a lint run with `options` reports of one file.
pub open spec fn final_diagnostics(items: Seq<DiagnosticView>, options: OptionsView) -> Seq<
    DiagnosticView,
> {
    without_labels(arranged_from(unlabeled(items), options, 0))
}

/// The diagnostics that a lint run with `options` reports of one file.
fn finalize_diagnostics(items: Vec<LintDiagnostic>, options: &LintOptions) -> (r: Vec<
    LintDiagnostic,
>)
    requires
        options.wf(),
    ensures
        findings::diagnostic_views(r@) == final_diagnostics(findings::diagnostic_views(items@), options@),
{
    let ghost all = findings::diagnostic_views(items@);
    let mut items = items;
    let mut labeled: Vec<ExternalLintDiagnostic> = Vec::new();
    assert(items@.take(items@.len() as int) =~= items@);
    // The list is turned round, and turned back below.
    while items.len() > 0
        invariant
            items@.len() + labeled@.len() == all.len(),
            findings::diagnostic_views(items@) == all.take(items@.len() as int),
            forall|j: int|
                0 <= j < labeled@.len() ==> (#[trigger] labeled@[j])@ == unlabeled(all)[all.len()
                    - 1 - j],
        decreases items@.len(),
    {
        let ghost before = items@;
        if let Some(x) = items.pop() {
            let ghost k = items@.len() as int;
            assert(findings::diagnostic_views(before)[k] == x@);
            assert(findings::diagnostic_views(items@) =~= all.take(k));
            let label = String::new();
            assert(label@ =~= Seq::empty());
            labeled.push(ExternalLintDiagnostic { label, diagnostic: x });
        }
    }
    let mut forward: Vec<ExternalLintDiagnostic> = Vec::new();
    while labeled.len() > 0
        invariant
            labeled@.len() + forward@.len() == all.len(),
            forall|j: int|
                0 <= j < labeled@.len() ==> (#[trigger] labeled@[j])@ == unlabeled(all)[all.len()
                    - 1 - j],
            forall|j: int| 0 <= j < forward@.len() ==> (#[trigger] forward@[j])@ == unlabeled(all)[j],
        decreases labeled@.len(),
    {
        if let Some(x) = labeled.pop() {
            forward.push(x);
        }
    }
    assert(labeled_views(forward@) =~= unlabeled(all));
    let mut arranged = arrange(forward, options);
    let ghost sorted = labeled_views(arranged@);
    let mut back: Vec<LintDiagnostic> = Vec::new();
    while arranged.len() > 0
        invariant
            arranged@.len() + back@.len() == sorted.len(),
            forall|j: int| 0 <= j < arranged@.len() ==> (#[trigger] arranged@[j])@ == sorted[j],
            forall|j: int|
                0 <= j < back@.len() ==> (#[trigger] back@[j])@ == sorted[sorted.len() - 1
                    - j].diagnostic,
        decreases arranged@.len(),
    {
        if let Some(x) = arranged.pop() {
            back.push(x.diagnostic);
        }
    }
    let mut out: Vec<LintDiagnostic> = Vec::new();
    while back.len() > 0
        invariant
            back@.len() + out@.len() == sorted.len(),
            forall|j: int|
                0 <= j < back@.len() ==> (#[trigger] back@[j])@ == sorted[sorted.len() - 1
                    - j].diagnostic,
            forall|j: int| 0 <= j < out@.len() ==> (#[trigger] out@[j])@ == sorted[j].diagnostic,
        decreases back@.len(),
    {
        if let Some(x) = back.pop() {
            out.push(x);
        }
    }
    assert(findings::diagnostic_views(out@) =~= final_diagnostics(all, options@));
    out
}

/// Whether one of the diagnostics fails a run under the policy of `options`.
pub open spec fn any_blocks(items: Seq<DiagnosticView>, policy: LintFailurePolicy) -> bool {
    exists|k: int| 0 <= k < items.len() && rules::blocks(policy, (#[trigger] items[k]).severity)
}

impl LintOptions {
    /// Whether one of the diagnostics fails a run.
    pub fn has_blocking_findings(&self, diagnostics: &[LintDiagnostic]) -> (r: bool)
        ensures
            r == any_blocks(findings::diagnostic_views(diagnostics@), self@.policy),
    {
        let ghost all = findings::diagnostic_views(diagnostics@);
        let mut k: usize = 0;
        while k < diagnostics.len()
            invariant
                k <= diagnostics@.len(),
                all == findings::diagnostic_views(diagnostics@),
                forall|j: int| 0 <= j < k ==> !rules::blocks(self@.policy, (#[trigger] all[j]).severity),
            decreases diagnostics@.len() - k,
        {
            assert(all[k as int] == diagnostics@[k as int]@);
            if self.fail_on().is_blocking(diagnostics[k].severity()) {
                assert(rules::blocks(self@.policy, all[k as int].severity));
                return true;
            }
            k += 1;
        }
        false
    }
}

// ---------------------------------------------------------------------------
// One file
// ---------------------------------------------------------------------------
/// The diagnostics of the text of one file, whose bodies have the diagnostics
/// `bodies`.
pub open spec fn file_diagnostics(
    source: Seq<char>,
    bodies: Seq<Vec<BodyDiagnostic>>,
    options: OptionsView,
) -> Seq<DiagnosticView> {
    final_diagnostics(findings::all_diagnosed(source, checks::file_findings(source, bodies)), options)
}

/// The findings on the file at `path` of a workspace, whose bodies have the
/// diagnostics `bodies`.
pub open spec fn workspace_findings(
    source: Seq<char>,
    bodies: Seq<Vec<BodyDiagnostic>>,
    path: Seq<char>,
    index: IndexView,
) -> Seq<FindingView> {
    checks::file_findings(source, bodies) + recipes::recipe_findings(source, path) + if workspace::complete_at(
        index.core,
        workspace::canonical(index.core.table, path),
    ) {
        (if paths::extension(path) == Some("bb"@) {
            recipes::metadata_findings(source)
        } else {
            Seq::empty()
        }) + references::references_from(PlaceView { index, source, path }, statements::statements_of(source), 0) + (
        if paths::layer_configuration(path) {
            layer_rules::layer_findings(
                source,
                orders::sorted_distinct(TextOrder::Plain, workspace::collections_from(index.core.layers, 0)),
            )
        } else {
            Seq::empty()
        })
    } else {
        Seq::empty()
    }
}

/// The diagnostics of the file at `path` of a workspace, whose bodies have the
/// diagnostics `bodies`.
pub open spec fn workspace_diagnostics(
    source: Seq<char>,
    bodies: Seq<Vec<BodyDiagnostic>>,
    path: Seq<char>,
    index: IndexView,
    options: OptionsView,
) -> Seq<DiagnosticView> {
    final_diagnostics(findings::all_diagnosed(source, workspace_findings(source, bodies, path, index)), options)
}

/// Checks BitBake metadata with the default lint rules.
///
/// Diagnostics are returned in source order. Structurally incomplete input
/// returns the same [`FormatError`] used by the formatter instead of producing
/// potentially misleading findings.
///
/// The rules `BBT034` to `BBT036` are about function bodies, which this library
/// does not analyse: they report what the caller hands to
/// [`lint_syntax_with_bodies`] or [`lint_syntax_with_workspace_and_bodies`], and
/// nothing elsewhere.
pub fn lint(text: &str) -> (r: Result<Vec<LintDiagnostic>, FormatError>)
    requires
        text::byte_len(text@) < usize::MAX,
    ensures
        match syntax::nodes_of(text@) {
            Ok(_) => r matches Ok(found) && findings::diagnostic_views(found@) == file_diagnostics(
                text@,
                Seq::empty(),
                rules::default_options(),
            ),
            Err((i, fault)) => r matches Err(error) && error.reports(text@, i, fault),
        },
{
    match parse(text) {
        Ok(tree) => Ok(lint_syntax(&tree)),
        Err(error) => Err(error),
    }
}

/// Checks source with caller-provided rule selection and severity settings.
pub fn lint_with_options(text: &str, options: &LintOptions) -> (r: Result<
    Vec<LintDiagnostic>,
    FormatError,
>)
    requires
        text::byte_len(text@) < usize::MAX,
        options.wf(),
    ensures
        match syntax::nodes_of(text@) {
            Ok(_) => r matches Ok(found) && findings::diagnostic_views(found@) == file_diagnostics(
                text@,
                Seq::empty(),
                options@,
            ),
            Err((i, fault)) => r matches Err(error) && error.reports(text@, i, fault),
        },
{
    match parse(text) {
        Ok(tree) => Ok(lint_syntax_with_options(&tree, options)),
        Err(error) => Err(error),
    }
}

/// Checks source with caller-provided rule settings and an indexed workspace.
///
/// Workspace-aware rules are enabled only when `path` belongs to a complete
/// indexed layer. Dynamic references and incomplete single-file contexts are
/// intentionally ignored to avoid pretending to evaluate BitBake metadata.
pub fn lint_with_workspace(
    text: &str,
    path: &str,
    workspace: &WorkspaceIndex,
    options: &LintOptions,
) -> (r: Result<Vec<LintDiagnostic>, FormatError>)
    requires
        text::byte_len(text@) < usize::MAX,
        workspace.wf(),
        options.wf(),
    ensures
        match syntax::nodes_of(text@) {
            Ok(_) => r matches Ok(found) && findings::diagnostic_views(found@) == workspace_diagnostics(
                text@,
                Seq::empty(),
                path@,
                workspace@,
                options@,
            ),
            Err((i, fault)) => r matches Err(error) && error.reports(text@, i, fault),
        },
{
    match parse(text) {
        Ok(tree) => Ok(lint_syntax_with_workspace(&tree, path, workspace, options)),
        Err(error) => Err(error),
    }
}

/// Checks a previously parsed syntax tree without reparsing its source.
pub fn lint_syntax(tree: &SyntaxTree) -> (r: Vec<LintDiagnostic>)
    requires
        tree.wf(),
    ensures
        findings::diagnostic_views(r@) == file_diagnostics(
            tree.text(),
            Seq::empty(),
            rules::default_options(),
        ),
{
    lint_syntax_with_options(tree, &LintOptions::default())
}

/// Checks a previously parsed syntax tree with caller-provided options.
pub fn lint_syntax_with_options(tree: &SyntaxTree, options: &LintOptions) -> (r: Vec<
    LintDiagnostic,
>)
    requires
        tree.wf(),
        options.wf(),
    ensures
        findings::diagnostic_views(r@) == file_diagnostics(tree.text(), Seq::empty(), options@),
{
    let bodies: Vec<Vec<BodyDiagnostic>> = Vec::new();
    assert(bodies@ =~= Seq::empty());
    lint_syntax_with_bodies(tree, &bodies, options)
}

/// Checks a previously parsed syntax tree, and reports what an analysis found
/// in its function bodies: `bodies[k]` is about the body of node `k`.
pub fn lint_syntax_with_bodies(
    tree: &SyntaxTree,
    bodies: &Vec<Vec<BodyDiagnostic>>,
    options: &LintOptions,
) -> (r: Vec<LintDiagnostic>)
    requires
        tree.wf(),
        options.wf(),
    ensures
        findings::diagnostic_views(r@) == file_diagnostics(tree.text(), bodies@, options@),
{
    let chars = chars_of(tree.source());
    let statements = statements(tree);
    let report = collect_findings(chars.as_slice(), &statements, bodies);
    finalize_diagnostics(diagnose(tree.source(), report), options)
}

/// Checks a previously parsed syntax tree with an indexed workspace. The rules on
/// function bodies report nothing here: what an analysis found in them goes to
/// [`lint_syntax_with_workspace_and_bodies`].
pub fn lint_syntax_with_workspace(
    tree: &SyntaxTree,
    path: &str,
    workspace: &WorkspaceIndex,
    options: &LintOptions,
) -> (r: Vec<LintDiagnostic>)
    requires
        tree.wf(),
        workspace.wf(),
        options.wf(),
    ensures
        findings::diagnostic_views(r@) == workspace_diagnostics(
            tree.text(),
            Seq::empty(),
            path@,
            workspace@,
            options@,
        ),
{
    let bodies: Vec<Vec<BodyDiagnostic>> = Vec::new();
    assert(bodies@ =~= Seq::empty());
    lint_syntax_with_workspace_and_bodies(tree, &bodies, path, workspace, options)
}

/// Checks a previously parsed syntax tree with an indexed workspace, and reports
/// what an analysis found in its function bodies: `bodies[k]` is about the body
/// of node `k`.
pub fn lint_syntax_with_workspace_and_bodies(
    tree: &SyntaxTree,
    bodies: &Vec<Vec<BodyDiagnostic>>,
    path: &str,
    workspace: &WorkspaceIndex,
    options: &LintOptions,
) -> (r: Vec<LintDiagnostic>)
    requires
        tree.wf(),
        workspace.wf(),
        options.wf(),
    ensures
        findings::diagnostic_views(r@) == workspace_diagnostics(
            tree.text(),
            bodies@,
            path@,
            workspace@,
            options@,
        ),
{
    let chars = chars_of(tree.source());
    let ghost source = chars@;
    let statements = statements(tree);
    let mut report = collect_findings(chars.as_slice(), &statements, bodies);
    let size = chars.len();
    check_recipe_qa(&statements, path, &mut report, Ghost(source));
    if workspace.is_complete_for(path) {
        if has_extension(path, "bb") {
            check_recipe_metadata(&statements, &mut report, size, Ghost(source));
        }
        check_workspace_references(workspace, chars.as_slice(), path, &statements, &mut report);
        if is_layer_configuration(path) {
            let known = workspace.collection_names();
            check_layer_qa(&statements, &known, size, &mut report, Ghost(source));
        }
    }
    assert(report@ =~= workspace_findings(source, bodies@, path@, workspace@));
    finalize_diagnostics(diagnose(tree.source(), report), options)
}

// ---------------------------------------------------------------------------
// Edits
// ---------------------------------------------------------------------------
/// A failure applying one or more lint edits.
#[derive(Clone, Debug, Eq, PartialEq)]
pub enum LintFixError {
    InvalidRange { start: usize, end: usize },
    OverlappingRanges { first: TextRange, second: TextRange },
}

/// What is said of a failure to apply edits.
pub open spec fn fix_error_text(error: LintFixError) -> Seq<char> {
    match error {
        LintFixError::InvalidRange { start, end } => "lint fix has invalid source range "@
            + numbers::decimal(start as nat) + ".."@ + numbers::decimal(end as nat) + ""@,
        LintFixError::OverlappingRanges { first, second } => "lint fixes overlap at "@ + numbers::decimal(
            first.from() as nat,
        ) + ".."@ + numbers::decimal(first.to() as nat) + " and "@ + numbers::decimal(second.from() as nat) + ".."@
            + numbers::decimal(second.to() as nat),
    }
}

impl LintFixError {
    /// The failure in words.
    pub fn to_string(&self) -> (r: String)
        ensures
            r@ == fix_error_text(*self),
    {
        match self {
            LintFixError::InvalidRange { start, end } => {
                let a = decimal_chars(*start as u64);
                let b = decimal_chars(*end as u64);
                string_of(
                    long_phrase(
                        "lint fix has invalid source range ",
                        a.as_slice(),
                        "..",
                        b.as_slice(),
                        "",
                    ).as_slice(),
                )
            },
            LintFixError::OverlappingRanges { first, second } => {
                let a = decimal_chars(first.start() as u64);
                let b = decimal_chars(first.end() as u64);
                let mut out = long_phrase(
                    "lint fixes overlap at ",
                    a.as_slice(),
                    "..",
                    b.as_slice(),
                    " and ",
                );
                append_chars(&mut out, decimal_chars(second.start() as u64).as_slice());
                append_str(&mut out, "..");
                append_chars(&mut out, decimal_chars(second.end() as u64).as_slice());
                string_of(out.as_slice())
            },
        }
    }
}

/// The edits of `items[k..]`.
pub open spec fn edits_from(items: Seq<DiagnosticView>, k: int) -> Seq<FixView>
    decreases items.len() - k,
{
    if k < 0 || k >= items.len() {
        Seq::empty()
    } else {
        items[k].fixes + edits_from(items, k + 1)
    }
}

/// The order of edits: by start, then by end.
pub open spec fn edit_before(a: FixView, b: FixView) -> bool {
    a.start < b.start || (a.start == b.start && a.end < b.end)
}

/// The first position from `k` whose edit does not come before `x`.
pub open spec fn edit_place(items: Seq<FixView>, x: FixView, k: int) -> int
    decreases items.len() - k,
{
    if k < 0 || k >= items.len() {
        items.len() as int
    } else if edit_before(items[k], x) {
        edit_place(items, x, k + 1)
    } else {
        k
    }
}

/// The edits `items[k..]` in order; edits of the same bytes keep theirs.
pub open spec fn ordered_edits(items: Seq<FixView>, k: int) -> Seq<FixView>
    decreases items.len() - k,
{
    if k < 0 || k >= items.len() {
        Seq::empty()
    } else {
        let rest = ordered_edits(items, k + 1);
        rest.insert(edit_place(rest, items[k], 0), items[k])
    }
}

/// Whether an edit replaces whole characters of `t`.
pub open spec fn edit_fits(t: Seq<char>, f: FixView) -> bool {
    f.start <= f.end && f.end <= text::byte_len(t) && text::at_boundary(t, f.start) && text::at_boundary(t, f.end)
}

/// The first of the edits from `k` that does not replace whole characters.
pub open spec fn misfit_from(t: Seq<char>, items: Seq<FixView>, k: int) -> int
    decreases items.len() - k,
{
    if k < 0 || k >= items.len() {
        items.len() as int
    } else if edit_fits(t, items[k]) {
        misfit_from(t, items, k + 1)
    } else {
        k
    }
}

/// The first of the edits from `k` that ends after its successor starts.
pub open spec fn overlap_from(items: Seq<FixView>, k: int) -> int
    decreases items.len() - k,
{
    if k < 0 || k + 1 >= items.len() {
        items.len() as int
    } else if items[k].end > items[k + 1].start {
        k
    } else {
        overlap_from(items, k + 1)
    }
}

/// `t` from the character at `at` on, with the edits `items[k..]`.
pub open spec fn edited_from(t: Seq<char>, items: Seq<FixView>, k: int, at: int) -> Seq<char>
    decreases items.len() - k,
{
    if k < 0 || k >= items.len() {
        t.skip(at)
    } else {
        t.subrange(at, text::chars_before(t, items[k].start)) + items[k].replacement + edited_from(
            t,
            items,
            k + 1,
            text::chars_before(t, items[k].end),
        )
    }
}

/// What applying the edits of some diagnostics gives.
pub open spec fn applied(t: Seq<char>, items: Seq<DiagnosticView>) -> Result<
    Seq<char>,
    LintFixErrorView,
> {
    let edits = ordered_edits(edits_from(items, 0), 0);
    let misfit = misfit_from(t, edits, 0);
    let overlap = overlap_from(edits, 0);
    if misfit < edits.len() {
        Err(LintFixErrorView::InvalidRange(edits[misfit].start, edits[misfit].end))
    } else if overlap < edits.len() {
        Err(
            LintFixErrorView::OverlappingRanges(
                edits[overlap].start,
                edits[overlap].end,
                edits[overlap + 1].start,
                edits[overlap + 1].end,
            ),
        )
    } else {
        Ok(edited_from(t, edits, 0, 0))
    }
}

pub enum LintFixErrorView {
    InvalidRange(int, int),
    OverlappingRanges(int, int, int, int),
}

impl LintFixError {
    pub open spec fn view(&self) -> LintFixErrorView {
        match self {
            LintFixError::InvalidRange { start, end } => LintFixErrorView::InvalidRange(
                *start as int,
                *end as int,
            ),
            LintFixError::OverlappingRanges { first, second } => LintFixErrorView::OverlappingRanges(
                first.from(),
                first.to(),
                second.from(),
                second.to(),
            ),
        }
    }
}

struct PlannedEdit {
    start: usize,
    end: usize,
    replacement: String,
    message: String,
}

impl PlannedEdit {
    spec fn view(&self) -> FixView {
        FixView {
            start: self.start as int,
            end: self.end as int,
            replacement: self.replacement@,
            message: self.message@,
        }
    }
}

spec fn planned(items: Seq<PlannedEdit>) -> Seq<FixView> {
    items.map_values(|e: PlannedEdit| e@)
}

fn plan_edits(diagnostics: &Vec<LintDiagnostic>) -> (r: Vec<PlannedEdit>)
    ensures
        planned(r@) == edits_from(findings::diagnostic_views(diagnostics@), 0),
{
    let ghost all = findings::diagnostic_views(diagnostics@);
    let mut out: Vec<PlannedEdit> = Vec::new();
    let mut k: usize = 0;
    assert(planned(out@) =~= Seq::empty());
    assert(Seq::<FixView>::empty() + edits_from(all, 0) =~= edits_from(all, 0));
    while k < diagnostics.len()
        invariant
            k <= diagnostics@.len(),
            all == findings::diagnostic_views(diagnostics@),
            planned(out@) + edits_from(all, k as int) == edits_from(all, 0),
        decreases diagnostics@.len() - k,
    {
        assert(all[k as int] == diagnostics@[k as int]@);
        let fixes = diagnostics[k].fixes();
        let ghost before = planned(out@);
        let mut j: usize = 0;
        assert(before + findings::fix_views(fixes@).take(0) =~= before);
        while j < fixes.len()
            invariant
                j <= fixes@.len(),
                planned(out@) == before + findings::fix_views(fixes@).take(j as int),
            decreases fixes@.len() - j,
        {
            let fix = &fixes[j];
            let edit = PlannedEdit {
                start: fix.range().start(),
                end: fix.range().end(),
                replacement: fix.replacement().to_owned(),
                message: fix.message().to_owned(),
            };
            let ghost view = edit@;
            let ghost now = planned(out@);
            out.push(edit);
            j += 1;
            proof {
                assert(view == findings::fix_views(fixes@)[j - 1]);
                assert(planned(out@) =~= now.push(view));
                assert(findings::fix_views(fixes@).take(j as int) =~= findings::fix_views(fixes@).take(j - 1).push(
                    view,
                ));
            }
        }
        proof {
            assert(findings::fix_views(fixes@).take(j as int) =~= findings::fix_views(fixes@));
            let rest = edits_from(all, k + 1);
            assert(before + (all[k as int].fixes + rest) =~= (before + all[k as int].fixes) + rest);
        }
        k += 1;
    }
    assert(planned(out@) + Seq::<FixView>::empty() =~= planned(out@));
    out
}

fn insert_edit(items: &mut Vec<PlannedEdit>, x: PlannedEdit)
    ensures
        planned(final(items)@) == planned(old(items)@).insert(
            edit_place(planned(old(items)@), x@, 0),
            x@,
        ),
{
    let ghost all = planned(items@);
    let ghost view = x@;
    let mut k: usize = 0;
    while k < items.len() && (items[k].start < x.start || (items[k].start == x.start && items[k].end
        < x.end))
        invariant
            k <= items@.len(),
            all == planned(items@),
            x@ == view,
            edit_place(all, view, 0) == edit_place(all, view, k as int),
        decreases items@.len() - k,
    {
        assert(all[k as int] == items@[k as int]@);
        k += 1;
    }
    if k < items.len() {
        assert(all[k as int] == items@[k as int]@);
    }
    items.insert(k, x);
    assert(planned(items@) =~= all.insert(k as int, view));
}

fn order_edits(items: Vec<PlannedEdit>) -> (r: Vec<PlannedEdit>)
    ensures
        planned(r@) == ordered_edits(planned(items@), 0),
{
    let ghost all = planned(items@);
    let mut items = items;
    let mut out: Vec<PlannedEdit> = Vec::new();
    assert(planned(out@) =~= Seq::empty());
    assert(all.take(items@.len() as int) =~= all);
    while items.len() > 0
        invariant
            items@.len() <= all.len(),
            planned(items@) == all.take(items@.len() as int),
            planned(out@) == ordered_edits(all, items@.len() as int),
        decreases items@.len(),
    {
        let ghost before = items@;
        if let Some(x) = items.pop() {
            let ghost k = items@.len() as int;
            assert(planned(before)[k] == x@);
            assert(all[k] == x@);
            assert(planned(items@) =~= all.take(k));
            insert_edit(&mut out, x);
        }
    }
    out
}

/// The position of the character at a byte offset, if one starts or the text
/// ends there.
fn boundary(t: &[char], offset: usize) -> (r: Option<usize>)
    requires
        text::byte_len(t@) <= usize::MAX,
    ensures
        match r {
            Some(k) => text::at_boundary(t@, offset as int) && k == text::chars_before(t@, offset as int) && k
                <= t@.len(),
            None => !text::at_boundary(t@, offset as int),
        },
{
    let k = char_index(t, offset);
    proof {
        text::lemma_byte_len_range(t@, 0, k as int);
        text::lemma_byte_len_range(t@, k as int, t@.len() as int);
        assert(t@.take(t@.len() as int) =~= t@);
        assert(t@.subrange(0, k as int) =~= t@.take(k as int));
    }
    if byte_length(slice_subrange(t, 0, k)) == offset {
        Some(k)
    } else {
        None
    }
}

pub proof fn lemma_chars_before_monotonic(t: Seq<char>, a: int, b: int)
    requires
        0 <= a <= b,
    ensures
        text::chars_before(t, a) <= text::chars_before(t, b),
    decreases t.len(),
{
    if a > 0 && t.len() > 0 {
        if a - text::width(t[0]) >= 0 {
            lemma_chars_before_monotonic(t.drop_first(), a - text::width(t[0]), b - text::width(t[0]));
        } else {
            lemma_chars_before_nonnegative(t.drop_first(), b - text::width(t[0]));
        }
    } else {
        lemma_chars_before_nonnegative(t, b);
    }
}

proof fn lemma_chars_before_nonnegative(t: Seq<char>, b: int)
    ensures
        text::chars_before(t, b) >= 0,
    decreases t.len(),
{
    if b > 0 && t.len() > 0 {
        lemma_chars_before_nonnegative(t.drop_first(), b - text::width(t[0]));
    }
}

/// The first edit that does not replace whole characters.
fn find_misfit(chars: &[char], edits: &Vec<PlannedEdit>) -> (r: usize)
    requires
        text::byte_len(chars@) <= usize::MAX,
    ensures
        r == misfit_from(chars@, planned(edits@), 0),
        r <= edits@.len(),
        forall|j: int| 0 <= j < r ==> edit_fits(chars@, #[trigger] planned(edits@)[j]),
{
    let size = byte_length(chars);
    let ghost all = planned(edits@);
    let mut k: usize = 0;
    while k < edits.len()
        invariant
            k <= edits@.len(),
            size == text::byte_len(chars@),
            all == planned(edits@),
            misfit_from(chars@, all, 0) == misfit_from(chars@, all, k as int),
            forall|j: int| 0 <= j < k ==> edit_fits(chars@, #[trigger] all[j]),
        decreases edits@.len() - k,
    {
        assert(all[k as int] == edits@[k as int]@);
        let start = edits[k].start;
        let end = edits[k].end;
        if start > end || end > size || boundary(chars, start).is_none() || boundary(
            chars,
            end,
        ).is_none() {
            return k;
        }
        k += 1;
    }
    k
}

/// The edits do not overlap.
spec fn apart(items: Seq<FixView>) -> bool {
    forall|j: int|
        #![trigger items[j]]
        0 <= j < items.len() - 1 ==> items[j].end <= items[j + 1].start
}

/// The first edit that ends after its successor starts.
fn find_overlap(edits: &Vec<PlannedEdit>) -> (r: usize)
    ensures
        r == overlap_from(planned(edits@), 0),
        r < edits@.len() ==> r + 1 < edits@.len(),
        r >= edits@.len() ==> apart(planned(edits@)),
{
    let ghost all = planned(edits@);
    let count = edits.len();
    let mut k: usize = 0;
    while k < count && k + 1 < count
        invariant
            k <= count,
            count == edits@.len(),
            all == planned(edits@),
            overlap_from(all, 0) == overlap_from(all, k as int),
            forall|j: int| #![trigger all[j]] 0 <= j < k ==> all[j].end <= all[j + 1].start,
        decreases count - k,
    {
        assert(all[k as int] == edits@[k as int]@);
        assert(all[k + 1] == edits@[k + 1]@);
        if edits[k].end > edits[k + 1].start {
            return k;
        }
        k += 1;
    }
    count
}

/// A text with edits that fit and do not overlap.
fn splice(chars: &[char], edits: &Vec<PlannedEdit>) -> (r: Vec<char>)
    requires
        forall|j: int| 0 <= j < edits@.len() ==> edit_fits(chars@, #[trigger] planned(edits@)[j]),
        apart(planned(edits@)),
    ensures
        r@ == edited_from(chars@, planned(edits@), 0, 0),
{
    let ghost all = planned(edits@);
    let ghost goal = edited_from(chars@, all, 0, 0);
    let mut out: Vec<char> = Vec::new();
    let mut at: usize = 0;
    let mut k: usize = 0;
    proof {
        assert(out@ + edited_from(chars@, all, 0, 0) =~= goal);
        if all.len() > 0 {
            lemma_chars_before_nonnegative(chars@, all[0].start);
        }
    }
    while k < edits.len()
        invariant
            k <= edits@.len(),
            at <= chars@.len(),
            all == planned(edits@),
            all.len() == edits@.len(),
            forall|j: int| 0 <= j < all.len() ==> edit_fits(chars@, #[trigger] all[j]),
            apart(all),
            k < all.len() ==> at <= text::chars_before(chars@, all[k as int].start),
            out@ + edited_from(chars@, all, k as int, at as int) == goal,
        decreases edits@.len() - k,
    {
        assert(all[k as int] == edits@[k as int]@);
        assert(edit_fits(chars@, all[k as int]));
        let from = char_index(chars, edits[k].start);
        let to = char_index(chars, edits[k].end);
        let ghost before = out@;
        append_chars(&mut out, slice_subrange(chars, at, from));
        append_str(&mut out, edits[k].replacement.as_str());
        proof {
            let rest = edited_from(chars@, all, k + 1, to as int);
            let x = chars@.subrange(at as int, from as int) + all[k as int].replacement;
            assert(before + (x + rest) =~= (before + x) + rest);
            assert(out@ =~= before + x);
            if k + 1 < all.len() {
                lemma_chars_before_monotonic(chars@, all[k as int].end, all[k + 1].start);
            }
        }
        at = to;
        k += 1;
    }
    assert(chars@.subrange(at as int, chars@.len() as int) =~= chars@.skip(at as int));
    append_chars(&mut out, slice_subrange(chars, at, chars.len()));
    out
}

/// Applies all safe edits proposed by `diagnostics` to `text`.
///
/// Edits are validated before any change is made. This makes overlapping or
/// stale edit plans fail atomically instead of producing partially edited
/// source.
pub fn apply_lint_fixes(text: &str, diagnostics: &Vec<LintDiagnostic>) -> (r: Result<
    String,
    LintFixError,
>)
    requires
        text::byte_len(text@) < usize::MAX,
    ensures
        match applied(text@, findings::diagnostic_views(diagnostics@)) {
            Ok(edited) => r matches Ok(fixed) && fixed@ == edited,
            Err(view) => r matches Err(error) && error@ == view,
        },
{
    let chars = chars_of(text);
    let edits = order_edits(plan_edits(diagnostics));
    let ghost all = planned(edits@);
    let misfit = find_misfit(chars.as_slice(), &edits);
    if misfit < edits.len() {
        assert(all[misfit as int] == edits@[misfit as int]@);
        return Err(
            LintFixError::InvalidRange { start: edits[misfit].start, end: edits[misfit].end },
        );
    }
    let overlap = find_overlap(&edits);
    if overlap < edits.len() {
        assert(all[overlap as int] == edits@[overlap as int]@);
        assert(all[overlap + 1] == edits@[overlap + 1]@);
        return Err(
            LintFixError::OverlappingRanges {
                first: TextRange::new(edits[overlap].start, edits[overlap].end),
                second: TextRange::new(edits[overlap + 1].start, edits[overlap + 1].end),
            },
        );
    }
    Ok(string_of(splice(chars.as_slice(), &edits).as_slice()))
}

} // verus!
