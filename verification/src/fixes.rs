//! What the safe edits of a lint run do to the text that was linted.
use crate::checks;
use crate::findings;
use crate::layer_rules;
use crate::lint;
use crate::orders;
use crate::recipes;
use crate::references;
use crate::rules;
use crate::statements;
use crate::text;
use crate::tree;
use crate::values;
use crate::workspace;
use crate::checks::BodyDiagnostic;
use crate::dependencies::IndexView;
use crate::findings::DiagnosticView;
use crate::findings::FindingView;
use crate::findings::FixView;
use crate::lint::LabeledView;
use crate::lint::LintFixErrorView;
use crate::orders::TextOrder;
use crate::references::PlaceView;
use crate::rules::OptionsView;
use crate::rules::RULE_COUNT;
use crate::rules::RULE_FINAL_NEWLINE;
use crate::rules::RULE_LAYER_COLLECTIONS;
use crate::rules::RULE_LAYER_SERIES_COMPAT;
use crate::rules::RULE_MISSING_LICENSE;
use crate::rules::RULE_TRAILING_WHITESPACE;
use crate::rules::RULE_UNRESOLVED_REQUIRE;
use crate::statements::StatementView;
use crate::text::CharClass;
use crate::workspace::CandidateView;
use crate::workspace::WorkspaceClassContext;
use crate::workspace::WorkspaceDependencyKind;
use crate::workspace::WorkspaceFileDirective;
use vstd::prelude::*;

verus! {

// ---------------------------------------------------------------------------
// Findings without an edit
// ---------------------------------------------------------------------------
/// None of the findings is about a line or proposes an edit.
pub open spec fn plain(items: Seq<FindingView>) -> bool {
    forall|i: int|
        0 <= i < items.len() ==> (#[trigger] items[i]).edit is None && RULE_FINAL_NEWLINE
            < items[i].rule < RULE_COUNT
}

/// The rules that need a workspace: those on references between files, on what
/// a recipe must say and on the configuration of a layer.
pub open spec fn workspace_rule(rule: nat) -> bool {
    RULE_UNRESOLVED_REQUIRE <= rule <= RULE_MISSING_LICENSE || RULE_LAYER_COLLECTIONS <= rule
        <= RULE_LAYER_SERIES_COMPAT
}

/// None of the findings is about a line, proposes an edit or needs a workspace.
pub open spec fn local(items: Seq<FindingView>) -> bool {
    plain(items) && forall|i: int|
        0 <= i < items.len() ==> !workspace_rule((#[trigger] items[i]).rule)
}

proof fn lemma_assignments_plain(s: Seq<StatementView>, k: int, seen: Seq<Seq<char>>)
    ensures
        local(checks::assignments_from(s, k, seen)),
    decreases s.len() - k,
{
    if 0 <= k < s.len() {
        match s[k] {
            StatementView::Assignment(a) => {
                lemma_protocol_plain(checks::assigned_words(a), 0);
                assert(local(checks::assignment_findings(a, seen)));
                if checks::assigns_directly(a.operator) {
                    lemma_assignments_plain(s, k + 1, checks::with_name(seen, a.name));
                } else {
                    lemma_assignments_plain(s, k + 1, seen);
                }
            },
            _ => {
                lemma_assignments_plain(s, k + 1, seen);
            },
        }
    }
}

proof fn lemma_protocol_plain(words: Seq<(int, Seq<char>)>, k: int)
    ensures
        local(checks::protocol_from(words, k)),
    decreases words.len() - k,
{
    if 0 <= k < words.len() {
        lemma_protocol_plain(words, k + 1);
    }
}

proof fn lemma_functions_plain(s: Seq<StatementView>, k: int, seen: Seq<Seq<char>>)
    ensures
        local(checks::functions_from(s, k, seen)),
    decreases s.len() - k,
{
    if 0 <= k < s.len() {
        lemma_functions_plain(s, k + 1, seen);
        if let StatementView::Function(f) = s[k] {
            if let Some(name) = f.name {
                lemma_functions_plain(s, k + 1, seen.push(name));
            }
        }
    }
}

proof fn lemma_body_plain(body: Seq<char>, at: int, items: Seq<BodyDiagnostic>, k: int)
    ensures
        local(checks::body_findings_from(body, at, items, k)),
    decreases items.len() - k,
{
    if 0 <= k < items.len() {
        lemma_body_plain(body, at, items, k + 1);
    }
}

proof fn lemma_bodies_plain(
    source: Seq<char>,
    s: Seq<StatementView>,
    bodies: Seq<Vec<BodyDiagnostic>>,
    k: int,
)
    ensures
        local(checks::bodies_from(source, s, bodies, k)),
    decreases s.len() - k,
{
    if 0 <= k < s.len() && k < bodies.len() {
        lemma_bodies_plain(source, s, bodies, k + 1);
        if let Some((a, b)) = checks::body_of(s[k]) {
            lemma_body_plain(source.subrange(a, b), a, bodies[k]@, 0);
        }
    }
}

proof fn lemma_empty_plain(s: Seq<StatementView>, k: int)
    ensures
        local(checks::empty_from(s, k)),
    decreases s.len() - k,
{
    if 0 <= k < s.len() {
        lemma_empty_plain(s, k + 1);
    }
}

proof fn lemma_classes_plain(words: Seq<(int, Seq<char>)>, k: int, seen: Seq<Seq<char>>)
    ensures
        local(checks::classes_from(words, k, seen)),
    decreases words.len() - k,
{
    if 0 <= k < words.len() {
        lemma_classes_plain(words, k + 1, seen);
        lemma_classes_plain(words, k + 1, seen.push(words[k].1));
    }
}

proof fn lemma_inherits_plain(s: Seq<StatementView>, k: int, seen: Seq<Seq<char>>)
    ensures
        local(checks::inherits_from(s, k, seen)),
    decreases s.len() - k,
{
    if 0 <= k < s.len() {
        lemma_inherits_plain(s, k + 1, seen);
        if let StatementView::Directive(d) = s[k] {
            let words = checks::argument_words(d, false);
            lemma_classes_plain(words, 0, seen);
            lemma_inherits_plain(s, k + 1, checks::with_words(seen, words, 0));
        }
    }
}

/// The findings on one file after those on its lines.
pub open spec fn later_findings(source: Seq<char>, bodies: Seq<Vec<BodyDiagnostic>>) -> Seq<FindingView> {
    let s = statements::statements_of(source);
    checks::assignments_from(s, 0, Seq::empty()) + checks::functions_from(s, 0, Seq::empty())
        + checks::bodies_from(source, s, bodies, 0) + checks::empty_from(s, 0) + checks::inherits_from(
        s,
        0,
        Seq::empty(),
    )
}

/// The findings on one file but those on its lines propose nothing and need no
/// workspace.
pub proof fn lemma_later_plain(source: Seq<char>, bodies: Seq<Vec<BodyDiagnostic>>)
    ensures
        local(later_findings(source, bodies)),
        checks::file_findings(source, bodies) == line_findings(source) + later_findings(
            source,
            bodies,
        ),
{
    let s = statements::statements_of(source);
    lemma_assignments_plain(s, 0, Seq::empty());
    lemma_functions_plain(s, 0, Seq::empty());
    lemma_bodies_plain(source, s, bodies, 0);
    lemma_empty_plain(s, 0);
    lemma_inherits_plain(s, 0, Seq::empty());
    assert(checks::file_findings(source, bodies) =~= line_findings(source) + later_findings(
        source,
        bodies,
    ));
}

/// The findings on the lines of a text.
pub open spec fn line_findings(source: Seq<char>) -> Seq<FindingView> {
    checks::trailing_from(source, 0) + checks::final_newline(source)
}

proof fn lemma_identity_plain(s: Seq<StatementView>, k: int, name: Seq<char>, version: Seq<char>)
    ensures
        local(recipes::identity_from(s, k, name, version)),
    decreases s.len() - k,
{
    if 0 <= k < s.len() {
        lemma_identity_plain(s, k + 1, name, version);
    }
}

proof fn lemma_license_files_plain(words: Seq<(int, Seq<char>)>, k: int)
    ensures
        local(recipes::license_files_from(words, k)),
    decreases words.len() - k,
{
    if 0 <= k < words.len() {
        lemma_license_files_plain(words, k + 1);
    }
}

proof fn lemma_license_plain(s: Seq<StatementView>)
    ensures
        local(recipes::license_findings(s)),
{
    if let Some(checksum) = recipes::last_assignment(s, "LIC_FILES_CHKSUM"@, s.len() as int) {
        lemma_license_files_plain(checks::assigned_words(checksum), 0);
        assert(local(recipes::checksum_findings(checksum)));
    }
}

proof fn lemma_archives_plain(words: Seq<(int, Seq<char>)>, k: int)
    ensures
        local(recipes::archives_from(words, k)),
    decreases words.len() - k,
{
    if 0 <= k < words.len() {
        lemma_archives_plain(words, k + 1);
    }
}

proof fn lemma_sources_plain(s: Seq<StatementView>, k: int)
    ensures
        local(recipes::sources_from(s, k)),
    decreases s.len() - k,
{
    if 0 <= k < s.len() {
        lemma_sources_plain(s, k + 1);
        if let StatementView::Assignment(a) = s[k] {
            lemma_archives_plain(checks::assigned_words(a), 0);
        }
    }
}

proof fn lemma_fields_plain(s: Seq<StatementView>, k: int)
    ensures
        local(recipes::fields_from(s, k)),
    decreases s.len() - k,
{
    if 0 <= k < s.len() {
        lemma_fields_plain(s, k + 1);
    }
}

proof fn lemma_undefined_plain(words: Seq<(int, Seq<char>)>, k: int, defined: Seq<Seq<char>>)
    ensures
        local(recipes::undefined_from(words, k, defined)),
    decreases words.len() - k,
{
    if 0 <= k < words.len() {
        lemma_undefined_plain(words, k + 1, defined);
    }
}

proof fn lemma_listed_plain(words: Seq<(int, Seq<char>)>, k: int, seen: Seq<Seq<char>>)
    ensures
        local(recipes::listed_from(words, k, seen)),
    decreases words.len() - k,
{
    if 0 <= k < words.len() {
        lemma_listed_plain(words, k + 1, seen);
        lemma_listed_plain(words, k + 1, seen.push(words[k].1));
    }
}

proof fn lemma_packages_plain(s: Seq<StatementView>, k: int, seen: Seq<Seq<char>>)
    ensures
        local(recipes::packages_from(s, k, seen)),
    decreases s.len() - k,
{
    if 0 <= k < s.len() {
        lemma_packages_plain(s, k + 1, seen);
        if let StatementView::Assignment(a) = s[k] {
            let words = checks::assigned_words(a);
            lemma_listed_plain(words, 0, seen);
            lemma_packages_plain(s, k + 1, checks::with_words(seen, words, 0));
        }
    }
}

proof fn lemma_scopes_plain(s: Seq<StatementView>, k: int, packages: Seq<Seq<char>>)
    ensures
        local(recipes::scopes_from(s, k, packages)),
    decreases s.len() - k,
{
    if 0 <= k < s.len() {
        lemma_scopes_plain(s, k + 1, packages);
    }
}

proof fn lemma_parameters_plain(w: (int, Seq<char>), bad: Seq<int>, j: int)
    ensures
        local(recipes::parameters_from(w, bad, j)),
    decreases bad.len() - j,
{
    if 0 <= j < bad.len() {
        lemma_parameters_plain(w, bad, j + 1);
    }
}

proof fn lemma_addresses_plain(words: Seq<(int, Seq<char>)>, k: int)
    ensures
        local(recipes::addresses_from(words, k)),
    decreases words.len() - k,
{
    if 0 <= k < words.len() {
        lemma_addresses_plain(words, k + 1);
        lemma_parameters_plain(words[k], values::bad_parameters(words[k].1), 0);
    }
}

proof fn lemma_uri_parameters_plain(s: Seq<StatementView>, k: int)
    ensures
        local(recipes::uri_parameters_from(s, k)),
    decreases s.len() - k,
{
    if 0 <= k < s.len() {
        lemma_uri_parameters_plain(s, k + 1);
        if let StatementView::Assignment(a) = s[k] {
            lemma_addresses_plain(checks::assigned_words(a), 0);
        }
    }
}

/// The findings on a recipe propose nothing.
pub proof fn lemma_recipe_plain(source: Seq<char>, path: Seq<char>)
    ensures
        local(recipes::recipe_findings(source, path)),
        plain(recipes::metadata_findings(source)),
{
    let s = statements::statements_of(source);
    if let Some((name, version)) = recipes::recipe_identity(path) {
        lemma_identity_plain(s, 0, name, version);
    }
    lemma_license_plain(s);
    lemma_sources_plain(s, 0);
    lemma_fields_plain(s, 0);
    lemma_undefined_plain(recipes::enabled_from(s, 0), 0, recipes::defined_from(s, 0));
    lemma_packages_plain(s, 0, Seq::empty());
    lemma_scopes_plain(s, 0, recipes::packages_of(s, 0, Seq::empty()));
    lemma_uri_parameters_plain(s, 0);
    assert(local(recipes::recipe_identity_findings(s, path)));
    assert(local(recipes::packageconfig_findings(s)));
    assert(local(recipes::package_findings(s)));
}

proof fn lemma_requires_plain(
    place: PlaceView,
    words: Seq<(int, Seq<char>)>,
    k: int,
    context: WorkspaceClassContext,
)
    ensures
        plain(references::requires_from(place, words, k, context)),
    decreases words.len() - k,
{
    if 0 <= k < words.len() {
        lemma_requires_plain(place, words, k + 1, context);
        assert(plain(references::require_findings(place, words[k], context)));
    }
}

proof fn lemma_cycles_plain(
    place: PlaceView,
    at: int,
    context: WorkspaceClassContext,
    kind: WorkspaceDependencyKind,
    found: Seq<CandidateView>,
    k: int,
)
    ensures
        plain(references::cycles_from(place, at, context, kind, found, k)),
    decreases found.len() - k,
{
    if 0 <= k < found.len() {
        lemma_cycles_plain(place, at, context, kind, found, k + 1);
    }
}

proof fn lemma_includes_plain(
    place: PlaceView,
    words: Seq<(int, Seq<char>)>,
    k: int,
    context: WorkspaceClassContext,
    all: bool,
)
    ensures
        plain(references::includes_from(place, words, k, context, all)),
    decreases words.len() - k,
{
    if 0 <= k < words.len() {
        lemma_includes_plain(place, words, k + 1, context, all);
        let w = words[k];
        lemma_cycles_plain(
            place,
            w.0,
            context,
            WorkspaceDependencyKind::IncludeAll,
            workspace::file_candidates_of(
                place.index.core,
                place.path,
                w.1,
                WorkspaceFileDirective::IncludeAll,
            ),
            0,
        );
        assert(plain(references::include_findings(place, w, context, all)));
    }
}

proof fn lemma_class_words_plain(
    place: PlaceView,
    words: Seq<(int, Seq<char>)>,
    k: int,
    contexts: Seq<WorkspaceClassContext>,
    kind: WorkspaceDependencyKind,
)
    ensures
        plain(references::class_words_from(place, words, k, contexts, kind)),
    decreases words.len() - k,
{
    if 0 <= k < words.len() {
        lemma_class_words_plain(place, words, k + 1, contexts, kind);
        assert(plain(references::class_findings(place, words[k], contexts, kind)));
    }
}

proof fn lemma_statement_plain(place: PlaceView, s: StatementView)
    ensures
        plain(references::statement_findings(place, s)),
{
    let contexts = references::place_contexts(place);
    match s {
        StatementView::Assignment(a) => {
            if let Some(kind) = workspace::global_class_kind(a.name) {
                lemma_class_words_plain(
                    place,
                    checks::assigned_words(a),
                    0,
                    seq![WorkspaceClassContext::Global],
                    kind,
                );
            }
        },
        StatementView::Directive(d) => {
            let words = checks::argument_words(d, true);
            let inherit = WorkspaceDependencyKind::Inherit;
            let deferred = WorkspaceDependencyKind::InheritDefer;
            lemma_requires_plain(place, words, 0, contexts[0]);
            lemma_class_words_plain(place, words, 0, contexts, inherit);
            lemma_class_words_plain(place, words, 0, contexts, deferred);
            lemma_includes_plain(place, words, 0, contexts[0], false);
            lemma_includes_plain(place, words, 0, contexts[0], true);
        },
        _ => {},
    }
}

proof fn lemma_references_plain(place: PlaceView, s: Seq<StatementView>, k: int)
    ensures
        plain(references::references_from(place, s, k)),
    decreases s.len() - k,
{
    if 0 <= k < s.len() {
        lemma_statement_plain(place, s[k]);
        lemma_references_plain(place, s, k + 1);
    }
}

proof fn lemma_redeclared_plain(words: Seq<(int, Seq<char>)>, k: int, seen: Seq<Seq<char>>)
    ensures
        plain(layer_rules::redeclared_from(words, k, seen)),
    decreases words.len() - k,
{
    if 0 <= k < words.len() {
        lemma_redeclared_plain(words, k + 1, seen);
        lemma_redeclared_plain(words, k + 1, seen.push(words[k].1));
    }
}

proof fn lemma_unknown_plain(
    words: Seq<(int, Seq<char>)>,
    k: int,
    name: Seq<char>,
    known: Seq<Seq<char>>,
)
    ensures
        plain(layer_rules::unknown_from(words, k, name, known)),
    decreases words.len() - k,
{
    if 0 <= k < words.len() {
        lemma_unknown_plain(words, k + 1, name, known);
    }
}

proof fn lemma_collections_plain(
    source: Seq<char>,
    names: Seq<Seq<char>>,
    k: int,
    known: Seq<Seq<char>>,
)
    ensures
        plain(layer_rules::collections_checked(source, names, k, known)),
    decreases names.len() - k,
{
    if 0 <= k < names.len() {
        lemma_collections_plain(source, names, k + 1, known);
        let name = "LAYERDEPENDS_"@ + names[k];
        if let Some(a) = layer_rules::first_assignment(statements::statements_of(source), name, 0) {
            lemma_unknown_plain(checks::assigned_words(a), 0, name, known);
        }
        assert(plain(layer_rules::collection_findings(source, names[k], known)));
    }
}

proof fn lemma_layer_plain(source: Seq<char>, known: Seq<Seq<char>>)
    ensures
        plain(layer_rules::layer_findings(source, known)),
{
    let words = layer_rules::declared_from(statements::statements_of(source), 0);
    lemma_redeclared_plain(words, 0, Seq::empty());
    lemma_collections_plain(source, layer_rules::declared_names(words), 0, known);
}

/// All findings on a file of a workspace but those on its lines propose
/// nothing.
pub proof fn lemma_workspace_plain(
    source: Seq<char>,
    bodies: Seq<Vec<BodyDiagnostic>>,
    path: Seq<char>,
    index: IndexView,
) -> (rest: Seq<FindingView>)
    ensures
        plain(rest),
        lint::workspace_findings(source, bodies, path, index) == line_findings(source) + rest,
{
    let all = lint::workspace_findings(source, bodies, path, index);
    let s = statements::statements_of(source);
    let known = orders::sorted_distinct(
        TextOrder::Plain,
        workspace::collections_from(index.core.layers, 0),
    );
    lemma_later_plain(source, bodies);
    lemma_recipe_plain(source, path);
    lemma_references_plain(PlaceView { index, source, path }, s, 0);
    lemma_layer_plain(source, known);
    let file = checks::file_findings(source, bodies);
    let rest = all.skip(line_findings(source).len() as int);
    assert(all.take(file.len() as int) =~= file);
    assert(all =~= line_findings(source) + rest);
    assert forall|i: int| 0 <= i < rest.len() implies (#[trigger] rest[i]).edit is None
        && RULE_FINAL_NEWLINE < rest[i].rule < RULE_COUNT by {
        let j = i + line_findings(source).len();
        if j < file.len() {
            assert(all[j] == later_findings(source, bodies)[i]);
        } else {
            assert(plain(all.skip(file.len() as int)));
            assert(all[j] == all.skip(file.len() as int)[j - file.len()]);
        }
    }
    rest
}

// ---------------------------------------------------------------------------
// The edits of a report
// ---------------------------------------------------------------------------
/// The edits of a list of diagnostics.
pub open spec fn edits_of(items: Seq<DiagnosticView>) -> Seq<FixView> {
    lint::edits_from(items, 0)
}

proof fn lemma_edits_skip(items: Seq<DiagnosticView>, k: int)
    requires
        0 <= k <= items.len(),
    ensures
        lint::edits_from(items, k) == edits_of(items.skip(k)),
    decreases items.len() - k,
{
    if k == 0 {
        assert(items.skip(0) =~= items);
    } else if k < items.len() {
        lemma_edits_skip(items, k + 1);
        lemma_edits_skip(items.skip(k), 1);
        assert(items.skip(k).skip(1) =~= items.skip(k + 1));
    }
}

proof fn lemma_edits_add(a: Seq<DiagnosticView>, b: Seq<DiagnosticView>)
    ensures
        edits_of(a + b) == edits_of(a) + edits_of(b),
    decreases a.len(),
{
    if a.len() == 0 {
        assert(a + b =~= b);
        assert(edits_of(a) + edits_of(b) =~= edits_of(b));
    } else {
        lemma_edits_add(a.skip(1), b);
        lemma_edits_skip(a + b, 1);
        lemma_edits_skip(a, 1);
        assert((a + b).skip(1) =~= a.skip(1) + b);
        assert(edits_of(a + b) =~= edits_of(a) + edits_of(b));
    }
}

proof fn lemma_one_edit(x: DiagnosticView)
    ensures
        edits_of(seq![x]) == x.fixes,
{
    assert(lint::edits_from(seq![x], 1) =~= Seq::empty());
    assert(edits_of(seq![x]) =~= x.fixes);
}

/// Arranging a report keeps its edits.
proof fn lemma_arranged_edits(items: Seq<LabeledView>, options: OptionsView, k: int)
    requires
        0 <= k <= items.len(),
    ensures
        edits_of(lint::without_labels(lint::arranged_from(items, options, k))).to_multiset()
            == edits_of(lint::without_labels(lint::selected_from(items, options, k))).to_multiset(),
    decreases items.len() - k,
{
    if k < items.len() {
        lemma_arranged_edits(items, options, k + 1);
        if !options.disabled.contains(items[k].diagnostic.rule_id) {
            let rest = lint::arranged_from(items, options, k + 1);
            let tail = lint::selected_from(items, options, k + 1);
            let x = lint::adjusted_view(options, items[k]);
            let p = lint::report_place(rest, x, 0);
            lint::lemma_report_place(rest, x, 0);
            let one = lint::without_labels(seq![x]);
            let all = lint::without_labels(rest);
            let (a, b) = (all.take(p), all.skip(p));
            assert(lint::without_labels(rest.insert(p, x)) =~= a + one + b);
            assert(all =~= a + b);
            lemma_edits_add(a, b);
            lemma_edits_add(a, one);
            lemma_edits_add(a + one, b);
            assert(lint::without_labels(seq![x] + tail) =~= one + lint::without_labels(tail));
            lemma_edits_add(one, lint::without_labels(tail));
            vstd::seq_lib::lemma_multiset_commutative(edits_of(a), edits_of(b));
            vstd::seq_lib::lemma_multiset_commutative(edits_of(a), edits_of(one));
            vstd::seq_lib::lemma_multiset_commutative(edits_of(a) + edits_of(one), edits_of(b));
            vstd::seq_lib::lemma_multiset_commutative(
                edits_of(one),
                edits_of(lint::without_labels(tail)),
            );
            assert(edits_of(lint::without_labels(rest.insert(p, x))).to_multiset() =~= edits_of(
                lint::without_labels(seq![x] + tail),
            ).to_multiset());
        }
    }
}

/// The edit that a finding proposes.
pub open spec fn proposed(source: Seq<char>, f: FindingView) -> Seq<FixView> {
    findings::diagnosed(source, f).fixes
}

/// The edits that those of the findings propose whose rules `options` reports.
pub open spec fn wanted(source: Seq<char>, items: Seq<FindingView>, options: OptionsView) -> Seq<
    FixView,
>
    decreases items.len(),
{
    if items.len() == 0 {
        Seq::empty()
    } else {
        (if options.disabled.contains(rules::rule_view(items[0].rule).id) {
            Seq::empty()
        } else {
            proposed(source, items[0])
        }) + wanted(source, items.skip(1), options)
    }
}

proof fn lemma_selected_edits(
    source: Seq<char>,
    items: Seq<FindingView>,
    options: OptionsView,
    k: int,
)
    requires
        0 <= k <= items.len(),
    ensures
        edits_of(
            lint::without_labels(
                lint::selected_from(
                    lint::unlabeled(findings::all_diagnosed(source, items)),
                    options,
                    k,
                ),
            ),
        ) == wanted(source, items.skip(k), options),
    decreases items.len() - k,
{
    let all = lint::unlabeled(findings::all_diagnosed(source, items));
    if k < items.len() {
        lemma_selected_edits(source, items, options, k + 1);
        assert(items.skip(k).skip(1) =~= items.skip(k + 1));
        assert(all[k].diagnostic == findings::diagnosed(source, items[k]));
        let rest = lint::selected_from(all, options, k + 1);
        if !options.disabled.contains(all[k].diagnostic.rule_id) {
            let x = lint::adjusted_view(options, all[k]);
            let one = lint::without_labels(seq![x]);
            assert(lint::without_labels(seq![x] + rest) =~= one + lint::without_labels(rest));
            lemma_edits_add(one, lint::without_labels(rest));
            assert(one =~= seq![x.diagnostic]);
            lemma_one_edit(x.diagnostic);
            assert(x.diagnostic.fixes == proposed(source, items[k]));
        } else {
            assert(wanted(source, items.skip(k), options) =~= wanted(
                source,
                items.skip(k + 1),
                options,
            ));
        }
    } else {
        assert(lint::without_labels(lint::selected_from(all, options, k)) =~= Seq::empty());
    }
}

proof fn lemma_wanted_one(source: Seq<char>, f: FindingView, options: OptionsView)
    ensures
        wanted(source, seq![f], options) == if options.disabled.contains(
            rules::rule_view(f.rule).id,
        ) {
            Seq::empty()
        } else {
            proposed(source, f)
        },
{
    let rest = seq![f].skip(1);
    assert(rest =~= Seq::empty());
    assert(wanted(source, rest, options) =~= Seq::empty());
    assert(wanted(source, seq![f], options) =~= if options.disabled.contains(
        rules::rule_view(f.rule).id,
    ) {
        Seq::empty()
    } else {
        proposed(source, f)
    });
}

proof fn lemma_wanted_plain(source: Seq<char>, items: Seq<FindingView>, options: OptionsView)
    requires
        plain(items),
    ensures
        wanted(source, items, options).len() == 0,
    decreases items.len(),
{
    if items.len() > 0 {
        assert forall|i: int| 0 <= i < items.skip(1).len() implies (#[trigger] items.skip(
            1,
        )[i]).edit is None by {
            assert(items.skip(1)[i] == items[i + 1]);
        }
        lemma_wanted_plain(source, items.skip(1), options);
        assert(items[0].edit is None);
    }
}

proof fn lemma_wanted_add(
    source: Seq<char>,
    a: Seq<FindingView>,
    b: Seq<FindingView>,
    options: OptionsView,
)
    ensures
        wanted(source, a + b, options) == wanted(source, a, options) + wanted(source, b, options),
    decreases a.len(),
{
    if a.len() == 0 {
        assert(a + b =~= b);
        assert(wanted(source, a, options) + wanted(source, b, options) =~= wanted(
            source,
            b,
            options,
        ));
    } else {
        lemma_wanted_add(source, a.skip(1), b, options);
        assert((a + b).skip(1) =~= a.skip(1) + b);
        assert(wanted(source, a + b, options) =~= wanted(source, a, options) + wanted(
            source,
            b,
            options,
        ));
    }
}

// ---------------------------------------------------------------------------
// The order of edits
// ---------------------------------------------------------------------------
/// Each edit comes before those after it.
pub open spec fn ascending(items: Seq<FixView>) -> bool {
    forall|i: int, j: int|
        0 <= i < j < items.len() ==> lint::edit_before(#[trigger] items[i], #[trigger] items[j])
}

/// No edit comes after one that it should precede.
spec fn sorted_edits(items: Seq<FixView>) -> bool {
    forall|i: int, j: int|
        0 <= i < j < items.len() ==> !lint::edit_before(#[trigger] items[j], #[trigger] items[i])
}

proof fn lemma_edit_place(items: Seq<FixView>, x: FixView, k: int)
    requires
        0 <= k <= items.len(),
    ensures
        k <= lint::edit_place(items, x, k) <= items.len(),
        forall|i: int|
            k <= i < lint::edit_place(items, x, k) ==> lint::edit_before(#[trigger] items[i], x),
        lint::edit_place(items, x, k) < items.len() ==> !lint::edit_before(
            items[lint::edit_place(items, x, k)],
            x,
        ),
    decreases items.len() - k,
{
    if k < items.len() && lint::edit_before(items[k], x) {
        lemma_edit_place(items, x, k + 1);
    }
}

proof fn lemma_ordered_edits(items: Seq<FixView>, k: int)
    requires
        0 <= k <= items.len(),
    ensures
        sorted_edits(lint::ordered_edits(items, k)),
        lint::ordered_edits(items, k).to_multiset() == items.skip(k).to_multiset(),
    decreases items.len() - k,
{
    if k < items.len() {
        lemma_ordered_edits(items, k + 1);
        let rest = lint::ordered_edits(items, k + 1);
        let x = items[k];
        let p = lint::edit_place(rest, x, 0);
        lemma_edit_place(rest, x, 0);
        let out = rest.insert(p, x);
        assert forall|i: int, j: int| 0 <= i < j < out.len() implies !lint::edit_before(
            #[trigger] out[j],
            #[trigger] out[i],
        ) by {
            if j < p {
                assert(out[i] == rest[i] && out[j] == rest[j]);
            } else if j == p {
                assert(out[i] == rest[i]);
            } else if i < p {
                assert(out[i] == rest[i] && out[j] == rest[j - 1]);
            } else if i == p {
                assert(out[j] == rest[j - 1]);
                if j - 1 > p {
                    assert(!lint::edit_before(rest[j - 1], rest[p]));
                }
            } else {
                assert(out[i] == rest[i - 1] && out[j] == rest[j - 1]);
            }
        }
        assert(items.skip(k) =~= seq![x] + items.skip(k + 1));
        vstd::seq_lib::lemma_multiset_commutative(seq![x], items.skip(k + 1));
        vstd::seq_lib::to_multiset_insert(rest, p, x);
        assert(seq![x].to_multiset() =~= vstd::multiset::Multiset::singleton(x)) by {
            vstd::seq_lib::to_multiset_build(Seq::<FixView>::empty(), x);
            assert(seq![x] =~= Seq::<FixView>::empty().push(x));
            vstd::seq_lib::to_multiset_len(Seq::<FixView>::empty());
        }
        assert(out.to_multiset() =~= items.skip(k).to_multiset());
    } else {
        assert(items.skip(k) =~= Seq::empty());
    }
}

/// Edits in order are those that ascend, where they are the same edits.
proof fn lemma_same_edits(a: Seq<FixView>, b: Seq<FixView>)
    requires
        sorted_edits(a),
        ascending(b),
        a.to_multiset() == b.to_multiset(),
    ensures
        a == b,
    decreases a.len(),
{
    vstd::seq_lib::to_multiset_len(a);
    vstd::seq_lib::to_multiset_len(b);
    if a.len() > 0 {
        vstd::seq_lib::to_multiset_contains(a, a[0]);
        vstd::seq_lib::to_multiset_contains(b, a[0]);
        vstd::seq_lib::to_multiset_contains(a, b[0]);
        vstd::seq_lib::to_multiset_contains(b, b[0]);
        assert(a.contains(a[0]) && b.contains(b[0]));
        let i = choose|i: int| 0 <= i < a.len() && a[i] == b[0];
        let j = choose|j: int| 0 <= j < b.len() && b[j] == a[0];
        if j > 0 {
            assert(lint::edit_before(b[0], b[j]));
            if i > 0 {
                assert(!lint::edit_before(a[i], a[0]));
            }
        }
        assert(a[0] == b[0]);
        vstd::seq_lib::to_multiset_remove(a, 0);
        vstd::seq_lib::to_multiset_remove(b, 0);
        let (c, d) = (a.remove(0), b.remove(0));
        assert(forall|i: int| 0 <= i < c.len() ==> c[i] == a[i + 1]);
        assert(forall|i: int| 0 <= i < d.len() ==> d[i] == b[i + 1]);
        lemma_same_edits(c, d);
        assert(a =~= seq![a[0]] + c);
        assert(b =~= seq![b[0]] + d);
    } else {
        assert(a =~= b);
    }
}

// ---------------------------------------------------------------------------
// Lines
// ---------------------------------------------------------------------------
/// A line without the blanks before its line ending.
pub open spec fn tidy_line(line: Seq<char>) -> Seq<char> {
    line.take(checks::unblanked(line)) + text::line_ending(line)
}

/// The lines of `t[i..]`, without the blanks at their ends where `blanks` is
/// set, and with a newline at the end of the text where `newline` is set.
pub open spec fn tidied_from(t: Seq<char>, i: int, blanks: bool, newline: bool) -> Seq<char>
    decreases t.len() - i,
{
    let e = text::line_end(t, i);
    if 0 <= i < e <= t.len() {
        (if blanks {
            tidy_line(t.subrange(i, e))
        } else {
            t.subrange(i, e)
        }) + tidied_from(t, e, blanks, newline)
    } else if newline && t.len() > 0 && t.last() != '\n' {
        "\n"@
    } else {
        Seq::empty()
    }
}

/// Whether `options` reports blanks at the ends of lines.
pub open spec fn fixes_blanks(options: OptionsView) -> bool {
    !options.disabled.contains(rules::rule_view(RULE_TRAILING_WHITESPACE as nat).id)
}

/// Whether `options` reports a text that does not end with a newline.
pub open spec fn fixes_newline(options: OptionsView) -> bool {
    !options.disabled.contains(rules::rule_view(RULE_FINAL_NEWLINE as nat).id)
}

/// A text as the safe edits leave it.
pub open spec fn tidied(t: Seq<char>, options: OptionsView) -> Seq<char> {
    tidied_from(t, 0, fixes_blanks(options), fixes_newline(options))
}

/// The edits on the lines of `t[i..]`.
spec fn line_edits(t: Seq<char>, i: int, options: OptionsView) -> Seq<FixView> {
    wanted(t, checks::trailing_from(t, i) + checks::final_newline(t), options)
}

/// The edits replace whole characters of `t` from `i` on, in order and apart.
spec fn good_edits(t: Seq<char>, items: Seq<FixView>, i: int) -> bool {
    &&& ascending(items)
    &&& forall|j: int| 0 <= j < items.len() ==> lint::edit_fits(t, #[trigger] items[j])
    &&& forall|j: int| 0 <= j < items.len() ==> tree::offset_of(t, i) <= (#[trigger] items[j]).start
    &&& forall|a: int, b: int|
        0 <= a < b < items.len() ==> (#[trigger] items[a]).end <= (#[trigger] items[b]).start
}

proof fn lemma_edited_skip(t: Seq<char>, items: Seq<FixView>, k: int, at: int)
    requires
        0 <= k <= items.len(),
    ensures
        lint::edited_from(t, items, k, at) == lint::edited_from(t, items.skip(k), 0, at),
    decreases items.len() - k,
{
    if k == 0 {
        assert(items.skip(0) =~= items);
    } else if k < items.len() {
        let next = text::chars_before(t, items[k].end);
        lemma_edited_skip(t, items, k + 1, next);
        lemma_edited_skip(t, items.skip(k), 1, next);
        assert(items.skip(k).skip(1) =~= items.skip(k + 1));
    }
}

proof fn lemma_edited_from(t: Seq<char>, items: Seq<FixView>, a: int, b: int)
    requires
        0 <= a <= b <= t.len(),
        items.len() > 0 ==> b <= text::chars_before(t, items[0].start) <= t.len(),
    ensures
        lint::edited_from(t, items, 0, a) == t.subrange(a, b) + lint::edited_from(t, items, 0, b),
{
    if items.len() == 0 {
        assert(t.skip(a) =~= t.subrange(a, b) + t.skip(b));
    } else {
        let c = text::chars_before(t, items[0].start);
        assert(t.subrange(a, c) =~= t.subrange(a, b) + t.subrange(b, c));
        let rest = items[0].replacement + lint::edited_from(
            t,
            items,
            1,
            text::chars_before(t, items[0].end),
        );
        assert(lint::edited_from(t, items, 0, a) =~= t.subrange(a, c) + rest);
        assert(lint::edited_from(t, items, 0, b) =~= t.subrange(b, c) + rest);
        assert((t.subrange(a, b) + t.subrange(b, c)) + rest =~= t.subrange(a, b) + (t.subrange(b, c)
            + rest));
    }
}

/// The place of a character among the bytes.
proof fn lemma_offset(t: Seq<char>, a: int, b: int)
    requires
        0 <= a <= b <= t.len(),
    ensures
        tree::offset_of(t, a) <= tree::offset_of(t, b) <= text::byte_len(t),
        a < b ==> tree::offset_of(t, a) < tree::offset_of(t, b),
        text::chars_before(t, tree::offset_of(t, a)) == a,
        text::chars_before(t, tree::offset_of(t, b)) == b,
        text::at_boundary(t, tree::offset_of(t, a)),
        text::at_boundary(t, tree::offset_of(t, b)),
{
    text::lemma_byte_len_range(t, a, b);
    text::lemma_chars_before(t, a);
    text::lemma_chars_before(t, b);
    text::lemma_byte_len_at_least(t.subrange(a, b));
}

/// The edits after the last line.
proof fn lemma_end_edits(t: Seq<char>, options: OptionsView)
    ensures
        good_edits(t, wanted(t, checks::final_newline(t), options), t.len() as int),
        lint::edited_from(t, wanted(t, checks::final_newline(t), options), 0, t.len() as int)
            == tidied_from(t, t.len() as int, fixes_blanks(options), fixes_newline(options)),
{
    let n = t.len() as int;
    let found = checks::final_newline(t);
    let items = wanted(t, found, options);
    lemma_offset(t, n, n);
    assert(t.take(n) =~= t);
    assert(text::line_end(t, n) == n);
    if found.len() > 0 {
        assert(found =~= seq![found[0]]);
        lemma_wanted_one(t, found[0], options);
        assert(found[0].rule == RULE_FINAL_NEWLINE as nat);
        if fixes_newline(options) {
            assert(items =~= proposed(t, found[0]));
            assert(items.len() == 1 && items[0].replacement == "\n"@);
            assert(t.subrange(n, n) + "\n"@ + t.skip(n) =~= "\n"@);
            assert(lint::edited_from(t, items, 1, n) == t.skip(n));
        } else {
            assert(items =~= Seq::empty());
            assert(t.skip(n) =~= Seq::empty());
        }
    } else {
        assert(items =~= Seq::empty());
        assert(t.skip(n) =~= Seq::empty());
    }
}

/// An edit before others.
proof fn lemma_edit_first(t: Seq<char>, f: FixView, items: Seq<FixView>, i: int, e: int)
    requires
        0 <= i <= e <= t.len(),
        good_edits(t, items, e),
        lint::edit_fits(t, f),
        tree::offset_of(t, i) <= f.start < f.end <= tree::offset_of(t, e),
    ensures
        good_edits(t, seq![f] + items, i),
{
    let all = seq![f] + items;
    lemma_offset(t, i, e);
    assert(forall|j: int| 0 < j < all.len() ==> all[j] == items[j - 1]);
    assert(all[0] == f);
}

proof fn lemma_line_edits(t: Seq<char>, i: int, options: OptionsView)
    requires
        0 <= i <= t.len(),
    ensures
        good_edits(t, line_edits(t, i, options), i),
        lint::edited_from(t, line_edits(t, i, options), 0, i) == tidied_from(
            t,
            i,
            fixes_blanks(options),
            fixes_newline(options),
        ),
    decreases t.len() - i,
{
    let e = text::line_end(t, i);
    text::lemma_line_end(t, i);
    let last = checks::final_newline(t);
    if i < t.len() {
        lemma_line_edits(t, e, options);
        let line = t.subrange(i, e);
        let c = text::content_len(line);
        let u = checks::unblanked(line);
        text::lemma_tail(text::line_content(line), CharClass::Indent, c);
        let rest = line_edits(t, e, options);
        let later = checks::trailing_from(t, e) + last;
        lemma_offset(t, i, e);
        assert(rest.len() > 0 ==> text::chars_before(t, rest[0].start) >= e) by {
            if rest.len() > 0 {
                assert(lint::edit_fits(t, rest[0]));
                lint::lemma_chars_before_monotonic(t, tree::offset_of(t, e), rest[0].start);
            }
        }
        if rest.len() > 0 {
            assert(lint::edit_fits(t, rest[0]));
        }
        if u != c {
            let f = checks::trailing_finding(i + u, i + c);
            assert(checks::trailing_from(t, i) + last =~= seq![f] + later);
            lemma_wanted_add(t, seq![f], later, options);
            lemma_wanted_one(t, f, options);
            lemma_offset(t, i + u, i + c);
            lemma_offset(t, i, i + u);
            lemma_offset(t, i + c, e);
            if fixes_blanks(options) {
                let x = proposed(t, f)[0];
                assert(wanted(t, seq![f], options) =~= seq![x]);
                let all = seq![x] + rest;
                lemma_edit_first(t, x, rest, i, e);
                lemma_edited_skip(t, all, 1, i + c);
                assert(all.skip(1) =~= rest);
                lemma_edited_from(t, rest, i + c, e);
                reveal_strlit("");
                assert(x.replacement =~= Seq::empty());
                let after = lint::edited_from(t, rest, 0, e);
                assert(lint::edited_from(t, all, 0, i) == t.subrange(i, i + u) + x.replacement + (
                t.subrange(i + c, e) + after));
                assert(line.take(u) =~= t.subrange(i, i + u));
                assert(text::line_ending(line) =~= t.subrange(i + c, e));
                assert(lint::edited_from(t, all, 0, i) =~= tidy_line(line) + after);
            } else {
                assert(wanted(t, seq![f], options) =~= Seq::empty());
                assert(line_edits(t, i, options) =~= rest);
                lemma_edited_from(t, rest, i, e);
            }
        } else {
            assert(line_edits(t, i, options) == rest);
            lemma_edited_from(t, rest, i, e);
            assert(tidy_line(line) =~= line);
        }
    } else {
        assert(checks::trailing_from(t, i) + last =~= last);
        lemma_end_edits(t, options);
    }
}

proof fn lemma_no_misfit(t: Seq<char>, items: Seq<FixView>, k: int)
    requires
        0 <= k <= items.len(),
        forall|j: int| 0 <= j < items.len() ==> lint::edit_fits(t, #[trigger] items[j]),
    ensures
        lint::misfit_from(t, items, k) == items.len(),
    decreases items.len() - k,
{
    if k < items.len() {
        lemma_no_misfit(t, items, k + 1);
    }
}

proof fn lemma_no_overlap(items: Seq<FixView>, k: int)
    requires
        0 <= k <= items.len(),
        forall|a: int, b: int|
            0 <= a < b < items.len() ==> (#[trigger] items[a]).end <= (#[trigger] items[b]).start,
    ensures
        lint::overlap_from(items, k) == items.len(),
    decreases items.len() - k,
{
    if k + 1 < items.len() {
        assert(items[k].end <= items[k + 1].start);
        lemma_no_overlap(items, k + 1);
    }
}

/// What the edits of a report do whose findings on lines come first.
proof fn lemma_report_tidies(source: Seq<char>, rest: Seq<FindingView>, options: OptionsView)
    requires
        plain(rest),
    ensures
        lint::applied(
            source,
            lint::final_diagnostics(
                findings::all_diagnosed(source, line_findings(source) + rest),
                options,
            ),
        ) == Ok::<Seq<char>, LintFixErrorView>(tidied(source, options)),
{
    let found = line_findings(source) + rest;
    let all = lint::unlabeled(findings::all_diagnosed(source, found));
    let edits = edits_of(
        lint::final_diagnostics(findings::all_diagnosed(source, found), options),
    );
    let goal = line_edits(source, 0, options);
    lemma_arranged_edits(all, options, 0);
    lemma_selected_edits(source, found, options, 0);
    assert(found.skip(0) =~= found);
    lemma_wanted_add(source, line_findings(source), rest, options);
    lemma_wanted_plain(source, rest, options);
    assert(wanted(source, found, options) =~= goal);
    lemma_line_edits(source, 0, options);
    lemma_ordered_edits(edits, 0);
    assert(edits.skip(0) =~= edits);
    lemma_same_edits(lint::ordered_edits(edits, 0), goal);
    lemma_no_misfit(source, goal, 0);
    lemma_no_overlap(goal, 0);
}

/// Whether blanks before a carriage return stand at the end of a line once
/// the line is tidied.
pub open spec fn hides_blank(line: Seq<char>) -> bool {
    let body = line.take(checks::unblanked(line));
    body.len() >= 2 && body.last() == '\r' && text::in_class(
        CharClass::Indent,
        body[body.len() - 2],
    ) && text::line_ending(line).len() < 2
}

/// Whether a line of `t[i..]` hides blanks.
pub open spec fn hides_blanks(t: Seq<char>, i: int) -> bool
    decreases t.len() - i,
{
    let e = text::line_end(t, i);
    0 <= i < e <= t.len() && (hides_blank(t.subrange(i, e)) || hides_blanks(t, e))
}

/// A tidied line has no blanks at its end.
proof fn lemma_tidy_line(line: Seq<char>, ending: Seq<char>)
    requires
        !hides_blank(line),
        ending.len() == 1 ==> ending[0] == '\n',
        ending.len() == 2 ==> ending[0] == '\r' && ending[1] == '\n',
        1 <= ending.len() <= 2,
        text::line_ending(line).len() == 0 || ending == text::line_ending(line),
        text::line_ending(line).len() == 0 ==> ending.len() == 1,
    ensures
        ({
            let tidy = line.take(checks::unblanked(line)) + ending;
            checks::unblanked(tidy) == text::content_len(tidy)
        }),
{
    let content = text::line_content(line);
    let c = text::content_len(line);
    text::lemma_tail(content, CharClass::Indent, c);
    let u = checks::unblanked(line);
    let body = line.take(u);
    let tidy = body + ending;
    let n = text::content_len(tidy);
    assert(u > 0 ==> body[u - 1] == content[u - 1]);
    assert(tidy.last() == '\n');
    if n > 0 {
        assert(text::line_content(tidy)[n - 1] == body[n - 1]);
        assert(!text::in_class(CharClass::Indent, body[n - 1]));
    }
}

/// The text after `before` has no blanks at the ends of its lines.
proof fn lemma_tidied_clean(t: Seq<char>, i: int, before: Seq<char>)
    requires
        0 <= i <= t.len(),
        !hides_blanks(t, i),
    ensures
        checks::trailing_from(before + tidied_from(t, i, true, true), before.len() as int).len()
            == 0,
    decreases t.len() - i,
{
    let all = before + tidied_from(t, i, true, true);
    let a = before.len() as int;
    let e = text::line_end(t, i);
    text::lemma_line_end(t, i);
    reveal_strlit("\n");
    if i < t.len() {
        let line = t.subrange(i, e);
        let c = text::content_len(line);
        text::lemma_tail(text::line_content(line), CharClass::Indent, c);
        let u = checks::unblanked(line);
        assert(forall|k: int| 0 <= k < u ==> line[k] == t[i + k]);
        let rest = tidied_from(t, e, true, true);
        if line.last() == '\n' {
            let tidy = tidy_line(line);
            assert(text::line_ending(line).len() >= 1);
            lemma_tidy_line(line, text::line_ending(line));
            assert((before + tidy) + rest =~= all);
            let b = a + tidy.len();
            assert(all[b - 1] == tidy.last() == '\n');
            assert(forall|k: int| a <= k < b ==> all[k] == tidy[k - a]);
            text::lemma_line_end_unique(all, a, b);
            assert(all.subrange(a, b) =~= tidy);
            lemma_tidied_clean(t, e, before + tidy);
        } else {
            assert(e == t.len() && t.last() != '\n');
            assert(text::line_end(t, e) == e);
            assert(rest == "\n"@);
            let tidy = line.take(u) + "\n"@;
            lemma_tidy_line(line, "\n"@);
            assert(tidy_line(line) =~= line.take(u));
            assert(all =~= before + tidy);
            let b = all.len() as int;
            assert(forall|k: int| a <= k < b ==> all[k] == tidy[k - a]);
            text::lemma_line_end_unique(all, a, b);
            assert(all.subrange(a, b) =~= tidy);
            assert(text::line_end(all, b) == b);
            assert(checks::trailing_from(all, b).len() == 0);
        }
    } else {
        let b = all.len() as int;
        assert(e == i);
        if b > a {
            assert(all[a] == '\n');
            text::lemma_line_end_unique(all, a, b);
            let line = all.subrange(a, b);
            assert(text::content_len(line) == 0);
            assert(text::line_end(all, b) == b);
            assert(checks::trailing_from(all, b).len() == 0);
        } else {
            assert(text::line_end(all, b) == b);
        }
    }
}

proof fn lemma_tidied_end(t: Seq<char>, i: int)
    requires
        0 <= i <= t.len(),
    ensures
        ({
            let tidy = tidied_from(t, i, true, true);
            tidy.len() == 0 || tidy.last() == '\n'
        }),
        i < t.len() ==> tidied_from(t, i, true, true).len() > 0,
    decreases t.len() - i,
{
    reveal_strlit("\n");
    let e = text::line_end(t, i);
    text::lemma_line_end(t, i);
    if i < t.len() {
        lemma_tidied_end(t, e);
        let line = t.subrange(i, e);
        text::lemma_tail(text::line_content(line), CharClass::Indent, text::content_len(line));
        let rest = tidied_from(t, e, true, true);
        assert(line.last() == t[e - 1]);
        if rest.len() > 0 {
            assert((tidy_line(line) + rest).last() == rest.last());
        } else {
            assert(e == t.len());
            assert(text::line_end(t, e) == e);
            assert(t.last() == '\n');
            assert(tidy_line(line).last() == '\n');
            assert(tidy_line(line) + rest =~= tidy_line(line));
        }
    } else {
        assert(e == i);
    }
}

/// What the edits of a report on one file do.
pub proof fn lemma_file_tidies(
    source: Seq<char>,
    bodies: Seq<Vec<BodyDiagnostic>>,
    options: OptionsView,
)
    ensures
        lint::applied(source, lint::file_diagnostics(source, bodies, options)) == Ok::<
            Seq<char>,
            LintFixErrorView,
        >(tidied(source, options)),
{
    lemma_later_plain(source, bodies);
    lemma_report_tidies(source, later_findings(source, bodies), options);
}

// ---------------------------------------------------------------------------
// Laws
// ---------------------------------------------------------------------------
/// The safe edits of a lint run always apply to the text that was linted, and
/// they do no more than remove the blanks at the ends of lines and append a
/// final newline, each where its rule is reported.
pub proof fn law_fixes_tidy_lines(
    source: Seq<char>,
    bodies: Seq<Vec<BodyDiagnostic>>,
    path: Seq<char>,
    index: IndexView,
    options: OptionsView,
)
    ensures
        lint::applied(source, lint::file_diagnostics(source, bodies, options)) == Ok::<
            Seq<char>,
            LintFixErrorView,
        >(tidied(source, options)),
        lint::applied(source, lint::workspace_diagnostics(source, bodies, path, index, options)) == Ok::<
            Seq<char>,
            LintFixErrorView,
        >(tidied(source, options)),
{
    lemma_file_tidies(source, bodies, options);
    let rest = lemma_workspace_plain(source, bodies, path, index);
    lemma_report_tidies(source, rest, options);
}

/// Once the safe edits are made, nothing is left for them to do: no line of
/// the text ends with blanks, and the text ends with a newline. A line whose
/// blanks a carriage return hides is left out.
pub proof fn law_fixed_texts_are_tidy(source: Seq<char>)
    requires
        !hides_blanks(source, 0),
    ensures
        line_findings(tidied_from(source, 0, true, true)).len() == 0,
{
    let tidy = tidied_from(source, 0, true, true);
    lemma_tidied_clean(source, 0, Seq::empty());
    assert(Seq::<char>::empty() + tidy =~= tidy);
    lemma_tidied_end(source, 0);
}

} // verus!
