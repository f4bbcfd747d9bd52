//! What the choice of rules, the lack of a workspace and the safe edits do to a
//! lint report.
use crate::checks;
use crate::findings;
use crate::fixes;
use crate::lint;
use crate::paths;
use crate::recipes;
use crate::rules;
use crate::text;
use crate::workspace;
use crate::checks::BodyDiagnostic;
use crate::dependencies::IndexView;
use crate::findings::DiagnosticView;
use crate::findings::FindingView;
use crate::lint::LabeledView;
use crate::rules::OptionsView;
use crate::rules::RULE_COUNT;
use crate::rules::RULE_FINAL_NEWLINE;
use crate::rules::RULE_TRAILING_WHITESPACE;
use vstd::prelude::*;

verus! {

// ---------------------------------------------------------------------------
// Members of a report
// ---------------------------------------------------------------------------
/// What is reported was found.
proof fn lemma_arranged_member(
    items: Seq<LabeledView>,
    options: OptionsView,
    k: int,
    j: int,
) -> (i: int)
    requires
        0 <= k <= items.len(),
        0 <= j < lint::arranged_from(items, options, k).len(),
    ensures
        k <= i < items.len(),
        lint::arranged_from(items, options, k)[j] == lint::adjusted_view(options, items[i]),
    decreases items.len() - k,
{
    if k >= items.len() {
        k
    } else {
        let rest = lint::arranged_from(items, options, k + 1);
        if options.disabled.contains(items[k].diagnostic.rule_id) {
            lemma_arranged_member(items, options, k + 1, j)
        } else {
            let x = lint::adjusted_view(options, items[k]);
            let p = lint::report_place(rest, x, 0);
            lint::lemma_report_place(rest, x, 0);
            if j < p {
                lemma_arranged_member(items, options, k + 1, j)
            } else if j == p {
                k
            } else {
                lemma_arranged_member(items, options, k + 1, j - 1)
            }
        }
    }
}

/// What is reported of one file was found in it.
proof fn lemma_final_member(
    source: Seq<char>,
    found: Seq<FindingView>,
    options: OptionsView,
    j: int,
) -> (i: int)
    requires
        0 <= j < lint::final_diagnostics(findings::all_diagnosed(source, found), options).len(),
    ensures
        0 <= i < found.len(),
        ({
            let d = lint::final_diagnostics(findings::all_diagnosed(source, found), options)[j];
            let f = findings::diagnosed(source, found[i]);
            d == (DiagnosticView {
                severity: rules::effective(options, f.rule_id, f.severity),
                ..f
            })
        }),
{
    let all = lint::unlabeled(findings::all_diagnosed(source, found));
    lemma_arranged_member(all, options, 0, j)
}

/// The two rules on lines have their identifiers to themselves.
proof fn lemma_line_rules(k: nat)
    requires
        k < RULE_COUNT,
    ensures
        (rules::rule_view(k).id == "BBT001"@) == (k == RULE_TRAILING_WHITESPACE),
        (rules::rule_view(k).id == "BBT002"@) == (k == RULE_FINAL_NEWLINE),
{
    lemma_rule_number(k);
    reveal(rules::rule_view);
    lemma_rule_number(RULE_TRAILING_WHITESPACE as nat);
    lemma_rule_number(RULE_FINAL_NEWLINE as nat);
}

/// The identifier of a rule ends in its number.
pub proof fn lemma_rule_number(k: nat)
    requires
        k < RULE_COUNT,
    ensures
        rules::rule_view(k).id.len() == 6,
        rules::rule_view(k).id[4] as int == '0' as int + (k + 1) / 10,
        rules::rule_view(k).id[5] as int == '0' as int + (k + 1) % 10,
{
    reveal(rules::rule_view);
    let id = rules::rule_view(k).id;
    if k == 0 {
        reveal_strlit("BBT001");
        assert(id.len() == 6 && id[4] == '0' && id[5] == '1');
    } else if k == 1 {
        reveal_strlit("BBT002");
        assert(id.len() == 6 && id[4] == '0' && id[5] == '2');
    } else if k == 2 {
        reveal_strlit("BBT003");
        assert(id.len() == 6 && id[4] == '0' && id[5] == '3');
    } else if k == 3 {
        reveal_strlit("BBT004");
        assert(id.len() == 6 && id[4] == '0' && id[5] == '4');
    } else if k == 4 {
        reveal_strlit("BBT005");
        assert(id.len() == 6 && id[4] == '0' && id[5] == '5');
    } else if k == 5 {
        reveal_strlit("BBT006");
        assert(id.len() == 6 && id[4] == '0' && id[5] == '6');
    } else if k == 6 {
        reveal_strlit("BBT007");
        assert(id.len() == 6 && id[4] == '0' && id[5] == '7');
    } else if k == 7 {
        reveal_strlit("BBT008");
        assert(id.len() == 6 && id[4] == '0' && id[5] == '8');
    } else if k == 8 {
        reveal_strlit("BBT009");
        assert(id.len() == 6 && id[4] == '0' && id[5] == '9');
    } else if k == 9 {
        reveal_strlit("BBT010");
        assert(id.len() == 6 && id[4] == '1' && id[5] == '0');
    } else if k == 10 {
        reveal_strlit("BBT011");
        assert(id.len() == 6 && id[4] == '1' && id[5] == '1');
    } else if k == 11 {
        reveal_strlit("BBT012");
        assert(id.len() == 6 && id[4] == '1' && id[5] == '2');
    } else if k == 12 {
        reveal_strlit("BBT013");
        assert(id.len() == 6 && id[4] == '1' && id[5] == '3');
    } else if k == 13 {
        reveal_strlit("BBT014");
        assert(id.len() == 6 && id[4] == '1' && id[5] == '4');
    } else if k == 14 {
        reveal_strlit("BBT015");
        assert(id.len() == 6 && id[4] == '1' && id[5] == '5');
    } else if k == 15 {
        reveal_strlit("BBT016");
        assert(id.len() == 6 && id[4] == '1' && id[5] == '6');
    } else if k == 16 {
        reveal_strlit("BBT017");
        assert(id.len() == 6 && id[4] == '1' && id[5] == '7');
    } else if k == 17 {
        reveal_strlit("BBT018");
        assert(id.len() == 6 && id[4] == '1' && id[5] == '8');
    } else if k == 18 {
        reveal_strlit("BBT019");
        assert(id.len() == 6 && id[4] == '1' && id[5] == '9');
    } else if k == 19 {
        reveal_strlit("BBT020");
        assert(id.len() == 6 && id[4] == '2' && id[5] == '0');
    } else if k == 20 {
        reveal_strlit("BBT021");
        assert(id.len() == 6 && id[4] == '2' && id[5] == '1');
    } else if k == 21 {
        reveal_strlit("BBT022");
        assert(id.len() == 6 && id[4] == '2' && id[5] == '2');
    } else if k == 22 {
        reveal_strlit("BBT023");
        assert(id.len() == 6 && id[4] == '2' && id[5] == '3');
    } else if k == 23 {
        reveal_strlit("BBT024");
        assert(id.len() == 6 && id[4] == '2' && id[5] == '4');
    } else if k == 24 {
        reveal_strlit("BBT025");
        assert(id.len() == 6 && id[4] == '2' && id[5] == '5');
    } else if k == 25 {
        reveal_strlit("BBT026");
        assert(id.len() == 6 && id[4] == '2' && id[5] == '6');
    } else if k == 26 {
        reveal_strlit("BBT027");
        assert(id.len() == 6 && id[4] == '2' && id[5] == '7');
    } else if k == 27 {
        reveal_strlit("BBT028");
        assert(id.len() == 6 && id[4] == '2' && id[5] == '8');
    } else if k == 28 {
        reveal_strlit("BBT029");
        assert(id.len() == 6 && id[4] == '2' && id[5] == '9');
    } else if k == 29 {
        reveal_strlit("BBT030");
        assert(id.len() == 6 && id[4] == '3' && id[5] == '0');
    } else if k == 30 {
        reveal_strlit("BBT031");
        assert(id.len() == 6 && id[4] == '3' && id[5] == '1');
    } else if k == 31 {
        reveal_strlit("BBT032");
        assert(id.len() == 6 && id[4] == '3' && id[5] == '2');
    } else if k == 32 {
        reveal_strlit("BBT033");
        assert(id.len() == 6 && id[4] == '3' && id[5] == '3');
    } else if k == 33 {
        reveal_strlit("BBT034");
        assert(id.len() == 6 && id[4] == '3' && id[5] == '4');
    } else if k == 34 {
        reveal_strlit("BBT035");
        assert(id.len() == 6 && id[4] == '3' && id[5] == '5');
    } else if k == 35 {
        reveal_strlit("BBT036");
        assert(id.len() == 6 && id[4] == '3' && id[5] == '6');
    }
}

/// The findings on lines are of the two rules that propose an edit.
proof fn lemma_line_findings(source: Seq<char>, i: int)
    ensures
        forall|j: int|
            0 <= j < checks::trailing_from(source, i).len() ==> (#[trigger] checks::trailing_from(
                source,
                i,
            )[j]).rule == RULE_TRAILING_WHITESPACE && checks::trailing_from(source, i)[j].edit is Some,
    decreases source.len() - i,
{
    let e = text::line_end(source, i);
    if 0 <= i < e <= source.len() {
        lemma_line_findings(source, e);
        let rest = checks::trailing_from(source, e);
        let all = checks::trailing_from(source, i);
        assert forall|j: int| 0 <= j < all.len() implies (#[trigger] all[j]).rule
            == RULE_TRAILING_WHITESPACE && all[j].edit is Some by {
            if all.len() > rest.len() && j > 0 {
                assert(all[j] == rest[j - 1]);
            }
        }
    }
}

/// A finding on a file proposes an edit exactly where it is of one of the two
/// rules on lines.
proof fn lemma_edit_is_of_line(source: Seq<char>, rest: Seq<FindingView>, i: int)
    requires
        fixes::plain(rest),
        0 <= i < (fixes::line_findings(source) + rest).len(),
    ensures
        ({
            let f = (fixes::line_findings(source) + rest)[i];
            f.rule < RULE_COUNT && (f.edit is Some) == (f.rule <= RULE_FINAL_NEWLINE)
        }),
{
    lemma_line_findings(source, 0);
    let lines = fixes::line_findings(source);
    let trailing = checks::trailing_from(source, 0);
    if i < trailing.len() {
        assert((lines + rest)[i] == trailing[i]);
    } else if i < lines.len() {
        assert((lines + rest)[i] == checks::final_newline(source)[i - trailing.len()]);
    } else {
        assert((lines + rest)[i] == rest[i - lines.len()]);
    }
}

proof fn lemma_report_fixes(
    source: Seq<char>,
    rest: Seq<FindingView>,
    options: OptionsView,
    j: int,
)
    requires
        fixes::plain(rest),
        0 <= j < lint::final_diagnostics(
            findings::all_diagnosed(source, fixes::line_findings(source) + rest),
            options,
        ).len(),
    ensures
        ({
            let d = lint::final_diagnostics(
                findings::all_diagnosed(source, fixes::line_findings(source) + rest),
                options,
            )[j];
            (d.fixes.len() > 0) == (d.rule_id == "BBT001"@ || d.rule_id == "BBT002"@)
        }),
{
    let found = fixes::line_findings(source) + rest;
    let i = lemma_final_member(source, found, options, j);
    lemma_edit_is_of_line(source, rest, i);
    lemma_line_rules(found[i].rule);
}

/// A diagnostic of a file, alone or in a workspace, has a safe edit exactly
/// where its rule is `BBT001` or `BBT002`.
pub proof fn law_line_rules_alone_are_fixable(
    source: Seq<char>,
    bodies: Seq<Vec<BodyDiagnostic>>,
    path: Seq<char>,
    index: IndexView,
    options: OptionsView,
)
    ensures
        forall|j: int|
            0 <= j < lint::file_diagnostics(source, bodies, options).len() ==> ((
            #[trigger] lint::file_diagnostics(source, bodies, options)[j]).fixes.len() > 0) == (
            lint::file_diagnostics(source, bodies, options)[j].rule_id == "BBT001"@
                || lint::file_diagnostics(source, bodies, options)[j].rule_id == "BBT002"@),
        forall|j: int|
            0 <= j < lint::workspace_diagnostics(source, bodies, path, index, options).len() ==> ((
            #[trigger] lint::workspace_diagnostics(source, bodies, path, index, options)[j]).fixes.len()
                > 0) == (lint::workspace_diagnostics(source, bodies, path, index, options)[j].rule_id
                == "BBT001"@ || lint::workspace_diagnostics(source, bodies, path, index, options)[j].rule_id
                == "BBT002"@),
{
    fixes::lemma_later_plain(source, bodies);
    let alone = fixes::later_findings(source, bodies);
    assert forall|j: int| 0 <= j < lint::file_diagnostics(source, bodies, options).len() implies ((
    #[trigger] lint::file_diagnostics(source, bodies, options)[j]).fixes.len() > 0) == (
    lint::file_diagnostics(source, bodies, options)[j].rule_id == "BBT001"@
        || lint::file_diagnostics(source, bodies, options)[j].rule_id == "BBT002"@) by {
        lemma_report_fixes(source, alone, options, j);
    }
    let rest = fixes::lemma_workspace_plain(source, bodies, path, index);
    assert forall|j: int|
        0 <= j < lint::workspace_diagnostics(source, bodies, path, index, options).len() implies ((
    #[trigger] lint::workspace_diagnostics(source, bodies, path, index, options)[j]).fixes.len() > 0) == (
    lint::workspace_diagnostics(source, bodies, path, index, options)[j].rule_id == "BBT001"@
        || lint::workspace_diagnostics(source, bodies, path, index, options)[j].rule_id == "BBT002"@) by {
        lemma_report_fixes(source, rest, options, j);
    }
}

/// A text whose lines are tidy has no finding of the rules on lines.
pub proof fn lemma_tidy_report(
    source: Seq<char>,
    bodies: Seq<Vec<BodyDiagnostic>>,
    options: OptionsView,
    j: int,
)
    requires
        fixes::line_findings(source).len() == 0,
        0 <= j < lint::file_diagnostics(source, bodies, options).len(),
    ensures
        ({
            let d = lint::file_diagnostics(source, bodies, options)[j];
            d.rule_id != "BBT001"@ && d.rule_id != "BBT002"@
        }),
{
    fixes::lemma_later_plain(source, bodies);
    let found = checks::file_findings(source, bodies);
    let rest = fixes::later_findings(source, bodies);
    assert(found =~= rest);
    let i = lemma_final_member(source, found, options, j);
    assert(rest[i].rule > RULE_FINAL_NEWLINE);
    lemma_line_rules(found[i].rule);
}

// ---------------------------------------------------------------------------
// The choice of rules
// ---------------------------------------------------------------------------
/// Whether `options` reports a diagnostic.
pub open spec fn is_enabled(options: OptionsView) -> spec_fn(DiagnosticView) -> bool {
    |d: DiagnosticView| !options.disabled.contains(d.rule_id)
}

/// A diagnostic at the severity that `options` gives its rule.
pub open spec fn at_severity(options: OptionsView) -> spec_fn(DiagnosticView) -> DiagnosticView {
    |d: DiagnosticView|
        DiagnosticView { severity: rules::effective(options, d.rule_id, d.severity), ..d }
}

/// The diagnostics of the rules that `options` does not disable, at the
/// severities that it gives.
pub open spec fn chosen(items: Seq<DiagnosticView>, options: OptionsView) -> Seq<DiagnosticView> {
    items.filter(is_enabled(options)).map_values(at_severity(options))
}

proof fn lemma_selected_skip(items: Seq<LabeledView>, options: OptionsView, k: int)
    requires
        0 <= k <= items.len(),
    ensures
        lint::selected_from(items, options, k) == lint::selected_from(items.skip(k), options, 0),
    decreases items.len() - k,
{
    if k == 0 {
        assert(items.skip(0) =~= items);
    } else if k < items.len() {
        lemma_selected_skip(items, options, k + 1);
        lemma_selected_skip(items.skip(k), options, 1);
        assert(items.skip(k).skip(1) =~= items.skip(k + 1));
    }
}

proof fn lemma_selected_joined(a: Seq<LabeledView>, b: Seq<LabeledView>, options: OptionsView)
    ensures
        lint::selected_from(a + b, options, 0) == lint::selected_from(a, options, 0)
            + lint::selected_from(b, options, 0),
    decreases a.len(),
{
    if a.len() == 0 {
        assert(a + b =~= b);
        assert(lint::selected_from(a, options, 0) + lint::selected_from(b, options, 0)
            =~= lint::selected_from(b, options, 0));
    } else {
        let rest = a.skip(1);
        lemma_selected_joined(rest, b, options);
        lemma_selected_skip(a + b, options, 1);
        lemma_selected_skip(a, options, 1);
        assert((a + b).skip(1) =~= rest + b);
        assert(lint::selected_from(a + b, options, 0) =~= lint::selected_from(a, options, 0)
            + lint::selected_from(b, options, 0));
    }
}

/// What is selected was there.
proof fn lemma_selected_member(
    items: Seq<LabeledView>,
    options: OptionsView,
    k: int,
    j: int,
) -> (i: int)
    requires
        0 <= k <= items.len(),
        0 <= j < lint::selected_from(items, options, k).len(),
    ensures
        k <= i < items.len(),
        lint::selected_from(items, options, k)[j] == lint::adjusted_view(options, items[i]),
    decreases items.len() - k,
{
    if k >= items.len() {
        k
    } else if options.disabled.contains(items[k].diagnostic.rule_id) {
        lemma_selected_member(items, options, k + 1, j)
    } else if j == 0 {
        k
    } else {
        let i = lemma_selected_member(items, options, k + 1, j - 1);
        assert(lint::selected_from(items, options, k)[j] == lint::selected_from(
            items,
            options,
            k + 1,
        )[j - 1]);
        i
    }
}

proof fn lemma_place_unique(items: Seq<LabeledView>, x: LabeledView, k: int, p: int)
    requires
        0 <= k <= p <= items.len(),
        forall|i: int| k <= i < p ==> lint::reported_before(#[trigger] items[i], x),
        p < items.len() ==> !lint::reported_before(items[p], x),
    ensures
        lint::report_place(items, x, k) == p,
    decreases p - k,
{
    if k < p {
        lemma_place_unique(items, x, k + 1, p);
    }
}

/// To select from a report with one more diagnostic is to add it to what is
/// selected from the report.
proof fn lemma_selected_report(items: Seq<LabeledView>, x: LabeledView, options: OptionsView)
    requires
        lint::in_order(items),
    ensures
        lint::selected_from(lint::with_report(items, x), options, 0) == if options.disabled.contains(
            x.diagnostic.rule_id,
        ) {
            lint::selected_from(items, options, 0)
        } else {
            lint::with_report(
                lint::selected_from(items, options, 0),
                lint::adjusted_view(options, x),
            )
        },
{
    let p = lint::report_place(items, x, 0);
    lint::lemma_report_place(items, x, 0);
    let a = items.take(p);
    let b = items.skip(p);
    assert(a + b =~= items);
    assert(lint::with_report(items, x) =~= (a + seq![x]) + b);
    lemma_selected_joined(a, b, options);
    lemma_selected_joined(a + seq![x], b, options);
    lemma_selected_joined(a, seq![x], options);
    let first = lint::selected_from(a, options, 0);
    let last = lint::selected_from(b, options, 0);
    let one = lint::selected_from(seq![x], options, 0);
    assert(lint::selected_from(seq![x], options, 1) =~= Seq::empty());
    if options.disabled.contains(x.diagnostic.rule_id) {
        assert(one =~= Seq::empty());
        assert(first + one + last =~= first + last);
    } else {
        let y = lint::adjusted_view(options, x);
        assert(one =~= seq![y]);
        let all = first + last;
        let n = first.len() as int;
        assert forall|i: int| 0 <= i < n implies lint::reported_before(#[trigger] all[i], y) by {
            let m = lemma_selected_member(a, options, 0, i);
            assert(a[m] == items[m]);
            assert(all[i] == first[i]);
        }
        if n < all.len() {
            let m = lemma_selected_member(b, options, 0, 0);
            assert(b[m] == items[p + m]);
            assert(all[n] == last[0]);
            if m > 0 {
                lint::lemma_reported_transitive(x, items[p], items[p + m]);
            }
        }
        lemma_place_unique(all, y, 0, n);
        assert(all.insert(n, y) =~= first + one + last);
    }
}

proof fn lemma_arranged_selected(items: Seq<LabeledView>, options: OptionsView, k: int)
    requires
        0 <= k <= items.len(),
    ensures
        lint::arranged_from(items, options, k) == lint::selected_from(
            lint::arranged_from(items, rules::default_options(), k),
            options,
            0,
        ),
    decreases items.len() - k,
{
    if k < items.len() {
        let all = rules::default_options();
        lemma_arranged_selected(items, options, k + 1);
        lint::law_reports_are_complete_and_ordered(items, all, k + 1);
        assert(lint::adjusted_view(all, items[k]) == items[k]);
        lemma_selected_report(lint::arranged_from(items, all, k + 1), items[k], options);
    }
}

proof fn lemma_chosen(items: Seq<LabeledView>, options: OptionsView)
    ensures
        lint::without_labels(lint::selected_from(items, options, 0)) == chosen(
            lint::without_labels(items),
            options,
        ),
    decreases items.len(),
{
    let enabled = is_enabled(options);
    let all = lint::without_labels(items);
    if items.len() == 0 {
        reveal(Seq::filter);
        assert(all =~= Seq::empty());
        assert(all.filter(enabled) =~= Seq::empty());
        assert(chosen(all, options) =~= Seq::empty());
    } else {
        let rest = items.skip(1);
        lemma_selected_skip(items, options, 1);
        lemma_chosen(rest, options);
        let head = seq![all[0]];
        assert(all =~= head + lint::without_labels(rest));
        Seq::filter_distributes_over_add(head, lint::without_labels(rest), enabled);
        assert(head.filter(enabled) =~= if enabled(all[0]) {
            head
        } else {
            Seq::empty()
        }) by {
            reveal(Seq::filter);
            assert(head.drop_last() =~= Seq::empty());
            assert(head.drop_last().filter(enabled) =~= Seq::empty());
        }
        let tail = lint::without_labels(rest).filter(enabled);
        let f = at_severity(options);
        assert(chosen(all, options) =~= head.filter(enabled).map_values(f) + tail.map_values(f));
        if enabled(all[0]) {
            let y = lint::adjusted_view(options, items[0]);
            assert(lint::selected_from(items, options, 0) == seq![y] + lint::selected_from(
                rest,
                options,
                0,
            ));
            assert(head.map_values(f) =~= seq![y.diagnostic]);
            assert(lint::without_labels(lint::selected_from(items, options, 0)) =~= seq![
                y.diagnostic,
            ] + lint::without_labels(lint::selected_from(rest, options, 0)));
        } else {
            assert(chosen(all, options) =~= tail.map_values(f));
        }
    }
}

/// Options choose from the report without options: a lint run reports what one
/// with the default options reports, without the disabled rules and with the
/// severities replaced; order, places, messages and edits are the same. A text
/// that the one refuses, the other refuses with the same error.
pub proof fn law_options_choose_from_the_report(
    source: Seq<char>,
    bodies: Seq<Vec<BodyDiagnostic>>,
    path: Seq<char>,
    index: IndexView,
    options: OptionsView,
)
    ensures
        lint::file_diagnostics(source, bodies, options) == chosen(
            lint::file_diagnostics(source, bodies, rules::default_options()),
            options,
        ),
        lint::workspace_diagnostics(source, bodies, path, index, options) == chosen(
            lint::workspace_diagnostics(source, bodies, path, index, rules::default_options()),
            options,
        ),
{
    let alone = lint::unlabeled(
        findings::all_diagnosed(source, checks::file_findings(source, bodies)),
    );
    lemma_arranged_selected(alone, options, 0);
    lemma_chosen(lint::arranged_from(alone, rules::default_options(), 0), options);
    let placed = lint::unlabeled(
        findings::all_diagnosed(source, lint::workspace_findings(source, bodies, path, index)),
    );
    lemma_arranged_selected(placed, options, 0);
    lemma_chosen(lint::arranged_from(placed, rules::default_options(), 0), options);
}

// ---------------------------------------------------------------------------
// Files outside a complete layer
// ---------------------------------------------------------------------------
/// The identifiers of the rules that need a workspace.
pub open spec fn needs_workspace(id: Seq<char>) -> bool {
    exists|k: nat| fixes::workspace_rule(k) && #[trigger] rules::rule_view(k).id == id
}

/// A file that no complete layer holds is not checked against the workspace:
/// no rule from `BBT006` to `BBT013` or from `BBT029` to `BBT033` is reported,
/// and a file that is no recipe has the report that it has alone.
pub proof fn law_incomplete_layers_are_not_searched(
    source: Seq<char>,
    bodies: Seq<Vec<BodyDiagnostic>>,
    path: Seq<char>,
    index: IndexView,
    options: OptionsView,
)
    requires
        !workspace::complete_at(index.core, workspace::canonical(index.core.table, path)),
    ensures
        forall|j: int|
            0 <= j < lint::workspace_diagnostics(source, bodies, path, index, options).len()
                ==> !needs_workspace(
                (#[trigger] lint::workspace_diagnostics(source, bodies, path, index, options)[j]).rule_id,
            ),
        paths::extension(path) != Some("bb"@) ==> lint::workspace_diagnostics(
            source,
            bodies,
            path,
            index,
            options,
        ) == lint::file_diagnostics(source, bodies, options),
{
    let found = lint::workspace_findings(source, bodies, path, index);
    let file = checks::file_findings(source, bodies);
    let lines = fixes::line_findings(source);
    let later = fixes::later_findings(source, bodies);
    let recipe = recipes::recipe_findings(source, path);
    fixes::lemma_later_plain(source, bodies);
    fixes::lemma_recipe_plain(source, path);
    assert(found =~= file + recipe);
    assert(file == lines + later);
    let rest = later + recipe;
    assert(found =~= lines + rest);
    assert(fixes::plain(rest)) by {
        assert forall|i: int| 0 <= i < rest.len() implies (#[trigger] rest[i]).edit is None
            && RULE_FINAL_NEWLINE < rest[i].rule < RULE_COUNT by {
            if i < later.len() {
                assert(rest[i] == later[i]);
            } else {
                assert(rest[i] == recipe[i - later.len()]);
            }
        }
    }
    assert forall|j: int|
        0 <= j < lint::workspace_diagnostics(
            source,
            bodies,
            path,
            index,
            options,
        ).len() implies !needs_workspace(
        (#[trigger] lint::workspace_diagnostics(source, bodies, path, index, options)[j]).rule_id,
    ) by {
        let i = lemma_final_member(source, found, options, j);
        let f = found[i];
        lemma_edit_is_of_line(source, rest, i);
        assert(!fixes::workspace_rule(f.rule)) by {
            if i >= lines.len() + later.len() {
                assert(f == recipe[i - lines.len() - later.len()]);
            } else if i >= lines.len() {
                assert(f == later[i - lines.len()]);
            } else {
                lemma_line_findings(source, 0);
                if i < checks::trailing_from(source, 0).len() {
                    assert(f == checks::trailing_from(source, 0)[i]);
                }
            }
        }
        lemma_rule_number(f.rule);
        if needs_workspace(rules::rule_view(f.rule).id) {
            let k = choose|k: nat|
                fixes::workspace_rule(k) && #[trigger] rules::rule_view(k).id == rules::rule_view(
                    f.rule,
                ).id;
            lemma_rule_number(k);
        }
    }
    if paths::extension(path) != Some("bb"@) {
        assert(recipe =~= Seq::empty());
        assert(found =~= file);
    }
}

} // verus!
