//! What the report of a semantic analysis says of the commands that it rests on:
//! which of its parts succeeded, and which diagnostics it holds.
use crate::collections;
use crate::inventory;
use crate::output;
use crate::output::OutputView;
use crate::output::SemanticDiagnosticPhase;
use crate::output::SemanticView;
use crate::semantic;
use crate::semantic::GraphOutputView;
use crate::semantic::GraphView;
use crate::semantic::ReportView;
use crate::semantic::SemanticOptionsView;
use crate::semantic::TargetView;
use crate::semantic::TranscriptView;
use crate::environment::SummaryView;
use vstd::prelude::*;

verus! {

/// Whether the metadata was parsed and the query of the `i`th target succeeded.
pub open spec fn target_answered(t: TranscriptView, i: int) -> bool {
    t.parse.success && t.environments[i].success
}

/// Whether the graph command of the `i`th target succeeded and left a file.
pub open spec fn graph_written(t: TranscriptView, i: int) -> bool {
    t.graphs[i].output.success && t.graphs[i].artifacts.len() > 0
}

proof fn lemma_results(targets: Seq<Seq<char>>, outputs: Seq<OutputView>, k: int, wanted: Seq<Seq<char>>)
    requires
        0 <= k <= targets.len(),
    ensures
        semantic::target_results_from(targets, outputs, k, wanted).len() == targets.len() - k,
        forall|i: int|
            k <= i < targets.len() ==> #[trigger] semantic::target_results_from(
                targets,
                outputs,
                k,
                wanted,
            )[i - k] == semantic::target_of(targets[i], outputs[i], wanted),
    decreases targets.len() - k,
{
    if k < targets.len() {
        lemma_results(targets, outputs, k + 1, wanted);
        let rest = semantic::target_results_from(targets, outputs, k + 1, wanted);
        let all = semantic::target_results_from(targets, outputs, k, wanted);
        assert forall|i: int| k <= i < targets.len() implies #[trigger] all[i - k]
            == semantic::target_of(targets[i], outputs[i], wanted) by {
            if i > k {
                assert(all[i - k] == rest[i - (k + 1)]);
            }
        }
    }
}

proof fn lemma_result(t: TranscriptView, o: SemanticOptionsView, i: int)
    requires
        semantic::transcript_serves(t, o),
        0 <= i < o.targets.len(),
    ensures
        semantic::results_of(t, o).len() == o.targets.len(),
        semantic::results_of(t, o)[i] == if t.parse.success {
            semantic::target_of(o.targets[i], t.environments[i], o.variables)
        } else {
            semantic::unqueried_target(o.targets[i])
        },
{
    if t.parse.success {
        lemma_results(o.targets, t.environments, 0, o.variables);
        let all = semantic::target_results_from(o.targets, t.environments, 0, o.variables);
        assert(all[i - 0] == semantic::target_of(o.targets[i], t.environments[i], o.variables));
    }
}

proof fn lemma_results_len(t: TranscriptView, o: SemanticOptionsView)
    requires
        semantic::transcript_serves(t, o),
    ensures
        semantic::results_of(t, o).len() == o.targets.len(),
{
    if t.parse.success {
        lemma_results(o.targets, t.environments, 0, o.variables);
    }
}

proof fn lemma_graphs(targets: Seq<Seq<char>>, outputs: Seq<GraphOutputView>, k: int)
    requires
        0 <= k <= targets.len(),
    ensures
        semantic::graphs_from(targets, outputs, k).len() == targets.len() - k,
        forall|i: int|
            k <= i < targets.len() ==> #[trigger] semantic::graphs_from(targets, outputs, k)[i - k]
                == semantic::graph_of(targets[i], outputs[i]),
    decreases targets.len() - k,
{
    if k < targets.len() {
        lemma_graphs(targets, outputs, k + 1);
        let rest = semantic::graphs_from(targets, outputs, k + 1);
        let all = semantic::graphs_from(targets, outputs, k);
        assert forall|i: int| k <= i < targets.len() implies #[trigger] all[i - k]
            == semantic::graph_of(targets[i], outputs[i]) by {
            if i > k {
                assert(all[i - k] == rest[i - (k + 1)]);
            }
        }
    }
}

proof fn lemma_graph(targets: Seq<Seq<char>>, outputs: Seq<GraphOutputView>, i: int)
    requires
        0 <= i < targets.len(),
    ensures
        semantic::graphs_from(targets, outputs, 0).len() == targets.len(),
        semantic::graphs_from(targets, outputs, 0)[i] == semantic::graph_of(targets[i], outputs[i]),
{
    lemma_graphs(targets, outputs, 0);
    assert(semantic::graphs_from(targets, outputs, 0)[i - 0] == semantic::graph_of(
        targets[i],
        outputs[i],
    ));
}

proof fn lemma_summaries(results: Seq<TargetView>, k: int)
    requires
        0 <= k <= results.len(),
    ensures
        semantic::summaries_from(results, k).len() == results.len() - k,
        forall|i: int|
            k <= i < results.len() ==> #[trigger] semantic::summaries_from(results, k)[i - k]
                == semantic::result_summary(results[i]),
    decreases results.len() - k,
{
    if k < results.len() {
        lemma_summaries(results, k + 1);
        let rest = semantic::summaries_from(results, k + 1);
        let all = semantic::summaries_from(results, k);
        assert forall|i: int| k <= i < results.len() implies #[trigger] all[i - k]
            == semantic::result_summary(results[i]) by {
            if i > k {
                assert(all[i - k] == rest[i - (k + 1)]);
            }
        }
    }
}

proof fn lemma_summary(results: Seq<TargetView>, i: int)
    requires
        0 <= i < results.len(),
    ensures
        semantic::summaries_from(results, 0).len() == results.len(),
        semantic::summaries_from(results, 0)[i] == semantic::result_summary(results[i]),
{
    lemma_summaries(results, 0);
    assert(semantic::summaries_from(results, 0)[i - 0] == semantic::result_summary(results[i]));
}

/// A report answers for each of the targets, in their order: one was queried
/// where the metadata was parsed, it succeeded where its own query did too, and
/// only then it has an environment, which is what that query printed. The queries
/// succeeded where every one did.
pub proof fn law_targets_are_answered(
    t: TranscriptView,
    o: SemanticOptionsView,
    version: Seq<char>,
    i: int,
)
    requires
        semantic::transcript_serves(t, o),
        0 <= i < o.targets.len(),
    ensures
        ({
            let r = semantic::report_of(t, o, version);
            let result = r.target_results[i];
            &&& r.target_results.len() == o.targets.len()
            &&& result.target == o.targets[i]
            &&& result.queried == t.parse.success
            &&& result.succeeded == target_answered(t, i)
            &&& result.environment is Some <==> target_answered(t, i)
            &&& target_answered(t, i) ==> result.environment->0.target == o.targets[i]
                && result.environment->0.raw == t.environments[i].stdout
            &&& r.parse_succeeded == t.parse.success
            &&& r.target_queries_succeeded ==> target_answered(t, i)
            &&& (forall|j: int| 0 <= j < o.targets.len() ==> #[trigger] target_answered(t, j))
                ==> r.target_queries_succeeded
        }),
{
    let r = semantic::report_of(t, o, version);
    lemma_result(t, o, i);
    if t.parse.success {
        if semantic::all_succeeded(r.target_results) {
            assert(r.target_results[i].succeeded);
        }
        if forall|j: int| 0 <= j < o.targets.len() ==> #[trigger] target_answered(t, j) {
            assert forall|j: int| 0 <= j < r.target_results.len() implies (
            #[trigger] r.target_results[j]).succeeded by {
                lemma_result(t, o, j);
                assert(target_answered(t, j));
            }
        }
    } else {
        assert(!target_answered(t, i));
    }
}

/// A report has a build analysis where one of its parts is asked for, and the
/// analysis succeeded where the metadata was parsed and every part that is asked for
/// succeeded: every graph was written, the dry run and the inventory command
/// succeeded, and every target was answered. A part that is not asked for is not
/// there and fails nothing.
pub proof fn law_analysis_succeeds_with_its_parts(
    t: TranscriptView,
    o: SemanticOptionsView,
    version: Seq<char>,
)
    requires
        semantic::transcript_serves(t, o),
    ensures
        ({
            let a = semantic::report_of(t, o, version).build_analysis;
            let asked = o.analysis;
            &&& a is Some <==> asked.dependency_graph || asked.dry_run || asked.inventory
                || asked.packages
            &&& a is Some ==> (a->0.succeeded <==> {
                &&& t.parse.success
                &&& asked.dependency_graph ==> forall|i: int|
                    0 <= i < o.targets.len() ==> #[trigger] graph_written(t, i)
                &&& asked.dry_run ==> t.dry_run->0.success
                &&& asked.inventory ==> t.inventory->0.success
                &&& asked.packages ==> forall|i: int|
                    0 <= i < o.targets.len() ==> #[trigger] target_answered(t, i)
            })
            &&& a is Some ==> (a->0.dry_run is Some <==> t.parse.success && asked.dry_run)
            &&& a is Some ==> (a->0.inventory is Some <==> t.parse.success && asked.inventory)
            &&& a is Some ==> a->0.graphs.len() == if t.parse.success && asked.dependency_graph {
                o.targets.len()
            } else {
                0
            }
            &&& a is Some ==> a->0.packages.len() == if t.parse.success && asked.packages {
                o.targets.len()
            } else {
                0
            }
        }),
{
    let report = semantic::report_of(t, o, version);
    let asked = o.analysis;
    let results = semantic::results_of(t, o);
    if semantic::any_requested(asked) && t.parse.success {
        let a = report.build_analysis->0;
        lemma_results_len(t, o);
        lemma_graphs(o.targets, t.graphs, 0);
        lemma_summaries(results, 0);
        if asked.dependency_graph {
            assert((forall|k: int| 0 <= k < a.graphs.len() ==> (#[trigger] a.graphs[k]).succeeded)
                <==> (forall|i: int|
                0 <= i < o.targets.len() ==> #[trigger] graph_written(t, i))) by {
                assert forall|i: int| 0 <= i < o.targets.len() implies (
                #[trigger] a.graphs[i]).succeeded == graph_written(t, i) by {
                    lemma_graph(o.targets, t.graphs, i);
                }
                if forall|k: int| 0 <= k < a.graphs.len() ==> (#[trigger] a.graphs[k]).succeeded {
                    assert forall|i: int| 0 <= i < o.targets.len() implies #[trigger] graph_written(
                        t,
                        i,
                    ) by {
                        assert(a.graphs[i].succeeded);
                    }
                }
            }
        }
        if asked.packages {
            assert((forall|k: int|
                0 <= k < a.packages.len() ==> (#[trigger] a.packages[k]).succeeded) <==> (forall|
                i: int,
            |
                0 <= i < o.targets.len() ==> #[trigger] target_answered(t, i))) by {
                assert forall|i: int| 0 <= i < o.targets.len() implies (
                #[trigger] a.packages[i]).succeeded == target_answered(t, i) by {
                    lemma_summary(results, i);
                    lemma_result(t, o, i);
                }
                if forall|k: int|
                    0 <= k < a.packages.len() ==> (#[trigger] a.packages[k]).succeeded {
                    assert forall|i: int|
                        0 <= i < o.targets.len() implies #[trigger] target_answered(t, i) by {
                        assert(a.packages[i].succeeded);
                    }
                }
            }
        }
    }
}

/// The graphs of a target come out of the files of its own graph command, each
/// kind of edge out of the file of that kind.
pub proof fn law_graphs_come_from_their_files(
    t: TranscriptView,
    o: SemanticOptionsView,
    version: Seq<char>,
    i: int,
)
    requires
        semantic::transcript_serves(t, o),
        o.analysis.dependency_graph,
        t.parse.success,
        0 <= i < o.targets.len(),
    ensures
        ({
            let g = semantic::report_of(t, o, version).build_analysis->0.graphs[i];
            let files = collections::pairs_map(t.graphs[i].artifacts);
            &&& g.target == o.targets[i]
            &&& g.succeeded == graph_written(t, i)
            &&& files.dom().contains("task-depends.dot"@) ==> g.task_edges == inventory::dot_edges(
                files["task-depends.dot"@],
            )
            &&& files.dom().contains("pn-depends.dot"@) ==> g.recipe_edges == inventory::dot_edges(
                files["pn-depends.dot"@],
            )
            &&& files.dom().contains("package-depends.dot"@) ==> g.package_edges
                == inventory::dot_edges(files["package-depends.dot"@])
            &&& files.dom().contains("pn-buildlist"@) ==> g.build_list == inventory::listed_lines(
                files["pn-buildlist"@],
            )
            &&& files.dom().contains("pn-provides"@) ==> g.providers == inventory::providers_of(
                files["pn-provides"@],
            )
        }),
{
    lemma_graph(o.targets, t.graphs, i);
}

/// Whether `d` stands in the output of a command.
pub open spec fn printed(
    o: OutputView,
    phase: SemanticDiagnosticPhase,
    target: Option<Seq<char>>,
    d: SemanticView,
) -> bool {
    output::output_diagnostics(o, phase, target).contains(d)
}

/// Whether no diagnostic stands in the output of a command.
pub open spec fn silent(
    o: OutputView,
    phase: SemanticDiagnosticPhase,
    target: Option<Seq<char>>,
) -> bool {
    forall|d: SemanticView| !(#[trigger] printed(o, phase, target, d))
}

/// Whether `d` is a diagnostic on the query of the `i`th target.
pub open spec fn of_target(t: TranscriptView, o: SemanticOptionsView, i: int, d: SemanticView) -> bool {
    printed(t.environments[i], SemanticDiagnosticPhase::TargetQuery, Some(o.targets[i]), d)
}

/// Whether `d` is a diagnostic on the graph command of the `i`th target: one
/// that it printed, or that it failed without a word, or that it left no file.
pub open spec fn of_graph(t: TranscriptView, o: SemanticOptionsView, i: int, d: SemanticView) -> bool {
    let phase = SemanticDiagnosticPhase::DependencyGraph;
    let target = Some(o.targets[i]);
    let run = t.graphs[i];
    ||| printed(run.output, phase, target, d)
    ||| !run.output.success && silent(run.output, phase, target) && d == output::analysis_failure(
        phase,
        target,
        "BitBake dependency graph command failed"@,
    )
    ||| run.output.success && run.artifacts.len() == 0 && d == output::analysis_failure(
        phase,
        target,
        "BitBake did not emit dependency graph artifacts"@,
    )
}

/// Whether `d` is a diagnostic on a command for all targets: one that it
/// printed, or `message` where it failed without a word.
pub open spec fn of_command(
    o: OutputView,
    phase: SemanticDiagnosticPhase,
    message: Seq<char>,
    d: SemanticView,
) -> bool {
    ||| printed(o, phase, None, d)
    ||| !o.success && silent(o, phase, None) && d == output::analysis_failure(phase, None, message)
}

/// Whether `d` says that the `i`th target has no package metadata.
pub open spec fn of_package(t: TranscriptView, o: SemanticOptionsView, i: int, d: SemanticView) -> bool {
    !t.environments[i].success && d == output::analysis_failure(
        SemanticDiagnosticPhase::PackageSummary,
        Some(o.targets[i]),
        "package metadata unavailable because the target environment query failed"@,
    )
}

proof fn lemma_sum_contains(a: Seq<SemanticView>, b: Seq<SemanticView>, d: SemanticView)
    ensures
        (a + b).contains(d) <==> a.contains(d) || b.contains(d),
{
    let s = a + b;
    if a.contains(d) {
        let i = choose|i: int| 0 <= i < a.len() && a[i] == d;
        assert(s[i] == d);
    }
    if b.contains(d) {
        let i = choose|i: int| 0 <= i < b.len() && b[i] == d;
        assert(s[a.len() + i] == d);
    }
    if s.contains(d) {
        let i = choose|i: int| 0 <= i < s.len() && s[i] == d;
        if i < a.len() {
            assert(a[i] == d);
        } else {
            assert(b[i - a.len()] == d);
        }
    }
}

proof fn lemma_result_diagnostics(results: Seq<TargetView>, k: int, d: SemanticView)
    requires
        0 <= k <= results.len(),
    ensures
        semantic::result_diagnostics(results, k).contains(d) <==> exists|i: int|
            k <= i < results.len() && (#[trigger] results[i]).diagnostics.contains(d),
    decreases results.len() - k,
{
    if k < results.len() {
        lemma_result_diagnostics(results, k + 1, d);
        lemma_sum_contains(
            results[k].diagnostics,
            semantic::result_diagnostics(results, k + 1),
            d,
        );
    }
}

proof fn lemma_graphs_diagnostics(graphs: Seq<GraphView>, k: int, d: SemanticView)
    requires
        0 <= k <= graphs.len(),
    ensures
        semantic::graphs_diagnostics(graphs, k).contains(d) <==> exists|i: int|
            k <= i < graphs.len() && (#[trigger] graphs[i]).diagnostics.contains(d),
    decreases graphs.len() - k,
{
    if k < graphs.len() {
        lemma_graphs_diagnostics(graphs, k + 1, d);
        lemma_sum_contains(graphs[k].diagnostics, semantic::graphs_diagnostics(graphs, k + 1), d);
    }
}

proof fn lemma_summaries_diagnostics(items: Seq<SummaryView>, k: int, d: SemanticView)
    requires
        0 <= k <= items.len(),
    ensures
        semantic::summaries_diagnostics(items, k).contains(d) <==> exists|i: int|
            k <= i < items.len() && (#[trigger] items[i]).diagnostics.contains(d),
    decreases items.len() - k,
{
    if k < items.len() {
        lemma_summaries_diagnostics(items, k + 1, d);
        lemma_sum_contains(items[k].diagnostics, semantic::summaries_diagnostics(items, k + 1), d);
    }
}

proof fn lemma_silent(o: OutputView, phase: SemanticDiagnosticPhase, target: Option<Seq<char>>)
    ensures
        silent(o, phase, target) <==> output::output_diagnostics(o, phase, target).len() == 0,
{
    let found = output::output_diagnostics(o, phase, target);
    if found.len() > 0 {
        assert(found.contains(found[0]));
        assert(printed(o, phase, target, found[0]));
    }
}

proof fn lemma_single(x: SemanticView, d: SemanticView)
    ensures
        seq![x].contains(d) <==> d == x,
{
    let s = seq![x];
    assert(s[0] == x);
}

proof fn lemma_of_graph(t: TranscriptView, o: SemanticOptionsView, i: int, d: SemanticView)
    ensures
        semantic::graph_of(o.targets[i], t.graphs[i]).diagnostics.contains(d) <==> of_graph(
            t,
            o,
            i,
            d,
        ),
{
    let phase = SemanticDiagnosticPhase::DependencyGraph;
    let target = Some(o.targets[i]);
    let run = t.graphs[i];
    lemma_silent(run.output, phase, target);
    lemma_sum_contains(
        output::output_diagnostics(run.output, phase, target),
        semantic::graph_fault(o.targets[i], run),
        d,
    );
    lemma_single(
        output::analysis_failure(phase, target, "BitBake dependency graph command failed"@),
        d,
    );
    lemma_single(
        output::analysis_failure(phase, target, "BitBake did not emit dependency graph artifacts"@),
        d,
    );
}

proof fn lemma_of_command(
    o: OutputView,
    phase: SemanticDiagnosticPhase,
    message: Seq<char>,
    d: SemanticView,
)
    ensures
        semantic::command_diagnostics(o, phase, message).contains(d) <==> of_command(
            o,
            phase,
            message,
            d,
        ),
{
    lemma_silent(o, phase, None);
    lemma_single(output::analysis_failure(phase, None, message), d);
}

/// Whether `d` is a diagnostic on a part of the build analysis.
pub open spec fn of_analysis(t: TranscriptView, o: SemanticOptionsView, d: SemanticView) -> bool {
    ||| o.analysis.dependency_graph && exists|i: int|
        0 <= i < o.targets.len() && #[trigger] of_graph(t, o, i, d)
    ||| o.analysis.dry_run && of_command(
        t.dry_run->0,
        SemanticDiagnosticPhase::DryRun,
        "BitBake dry-run command failed"@,
        d,
    )
    ||| o.analysis.inventory && of_command(
        t.inventory->0,
        SemanticDiagnosticPhase::Inventory,
        "BitBake recipe inventory command failed"@,
        d,
    )
    ||| o.analysis.packages && exists|i: int|
        0 <= i < o.targets.len() && #[trigger] of_package(t, o, i, d)
}

proof fn lemma_of_analysis(t: TranscriptView, o: SemanticOptionsView, d: SemanticView)
    requires
        semantic::transcript_serves(t, o),
        t.parse.success,
    ensures
        semantic::analysis_diagnostics(
            semantic::analysis_of(t, o, semantic::results_of(t, o)),
        ).contains(d) <==> of_analysis(t, o, d),
{
    let results = semantic::results_of(t, o);
    let a = semantic::analysis_of(t, o, results);
    let graphs = semantic::graphs_diagnostics(a.graphs, 0);
    let dry = semantic::dry_run_diagnostics(a.dry_run);
    let inv = semantic::inventory_diagnostics(a.inventory);
    let packages = semantic::summaries_diagnostics(a.packages, 0);
    lemma_sum_contains(graphs, dry, d);
    lemma_sum_contains(graphs + dry, inv, d);
    lemma_sum_contains(graphs + dry + inv, packages, d);
    lemma_results_len(t, o);
    lemma_graphs_diagnostics(a.graphs, 0, d);
    lemma_summaries_diagnostics(a.packages, 0, d);
    if o.analysis.dependency_graph {
        lemma_graphs(o.targets, t.graphs, 0);
        assert forall|i: int| 0 <= i < o.targets.len() implies (
        #[trigger] a.graphs[i]).diagnostics.contains(d) == of_graph(t, o, i, d) by {
            lemma_graph(o.targets, t.graphs, i);
            lemma_of_graph(t, o, i, d);
        }
        if exists|i: int| 0 <= i < o.targets.len() && #[trigger] of_graph(t, o, i, d) {
            let i = choose|i: int| 0 <= i < o.targets.len() && #[trigger] of_graph(t, o, i, d);
            assert(a.graphs[i].diagnostics.contains(d));
        }
    }
    if o.analysis.dry_run {
        lemma_of_command(
            t.dry_run->0,
            SemanticDiagnosticPhase::DryRun,
            "BitBake dry-run command failed"@,
            d,
        );
    }
    if o.analysis.inventory {
        lemma_of_command(
            t.inventory->0,
            SemanticDiagnosticPhase::Inventory,
            "BitBake recipe inventory command failed"@,
            d,
        );
    }
    if o.analysis.packages {
        lemma_summaries(results, 0);
        assert forall|i: int| 0 <= i < o.targets.len() implies (
        #[trigger] a.packages[i]).diagnostics.contains(d) == of_package(t, o, i, d) by {
            lemma_summary(results, i);
            lemma_result(t, o, i);
            lemma_single(
                output::analysis_failure(
                    SemanticDiagnosticPhase::PackageSummary,
                    Some(o.targets[i]),
                    "package metadata unavailable because the target environment query failed"@,
                ),
                d,
            );
        }
        if exists|i: int| 0 <= i < o.targets.len() && #[trigger] of_package(t, o, i, d) {
            let i = choose|i: int| 0 <= i < o.targets.len() && #[trigger] of_package(t, o, i, d);
            assert(a.packages[i].diagnostics.contains(d));
        }
    }
}

/// A report holds exactly these diagnostics: those that the parser check printed;
/// where the metadata was parsed, those on each target's query; and those on the
/// parts of the build analysis that are asked for, among them one for each command
/// that failed without a word.
pub proof fn law_reports_hold_every_diagnostic(
    t: TranscriptView,
    o: SemanticOptionsView,
    version: Seq<char>,
    d: SemanticView,
)
    requires
        semantic::transcript_serves(t, o),
    ensures
        semantic::report_of(t, o, version).diagnostics.contains(d) <==> {
            ||| printed(t.parse, SemanticDiagnosticPhase::Parse, None, d)
            ||| t.parse.success && exists|i: int|
                0 <= i < o.targets.len() && #[trigger] of_target(t, o, i, d)
            ||| t.parse.success && of_analysis(t, o, d)
        },
{
    let results = semantic::results_of(t, o);
    let report = semantic::report_of(t, o, version);
    let parse = output::output_diagnostics(t.parse, SemanticDiagnosticPhase::Parse, None);
    let targets = semantic::result_diagnostics(results, 0);
    let analysis = match report.build_analysis {
        Some(a) => semantic::analysis_diagnostics(a),
        None => Seq::empty(),
    };
    lemma_sum_contains(parse, targets, d);
    lemma_sum_contains(parse + targets, analysis, d);
    lemma_results_len(t, o);
    lemma_result_diagnostics(results, 0, d);
    if t.parse.success {
        assert forall|i: int| 0 <= i < o.targets.len() implies (
        #[trigger] results[i]).diagnostics.contains(d) == of_target(t, o, i, d) by {
            lemma_result(t, o, i);
        }
        if exists|i: int| 0 <= i < o.targets.len() && #[trigger] of_target(t, o, i, d) {
            let i = choose|i: int| 0 <= i < o.targets.len() && #[trigger] of_target(t, o, i, d);
            assert(results[i].diagnostics.contains(d));
        }
        if semantic::any_requested(o.analysis) {
            lemma_of_analysis(t, o, d);
        }
    } else {
        assert forall|i: int| 0 <= i < results.len() implies !(
        #[trigger] results[i]).diagnostics.contains(d) by {
            lemma_result(t, o, i);
        }
        if semantic::any_requested(o.analysis) {
            let a = report.build_analysis->0;
            assert(semantic::graphs_diagnostics(a.graphs, 0).len() == 0);
            assert(semantic::summaries_diagnostics(a.packages, 0).len() == 0);
            assert(semantic::analysis_diagnostics(a).len() == 0);
        }
    }
}

} // verus!
