//! Reports in words: of semantic analyses and of how much of a text is
//! understood.
use crate::collections;
use crate::inventory;
use crate::numbers;
use crate::output;
use crate::project;
use crate::semantic;
use crate::syntax;
use crate::text;
use crate::tree;
use crate::bitbake::BitBakeExecutionStats;
use crate::checks::long_phrase;
use crate::checks::phrase;
use crate::collections::TextMap;
use crate::collections::join;
use crate::collections::push_text;
use crate::environment::SemanticPackageSummary;
use crate::environment::SummaryView;
use crate::inputs::EXIT_DIFFERENCES;
use crate::numbers::decimal_chars;
use crate::output::SemanticDiagnostic;
use crate::output::SemanticView;
use crate::project::BuildContext;
use crate::project::ContextView;
use crate::semantic::AnalysisView;
use crate::semantic::GraphView;
use crate::semantic::ReportView;
use crate::semantic::SemanticBuildAnalysis;
use crate::semantic::SemanticDependencyGraph;
use crate::semantic::SemanticReport;
use crate::semantic::SemanticTargetResult;
use crate::semantic::TargetView;
use crate::syntax::NodeKind;
use crate::syntax::NodeView;
use crate::text::append_chars;
use crate::text::chars_of;
use crate::text::string_of;
use crate::text::text_length;
use crate::tree::SyntaxKind;
use crate::tree::SyntaxTree;
use vstd::prelude::*;

verus! {

/// Whether something passed, in words.
pub open spec fn verdict(passed: bool) -> Seq<char> {
    if passed {
        "passed"@
    } else {
        "failed"@
    }
}

fn verdict_word(passed: bool) -> (r: &'static str)
    ensures
        r@ == verdict(passed),
{
    if passed {
        "passed"
    } else {
        "failed"
    }
}

fn add_line(out: &mut Vec<String>, first: &str, second: &str)
    ensures
        collections::string_texts(final(out)@) == collections::string_texts(old(out)@) + seq![first@ + second@ + ""@],
{
    let ghost before = collections::string_texts(out@);
    let text = phrase(first, chars_of(second).as_slice(), "");
    let ghost added = text@;
    push_text(out, string_of(text.as_slice()));
    assert(before.push(added) =~= before + seq![added]);
}

/// Where a BitBake message is about.
pub open spec fn location_text(d: SemanticView) -> Seq<char> {
    match d.path {
        Some(path) => match d.line {
            Some(line) => match d.column {
                Some(column) => path + ":"@ + numbers::decimal(line as nat) + ":"@ + numbers::decimal(column as nat),
                None => path + ":"@ + numbers::decimal(line as nat),
            },
            None => path,
        },
        None => Seq::empty(),
    }
}

/// The line on a BitBake message.
pub open spec fn message_line(d: SemanticView) -> Seq<char> {
    if location_text(d).len() == 0 {
        output::semantic_word(d.severity) + ": "@ + d.message
    } else {
        location_text(d) + ": "@ + output::semantic_word(d.severity) + ": "@ + d.message
    }
}

fn semantic_location(d: &SemanticDiagnostic) -> (r: Vec<char>)
    ensures
        r@ == location_text(d@),
{
    let mut out: Vec<char> = Vec::new();
    assert(out@ =~= Seq::empty());
    if let Some(path) = d.path() {
        append_chars(&mut out, chars_of(path).as_slice());
        assert(out@ =~= path@);
        if let Some(line) = d.line() {
            append_chars(&mut out, chars_of(":").as_slice());
            append_chars(&mut out, decimal_chars(line as u64).as_slice());
            if let Some(column) = d.column() {
                append_chars(&mut out, chars_of(":").as_slice());
                append_chars(&mut out, decimal_chars(column as u64).as_slice());
            }
        }
    }
    out
}

/// The line on a BitBake message.
pub fn semantic_message(d: &SemanticDiagnostic) -> (r: String)
    ensures
        r@ == message_line(d@),
{
    let mut out = semantic_location(d);
    if out.len() > 0 {
        append_chars(&mut out, chars_of(": ").as_slice());
    }
    let ghost before = out@;
    append_chars(&mut out, chars_of(d.severity().as_str()).as_slice());
    append_chars(&mut out, chars_of(": ").as_slice());
    append_chars(&mut out, chars_of(d.message()).as_slice());
    assert(out@ =~= before + output::semantic_word(d@.severity) + ": "@ + d@.message);
    assert(out@ =~= message_line(d@));
    string_of(out.as_slice())
}

/// The lines on the BitBake messages `items[k..]`.
pub open spec fn message_lines(items: Seq<SemanticView>, k: int) -> Seq<Seq<char>>
    decreases items.len() - k,
{
    if k < 0 || k >= items.len() {
        Seq::empty()
    } else {
        seq![message_line(items[k])] + message_lines(items, k + 1)
    }
}

/// The lines on the variables `items[k..]`.
pub open spec fn variable_lines(items: Seq<(Seq<char>, Seq<char>)>, k: int) -> Seq<Seq<char>>
    decreases items.len() - k,
{
    if k < 0 || k >= items.len() {
        Seq::empty()
    } else {
        seq!["  "@ + items[k].0 + "="@ + items[k].1 + ""@] + variable_lines(items, k + 1)
    }
}

/// How the query of a target went.
pub open spec fn target_status(t: TargetView) -> Seq<char> {
    if !t.queried {
        "skipped"@
    } else {
        verdict(t.succeeded)
    }
}

/// The lines on the targets `items[k..]`.
pub open spec fn target_lines(items: Seq<TargetView>, k: int) -> Seq<Seq<char>>
    decreases items.len() - k,
{
    if k < 0 || k >= items.len() {
        Seq::empty()
    } else {
        seq!["Target "@ + items[k].target + ": "@ + target_status(items[k]) + ""@] + (
        match items[k].environment {
            Some(environment) => variable_lines(environment.variables, 0),
            None => Seq::empty(),
        }) + target_lines(items, k + 1)
    }
}

/// The line on a dependency graph.
pub open spec fn graph_line(g: GraphView) -> Seq<char> {
    "Dependency graph "@ + g.target + ": "@ + numbers::decimal(g.task_edges.len()) + " task edges, "@
        + numbers::decimal(g.recipe_edges.len()) + " recipe edges, "@ + numbers::decimal(g.package_edges.len())
        + " package edges"@
}

/// The lines on the dependency graphs `items[k..]`.
pub open spec fn graph_lines(items: Seq<GraphView>, k: int) -> Seq<Seq<char>>
    decreases items.len() - k,
{
    if k < 0 || k >= items.len() {
        Seq::empty()
    } else {
        seq![graph_line(items[k])] + graph_lines(items, k + 1)
    }
}

/// The lines on the packages `items[k..]`.
pub open spec fn package_lines(items: Seq<SummaryView>, k: int) -> Seq<Seq<char>>
    decreases items.len() - k,
{
    if k < 0 || k >= items.len() {
        Seq::empty()
    } else {
        seq![
            "Packages "@ + items[k].target + ": "@ + numbers::decimal(items[k].packages.len())
                + " packages, "@ + numbers::decimal(items[k].build_dependencies.len())
                + " build dependencies"@,
        ] + package_lines(items, k + 1)
    }
}

/// The lines on a build analysis.
pub open spec fn analysis_lines(a: AnalysisView) -> Seq<Seq<char>> {
    seq!["Build analysis: "@ + verdict(a.succeeded) + ""@] + graph_lines(a.graphs, 0) + (
    match a.dry_run {
        Some(section) => seq![
            "Dry-run: "@ + numbers::decimal(section.tasks.len()) + " planned tasks"@,
        ],
        None => Seq::empty(),
    }) + (match a.inventory {
        Some(section) => seq![
            "Recipe inventory: "@ + numbers::decimal(section.recipes.len()) + " recipes"@,
        ],
        None => Seq::empty(),
    }) + package_lines(a.packages, 0)
}

/// A line with the items of a list; none where it is empty.
pub open spec fn list_line(first: Seq<char>, items: Seq<Seq<char>>) -> Seq<Seq<char>> {
    if items.len() == 0 {
        Seq::empty()
    } else {
        seq![first + collections::joined(items, ", "@) + ""@]
    }
}

/// The lines on a semantic report.
pub open spec fn report_lines(
    r: ReportView,
    c: ContextView,
    commands: nat,
    cache_hits: nat,
) -> Seq<Seq<char>> {
    seq![
        "BitBake: "@ + r.bitbake_version + ""@,
        "Project directory: "@ + c.project_dir + ""@,
        "Build directory: "@ + r.build_dir + ""@,
        "Build context: "@ + project::source_label(c.source) + ""@,
        "Parse: "@ + verdict(r.parse_succeeded) + ""@,
        "Target queries: "@ + verdict(r.target_queries_succeeded) + ""@,
    ] + list_line("Requested targets: "@, r.requested_targets) + list_line(
        "Requested variables: "@,
        r.requested_variables,
    ) + message_lines(r.diagnostics, 0) + target_lines(r.target_results, 0) + (
    match r.build_analysis {
        Some(analysis) => analysis_lines(analysis),
        None => Seq::empty(),
    }) + seq![
        "BitBake commands: "@ + numbers::decimal(commands) + " ("@ + numbers::decimal(cache_hits) + " cache hits)"@,
    ]
}

fn add_messages(out: &mut Vec<String>, items: &Vec<SemanticDiagnostic>)
    ensures
        collections::string_texts(final(out)@) == collections::string_texts(old(out)@) + message_lines(
            output::semantic_views(items@),
            0,
        ),
{
    let ghost all = output::semantic_views(items@);
    let ghost goal = collections::string_texts(out@) + message_lines(all, 0);
    let mut k: usize = 0;
    while k < items.len()
        invariant
            k <= items@.len(),
            all == output::semantic_views(items@),
            collections::string_texts(out@) + message_lines(all, k as int) == goal,
        decreases items@.len() - k,
    {
        assert(all[k as int] == items@[k as int]@);
        let ghost before = collections::string_texts(out@);
        let line = semantic_message(&items[k]);
        let ghost added = line@;
        push_text(out, line);
        proof {
            let rest = message_lines(all, k + 1);
            assert(before + (seq![added] + rest) =~= before.push(added) + rest);
        }
        k += 1;
    }
    assert(collections::string_texts(out@) + Seq::<Seq<char>>::empty() =~= collections::string_texts(out@));
}

fn add_variables(out: &mut Vec<String>, variables: &TextMap)
    ensures
        collections::string_texts(final(out)@) == collections::string_texts(old(out)@) + variable_lines(
            variables.pairs(),
            0,
        ),
{
    let entries = variables.entries();
    let ghost all = variables.pairs();
    let ghost goal = collections::string_texts(out@) + variable_lines(all, 0);
    let mut k: usize = 0;
    while k < entries.len()
        invariant
            k <= entries@.len(),
            all == collections::pair_texts(entries@),
            collections::string_texts(out@) + variable_lines(all, k as int) == goal,
        decreases entries@.len() - k,
    {
        assert(all[k as int] == (entries@[k as int].0@, entries@[k as int].1@));
        let ghost before = collections::string_texts(out@);
        let line = long_phrase(
            "  ",
            chars_of(entries[k].0.as_str()).as_slice(),
            "=",
            chars_of(entries[k].1.as_str()).as_slice(),
            "",
        );
        let ghost added = line@;
        push_text(out, string_of(line.as_slice()));
        proof {
            let rest = variable_lines(all, k + 1);
            assert(before + (seq![added] + rest) =~= before.push(added) + rest);
        }
        k += 1;
    }
    assert(collections::string_texts(out@) + Seq::<Seq<char>>::empty() =~= collections::string_texts(out@));
}

fn add_targets(out: &mut Vec<String>, results: &Vec<SemanticTargetResult>)
    requires
        semantic::results_wf(results@),
    ensures
        collections::string_texts(final(out)@) == collections::string_texts(old(out)@) + target_lines(
            semantic::target_views(results@),
            0,
        ),
{
    let ghost all = semantic::target_views(results@);
    let ghost goal = collections::string_texts(out@) + target_lines(all, 0);
    let mut k: usize = 0;
    while k < results.len()
        invariant
            k <= results@.len(),
            semantic::results_wf(results@),
            all == semantic::target_views(results@),
            collections::string_texts(out@) + target_lines(all, k as int) == goal,
        decreases results@.len() - k,
    {
        assert(all[k as int] == results@[k as int]@);
        let ghost before = collections::string_texts(out@);
        let status = if !results[k].queried() {
            "skipped"
        } else {
            verdict_word(results[k].succeeded())
        };
        let line = long_phrase(
            "Target ",
            chars_of(results[k].target()).as_slice(),
            ": ",
            chars_of(status).as_slice(),
            "",
        );
        let ghost added = line@;
        push_text(out, string_of(line.as_slice()));
        let ghost middle = collections::string_texts(out@);
        assert(middle =~= before + seq![added]);
        let ghost more: Seq<Seq<char>> = match all[k as int].environment {
            Some(environment) => variable_lines(environment.variables, 0),
            None => Seq::empty(),
        };
        if let Some(environment) = results[k].environment() {
            add_variables(out, environment.variables());
        } else {
            assert(middle + Seq::<Seq<char>>::empty() =~= middle);
        }
        proof {
            let rest = target_lines(all, k + 1);
            assert(collections::string_texts(out@) == middle + more);
            assert(before + (seq![added] + more + rest) =~= ((before + seq![added]) + more) + rest);
        }
        k += 1;
    }
    assert(collections::string_texts(out@) + Seq::<Seq<char>>::empty() =~= collections::string_texts(out@));
}

fn add_graphs(out: &mut Vec<String>, graphs: &Vec<SemanticDependencyGraph>)
    ensures
        collections::string_texts(final(out)@) == collections::string_texts(old(out)@) + graph_lines(
            semantic::graph_views(graphs@),
            0,
        ),
{
    let ghost all = semantic::graph_views(graphs@);
    let ghost goal = collections::string_texts(out@) + graph_lines(all, 0);
    let mut k: usize = 0;
    while k < graphs.len()
        invariant
            k <= graphs@.len(),
            all == semantic::graph_views(graphs@),
            collections::string_texts(out@) + graph_lines(all, k as int) == goal,
        decreases graphs@.len() - k,
    {
        assert(all[k as int] == graphs@[k as int]@);
        let ghost before = collections::string_texts(out@);
        let tasks = graphs[k].task_edges();
        let recipes = graphs[k].recipe_edges();
        let packages = graphs[k].package_edges();
        assert(inventory::graph_edge_views(tasks@).len() == tasks@.len());
        assert(inventory::graph_edge_views(recipes@).len() == recipes@.len());
        assert(inventory::graph_edge_views(packages@).len() == packages@.len());
        let mut line = long_phrase(
            "Dependency graph ",
            chars_of(graphs[k].target()).as_slice(),
            ": ",
            decimal_chars(tasks.len() as u64).as_slice(),
            " task edges, ",
        );
        append_chars(&mut line, decimal_chars(recipes.len() as u64).as_slice());
        append_chars(&mut line, chars_of(" recipe edges, ").as_slice());
        append_chars(&mut line, decimal_chars(packages.len() as u64).as_slice());
        append_chars(&mut line, chars_of(" package edges").as_slice());
        let ghost added = line@;
        push_text(out, string_of(line.as_slice()));
        proof {
            let rest = graph_lines(all, k + 1);
            assert(before + (seq![added] + rest) =~= before.push(added) + rest);
        }
        k += 1;
    }
    assert(collections::string_texts(out@) + Seq::<Seq<char>>::empty() =~= collections::string_texts(out@));
}

fn add_packages(out: &mut Vec<String>, items: &Vec<SemanticPackageSummary>)
    ensures
        collections::string_texts(final(out)@) == collections::string_texts(old(out)@) + package_lines(
            semantic::summary_views(items@),
            0,
        ),
{
    let ghost all = semantic::summary_views(items@);
    let ghost goal = collections::string_texts(out@) + package_lines(all, 0);
    let mut k: usize = 0;
    while k < items.len()
        invariant
            k <= items@.len(),
            all == semantic::summary_views(items@),
            collections::string_texts(out@) + package_lines(all, k as int) == goal,
        decreases items@.len() - k,
    {
        assert(all[k as int] == items@[k as int]@);
        let ghost before = collections::string_texts(out@);
        let packages = items[k].packages();
        let needed = items[k].build_dependencies();
        assert(collections::string_texts(packages@).len() == packages@.len());
        assert(collections::string_texts(needed@).len() == needed@.len());
        let mut line = long_phrase(
            "Packages ",
            chars_of(items[k].target()).as_slice(),
            ": ",
            decimal_chars(packages.len() as u64).as_slice(),
            " packages, ",
        );
        append_chars(&mut line, decimal_chars(needed.len() as u64).as_slice());
        append_chars(&mut line, chars_of(" build dependencies").as_slice());
        let ghost added = line@;
        push_text(out, string_of(line.as_slice()));
        proof {
            let rest = package_lines(all, k + 1);
            assert(before + (seq![added] + rest) =~= before.push(added) + rest);
        }
        k += 1;
    }
    assert(collections::string_texts(out@) + Seq::<Seq<char>>::empty() =~= collections::string_texts(out@));
}

fn add_analysis(out: &mut Vec<String>, analysis: &SemanticBuildAnalysis)
    ensures
        collections::string_texts(final(out)@) == collections::string_texts(old(out)@) + analysis_lines(analysis@),
{
    let ghost before = collections::string_texts(out@);
    add_line(out, "Build analysis: ", verdict_word(analysis.succeeded()));
    add_graphs(out, analysis.graphs());
    if let Some(section) = analysis.dry_run() {
        let tasks = section.tasks();
        assert(collections::string_texts(tasks@).len() == tasks@.len());
        let ghost middle = collections::string_texts(out@);
        let line = phrase(
            "Dry-run: ",
            decimal_chars(tasks.len() as u64).as_slice(),
            " planned tasks",
        );
        let ghost added = line@;
        push_text(out, string_of(line.as_slice()));
        assert(collections::string_texts(out@) =~= middle + seq![added]);
    }
    if let Some(section) = analysis.inventory() {
        let recipes = section.recipes();
        assert(inventory::version_views(recipes@).len() == recipes@.len());
        let ghost middle = collections::string_texts(out@);
        let line = phrase(
            "Recipe inventory: ",
            decimal_chars(recipes.len() as u64).as_slice(),
            " recipes",
        );
        let ghost added = line@;
        push_text(out, string_of(line.as_slice()));
        assert(collections::string_texts(out@) =~= middle + seq![added]);
    }
    add_packages(out, analysis.packages());
    assert(collections::string_texts(out@) =~= before + analysis_lines(analysis@));
}

fn add_list(out: &mut Vec<String>, first: &str, items: &Vec<String>)
    ensures
        collections::string_texts(final(out)@) == collections::string_texts(old(out)@) + list_line(
            first@,
            collections::string_texts(items@),
        ),
{
    assert(collections::string_texts(items@).len() == items@.len());
    if items.len() > 0 {
        let text = join(items, ", ");
        add_line(out, first, text.as_str());
    } else {
        assert(collections::string_texts(out@) + Seq::<Seq<char>>::empty() =~= collections::string_texts(out@));
    }
}

/// The lines on a semantic report.
pub fn semantic_report_lines(
    report: &SemanticReport,
    context: &BuildContext,
    commands: usize,
    cache_hits: usize,
) -> (r: Vec<String>)
    requires
        report.wf(),
    ensures
        collections::string_texts(r@) == report_lines(
            report@,
            context@,
            commands as nat,
            cache_hits as nat,
        ),
{
    let mut out: Vec<String> = Vec::new();
    add_line(&mut out, "BitBake: ", report.bitbake_version());
    add_line(&mut out, "Project directory: ", context.project_dir());
    add_line(&mut out, "Build directory: ", report.build_dir());
    add_line(&mut out, "Build context: ", context.source().label());
    add_line(&mut out, "Parse: ", verdict_word(report.parse_succeeded()));
    add_line(&mut out, "Target queries: ", verdict_word(report.target_queries_succeeded()));
    assert(collections::string_texts(out@) =~= seq![
        "BitBake: "@ + report@.bitbake_version + ""@,
        "Project directory: "@ + context@.project_dir + ""@,
        "Build directory: "@ + report@.build_dir + ""@,
        "Build context: "@ + project::source_label(context@.source) + ""@,
        "Parse: "@ + verdict(report@.parse_succeeded) + ""@,
        "Target queries: "@ + verdict(report@.target_queries_succeeded) + ""@,
    ]);
    add_list(&mut out, "Requested targets: ", report.requested_targets());
    add_list(&mut out, "Requested variables: ", report.requested_variables());
    add_messages(&mut out, report.diagnostics());
    add_targets(&mut out, report.target_results());
    let ghost middle = collections::string_texts(out@);
    if let Some(analysis) = report.build_analysis() {
        add_analysis(&mut out, analysis);
    } else {
        assert(middle + Seq::<Seq<char>>::empty() =~= middle);
    }
    let ghost before = collections::string_texts(out@);
    let line = long_phrase(
        "BitBake commands: ",
        decimal_chars(commands as u64).as_slice(),
        " (",
        decimal_chars(cache_hits as u64).as_slice(),
        " cache hits)",
    );
    let ghost added = line@;
    push_text(&mut out, string_of(line.as_slice()));
    assert(collections::string_texts(out@) =~= before + seq![added]);
    out
}

/// The exit code of a command that reports a semantic analysis.
pub fn semantic_exit_code(report: &SemanticReport) -> (r: i32)
    ensures
        r == (if report@.parse_succeeded && report@.target_queries_succeeded && (
        report@.build_analysis matches Some(analysis) ==> analysis.succeeded)
            && !semantic::report_has_errors(report@) {
            0
        } else {
            EXIT_DIFFERENCES
        }),
{
    if report.analysis_succeeded() && !report.has_errors() {
        0
    } else {
        EXIT_DIFFERENCES
    }
}

/// The line on the BitBake commands of a lint run.
pub open spec fn execution_line_text(s: BitBakeExecutionStats) -> Seq<char> {
    "BitBake: "@ + numbers::decimal(s.total_commands as nat) + " commands, "@ + numbers::decimal(
        s.recipe_queries_completed as nat,
    ) + " recipe queries, "@ + numbers::decimal(s.cache_hits as nat) + " cache hits"@ + (match s.strategy {
        Some(strategy) => ", strategy "@ + strategy@,
        None => Seq::empty(),
    })
}

/// The line on the BitBake commands of a lint run.
pub fn execution_line(stats: &BitBakeExecutionStats) -> (r: String)
    ensures
        r@ == execution_line_text(*stats),
{
    let mut text = long_phrase(
        "BitBake: ",
        decimal_chars(stats.total_commands as u64).as_slice(),
        " commands, ",
        decimal_chars(stats.recipe_queries_completed as u64).as_slice(),
        " recipe queries, ",
    );
    append_chars(&mut text, decimal_chars(stats.cache_hits as u64).as_slice());
    append_chars(&mut text, chars_of(" cache hits").as_slice());
    let ghost before = text@;
    if let Some(strategy) = &stats.strategy {
        append_chars(&mut text, chars_of(", strategy ").as_slice());
        append_chars(&mut text, chars_of(strategy.as_str()).as_slice());
        assert(text@ =~= before + (", strategy "@ + strategy@));
    } else {
        assert(before + Seq::<char>::empty() =~= before);
    }
    string_of(text.as_slice())
}

// ---------------------------------------------------------------------------
// Coverage
// ---------------------------------------------------------------------------
/// How much of some texts is understood.
#[derive(Clone, Copy, Debug, Eq, PartialEq, Structural)]
pub struct SyntaxStats {
    pub total_nodes: u64,
    pub structured_nodes: u64,
    pub trivia_nodes: u64,
    pub unknown_nodes: u64,
    pub unknown_bytes: u64,
}

/// Counts of nodes.
#[verifier::ext_equal]
pub struct StatsView {
    pub total_nodes: nat,
    pub structured_nodes: nat,
    pub trivia_nodes: nat,
    pub unknown_nodes: nat,
    pub unknown_bytes: nat,
}

/// Counts with one node more.
pub open spec fn with_node(s: StatsView, source: Seq<char>, node: NodeView) -> StatsView {
    match node.kind {
        NodeKind::Blank => StatsView {
            total_nodes: s.total_nodes + 1,
            trivia_nodes: s.trivia_nodes + 1,
            ..s
        },
        NodeKind::Comment => StatsView {
            total_nodes: s.total_nodes + 1,
            trivia_nodes: s.trivia_nodes + 1,
            ..s
        },
        NodeKind::Unknown => StatsView {
            total_nodes: s.total_nodes + 1,
            unknown_nodes: s.unknown_nodes + 1,
            unknown_bytes: s.unknown_bytes + text::byte_len(source.subrange(node.start, node.end)),
            ..s
        },
        _ => StatsView {
            total_nodes: s.total_nodes + 1,
            structured_nodes: s.structured_nodes + 1,
            ..s
        },
    }
}

/// The counts of the first `k` nodes of a text.
pub open spec fn stats_of(source: Seq<char>, nodes: Seq<NodeView>, k: int) -> StatsView
    decreases k,
{
    if k <= 0 {
        StatsView {
            total_nodes: 0,
            structured_nodes: 0,
            trivia_nodes: 0,
            unknown_nodes: 0,
            unknown_bytes: 0,
        }
    } else {
        with_node(stats_of(source, nodes, k - 1), source, nodes[k - 1])
    }
}

/// A node ends where the next one begins.
spec fn meets_next(nodes: Seq<NodeView>, k: int) -> bool {
    nodes[k].end == nodes[k + 1].start
}

/// Nodes lie side by side in a text of length `end`.
spec fn side_by_side(nodes: Seq<NodeView>, end: int) -> bool {
    &&& nodes.len() > 0 ==> nodes[0].start == 0 && nodes[nodes.len() - 1].end == end
    &&& forall|k: int| 0 <= k < nodes.len() ==> (#[trigger] nodes[k]).start < nodes[k].end
    &&& forall|k: int| 0 <= k < nodes.len() - 1 ==> #[trigger] meets_next(nodes, k)
}

proof fn lemma_side_by_side(nodes: Seq<NodeView>, end: int)
    requires
        syntax::contiguous(nodes, 0, end),
    ensures
        side_by_side(nodes, end),
{
    assert forall|k: int| 0 <= k < nodes.len() - 1 implies #[trigger] meets_next(nodes, k) by {
        assert(nodes[k].end == nodes[k + 1].start);
    }
}

proof fn lemma_starts_inside(nodes: Seq<NodeView>, end: int, k: int)
    requires
        side_by_side(nodes, end),
        0 <= k < nodes.len(),
    ensures
        0 <= nodes[k].start,
    decreases k,
{
    if k > 0 {
        lemma_starts_inside(nodes, end, k - 1);
        assert(meets_next(nodes, k - 1));
    }
}

proof fn lemma_ends_inside(nodes: Seq<NodeView>, end: int, k: int)
    requires
        side_by_side(nodes, end),
        0 <= k < nodes.len(),
    ensures
        nodes[k].end <= end,
    decreases nodes.len() - k,
{
    if k + 1 < nodes.len() {
        lemma_ends_inside(nodes, end, k + 1);
        assert(meets_next(nodes, k));
    }
}

/// Where the first `k` nodes end.
spec fn reached(nodes: Seq<NodeView>, k: int) -> int {
    if k <= 0 {
        0
    } else {
        nodes[k - 1].end
    }
}

proof fn lemma_stats_bounds(source: Seq<char>, nodes: Seq<NodeView>, k: int)
    requires
        side_by_side(nodes, source.len() as int),
        0 <= k <= nodes.len(),
    ensures
        stats_of(source, nodes, k).total_nodes == k,
        stats_of(source, nodes, k).structured_nodes <= k,
        stats_of(source, nodes, k).trivia_nodes <= k,
        stats_of(source, nodes, k).unknown_nodes <= k,
        0 <= reached(nodes, k) <= source.len(),
        stats_of(source, nodes, k).unknown_bytes <= text::byte_len(source.take(reached(nodes, k))),
        stats_of(source, nodes, k).unknown_bytes <= text::byte_len(source),
    decreases k,
{
    if k > 0 {
        lemma_stats_bounds(source, nodes, k - 1);
        lemma_starts_inside(nodes, source.len() as int, k - 1);
        lemma_ends_inside(nodes, source.len() as int, k - 1);
        let node = nodes[k - 1];
        if k > 1 {
            assert(meets_next(nodes, k - 2));
        }
        assert(reached(nodes, k - 1) == node.start);
        text::lemma_byte_len_range(source, node.start, node.end);
    }
}

impl SyntaxStats {
    pub open spec fn view(&self) -> StatsView {
        StatsView {
            total_nodes: self.total_nodes as nat,
            structured_nodes: self.structured_nodes as nat,
            trivia_nodes: self.trivia_nodes as nat,
            unknown_nodes: self.unknown_nodes as nat,
            unknown_bytes: self.unknown_bytes as nat,
        }
    }

    /// The counts of a syntax tree.
    pub fn of(tree: &SyntaxTree) -> (r: SyntaxStats)
        requires
            tree.wf(),
        ensures
            r@ == stats_of(tree.text(), tree.views(), tree.views().len() as int),
    {
        let nodes = tree.nodes();
        let ghost source = tree.text();
        let ghost views = tree.views();
        let mut r = SyntaxStats {
            total_nodes: 0,
            structured_nodes: 0,
            trivia_nodes: 0,
            unknown_nodes: 0,
            unknown_bytes: 0,
        };
        let mut k: usize = 0;
        proof {
            syntax::law_tree_is_lossless(source);
            lemma_side_by_side(views, source.len() as int);
        }
        while k < nodes.len()
            invariant
                k <= nodes@.len(),
                tree::nodes_hold(nodes@, source, views),
                side_by_side(views, source.len() as int),
                text::byte_len(source) < usize::MAX,
                r@ == stats_of(source, views, k as int),
            decreases nodes@.len() - k,
        {
            proof {
                lemma_stats_bounds(source, views, k as int);
                lemma_stats_bounds(source, views, k + 1);
                nodes@[k as int].lemma_holds(source, views[k as int]);
            }
            let size = text_length(nodes[k].text()) as u64;
            r.total_nodes = r.total_nodes + 1;
            match nodes[k].kind() {
                SyntaxKind::Blank => {
                    r.trivia_nodes = r.trivia_nodes + 1;
                },
                SyntaxKind::Comment => {
                    r.trivia_nodes = r.trivia_nodes + 1;
                },
                SyntaxKind::Unknown => {
                    r.unknown_nodes = r.unknown_nodes + 1;
                    r.unknown_bytes = r.unknown_bytes + size;
                },
                SyntaxKind::Assignment(_) => {
                    r.structured_nodes = r.structured_nodes + 1;
                },
                SyntaxKind::Directive(_) => {
                    r.structured_nodes = r.structured_nodes + 1;
                },
                SyntaxKind::Function(_) => {
                    r.structured_nodes = r.structured_nodes + 1;
                },
                SyntaxKind::PythonDefinition(_) => {
                    r.structured_nodes = r.structured_nodes + 1;
                },
            }
            k += 1;
        }
        r
    }

    /// The sums of two counts; nothing where one cannot be held.
    pub fn plus(&self, other: &SyntaxStats) -> (r: Option<SyntaxStats>)
        ensures
            match r {
                Some(sum) => sum@ == (StatsView {
                    total_nodes: self@.total_nodes + other@.total_nodes,
                    structured_nodes: self@.structured_nodes + other@.structured_nodes,
                    trivia_nodes: self@.trivia_nodes + other@.trivia_nodes,
                    unknown_nodes: self@.unknown_nodes + other@.unknown_nodes,
                    unknown_bytes: self@.unknown_bytes + other@.unknown_bytes,
                }),
                None => self@.total_nodes + other@.total_nodes > u64::MAX || self@.structured_nodes
                    + other@.structured_nodes > u64::MAX || self@.trivia_nodes
                    + other@.trivia_nodes > u64::MAX || self@.unknown_nodes + other@.unknown_nodes
                    > u64::MAX || self@.unknown_bytes + other@.unknown_bytes > u64::MAX,
            },
    {
        if self.total_nodes > u64::MAX - other.total_nodes || self.structured_nodes > u64::MAX
            - other.structured_nodes || self.trivia_nodes > u64::MAX - other.trivia_nodes
            || self.unknown_nodes > u64::MAX - other.unknown_nodes || self.unknown_bytes > u64::MAX
            - other.unknown_bytes {
            return None;
        }
        Some(
            SyntaxStats {
                total_nodes: self.total_nodes + other.total_nodes,
                structured_nodes: self.structured_nodes + other.structured_nodes,
                trivia_nodes: self.trivia_nodes + other.trivia_nodes,
                unknown_nodes: self.unknown_nodes + other.unknown_nodes,
                unknown_bytes: self.unknown_bytes + other.unknown_bytes,
            },
        )
    }
}

} // verus!
