//! Authoritative BitBake semantic analysis.
//!
//! The syntax tree and workspace index in this crate are intentionally
//! conservative. They cannot reproduce BitBake's Python expansion, override
//! selection, anonymous Python, class handlers, machine/distro configuration,
//! or recipe collection rules. This module plans the BitBake commands that
//! answer those questions and reads their output into a typed report.
use crate::collections;
use crate::environment;
use crate::inventory;
use crate::output;
use crate::checks::long_phrase;
use crate::checks::phrase;
use crate::collections::TextMap;
use crate::collections::copy_strings;
use crate::collections::push_text;
use crate::environment::EnvironmentView;
use crate::environment::SemanticEnvironment;
use crate::environment::SemanticPackageSummary;
use crate::environment::SummaryView;
use crate::environment::failed_package_summary;
use crate::environment::package_summary_from_environment;
use crate::environment::parse_environment;
use crate::inventory::SemanticGraphEdge;
use crate::inventory::SemanticProvider;
use crate::inventory::SemanticRecipeVersion;
use crate::inventory::VersionView;
use crate::inventory::insert_providers;
use crate::inventory::parse_dot_edges;
use crate::inventory::parse_dry_run_tasks;
use crate::inventory::parse_lines;
use crate::inventory::parse_providers;
use crate::inventory::parse_recipe_versions;
use crate::output::CommandOutput;
use crate::output::OutputView;
use crate::output::SemanticDiagnostic;
use crate::output::SemanticDiagnosticPhase;
use crate::output::SemanticSeverity;
use crate::output::SemanticView;
use crate::output::analysis_diagnostic;
use crate::output::append_diagnostics;
use crate::output::combined_output;
use crate::output::parse_diagnostics;
use crate::output::parse_version;
use crate::project::BuildContext;
use crate::text::chars_of;
use crate::text::string_of;
use vstd::prelude::*;

verus! {

// ---------------------------------------------------------------------------
// Options
// ---------------------------------------------------------------------------
/// Optional BitBake analyses to run after the parser check.
#[derive(Clone, Copy, Debug, Eq, PartialEq, Structural)]
pub struct SemanticAnalysisOptions {
    /// Collect BitBake's task, recipe, and package dependency graph files.
    pub dependency_graph: bool,
    /// Run BitBake's dry-run scheduler and retain the planned tasks.
    pub dry_run: bool,
    /// Collect the parsed recipe/version inventory from `bitbake --show-versions`.
    pub inventory: bool,
    /// Summarize resolved package, provider, runtime dependency, and image metadata.
    pub packages: bool,
}

/// No analysis after the parser check.
pub open spec fn no_analysis() -> SemanticAnalysisOptions {
    SemanticAnalysisOptions {
        dependency_graph: false,
        dry_run: false,
        inventory: false,
        packages: false,
    }
}

impl Default for SemanticAnalysisOptions {
    fn default() -> (r: SemanticAnalysisOptions)
        ensures
            r == no_analysis(),
    {
        SemanticAnalysisOptions {
            dependency_graph: false,
            dry_run: false,
            inventory: false,
            packages: false,
        }
    }
}

/// Whether an analysis is asked for.
pub open spec fn any_requested(a: SemanticAnalysisOptions) -> bool {
    a.dependency_graph || a.dry_run || a.inventory || a.packages
}

impl SemanticAnalysisOptions {
    /// Enables every analysis supported by the semantic report.
    pub fn full() -> (r: SemanticAnalysisOptions)
        ensures
            r == (SemanticAnalysisOptions {
                dependency_graph: true,
                dry_run: true,
                inventory: true,
                packages: true,
            }),
    {
        SemanticAnalysisOptions {
            dependency_graph: true,
            dry_run: true,
            inventory: true,
            packages: true,
        }
    }

    /// Whether an analysis is asked for.
    pub fn requested(&self) -> (r: bool)
        ensures
            r == any_requested(*self),
    {
        self.dependency_graph || self.dry_run || self.inventory || self.packages
    }
}

/// Options used for an authoritative BitBake analysis.
#[derive(Clone, Debug, Eq, PartialEq)]
pub struct SemanticOptions {
    /// BitBake executable to invoke. The default is the executable found on
    /// `PATH`.
    pub bitbake: String,
    /// Existing BitBake build directory containing `conf/local.conf` and
    /// `conf/bblayers.conf`.
    pub build_dir: String,
    /// Recipes or targets whose fully expanded environments should be
    /// collected. An empty list still performs a complete parse-only check.
    pub targets: Vec<String>,
    /// Variables to extract from each target's `bitbake -e` output. An empty
    /// list keeps the full environment available through
    /// [`SemanticEnvironment::raw`].
    pub variables: Vec<String>,
    /// Additional BitBake-backed analyses to put in the report.
    pub analysis: SemanticAnalysisOptions,
}

#[verifier::ext_equal]
pub struct SemanticOptionsView {
    pub bitbake: Seq<char>,
    pub build_dir: Seq<char>,
    pub targets: Seq<Seq<char>>,
    pub variables: Seq<Seq<char>>,
    pub analysis: SemanticAnalysisOptions,
}

impl Default for SemanticOptions {
    fn default() -> (r: SemanticOptions)
        ensures
            r@ == default_semantic_options(""@),
    {
        SemanticOptions::for_build_dir("")
    }
}

/// Options for a build directory, with the `bitbake` on `PATH`.
pub open spec fn default_semantic_options(build_dir: Seq<char>) -> SemanticOptionsView {
    SemanticOptionsView {
        bitbake: "bitbake"@,
        build_dir,
        targets: Seq::empty(),
        variables: Seq::empty(),
        analysis: SemanticAnalysisOptions {
            dependency_graph: false,
            dry_run: false,
            inventory: false,
            packages: false,
        },
    }
}

impl SemanticOptions {
    pub open spec fn view(&self) -> SemanticOptionsView {
        SemanticOptionsView {
            bitbake: self.bitbake@,
            build_dir: self.build_dir@,
            targets: collections::string_texts(self.targets@),
            variables: collections::string_texts(self.variables@),
            analysis: self.analysis,
        }
    }

    /// Creates options for a build directory using the `bitbake` on `PATH`.
    pub fn for_build_dir(build_dir: &str) -> (r: SemanticOptions)
        ensures
            r@ == default_semantic_options(build_dir@),
    {
        let r = SemanticOptions {
            bitbake: "bitbake".to_owned(),
            build_dir: build_dir.to_owned(),
            targets: Vec::new(),
            variables: Vec::new(),
            analysis: SemanticAnalysisOptions::default(),
        };
        assert(r@ =~= default_semantic_options(build_dir@));
        r
    }

    /// Creates options from a discovered build context.
    pub fn for_context(context: &BuildContext) -> (r: SemanticOptions)
        ensures
            r@ == default_semantic_options(context@.build_dir),
    {
        SemanticOptions::for_build_dir(context.build_dir())
    }

    /// Adds one target whose resolved environment should be inspected.
    pub fn target(self, target: &str) -> (r: SemanticOptions)
        ensures
            r@ == (SemanticOptionsView { targets: self@.targets.push(target@), ..self@ }),
    {
        let ghost before = self@;
        let mut r = self;
        push_text(&mut r.targets, target.to_owned());
        assert(r@ =~= (SemanticOptionsView { targets: before.targets.push(target@), ..before }));
        r
    }

    /// Adds one variable to extract from every target environment.
    pub fn variable(self, variable: &str) -> (r: SemanticOptions)
        ensures
            r@ == (SemanticOptionsView { variables: self@.variables.push(variable@), ..self@ }),
    {
        let ghost before = self@;
        let mut r = self;
        push_text(&mut r.variables, variable.to_owned());
        assert(r@ =~= (SemanticOptionsView {
            variables: before.variables.push(variable@),
            ..before
        }));
        r
    }

    /// Enables the complete BitBake build analysis surface.
    pub fn full_analysis(self) -> (r: SemanticOptions)
        ensures
            r@ == (SemanticOptionsView {
                analysis: SemanticAnalysisOptions {
                    dependency_graph: true,
                    dry_run: true,
                    inventory: true,
                    packages: true,
                },
                ..self@
            }),
    {
        let mut r = self;
        r.analysis = SemanticAnalysisOptions::full();
        r
    }
}

// ---------------------------------------------------------------------------
// Errors
// ---------------------------------------------------------------------------
/// Operational failures while invoking or inspecting BitBake.
#[derive(Clone, Debug, Eq, PartialEq)]
pub enum SemanticError {
    InvalidBuildDirectory { path: String, reason: String },
    Io(String),
    BitBakeVersion(String),
    AnalysisTargetsRequired { mode: String },
}

/// What is said of a failure.
pub open spec fn semantic_error_text(error: SemanticError) -> Seq<char> {
    match error {
        SemanticError::InvalidBuildDirectory { path, reason } => "invalid BitBake build directory "@
            + path@ + ": "@ + reason@ + ""@,
        SemanticError::Io(error) => "could not invoke BitBake: "@ + error@ + ""@,
        SemanticError::BitBakeVersion(output) => "BitBake did not report a version: "@ + output@
            + ""@,
        SemanticError::AnalysisTargetsRequired { mode } => "BitBake "@ + mode@
            + " analysis requires at least one target"@,
    }
}

impl SemanticError {
    /// The failure in words.
    pub fn to_string(&self) -> (r: String)
        ensures
            r@ == semantic_error_text(*self),
    {
        let out = match self {
            SemanticError::InvalidBuildDirectory { path, reason } => long_phrase(
                "invalid BitBake build directory ",
                chars_of(path.as_str()).as_slice(),
                ": ",
                chars_of(reason.as_str()).as_slice(),
                "",
            ),
            SemanticError::Io(error) => phrase(
                "could not invoke BitBake: ",
                chars_of(error.as_str()).as_slice(),
                "",
            ),
            SemanticError::BitBakeVersion(output) => phrase(
                "BitBake did not report a version: ",
                chars_of(output.as_str()).as_slice(),
                "",
            ),
            SemanticError::AnalysisTargetsRequired { mode } => phrase(
                "BitBake ",
                chars_of(mode.as_str()).as_slice(),
                " analysis requires at least one target",
            ),
        };
        string_of(out.as_slice())
    }
}

/// What the file system says of a build directory.
pub struct BuildDirFacts {
    /// Why the directory could not be looked at.
    pub failure: Option<String>,
    pub is_directory: bool,
    /// Whether `conf/local.conf` is a file.
    pub has_local_conf: bool,
    /// Whether `conf/bblayers.conf` is a file.
    pub has_bblayers_conf: bool,
}

/// Why a directory is no build directory.
pub open spec fn build_dir_fault(path: Seq<char>, facts: BuildDirFacts) -> Option<Seq<char>> {
    if path.len() == 0 {
        Some("a build directory is required"@)
    } else {
        match facts.failure {
            Some(failure) => Some(failure@),
            None => if !facts.is_directory {
                Some("path is not a directory"@)
            } else if !facts.has_local_conf {
                Some("missing conf/local.conf"@)
            } else if !facts.has_bblayers_conf {
                Some("missing conf/bblayers.conf"@)
            } else {
                None
            },
        }
    }
}

/// Checks that a directory is a build directory.
pub fn validate_build_dir(path: &str, facts: &BuildDirFacts) -> (r: Result<(), SemanticError>)
    ensures
        match build_dir_fault(path@, *facts) {
            Some(fault) => r matches Err(SemanticError::InvalidBuildDirectory { path: p, reason })
                && p@ == path@ && reason@ == fault,
            None => r is Ok,
        },
{
    let reason = if chars_of(path).len() == 0 {
        "a build directory is required".to_owned()
    } else if let Some(failure) = &facts.failure {
        failure.clone()
    } else if !facts.is_directory {
        "path is not a directory".to_owned()
    } else if !facts.has_local_conf {
        "missing conf/local.conf".to_owned()
    } else if !facts.has_bblayers_conf {
        "missing conf/bblayers.conf".to_owned()
    } else {
        return Ok(());
    };
    Err(SemanticError::InvalidBuildDirectory { path: path.to_owned(), reason })
}

/// The first of the requested analyses that lacks a target.
pub open spec fn lacking_mode(o: SemanticOptionsView) -> Option<Seq<char>> {
    if o.targets.len() > 0 {
        None
    } else if o.analysis.dependency_graph {
        Some("dependency graph"@)
    } else if o.analysis.dry_run {
        Some("dry-run"@)
    } else if o.analysis.packages {
        Some("package"@)
    } else {
        None
    }
}

/// Checks that the requested analyses have the targets that they need.
pub fn check_targets(options: &SemanticOptions) -> (r: Result<(), SemanticError>)
    ensures
        match lacking_mode(options@) {
            Some(mode) => r matches Err(SemanticError::AnalysisTargetsRequired { mode: m }) && m@
                == mode,
            None => r is Ok,
        },
{
    assert(options@.targets.len() == options.targets@.len());
    if options.targets.len() > 0 {
        return Ok(());
    }
    let mode = if options.analysis.dependency_graph {
        "dependency graph"
    } else if options.analysis.dry_run {
        "dry-run"
    } else if options.analysis.packages {
        "package"
    } else {
        return Ok(());
    };
    Err(SemanticError::AnalysisTargetsRequired { mode: mode.to_owned() })
}

// ---------------------------------------------------------------------------
// Commands
// ---------------------------------------------------------------------------
/// The arguments of the command that parses all metadata.
pub fn parse_arguments(targets: &Vec<String>) -> (r: Vec<String>)
    ensures
        collections::string_texts(r@) == seq!["--parse-only"@] + collections::string_texts(targets@),
{
    with_first("--parse-only", targets)
}

/// The arguments of the command that plans the tasks of some targets.
pub fn dry_run_arguments(targets: &Vec<String>) -> (r: Vec<String>)
    ensures
        collections::string_texts(r@) == seq!["--dry-run"@] + collections::string_texts(targets@),
{
    with_first("--dry-run", targets)
}

fn with_first(first: &str, rest: &Vec<String>) -> (r: Vec<String>)
    ensures
        collections::string_texts(r@) == seq![first@] + collections::string_texts(rest@),
{
    let mut out: Vec<String> = Vec::new();
    out.push(first.to_owned());
    let mut more = copy_strings(rest);
    let ghost added = more@;
    out.append(&mut more);
    assert(collections::string_texts(out@) =~= seq![first@] + collections::string_texts(added));
    out
}

/// The arguments of the command that dumps the environment of a target.
pub fn environment_arguments(target: &str) -> (r: Vec<String>)
    ensures
        collections::string_texts(r@) == seq!["--environment"@, target@],
{
    let mut out: Vec<String> = Vec::new();
    out.push("--environment".to_owned());
    out.push(target.to_owned());
    assert(collections::string_texts(out@) =~= seq!["--environment"@, target@]);
    out
}

/// The arguments of the command that writes the dependency graphs of a target.
pub fn graph_arguments(target: &str) -> (r: Vec<String>)
    ensures
        collections::string_texts(r@) == seq!["--graphviz"@, target@],
{
    let mut out: Vec<String> = Vec::new();
    out.push("--graphviz".to_owned());
    out.push(target.to_owned());
    assert(collections::string_texts(out@) =~= seq!["--graphviz"@, target@]);
    out
}

/// The files that BitBake writes dependency graphs to.
pub open spec fn graph_files() -> Seq<Seq<char>> {
    seq![
        "task-depends.dot"@,
        "pn-depends.dot"@,
        "package-depends.dot"@,
        "pn-buildlist"@,
        "pn-provides"@,
    ]
}

/// The files that BitBake writes dependency graphs to.
pub fn graph_artifact_names() -> (r: Vec<String>)
    ensures
        collections::string_texts(r@) == graph_files(),
{
    let mut out: Vec<String> = Vec::new();
    out.push("task-depends.dot".to_owned());
    out.push("pn-depends.dot".to_owned());
    out.push("package-depends.dot".to_owned());
    out.push("pn-buildlist".to_owned());
    out.push("pn-provides".to_owned());
    assert(collections::string_texts(out@) =~= graph_files());
    out
}

/// What puts a file back as it was before a command.
#[derive(Clone, Debug, Eq, PartialEq)]
pub enum RestoreAction {
    Write(String),
    Remove,
    Keep,
}

/// What puts a file back as it was: `previous` is what it held, and `exists`
/// says whether it is there now.
pub fn restore_action(previous: &Option<String>, exists: bool) -> (r: RestoreAction)
    ensures
        match *previous {
            Some(contents) => r matches RestoreAction::Write(text) && text@ == contents@,
            None => r == (if exists {
                RestoreAction::Remove
            } else {
                RestoreAction::Keep
            }),
        },
{
    match previous {
        Some(contents) => RestoreAction::Write(contents.clone()),
        None => if exists {
            RestoreAction::Remove
        } else {
            RestoreAction::Keep
        },
    }
}

// ---------------------------------------------------------------------------
// Dependency graphs
// ---------------------------------------------------------------------------
/// The output of a command that writes dependency graphs, and the files that
/// it wrote, by name.
#[derive(Clone, Debug, Eq, PartialEq)]
pub struct GraphOutput {
    pub output: CommandOutput,
    pub artifacts: TextMap,
}

#[verifier::ext_equal]
pub struct GraphOutputView {
    pub output: OutputView,
    pub artifacts: Seq<(Seq<char>, Seq<char>)>,
}

impl GraphOutput {
    pub open spec fn view(&self) -> GraphOutputView {
        GraphOutputView { output: self.output@, artifacts: self.artifacts.pairs() }
    }
}

/// The contents of a list of graph outputs.
pub open spec fn graph_output_views(items: Seq<GraphOutput>) -> Seq<GraphOutputView> {
    items.map_values(|g: GraphOutput| g@)
}

/// Dependency graph artifacts produced by `bitbake --graphviz` for one target.
#[derive(Clone, Debug, Eq, PartialEq)]
pub struct SemanticDependencyGraph {
    target: String,
    succeeded: bool,
    diagnostics: Vec<SemanticDiagnostic>,
    task_edges: Vec<SemanticGraphEdge>,
    recipe_edges: Vec<SemanticGraphEdge>,
    package_edges: Vec<SemanticGraphEdge>,
    build_list: Vec<String>,
    providers: Vec<SemanticProvider>,
    artifacts: TextMap,
}

#[verifier::ext_equal]
pub struct GraphView {
    pub target: Seq<char>,
    pub succeeded: bool,
    pub diagnostics: Seq<SemanticView>,
    pub task_edges: Seq<(Seq<char>, Seq<char>)>,
    pub recipe_edges: Seq<(Seq<char>, Seq<char>)>,
    pub package_edges: Seq<(Seq<char>, Seq<char>)>,
    pub build_list: Seq<Seq<char>>,
    pub providers: Seq<(Seq<char>, Seq<char>)>,
    pub artifacts: Seq<(Seq<char>, Seq<char>)>,
}

/// What the file `name` holds, or the empty text where it was not written.
pub open spec fn artifact(files: Seq<(Seq<char>, Seq<char>)>, name: Seq<char>) -> Seq<char> {
    let map = collections::pairs_map(files);
    if map.dom().contains(name) {
        map[name]
    } else {
        Seq::empty()
    }
}

/// The diagnostic on a graph command that failed, or wrote nothing.
pub open spec fn graph_fault(target: Seq<char>, o: GraphOutputView) -> Seq<SemanticView> {
    if !o.output.success && output::output_diagnostics(
        o.output,
        SemanticDiagnosticPhase::DependencyGraph,
        Some(target),
    ).len() == 0 {
        seq![
            output::analysis_failure(
                SemanticDiagnosticPhase::DependencyGraph,
                Some(target),
                "BitBake dependency graph command failed"@,
            ),
        ]
    } else if o.output.success && o.artifacts.len() == 0 {
        seq![
            output::analysis_failure(
                SemanticDiagnosticPhase::DependencyGraph,
                Some(target),
                "BitBake did not emit dependency graph artifacts"@,
            ),
        ]
    } else {
        Seq::empty()
    }
}

/// The dependency graphs of a target.
pub open spec fn graph_of(target: Seq<char>, o: GraphOutputView) -> GraphView {
    GraphView {
        target,
        succeeded: o.output.success && o.artifacts.len() > 0,
        diagnostics: output::output_diagnostics(
            o.output,
            SemanticDiagnosticPhase::DependencyGraph,
            Some(target),
        ) + graph_fault(target, o),
        task_edges: inventory::dot_edges(artifact(o.artifacts, "task-depends.dot"@)),
        recipe_edges: inventory::dot_edges(artifact(o.artifacts, "pn-depends.dot"@)),
        package_edges: inventory::dot_edges(artifact(o.artifacts, "package-depends.dot"@)),
        build_list: inventory::listed_lines(artifact(o.artifacts, "pn-buildlist"@)),
        providers: inventory::providers_of(artifact(o.artifacts, "pn-provides"@)),
        artifacts: o.artifacts,
    }
}

fn read_artifact<'a>(files: &'a TextMap, name: &str) -> (r: &'a str)
    requires
        files.wf(),
    ensures
        r@ == artifact(files.pairs(), name@),
{
    match files.get(name) {
        Some(contents) => contents,
        None => {
            proof {
                reveal_strlit("");
                assert(""@ =~= Seq::empty());
            }
            ""
        },
    }
}

fn copy_map(files: &TextMap) -> (r: TextMap)
    requires
        files.wf(),
    ensures
        r.wf(),
        r.pairs() == files.pairs(),
{
    let entries = files.entries();
    let ghost all = files.pairs();
    let mut out = TextMap::new();
    let mut k: usize = 0;
    assert(all.take(0) =~= Seq::empty());
    while k < entries.len()
        invariant
            k <= entries@.len(),
            all == collections::pair_texts(entries@),
            collections::keys_increase(all),
            out.wf(),
            out.pairs() == all.take(k as int),
        decreases entries@.len() - k,
    {
        assert(all[k as int] == (entries@[k as int].0@, entries@[k as int].1@));
        proof {
            lemma_append_key(all.take(k as int), all[k as int].0, all[k as int].1, 0);
            assert(all.take(k + 1) =~= all.take(k as int).push(all[k as int]));
        }
        out.insert(entries[k].0.clone(), entries[k].1.clone());
        k += 1;
    }
    assert(all.take(k as int) =~= all);
    out
}

proof fn lemma_append_key(pairs: Seq<(Seq<char>, Seq<char>)>, key: Seq<char>, value: Seq<char>, k: int)
    requires
        0 <= k <= pairs.len(),
        forall|j: int| 0 <= j < pairs.len() ==> collections::text_less((#[trigger] pairs[j]).0, key),
    ensures
        collections::pair_place(pairs, key, k) == pairs.len(),
        pairs.insert(pairs.len() as int, (key, value)) == pairs.push((key, value)),
    decreases pairs.len() - k,
{
    if k < pairs.len() {
        lemma_append_key(pairs, key, value, k + 1);
    }
    assert(pairs.insert(pairs.len() as int, (key, value)) =~= pairs.push((key, value)));
}

impl SemanticDependencyGraph {
    pub closed spec fn view(&self) -> GraphView {
        GraphView {
            target: self.target@,
            succeeded: self.succeeded,
            diagnostics: output::semantic_views(self.diagnostics@),
            task_edges: inventory::graph_edge_views(self.task_edges@),
            recipe_edges: inventory::graph_edge_views(self.recipe_edges@),
            package_edges: inventory::graph_edge_views(self.package_edges@),
            build_list: collections::string_texts(self.build_list@),
            providers: inventory::provider_views(self.providers@),
            artifacts: self.artifacts.pairs(),
        }
    }

    /// The dependency graphs of a target.
    pub fn read(target: &str, graph: &GraphOutput) -> (r: SemanticDependencyGraph)
        requires
            graph.artifacts.wf(),
        ensures
            r@ == graph_of(target@, graph@),
    {
        let phase = SemanticDiagnosticPhase::DependencyGraph;
        let mut diagnostics = parse_diagnostics(&graph.output, phase, Some(target));
        let ghost found = output::semantic_views(diagnostics@);
        assert(found.len() == diagnostics@.len());
        let empty = graph.artifacts.len() == 0;
        if !graph.output.success && diagnostics.len() == 0 {
            diagnostics.push(
                analysis_diagnostic(
                    phase,
                    Some(target),
                    "BitBake dependency graph command failed",
                ),
            );
        } else if graph.output.success && empty {
            diagnostics.push(
                analysis_diagnostic(
                    phase,
                    Some(target),
                    "BitBake did not emit dependency graph artifacts",
                ),
            );
        }
        assert(output::semantic_views(diagnostics@) =~= found + graph_fault(target@, graph@));
        SemanticDependencyGraph {
            target: target.to_owned(),
            succeeded: graph.output.success && !empty,
            diagnostics,
            task_edges: parse_dot_edges(read_artifact(&graph.artifacts, "task-depends.dot")),
            recipe_edges: parse_dot_edges(read_artifact(&graph.artifacts, "pn-depends.dot")),
            package_edges: parse_dot_edges(
                read_artifact(&graph.artifacts, "package-depends.dot"),
            ),
            build_list: parse_lines(read_artifact(&graph.artifacts, "pn-buildlist")),
            providers: parse_providers(read_artifact(&graph.artifacts, "pn-provides")),
            artifacts: copy_map(&graph.artifacts),
        }
    }

    /// The target that was asked about.
    pub fn target(&self) -> (r: &str)
        ensures
            r@ == self@.target,
    {
        self.target.as_str()
    }

    /// Whether the graphs were written.
    pub fn succeeded(&self) -> (r: bool)
        ensures
            r == self@.succeeded,
    {
        self.succeeded
    }

    /// What BitBake said.
    pub fn diagnostics(&self) -> (r: &Vec<SemanticDiagnostic>)
        ensures
            output::semantic_views(r@) == self@.diagnostics,
    {
        &self.diagnostics
    }

    /// The edges between tasks.
    pub fn task_edges(&self) -> (r: &Vec<SemanticGraphEdge>)
        ensures
            inventory::graph_edge_views(r@) == self@.task_edges,
    {
        &self.task_edges
    }

    /// The edges between recipes.
    pub fn recipe_edges(&self) -> (r: &Vec<SemanticGraphEdge>)
        ensures
            inventory::graph_edge_views(r@) == self@.recipe_edges,
    {
        &self.recipe_edges
    }

    /// The edges between packages.
    pub fn package_edges(&self) -> (r: &Vec<SemanticGraphEdge>)
        ensures
            inventory::graph_edge_views(r@) == self@.package_edges,
    {
        &self.package_edges
    }

    /// The recipes that are built.
    pub fn build_list(&self) -> (r: &Vec<String>)
        ensures
            collections::string_texts(r@) == self@.build_list,
    {
        &self.build_list
    }

    /// What the recipes provide.
    pub fn providers(&self) -> (r: &Vec<SemanticProvider>)
        ensures
            inventory::provider_views(r@) == self@.providers,
    {
        &self.providers
    }

    /// The files that were written, by name.
    pub fn artifacts(&self) -> (r: &TextMap)
        ensures
            r.pairs() == self@.artifacts,
    {
        &self.artifacts
    }
}

/// The contents of a list of graphs.
pub open spec fn graph_views(items: Seq<SemanticDependencyGraph>) -> Seq<GraphView> {
    items.map_values(|g: SemanticDependencyGraph| g@)
}

// ---------------------------------------------------------------------------
// Dry runs and inventories
// ---------------------------------------------------------------------------
/// The diagnostics in the output of a command; one that says `message` where
/// it failed without any.
pub open spec fn command_diagnostics(
    o: OutputView,
    phase: SemanticDiagnosticPhase,
    message: Seq<char>,
) -> Seq<SemanticView> {
    let found = output::output_diagnostics(o, phase, None);
    if !o.success && found.len() == 0 {
        seq![output::analysis_failure(phase, None, message)]
    } else {
        found
    }
}

fn read_command_diagnostics(
    output: &CommandOutput,
    phase: SemanticDiagnosticPhase,
    message: &str,
) -> (r: Vec<SemanticDiagnostic>)
    ensures
        output::semantic_views(r@) == command_diagnostics(output@, phase, message@),
{
    let mut found = parse_diagnostics(output, phase, None);
    assert(output::semantic_views(found@).len() == found@.len());
    if !output.success && found.len() == 0 {
        found.push(analysis_diagnostic(phase, None, message));
        assert(output::semantic_views(found@) =~= command_diagnostics(output@, phase, message@));
    }
    found
}

/// The scheduler output of a BitBake dry run.
#[derive(Clone, Debug, Eq, PartialEq)]
pub struct SemanticDryRun {
    targets: Vec<String>,
    succeeded: bool,
    diagnostics: Vec<SemanticDiagnostic>,
    tasks: Vec<String>,
    stdout: String,
    stderr: String,
}

#[verifier::ext_equal]
pub struct DryRunView {
    pub targets: Seq<Seq<char>>,
    pub succeeded: bool,
    pub diagnostics: Seq<SemanticView>,
    pub tasks: Seq<Seq<char>>,
    pub stdout: Seq<char>,
    pub stderr: Seq<char>,
}

/// What a dry run of some targets plans.
pub open spec fn dry_run_of(targets: Seq<Seq<char>>, o: OutputView) -> DryRunView {
    DryRunView {
        targets,
        succeeded: o.success,
        diagnostics: command_diagnostics(
            o,
            SemanticDiagnosticPhase::DryRun,
            "BitBake dry-run command failed"@,
        ),
        tasks: inventory::dry_run_tasks(o.stdout, o.stderr),
        stdout: o.stdout,
        stderr: o.stderr,
    }
}

impl SemanticDryRun {
    pub closed spec fn view(&self) -> DryRunView {
        DryRunView {
            targets: collections::string_texts(self.targets@),
            succeeded: self.succeeded,
            diagnostics: output::semantic_views(self.diagnostics@),
            tasks: collections::string_texts(self.tasks@),
            stdout: self.stdout@,
            stderr: self.stderr@,
        }
    }

    /// What a dry run of some targets plans.
    pub fn read(targets: &Vec<String>, output: &CommandOutput) -> (r: SemanticDryRun)
        ensures
            r@ == dry_run_of(collections::string_texts(targets@), output@),
    {
        SemanticDryRun {
            targets: copy_strings(targets),
            succeeded: output.success,
            diagnostics: read_command_diagnostics(
                output,
                SemanticDiagnosticPhase::DryRun,
                "BitBake dry-run command failed",
            ),
            tasks: parse_dry_run_tasks(output.stdout.as_str(), output.stderr.as_str()),
            stdout: output.stdout.clone(),
            stderr: output.stderr.clone(),
        }
    }

    /// The targets that were planned.
    pub fn targets(&self) -> (r: &Vec<String>)
        ensures
            collections::string_texts(r@) == self@.targets,
    {
        &self.targets
    }

    /// Whether the command succeeded.
    pub fn succeeded(&self) -> (r: bool)
        ensures
            r == self@.succeeded,
    {
        self.succeeded
    }

    /// What BitBake said.
    pub fn diagnostics(&self) -> (r: &Vec<SemanticDiagnostic>)
        ensures
            output::semantic_views(r@) == self@.diagnostics,
    {
        &self.diagnostics
    }

    /// The tasks in the order in which they are planned.
    pub fn tasks(&self) -> (r: &Vec<String>)
        ensures
            collections::string_texts(r@) == self@.tasks,
    {
        &self.tasks
    }

    /// The standard output of the command.
    pub fn stdout(&self) -> (r: &str)
        ensures
            r@ == self@.stdout,
    {
        self.stdout.as_str()
    }

    /// The standard error of the command.
    pub fn stderr(&self) -> (r: &str)
        ensures
            r@ == self@.stderr,
    {
        self.stderr.as_str()
    }
}

/// Parsed recipe/provider inventory for the active BitBake context.
#[derive(Clone, Debug, Eq, PartialEq)]
pub struct SemanticRecipeInventory {
    succeeded: bool,
    diagnostics: Vec<SemanticDiagnostic>,
    recipes: Vec<SemanticRecipeVersion>,
    providers: Vec<SemanticProvider>,
    raw: String,
}

#[verifier::ext_equal]
pub struct InventoryView {
    pub succeeded: bool,
    pub diagnostics: Seq<SemanticView>,
    pub recipes: Seq<VersionView>,
    pub providers: Seq<(Seq<char>, Seq<char>)>,
    pub raw: Seq<char>,
}

/// Sorted providers with those of `graphs[k..]`, each once.
pub open spec fn graph_providers(
    graphs: Seq<GraphView>,
    k: int,
    found: Seq<(Seq<char>, Seq<char>)>,
) -> Seq<(Seq<char>, Seq<char>)>
    decreases graphs.len() - k,
{
    if k < 0 || k >= graphs.len() {
        found
    } else {
        graph_providers(graphs, k + 1, inventory::with_providers(found, graphs[k].providers, 0))
    }
}

/// The recipe inventory, with the providers of the graphs.
pub open spec fn inventory_of(o: OutputView, graphs: Seq<GraphView>) -> InventoryView {
    InventoryView {
        succeeded: o.success,
        diagnostics: command_diagnostics(
            o,
            SemanticDiagnosticPhase::Inventory,
            "BitBake recipe inventory command failed"@,
        ),
        recipes: inventory::versions_from(output::text_lines(output::combined(o)), 0),
        providers: graph_providers(graphs, 0, Seq::empty()),
        raw: output::combined(o),
    }
}

impl SemanticRecipeInventory {
    pub closed spec fn view(&self) -> InventoryView {
        InventoryView {
            succeeded: self.succeeded,
            diagnostics: output::semantic_views(self.diagnostics@),
            recipes: inventory::version_views(self.recipes@),
            providers: inventory::provider_views(self.providers@),
            raw: self.raw@,
        }
    }

    /// The recipe inventory, with the providers of the graphs.
    pub fn read(output: &CommandOutput, graphs: &Vec<SemanticDependencyGraph>) -> (r:
        SemanticRecipeInventory)
        ensures
            r@ == inventory_of(output@, graph_views(graphs@)),
    {
        let raw = combined_output(output);
        let ghost all = graph_views(graphs@);
        let mut providers: Vec<SemanticProvider> = Vec::new();
        let mut k: usize = 0;
        assert(inventory::provider_views(providers@) =~= Seq::empty());
        while k < graphs.len()
            invariant
                k <= graphs@.len(),
                all == graph_views(graphs@),
                graph_providers(all, k as int, inventory::provider_views(providers@)) == graph_providers(
                    all,
                    0,
                    Seq::empty(),
                ),
            decreases graphs@.len() - k,
        {
            assert(all[k as int] == graphs@[k as int]@);
            insert_providers(&mut providers, graphs[k].providers());
            k += 1;
        }
        SemanticRecipeInventory {
            succeeded: output.success,
            diagnostics: read_command_diagnostics(
                output,
                SemanticDiagnosticPhase::Inventory,
                "BitBake recipe inventory command failed",
            ),
            recipes: parse_recipe_versions(raw.as_str()),
            providers,
            raw,
        }
    }

    /// Whether the command succeeded.
    pub fn succeeded(&self) -> (r: bool)
        ensures
            r == self@.succeeded,
    {
        self.succeeded
    }

    /// What BitBake said.
    pub fn diagnostics(&self) -> (r: &Vec<SemanticDiagnostic>)
        ensures
            output::semantic_views(r@) == self@.diagnostics,
    {
        &self.diagnostics
    }

    /// The recipes and their versions.
    pub fn recipes(&self) -> (r: &Vec<SemanticRecipeVersion>)
        ensures
            inventory::version_views(r@) == self@.recipes,
    {
        &self.recipes
    }

    /// What the recipes provide.
    pub fn providers(&self) -> (r: &Vec<SemanticProvider>)
        ensures
            inventory::provider_views(r@) == self@.providers,
    {
        &self.providers
    }

    /// The output of the command.
    pub fn raw(&self) -> (r: &str)
        ensures
            r@ == self@.raw,
    {
        self.raw.as_str()
    }
}

// ---------------------------------------------------------------------------
// Targets
// ---------------------------------------------------------------------------
/// The outcome of querying one requested BitBake target.
#[derive(Clone, Debug, Eq, PartialEq)]
pub struct SemanticTargetResult {
    target: String,
    succeeded: bool,
    queried: bool,
    diagnostics: Vec<SemanticDiagnostic>,
    environment: Option<SemanticEnvironment>,
}

#[verifier::ext_equal]
pub struct TargetView {
    pub target: Seq<char>,
    pub succeeded: bool,
    pub queried: bool,
    pub diagnostics: Seq<SemanticView>,
    pub environment: Option<EnvironmentView>,
}

/// The outcome of querying a target.
pub open spec fn target_of(target: Seq<char>, o: OutputView, wanted: Seq<Seq<char>>) -> TargetView {
    TargetView {
        target,
        succeeded: o.success,
        queried: true,
        diagnostics: output::output_diagnostics(o, SemanticDiagnosticPhase::TargetQuery, Some(target)),
        environment: if o.success {
            Some(environment::environment_of(target, o.stdout, wanted))
        } else {
            None
        },
    }
}

/// The outcome of a target that was not queried.
pub open spec fn unqueried_target(target: Seq<char>) -> TargetView {
    TargetView {
        target,
        succeeded: false,
        queried: false,
        diagnostics: Seq::empty(),
        environment: None,
    }
}

/// The outcomes of querying the targets `targets[k..]`.
pub open spec fn target_results_from(
    targets: Seq<Seq<char>>,
    outputs: Seq<OutputView>,
    k: int,
    wanted: Seq<Seq<char>>,
) -> Seq<TargetView>
    decreases targets.len() - k,
{
    if k < 0 || k >= targets.len() {
        Seq::empty()
    } else {
        seq![target_of(targets[k], outputs[k], wanted)] + target_results_from(
            targets,
            outputs,
            k + 1,
            wanted,
        )
    }
}

/// The diagnostics of the outcomes `results[k..]`.
pub open spec fn result_diagnostics(results: Seq<TargetView>, k: int) -> Seq<SemanticView>
    decreases results.len() - k,
{
    if k < 0 || k >= results.len() {
        Seq::empty()
    } else {
        results[k].diagnostics + result_diagnostics(results, k + 1)
    }
}

/// The environments of the outcomes `results[k..]`.
pub open spec fn result_environments(results: Seq<TargetView>, k: int) -> Seq<EnvironmentView>
    decreases results.len() - k,
{
    if k < 0 || k >= results.len() {
        Seq::empty()
    } else {
        match results[k].environment {
            Some(environment) => seq![environment] + result_environments(results, k + 1),
            None => result_environments(results, k + 1),
        }
    }
}

/// Every outcome is a success.
pub open spec fn all_succeeded(results: Seq<TargetView>) -> bool {
    forall|k: int| 0 <= k < results.len() ==> (#[trigger] results[k]).succeeded
}

impl SemanticTargetResult {
    pub closed spec fn view(&self) -> TargetView {
        TargetView {
            target: self.target@,
            succeeded: self.succeeded,
            queried: self.queried,
            diagnostics: output::semantic_views(self.diagnostics@),
            environment: match self.environment {
                Some(environment) => Some(environment@),
                None => None,
            },
        }
    }

    pub closed spec fn wf(&self) -> bool {
        match self.environment {
            Some(environment) => environment.wf(),
            None => true,
        }
    }

    /// The outcome of querying a target.
    pub fn read(target: &str, output: &CommandOutput, variables: &Vec<String>) -> (r:
        SemanticTargetResult)
        ensures
            r.wf(),
            r@ == target_of(target@, output@, collections::string_texts(variables@)),
    {
        let environment = if output.success {
            Some(parse_environment(target, output.stdout.as_str(), variables))
        } else {
            None
        };
        SemanticTargetResult {
            target: target.to_owned(),
            succeeded: output.success,
            queried: true,
            diagnostics: parse_diagnostics(
                output,
                SemanticDiagnosticPhase::TargetQuery,
                Some(target),
            ),
            environment,
        }
    }

    /// The outcome of a target that was not queried.
    pub fn unqueried(target: &str) -> (r: SemanticTargetResult)
        ensures
            r.wf(),
            r@ == unqueried_target(target@),
    {
        let r = SemanticTargetResult {
            target: target.to_owned(),
            succeeded: false,
            queried: false,
            diagnostics: Vec::new(),
            environment: None,
        };
        assert(r@.diagnostics =~= Seq::empty());
        r
    }

    /// The target that was asked about.
    pub fn target(&self) -> (r: &str)
        ensures
            r@ == self@.target,
    {
        self.target.as_str()
    }

    /// Whether BitBake was invoked for this target.
    pub fn queried(&self) -> (r: bool)
        ensures
            r == self@.queried,
    {
        self.queried
    }

    /// Whether the target environment query succeeded.
    pub fn succeeded(&self) -> (r: bool)
        ensures
            r == self@.succeeded,
    {
        self.succeeded
    }

    /// What BitBake said.
    pub fn diagnostics(&self) -> (r: &Vec<SemanticDiagnostic>)
        ensures
            output::semantic_views(r@) == self@.diagnostics,
    {
        &self.diagnostics
    }

    /// The environment of the target.
    pub fn environment(&self) -> (r: Option<&SemanticEnvironment>)
        requires
            self.wf(),
        ensures
            match r {
                Some(environment) => self@.environment == Some(environment@) && environment.wf(),
                None => self@.environment is None,
            },
    {
        match &self.environment {
            Some(environment) => Some(environment),
            None => None,
        }
    }
}

/// The contents of a list of outcomes.
pub open spec fn target_views(items: Seq<SemanticTargetResult>) -> Seq<TargetView> {
    items.map_values(|t: SemanticTargetResult| t@)
}

pub open spec fn results_wf(items: Seq<SemanticTargetResult>) -> bool {
    forall|k: int| 0 <= k < items.len() ==> (#[trigger] items[k]).wf()
}

// ---------------------------------------------------------------------------
// Build analysis
// ---------------------------------------------------------------------------
/// All requested build-analysis sections in one semantic report.
#[derive(Clone, Debug, Eq, PartialEq)]
pub struct SemanticBuildAnalysis {
    succeeded: bool,
    graphs: Vec<SemanticDependencyGraph>,
    dry_run: Option<SemanticDryRun>,
    inventory: Option<SemanticRecipeInventory>,
    packages: Vec<SemanticPackageSummary>,
}

#[verifier::ext_equal]
pub struct AnalysisView {
    pub succeeded: bool,
    pub graphs: Seq<GraphView>,
    pub dry_run: Option<DryRunView>,
    pub inventory: Option<InventoryView>,
    pub packages: Seq<SummaryView>,
}

/// The outputs of the commands that an analysis runs.
#[derive(Clone, Debug, Eq, PartialEq)]
pub struct BitBakeTranscript {
    /// Of `--version`.
    pub version: CommandOutput,
    /// Of `--parse-only`.
    pub parse: CommandOutput,
    /// Of `--environment`, for each target; needed where the parse succeeded.
    pub environments: Vec<CommandOutput>,
    /// Of `--graphviz`, for each target; needed where graphs are asked for.
    pub graphs: Vec<GraphOutput>,
    /// Of `--dry-run`.
    pub dry_run: Option<CommandOutput>,
    /// Of `--show-versions`.
    pub inventory: Option<CommandOutput>,
}

#[verifier::ext_equal]
pub struct TranscriptView {
    pub version: OutputView,
    pub parse: OutputView,
    pub environments: Seq<OutputView>,
    pub graphs: Seq<GraphOutputView>,
    pub dry_run: Option<OutputView>,
    pub inventory: Option<OutputView>,
}

pub open spec fn optional_output(output: Option<CommandOutput>) -> Option<OutputView> {
    match output {
        Some(output) => Some(output@),
        None => None,
    }
}

impl BitBakeTranscript {
    pub open spec fn view(&self) -> TranscriptView {
        TranscriptView {
            version: self.version@,
            parse: self.parse@,
            environments: output::output_views(self.environments@),
            graphs: graph_output_views(self.graphs@),
            dry_run: optional_output(self.dry_run),
            inventory: optional_output(self.inventory),
        }
    }

    /// The files of the graphs are by name.
    pub open spec fn wf(&self) -> bool {
        forall|k: int| 0 <= k < self.graphs@.len() ==> (#[trigger] self.graphs@[k]).artifacts.wf()
    }
}

/// The transcript holds the outputs that an analysis with options `o` needs.
pub open spec fn transcript_serves(t: TranscriptView, o: SemanticOptionsView) -> bool {
    t.parse.success ==> {
        &&& t.environments.len() == o.targets.len()
        &&& o.analysis.dependency_graph ==> t.graphs.len() == o.targets.len()
        &&& o.analysis.dry_run ==> t.dry_run is Some
        &&& o.analysis.inventory ==> t.inventory is Some
    }
}

/// The graphs of the targets `targets[k..]`.
pub open spec fn graphs_from(targets: Seq<Seq<char>>, outputs: Seq<GraphOutputView>, k: int) -> Seq<
    GraphView,
>
    decreases targets.len() - k,
{
    if k < 0 || k >= targets.len() {
        Seq::empty()
    } else {
        seq![graph_of(targets[k], outputs[k])] + graphs_from(targets, outputs, k + 1)
    }
}

/// The package metadata of one outcome.
pub open spec fn result_summary(result: TargetView) -> SummaryView {
    match result.environment {
        Some(environment) => environment::summary_of(environment.target, environment.raw),
        None => environment::failed_summary(result.target),
    }
}

/// The package metadata of the outcomes `results[k..]`.
pub open spec fn summaries_from(results: Seq<TargetView>, k: int) -> Seq<SummaryView>
    decreases results.len() - k,
{
    if k < 0 || k >= results.len() {
        Seq::empty()
    } else {
        seq![result_summary(results[k])] + summaries_from(results, k + 1)
    }
}

/// Whether all of the sections of an analysis succeeded.
pub open spec fn sections_succeeded(
    graphs: Seq<GraphView>,
    dry_run: Option<DryRunView>,
    inventory: Option<InventoryView>,
    packages: Seq<SummaryView>,
) -> bool {
    &&& forall|k: int| 0 <= k < graphs.len() ==> (#[trigger] graphs[k]).succeeded
    &&& dry_run matches Some(section) ==> section.succeeded
    &&& inventory matches Some(section) ==> section.succeeded
    &&& forall|k: int| 0 <= k < packages.len() ==> (#[trigger] packages[k]).succeeded
}

/// The build analysis with options `o` of a workspace that was parsed.
pub open spec fn analysis_of(t: TranscriptView, o: SemanticOptionsView, results: Seq<TargetView>) -> AnalysisView {
    let graphs = if o.analysis.dependency_graph {
        graphs_from(o.targets, t.graphs, 0)
    } else {
        Seq::empty()
    };
    let dry_run = if o.analysis.dry_run {
        Some(dry_run_of(o.targets, t.dry_run->0))
    } else {
        None
    };
    let inventory = if o.analysis.inventory {
        Some(inventory_of(t.inventory->0, graphs))
    } else {
        None
    };
    let packages = if o.analysis.packages {
        summaries_from(results, 0)
    } else {
        Seq::empty()
    };
    AnalysisView {
        succeeded: sections_succeeded(graphs, dry_run, inventory, packages),
        graphs,
        dry_run,
        inventory,
        packages,
    }
}

/// The diagnostics of the graphs from `k`.
pub open spec fn graphs_diagnostics(graphs: Seq<GraphView>, k: int) -> Seq<SemanticView>
    decreases graphs.len() - k,
{
    if k < 0 || k >= graphs.len() {
        Seq::empty()
    } else {
        graphs[k].diagnostics + graphs_diagnostics(graphs, k + 1)
    }
}

/// The diagnostics of the package metadata from `k`.
pub open spec fn summaries_diagnostics(items: Seq<SummaryView>, k: int) -> Seq<SemanticView>
    decreases items.len() - k,
{
    if k < 0 || k >= items.len() {
        Seq::empty()
    } else {
        items[k].diagnostics + summaries_diagnostics(items, k + 1)
    }
}

/// The diagnostics of a build analysis.
pub open spec fn analysis_diagnostics(a: AnalysisView) -> Seq<SemanticView> {
    graphs_diagnostics(a.graphs, 0) + dry_run_diagnostics(a.dry_run) + inventory_diagnostics(
        a.inventory,
    ) + summaries_diagnostics(a.packages, 0)
}

impl SemanticBuildAnalysis {
    pub closed spec fn view(&self) -> AnalysisView {
        AnalysisView {
            succeeded: self.succeeded,
            graphs: graph_views(self.graphs@),
            dry_run: match self.dry_run {
                Some(section) => Some(section@),
                None => None,
            },
            inventory: match self.inventory {
                Some(section) => Some(section@),
                None => None,
            },
            packages: self.packages@.map_values(|s: SemanticPackageSummary| s@),
        }
    }

    /// Whether all of the sections succeeded.
    pub fn succeeded(&self) -> (r: bool)
        ensures
            r == self@.succeeded,
    {
        self.succeeded
    }

    /// The dependency graphs.
    pub fn graphs(&self) -> (r: &Vec<SemanticDependencyGraph>)
        ensures
            graph_views(r@) == self@.graphs,
    {
        &self.graphs
    }

    /// The dry run.
    pub fn dry_run(&self) -> (r: Option<&SemanticDryRun>)
        ensures
            match r {
                Some(section) => self@.dry_run == Some(section@),
                None => self@.dry_run is None,
            },
    {
        match &self.dry_run {
            Some(section) => Some(section),
            None => None,
        }
    }

    /// The recipe inventory.
    pub fn inventory(&self) -> (r: Option<&SemanticRecipeInventory>)
        ensures
            match r {
                Some(section) => self@.inventory == Some(section@),
                None => self@.inventory is None,
            },
    {
        match &self.inventory {
            Some(section) => Some(section),
            None => None,
        }
    }

    /// The package metadata.
    pub fn packages(&self) -> (r: &Vec<SemanticPackageSummary>)
        ensures
            r@.map_values(|s: SemanticPackageSummary| s@) == self@.packages,
    {
        &self.packages
    }
}

fn read_graphs(targets: &Vec<String>, outputs: &Vec<GraphOutput>) -> (r: Vec<
    SemanticDependencyGraph,
>)
    requires
        outputs@.len() == targets@.len(),
        forall|k: int| 0 <= k < outputs@.len() ==> (#[trigger] outputs@[k]).artifacts.wf(),
    ensures
        graph_views(r@) == graphs_from(collections::string_texts(targets@), graph_output_views(outputs@), 0),
{
    let ghost names = collections::string_texts(targets@);
    let ghost all = graph_output_views(outputs@);
    let mut out: Vec<SemanticDependencyGraph> = Vec::new();
    let mut k: usize = 0;
    assert(graph_views(out@) =~= Seq::empty());
    assert(Seq::<GraphView>::empty() + graphs_from(names, all, 0) =~= graphs_from(names, all, 0));
    while k < targets.len()
        invariant
            k <= targets@.len(),
            outputs@.len() == targets@.len(),
            names == collections::string_texts(targets@),
            all == graph_output_views(outputs@),
            forall|j: int| 0 <= j < outputs@.len() ==> (#[trigger] outputs@[j]).artifacts.wf(),
            graph_views(out@) + graphs_from(names, all, k as int) == graphs_from(names, all, 0),
        decreases targets@.len() - k,
    {
        assert(names[k as int] == targets@[k as int]@);
        assert(all[k as int] == outputs@[k as int]@);
        let ghost before = graph_views(out@);
        let graph = SemanticDependencyGraph::read(targets[k].as_str(), &outputs[k]);
        let ghost added = graph@;
        out.push(graph);
        proof {
            let rest = graphs_from(names, all, k + 1);
            assert(graph_views(out@) =~= before.push(added));
            assert(before + (seq![added] + rest) =~= before.push(added) + rest);
        }
        k += 1;
    }
    assert(graph_views(out@) + Seq::<GraphView>::empty() =~= graph_views(out@));
    out
}

/// The contents of a list of package metadata.
pub open spec fn summary_views(items: Seq<SemanticPackageSummary>) -> Seq<SummaryView> {
    items.map_values(|s: SemanticPackageSummary| s@)
}

fn read_summaries(results: &Vec<SemanticTargetResult>) -> (r: Vec<SemanticPackageSummary>)
    requires
        results_wf(results@),
    ensures
        summary_views(r@) == summaries_from(target_views(results@), 0),
{
    let ghost all = target_views(results@);
    let mut out: Vec<SemanticPackageSummary> = Vec::new();
    let mut k: usize = 0;
    assert(summary_views(out@) =~= Seq::empty());
    assert(Seq::<SummaryView>::empty() + summaries_from(all, 0) =~= summaries_from(all, 0));
    while k < results.len()
        invariant
            k <= results@.len(),
            results_wf(results@),
            all == target_views(results@),
            summary_views(out@) + summaries_from(all, k as int) == summaries_from(all, 0),
        decreases results@.len() - k,
    {
        assert(all[k as int] == results@[k as int]@);
        let ghost before = summary_views(out@);
        let summary = match results[k].environment() {
            Some(environment) => package_summary_from_environment(environment),
            None => failed_package_summary(results[k].target()),
        };
        let ghost added = summary@;
        out.push(summary);
        proof {
            let rest = summaries_from(all, k + 1);
            assert(added == result_summary(all[k as int]));
            assert(summary_views(out@) =~= before.push(added));
            assert(before + (seq![added] + rest) =~= before.push(added) + rest);
        }
        k += 1;
    }
    assert(summary_views(out@) + Seq::<SummaryView>::empty() =~= summary_views(out@));
    out
}

fn graphs_ok(graphs: &Vec<SemanticDependencyGraph>, diagnostics: &mut Vec<SemanticDiagnostic>) -> (r:
    bool)
    ensures
        r == (forall|k: int|
            0 <= k < graphs@.len() ==> (#[trigger] graph_views(graphs@)[k]).succeeded),
        output::semantic_views(final(diagnostics)@) == output::semantic_views(old(diagnostics)@)
            + graphs_diagnostics(graph_views(graphs@), 0),
{
    let ghost all = graph_views(graphs@);
    let ghost goal = output::semantic_views(diagnostics@) + graphs_diagnostics(all, 0);
    let mut ok = true;
    let mut k: usize = 0;
    while k < graphs.len()
        invariant
            k <= graphs@.len(),
            all == graph_views(graphs@),
            ok == (forall|j: int| 0 <= j < k ==> (#[trigger] all[j]).succeeded),
            output::semantic_views(diagnostics@) + graphs_diagnostics(all, k as int) == goal,
        decreases graphs@.len() - k,
    {
        assert(all[k as int] == graphs@[k as int]@);
        let ghost before = output::semantic_views(diagnostics@);
        ok = ok && graphs[k].succeeded();
        append_diagnostics(diagnostics, graphs[k].diagnostics());
        proof {
            let f = all[k as int].diagnostics;
            let rest = graphs_diagnostics(all, k + 1);
            assert(before + (f + rest) =~= (before + f) + rest);
        }
        k += 1;
    }
    assert(output::semantic_views(diagnostics@) + Seq::<SemanticView>::empty() =~= output::semantic_views(
        diagnostics@,
    ));
    ok
}

fn summaries_ok(
    items: &Vec<SemanticPackageSummary>,
    diagnostics: &mut Vec<SemanticDiagnostic>,
) -> (r: bool)
    ensures
        r == (forall|k: int|
            0 <= k < items@.len() ==> (#[trigger] summary_views(items@)[k]).succeeded),
        output::semantic_views(final(diagnostics)@) == output::semantic_views(old(diagnostics)@)
            + summaries_diagnostics(summary_views(items@), 0),
{
    let ghost all = summary_views(items@);
    let ghost goal = output::semantic_views(diagnostics@) + summaries_diagnostics(all, 0);
    let mut ok = true;
    let mut k: usize = 0;
    while k < items.len()
        invariant
            k <= items@.len(),
            all == summary_views(items@),
            ok == (forall|j: int| 0 <= j < k ==> (#[trigger] all[j]).succeeded),
            output::semantic_views(diagnostics@) + summaries_diagnostics(all, k as int) == goal,
        decreases items@.len() - k,
    {
        assert(all[k as int] == items@[k as int]@);
        let ghost before = output::semantic_views(diagnostics@);
        ok = ok && items[k].succeeded();
        append_diagnostics(diagnostics, items[k].diagnostics());
        proof {
            let f = all[k as int].diagnostics;
            let rest = summaries_diagnostics(all, k + 1);
            assert(before + (f + rest) =~= (before + f) + rest);
        }
        k += 1;
    }
    assert(output::semantic_views(diagnostics@) + Seq::<SemanticView>::empty() =~= output::semantic_views(
        diagnostics@,
    ));
    ok
}

/// The diagnostics of an optional section.
pub open spec fn dry_run_diagnostics(section: Option<DryRunView>) -> Seq<SemanticView> {
    match section {
        Some(section) => section.diagnostics,
        None => Seq::empty(),
    }
}

/// The diagnostics of an optional section.
pub open spec fn inventory_diagnostics(section: Option<InventoryView>) -> Seq<SemanticView> {
    match section {
        Some(section) => section.diagnostics,
        None => Seq::empty(),
    }
}

pub open spec fn optional_dry_run(section: Option<SemanticDryRun>) -> Option<DryRunView> {
    match section {
        Some(section) => Some(section@),
        None => None,
    }
}

pub open spec fn optional_inventory(section: Option<SemanticRecipeInventory>) -> Option<
    InventoryView,
> {
    match section {
        Some(section) => Some(section@),
        None => None,
    }
}

fn read_dry_run(
    options: &SemanticOptions,
    output: &Option<CommandOutput>,
    diagnostics: &mut Vec<SemanticDiagnostic>,
) -> (r: Option<SemanticDryRun>)
    requires
        options.analysis.dry_run ==> *output is Some,
    ensures
        optional_dry_run(r) == (if options.analysis.dry_run {
            Some(dry_run_of(options@.targets, optional_output(*output)->0))
        } else {
            None
        }),
        output::semantic_views(final(diagnostics)@) == output::semantic_views(old(diagnostics)@)
            + dry_run_diagnostics(optional_dry_run(r)),
{
    if options.analysis.dry_run {
        if let Some(output) = output {
            let section = SemanticDryRun::read(&options.targets, output);
            append_diagnostics(diagnostics, section.diagnostics());
            return Some(section);
        }
    }
    proof {
        let before = output::semantic_views(diagnostics@);
        assert(before + Seq::<SemanticView>::empty() =~= before);
    }
    None
}

fn read_inventory(
    wanted: bool,
    output: &Option<CommandOutput>,
    graphs: &Vec<SemanticDependencyGraph>,
    diagnostics: &mut Vec<SemanticDiagnostic>,
) -> (r: Option<SemanticRecipeInventory>)
    requires
        wanted ==> *output is Some,
    ensures
        optional_inventory(r) == (if wanted {
            Some(inventory_of(optional_output(*output)->0, graph_views(graphs@)))
        } else {
            None
        }),
        output::semantic_views(final(diagnostics)@) == output::semantic_views(old(diagnostics)@)
            + inventory_diagnostics(optional_inventory(r)),
{
    if wanted {
        if let Some(output) = output {
            let section = SemanticRecipeInventory::read(output, graphs);
            append_diagnostics(diagnostics, section.diagnostics());
            return Some(section);
        }
    }
    proof {
        let before = output::semantic_views(diagnostics@);
        assert(before + Seq::<SemanticView>::empty() =~= before);
    }
    None
}

/// The build analysis of a workspace that was parsed.
fn build_analysis(
    options: &SemanticOptions,
    transcript: &BitBakeTranscript,
    results: &Vec<SemanticTargetResult>,
    diagnostics: &mut Vec<SemanticDiagnostic>,
) -> (r: SemanticBuildAnalysis)
    requires
        transcript.wf(),
        transcript@.parse.success,
        transcript_serves(transcript@, options@),
        results_wf(results@),
    ensures
        r@ == analysis_of(transcript@, options@, target_views(results@)),
        output::semantic_views(final(diagnostics)@) == output::semantic_views(old(diagnostics)@)
            + analysis_diagnostics(r@),
{
    let ghost before = output::semantic_views(diagnostics@);
    let graphs = if options.analysis.dependency_graph {
        assert(transcript@.graphs.len() == transcript.graphs@.len());
        assert(options@.targets.len() == options.targets@.len());
        read_graphs(&options.targets, &transcript.graphs)
    } else {
        let none: Vec<SemanticDependencyGraph> = Vec::new();
        assert(graph_views(none@) =~= Seq::empty());
        none
    };
    let graphs_succeeded = graphs_ok(&graphs, diagnostics);
    let dry_run = read_dry_run(options, &transcript.dry_run, diagnostics);
    let dry_run_succeeded = match &dry_run {
        Some(section) => section.succeeded(),
        None => true,
    };
    let inventory = read_inventory(
        options.analysis.inventory,
        &transcript.inventory,
        &graphs,
        diagnostics,
    );
    let inventory_succeeded = match &inventory {
        Some(section) => section.succeeded(),
        None => true,
    };
    let packages = if options.analysis.packages {
        read_summaries(results)
    } else {
        let none: Vec<SemanticPackageSummary> = Vec::new();
        assert(summary_views(none@) =~= Seq::empty());
        none
    };
    let packages_succeeded = summaries_ok(&packages, diagnostics);
    let r = SemanticBuildAnalysis {
        succeeded: graphs_succeeded && dry_run_succeeded && inventory_succeeded
            && packages_succeeded,
        graphs,
        dry_run,
        inventory,
        packages,
    };
    proof {
        assert(r@.packages == summary_views(packages@));
        assert(r@.dry_run == optional_dry_run(dry_run));
        assert(r@.inventory == optional_inventory(inventory));
        assert(r@.succeeded == sections_succeeded(
            r@.graphs,
            r@.dry_run,
            r@.inventory,
            r@.packages,
        ));
        assert(output::semantic_views(diagnostics@) == before + graphs_diagnostics(r@.graphs, 0)
            + dry_run_diagnostics(r@.dry_run) + inventory_diagnostics(r@.inventory)
            + summaries_diagnostics(r@.packages, 0));
        lemma_chain(
            before,
            graphs_diagnostics(r@.graphs, 0),
            dry_run_diagnostics(r@.dry_run),
            inventory_diagnostics(r@.inventory),
            summaries_diagnostics(r@.packages, 0),
        );
    }
    r
}

proof fn lemma_chain(
    a: Seq<SemanticView>,
    b: Seq<SemanticView>,
    c: Seq<SemanticView>,
    d: Seq<SemanticView>,
    e: Seq<SemanticView>,
)
    ensures
        a + b + c + d + e == a + (b + c + d + e),
{
    assert(a + b + c + d + e =~= a + (b + c + d + e));
}

// ---------------------------------------------------------------------------
// Reports
// ---------------------------------------------------------------------------
/// The result of a complete BitBake parse and optional environment queries.
#[derive(Clone, Debug, Eq, PartialEq)]
pub struct SemanticReport {
    bitbake: String,
    bitbake_version: String,
    build_dir: String,
    requested_targets: Vec<String>,
    requested_variables: Vec<String>,
    parse_succeeded: bool,
    target_queries_succeeded: bool,
    diagnostics: Vec<SemanticDiagnostic>,
    environments: Vec<SemanticEnvironment>,
    target_results: Vec<SemanticTargetResult>,
    build_analysis: Option<SemanticBuildAnalysis>,
}

#[verifier::ext_equal]
pub struct ReportView {
    pub bitbake: Seq<char>,
    pub bitbake_version: Seq<char>,
    pub build_dir: Seq<char>,
    pub requested_targets: Seq<Seq<char>>,
    pub requested_variables: Seq<Seq<char>>,
    pub parse_succeeded: bool,
    pub target_queries_succeeded: bool,
    pub diagnostics: Seq<SemanticView>,
    pub environments: Seq<EnvironmentView>,
    pub target_results: Seq<TargetView>,
    pub build_analysis: Option<AnalysisView>,
}

/// The outcomes of the targets of an analysis.
pub open spec fn results_of(t: TranscriptView, o: SemanticOptionsView) -> Seq<TargetView> {
    if t.parse.success {
        target_results_from(o.targets, t.environments, 0, o.variables)
    } else {
        o.targets.map_values(|target: Seq<char>| unqueried_target(target))
    }
}

/// The build analysis of a report.
pub open spec fn reported_analysis(t: TranscriptView, o: SemanticOptionsView) -> Option<
    AnalysisView,
> {
    if !any_requested(o.analysis) {
        None
    } else if t.parse.success {
        Some(analysis_of(t, o, results_of(t, o)))
    } else {
        Some(
            AnalysisView {
                succeeded: false,
                graphs: Seq::empty(),
                dry_run: None,
                inventory: None,
                packages: Seq::empty(),
            },
        )
    }
}

/// The report of an analysis.
pub open spec fn report_of(t: TranscriptView, o: SemanticOptionsView, version: Seq<char>) -> ReportView {
    let results = results_of(t, o);
    let analysis = reported_analysis(t, o);
    ReportView {
        bitbake: o.bitbake,
        bitbake_version: version,
        build_dir: o.build_dir,
        requested_targets: o.targets,
        requested_variables: o.variables,
        parse_succeeded: t.parse.success,
        target_queries_succeeded: if t.parse.success {
            all_succeeded(results)
        } else {
            o.targets.len() == 0
        },
        diagnostics: output::output_diagnostics(t.parse, SemanticDiagnosticPhase::Parse, None)
            + result_diagnostics(results, 0) + (match analysis {
            Some(a) => analysis_diagnostics(a),
            None => Seq::empty(),
        }),
        environments: result_environments(results, 0),
        target_results: results,
        build_analysis: analysis,
    }
}

/// Whether a report holds an error.
pub open spec fn report_has_errors(r: ReportView) -> bool {
    exists|k: int|
        0 <= k < r.diagnostics.len() && (#[trigger] r.diagnostics[k]).severity
            == SemanticSeverity::Error
}

/// The contents of a list of environments.
pub open spec fn environment_views(items: Seq<SemanticEnvironment>) -> Seq<EnvironmentView> {
    items.map_values(|e: SemanticEnvironment| e@)
}

pub open spec fn environments_wf(items: Seq<SemanticEnvironment>) -> bool {
    forall|k: int| 0 <= k < items.len() ==> (#[trigger] items[k]).wf()
}

impl SemanticReport {
    pub closed spec fn view(&self) -> ReportView {
        ReportView {
            bitbake: self.bitbake@,
            bitbake_version: self.bitbake_version@,
            build_dir: self.build_dir@,
            requested_targets: collections::string_texts(self.requested_targets@),
            requested_variables: collections::string_texts(self.requested_variables@),
            parse_succeeded: self.parse_succeeded,
            target_queries_succeeded: self.target_queries_succeeded,
            diagnostics: output::semantic_views(self.diagnostics@),
            environments: environment_views(self.environments@),
            target_results: target_views(self.target_results@),
            build_analysis: match self.build_analysis {
                Some(analysis) => Some(analysis@),
                None => None,
            },
        }
    }

    pub closed spec fn wf(&self) -> bool {
        environments_wf(self.environments@) && results_wf(self.target_results@)
    }

    /// The executable that was run.
    pub fn bitbake(&self) -> (r: &str)
        ensures
            r@ == self@.bitbake,
    {
        self.bitbake.as_str()
    }

    /// The version that BitBake reported.
    pub fn bitbake_version(&self) -> (r: &str)
        ensures
            r@ == self@.bitbake_version,
    {
        self.bitbake_version.as_str()
    }

    /// The build directory.
    pub fn build_dir(&self) -> (r: &str)
        ensures
            r@ == self@.build_dir,
    {
        self.build_dir.as_str()
    }

    /// The targets that were asked about.
    pub fn requested_targets(&self) -> (r: &Vec<String>)
        ensures
            collections::string_texts(r@) == self@.requested_targets,
    {
        &self.requested_targets
    }

    /// The variables that were asked for.
    pub fn requested_variables(&self) -> (r: &Vec<String>)
        ensures
            collections::string_texts(r@) == self@.requested_variables,
    {
        &self.requested_variables
    }

    /// Whether BitBake parsed the metadata.
    pub fn parse_succeeded(&self) -> (r: bool)
        ensures
            r == self@.parse_succeeded,
    {
        self.parse_succeeded
    }

    /// Whether every target could be queried.
    pub fn target_queries_succeeded(&self) -> (r: bool)
        ensures
            r == self@.target_queries_succeeded,
    {
        self.target_queries_succeeded
    }

    /// Whether the parse, the queries and the requested analyses succeeded.
    pub fn analysis_succeeded(&self) -> (r: bool)
        ensures
            r == (self@.parse_succeeded && self@.target_queries_succeeded && (
                match self@.build_analysis {
                    Some(analysis) => analysis.succeeded,
                    None => true,
                })),
    {
        self.parse_succeeded && self.target_queries_succeeded && match &self.build_analysis {
            Some(analysis) => analysis.succeeded(),
            None => true,
        }
    }

    /// What BitBake said.
    pub fn diagnostics(&self) -> (r: &Vec<SemanticDiagnostic>)
        ensures
            output::semantic_views(r@) == self@.diagnostics,
    {
        &self.diagnostics
    }

    /// The environments of the targets.
    pub fn environments(&self) -> (r: &Vec<SemanticEnvironment>)
        ensures
            environment_views(r@) == self@.environments,
            self.wf() ==> environments_wf(r@),
    {
        &self.environments
    }

    /// The outcomes of the targets.
    pub fn target_results(&self) -> (r: &Vec<SemanticTargetResult>)
        ensures
            target_views(r@) == self@.target_results,
            self.wf() ==> results_wf(r@),
    {
        &self.target_results
    }

    /// The build analysis.
    pub fn build_analysis(&self) -> (r: Option<&SemanticBuildAnalysis>)
        ensures
            self@.build_analysis == (match r {
                    Some(analysis) => Some(analysis@),
                    None => None,
                }),
    {
        match &self.build_analysis {
            Some(analysis) => Some(analysis),
            None => None,
        }
    }

    /// Whether BitBake reported an error.
    pub fn has_errors(&self) -> (r: bool)
        ensures
            r == report_has_errors(self@),
    {
        let ghost all = output::semantic_views(self.diagnostics@);
        let mut k: usize = 0;
        while k < self.diagnostics.len()
            invariant
                k <= self.diagnostics@.len(),
                all == output::semantic_views(self.diagnostics@),
                forall|j: int|
                    0 <= j < k ==> (#[trigger] all[j]).severity != SemanticSeverity::Error,
            decreases self.diagnostics@.len() - k,
        {
            assert(all[k as int] == self.diagnostics@[k as int]@);
            if self.diagnostics[k].severity() == SemanticSeverity::Error {
                assert(all[k as int].severity == SemanticSeverity::Error);
                return true;
            }
            k += 1;
        }
        false
    }
}

fn read_targets(
    targets: &Vec<String>,
    outputs: &Vec<CommandOutput>,
    variables: &Vec<String>,
) -> (r: Vec<SemanticTargetResult>)
    requires
        outputs@.len() == targets@.len(),
    ensures
        results_wf(r@),
        target_views(r@) == target_results_from(
            collections::string_texts(targets@),
            output::output_views(outputs@),
            0,
            collections::string_texts(variables@),
        ),
{
    let ghost names = collections::string_texts(targets@);
    let ghost all = output::output_views(outputs@);
    let ghost wanted = collections::string_texts(variables@);
    let mut out: Vec<SemanticTargetResult> = Vec::new();
    let mut k: usize = 0;
    assert(target_views(out@) =~= Seq::empty());
    assert(Seq::<TargetView>::empty() + target_results_from(names, all, 0, wanted) =~= target_results_from(
        names,
        all,
        0,
        wanted,
    ));
    while k < targets.len()
        invariant
            k <= targets@.len(),
            outputs@.len() == targets@.len(),
            names == collections::string_texts(targets@),
            all == output::output_views(outputs@),
            wanted == collections::string_texts(variables@),
            results_wf(out@),
            target_views(out@) + target_results_from(names, all, k as int, wanted) == target_results_from(
                names,
                all,
                0,
                wanted,
            ),
        decreases targets@.len() - k,
    {
        assert(names[k as int] == targets@[k as int]@);
        assert(all[k as int] == outputs@[k as int]@);
        let ghost before = target_views(out@);
        let result = SemanticTargetResult::read(targets[k].as_str(), &outputs[k], variables);
        let ghost added = result@;
        out.push(result);
        proof {
            let rest = target_results_from(names, all, k + 1, wanted);
            assert(target_views(out@) =~= before.push(added));
            assert(before + (seq![added] + rest) =~= before.push(added) + rest);
        }
        k += 1;
    }
    assert(target_views(out@) + Seq::<TargetView>::empty() =~= target_views(out@));
    out
}

fn skip_targets(targets: &Vec<String>) -> (r: Vec<SemanticTargetResult>)
    ensures
        results_wf(r@),
        target_views(r@) == collections::string_texts(targets@).map_values(
            |target: Seq<char>| unqueried_target(target),
        ),
{
    let mut out: Vec<SemanticTargetResult> = Vec::new();
    let mut k: usize = 0;
    while k < targets.len()
        invariant
            k <= targets@.len(),
            out@.len() == k,
            results_wf(out@),
            forall|j: int| 0 <= j < k ==> (#[trigger] out@[j])@ == unqueried_target(targets@[j]@),
        decreases targets@.len() - k,
    {
        out.push(SemanticTargetResult::unqueried(targets[k].as_str()));
        k += 1;
    }
    assert(target_views(out@) =~= collections::string_texts(targets@).map_values(
        |target: Seq<char>| unqueried_target(target),
    ));
    out
}

fn copy_environment(environment: &SemanticEnvironment, variables: &Vec<String>) -> (r:
    SemanticEnvironment)
    requires
        environment@ == environment::environment_of(
            environment@.target,
            environment@.raw,
            collections::string_texts(variables@),
        ),
    ensures
        r.wf(),
        r@ == environment@,
{
    parse_environment(environment.target(), environment.raw(), variables)
}

proof fn lemma_targets(
    targets: Seq<Seq<char>>,
    outputs: Seq<OutputView>,
    k: int,
    wanted: Seq<Seq<char>>,
)
    requires
        0 <= k <= targets.len(),
    ensures
        target_results_from(targets, outputs, k, wanted).len() == targets.len() - k,
        forall|j: int|
            0 <= j < targets.len() - k ==> #[trigger] target_results_from(targets, outputs, k, wanted)[j]
                == target_of(targets[k + j], outputs[k + j], wanted),
    decreases targets.len() - k,
{
    if k < targets.len() {
        lemma_targets(targets, outputs, k + 1, wanted);
        let rest = target_results_from(targets, outputs, k + 1, wanted);
        assert forall|j: int| 0 <= j < targets.len() - k implies #[trigger] target_results_from(
            targets,
            outputs,
            k,
            wanted,
        )[j] == target_of(targets[k + j], outputs[k + j], wanted) by {
            if j > 0 {
                assert(target_results_from(targets, outputs, k, wanted)[j] == rest[j - 1]);
            }
        }
    }
}

/// The report of an analysis, from the output of the commands that it runs.
///
/// Semantics are supplied by the exact BitBake/Yocto installation that ran the
/// commands, including Python metadata, overrides, anonymous functions, layer
/// priorities, machine/distro configuration, and external providers.
pub fn analyze_bitbake(options: &SemanticOptions, transcript: &BitBakeTranscript) -> (r: Result<
    SemanticReport,
    SemanticError,
>)
    requires
        transcript.wf(),
        transcript_serves(transcript@, options@),
    ensures
        match lacking_mode(options@) {
            Some(mode) => r matches Err(SemanticError::AnalysisTargetsRequired { mode: m }) && m@
                == mode,
            None => match output::reported_version(transcript@.version) {
                Some(version) => if transcript@.version.success {
                    r matches Ok(report) && report.wf() && report@ == report_of(
                        transcript@,
                        options@,
                        version,
                    )
                } else {
                    r matches Err(SemanticError::BitBakeVersion(output)) && output@ == output::combined(
                        transcript@.version,
                    )
                },
                None => r matches Err(SemanticError::BitBakeVersion(output)) && output@
                    == output::combined(transcript@.version),
            },
        },
{
    if let Err(error) = check_targets(options) {
        return Err(error);
    }
    let version = match parse_version(&transcript.version) {
        Some(version) => if transcript.version.success {
            version
        } else {
            return Err(SemanticError::BitBakeVersion(combined_output(&transcript.version)));
        },
        None => {
            return Err(SemanticError::BitBakeVersion(combined_output(&transcript.version)));
        },
    };
    let ghost t = transcript@;
    let ghost o = options@;
    let ghost expected = report_of(t, o, version@);
    let mut diagnostics = parse_diagnostics(
        &transcript.parse,
        SemanticDiagnosticPhase::Parse,
        None,
    );
    let parse_succeeded = transcript.parse.success;
    assert(o.targets.len() == options.targets@.len());
    assert(t.environments.len() == transcript.environments@.len());
    let results = if parse_succeeded {
        read_targets(&options.targets, &transcript.environments, &options.variables)
    } else {
        skip_targets(&options.targets)
    };
    let ghost all = target_views(results@);
    assert(all == results_of(t, o));
    let ghost first = output::semantic_views(diagnostics@);
    let mut environments: Vec<SemanticEnvironment> = Vec::new();
    let mut queries_succeeded = true;
    let mut k: usize = 0;
    proof {
        assert(environment_views(environments@) =~= Seq::empty());
        assert(Seq::<EnvironmentView>::empty() + result_environments(all, 0)
            =~= result_environments(all, 0));
        if parse_succeeded {
            lemma_targets(o.targets, t.environments, 0, o.variables);
        }
    }
    while k < results.len()
        invariant
            k <= results@.len(),
            results_wf(results@),
            all == target_views(results@),
            environments_wf(environments@),
            o.variables == collections::string_texts(options.variables@),
            forall|j: int|
                0 <= j < all.len() ==> ((#[trigger] all[j]).environment matches Some(e) ==> e
                    == environment::environment_of(e.target, e.raw, o.variables)),
            queries_succeeded == (forall|j: int| 0 <= j < k ==> (#[trigger] all[j]).succeeded),
            output::semantic_views(diagnostics@) + result_diagnostics(all, k as int) == first
                + result_diagnostics(all, 0),
            environment_views(environments@) + result_environments(all, k as int)
                == result_environments(all, 0),
        decreases results@.len() - k,
    {
        assert(all[k as int] == results@[k as int]@);
        let ghost before = output::semantic_views(diagnostics@);
        queries_succeeded = queries_succeeded && results[k].succeeded();
        append_diagnostics(&mut diagnostics, results[k].diagnostics());
        proof {
            let f = all[k as int].diagnostics;
            let rest = result_diagnostics(all, k + 1);
            assert(before + (f + rest) =~= (before + f) + rest);
        }
        if let Some(environment) = results[k].environment() {
            let ghost earlier = environment_views(environments@);
            let copy = copy_environment(environment, &options.variables);
            let ghost added = copy@;
            environments.push(copy);
            proof {
                let rest = result_environments(all, k + 1);
                assert(environment_views(environments@) =~= earlier.push(added));
                assert(earlier + (seq![added] + rest) =~= earlier.push(added) + rest);
            }
        }
        k += 1;
    }
    proof {
        assert(output::semantic_views(diagnostics@) + Seq::<SemanticView>::empty() =~= output::semantic_views(
            diagnostics@,
        ));
        assert(environment_views(environments@) + Seq::<EnvironmentView>::empty()
            =~= environment_views(environments@));
    }
    let ghost middle = output::semantic_views(diagnostics@);
    let analysis = if options.analysis.requested() {
        if parse_succeeded {
            Some(build_analysis(options, transcript, &results, &mut diagnostics))
        } else {
            let section = SemanticBuildAnalysis {
                succeeded: false,
                graphs: Vec::new(),
                dry_run: None,
                inventory: None,
                packages: Vec::new(),
            };
            proof {
                assert(section@.graphs =~= Seq::empty());
                assert(section@.packages =~= Seq::empty());
                assert(analysis_diagnostics(section@) =~= Seq::empty());
                assert(middle + analysis_diagnostics(section@) =~= middle);
            }
            Some(section)
        }
    } else {
        assert(middle + Seq::<SemanticView>::empty() =~= middle);
        None
    };
    let target_queries_succeeded = if parse_succeeded {
        queries_succeeded
    } else {
        options.targets.len() == 0
    };
    let report = SemanticReport {
        bitbake: options.bitbake.clone(),
        bitbake_version: version,
        build_dir: options.build_dir.clone(),
        requested_targets: copy_strings(&options.targets),
        requested_variables: copy_strings(&options.variables),
        parse_succeeded,
        target_queries_succeeded,
        diagnostics,
        environments,
        target_results: results,
        build_analysis: analysis,
    };
    assert(report@ =~= expected);
    Ok(report)
}

} // verus!
