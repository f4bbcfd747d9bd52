//! The commands of a semantic analysis: which one comes next, and when all
//! have been answered.
use crate::collections;
use crate::output;
use crate::semantic;
use crate::bitbake::BitBakeInvocation;
use crate::bitbake::BitBakePhase;
use crate::bitbake::InvocationView;
use crate::collections::TextMap;
use crate::output::CommandOutput;
use crate::output::OutputView;
use crate::output::parse_version;
use crate::semantic::BitBakeTranscript;
use crate::semantic::BuildDirFacts;
use crate::semantic::GraphOutput;
use crate::semantic::GraphOutputView;
use crate::semantic::SemanticError;
use crate::semantic::SemanticOptions;
use crate::semantic::SemanticOptionsView;
use crate::semantic::TranscriptView;
use crate::semantic::check_targets;
use crate::semantic::dry_run_arguments;
use crate::semantic::environment_arguments;
use crate::semantic::graph_arguments;
use crate::semantic::parse_arguments;
use crate::semantic::validate_build_dir;
use vstd::prelude::*;

verus! {

/// A command of an analysis; `Environment` and `Graph` name a target by its
/// position.
#[derive(Clone, Copy, Debug, Eq, PartialEq, Structural)]
pub enum Query {
    Version,
    Parse,
    Environment(usize),
    Graph(usize),
    DryRun,
    Inventory,
    Finished,
}

/// An analysis and the answers to its commands so far.
#[derive(Debug)]
pub struct BitBakeSession {
    options: SemanticOptions,
    version: Option<CommandOutput>,
    parse: Option<CommandOutput>,
    environments: Vec<CommandOutput>,
    graphs: Vec<GraphOutput>,
    dry_run: Option<CommandOutput>,
    inventory: Option<CommandOutput>,
}

#[verifier::ext_equal]
pub struct SessionView {
    pub options: SemanticOptionsView,
    pub version: Option<OutputView>,
    pub parse: Option<OutputView>,
    pub environments: Seq<OutputView>,
    pub graphs: Seq<GraphOutputView>,
    pub dry_run: Option<OutputView>,
    pub inventory: Option<OutputView>,
}

/// A session before its first command.
pub open spec fn new_session(options: SemanticOptionsView) -> SessionView {
    SessionView {
        options,
        version: None,
        parse: None,
        environments: Seq::empty(),
        graphs: Seq::empty(),
        dry_run: None,
        inventory: None,
    }
}

/// The command that a session runs next. Without a version nothing is parsed,
/// and nothing is asked about metadata that does not parse.
pub open spec fn next_query(s: SessionView) -> Query {
    let count = s.options.targets.len();
    match (s.version, s.parse) {
        (None, _) => Query::Version,
        (Some(version), parse) => if !version.success || output::reported_version(version) is None {
            Query::Finished
        } else {
            match parse {
                None => Query::Parse,
                Some(parse) => if !parse.success {
                    Query::Finished
                } else if s.environments.len() < count {
                    Query::Environment(s.environments.len() as usize)
                } else if s.options.analysis.dependency_graph && s.graphs.len() < count {
                    Query::Graph(s.graphs.len() as usize)
                } else if s.options.analysis.dry_run && s.dry_run is None {
                    Query::DryRun
                } else if s.options.analysis.inventory && s.inventory is None {
                    Query::Inventory
                } else {
                    Query::Finished
                },
            }
        },
    }
}

/// The arguments of a command.
pub open spec fn query_arguments(options: SemanticOptionsView, query: Query) -> Seq<Seq<char>> {
    match query {
        Query::Version => seq!["--version"@],
        Query::Parse => seq!["--parse-only"@] + options.targets,
        Query::Environment(k) => seq!["--environment"@, options.targets[k as int]],
        Query::Graph(k) => seq!["--graphviz"@, options.targets[k as int]],
        Query::DryRun => seq!["--dry-run"@] + options.targets,
        Query::Inventory => seq!["--show-versions"@],
        Query::Finished => Seq::empty(),
    }
}

/// The phase of a command.
pub open spec fn query_phase(query: Query) -> BitBakePhase {
    match query {
        Query::Version => BitBakePhase::Version,
        Query::Parse => BitBakePhase::Parse,
        Query::Environment(_) => BitBakePhase::TargetEnvironment,
        Query::Graph(_) => BitBakePhase::DependencyGraph,
        Query::DryRun => BitBakePhase::DryRun,
        Query::Inventory => BitBakePhase::RecipeInventory,
        Query::Finished => BitBakePhase::Version,
    }
}

/// The invocation of a command.
pub open spec fn query_invocation(options: SemanticOptionsView, query: Query) -> InvocationView {
    let phase = query_phase(query);
    InvocationView {
        executable: options.bitbake,
        current_dir: options.build_dir,
        arguments: query_arguments(options, query),
        phase,
        target: match query {
            Query::Environment(k) => Some(options.targets[k as int]),
            Query::Graph(k) => Some(options.targets[k as int]),
            _ => None,
        },
        recipe: None,
        environment: Seq::empty(),
        cacheable: phase == BitBakePhase::Version || phase == BitBakePhase::Parse,
    }
}

/// A session after the answer to its next command; `artifacts` are the files
/// that the command left.
pub open spec fn answered(
    s: SessionView,
    answer: OutputView,
    artifacts: Seq<(Seq<char>, Seq<char>)>,
) -> SessionView {
    match next_query(s) {
        Query::Version => SessionView { version: Some(answer), ..s },
        Query::Parse => SessionView { parse: Some(answer), ..s },
        Query::Environment(_) => SessionView { environments: s.environments.push(answer), ..s },
        Query::Graph(_) => SessionView {
            graphs: s.graphs.push(GraphOutputView { output: answer, artifacts }),
            ..s
        },
        Query::DryRun => SessionView { dry_run: Some(answer), ..s },
        Query::Inventory => SessionView { inventory: Some(answer), ..s },
        Query::Finished => s,
    }
}

/// The output of a command that was not run.
pub open spec fn unanswered() -> OutputView {
    OutputView { success: false, stdout: ""@, stderr: ""@ }
}

/// The answers of a session.
pub open spec fn transcript_of(s: SessionView) -> TranscriptView {
    TranscriptView {
        version: match s.version {
            Some(output) => output,
            None => unanswered(),
        },
        parse: match s.parse {
            Some(output) => output,
            None => unanswered(),
        },
        environments: s.environments,
        graphs: s.graphs,
        dry_run: s.dry_run,
        inventory: s.inventory,
    }
}

/// An output, or that of a command that was not run.
fn or_unanswered(output: Option<CommandOutput>) -> (r: CommandOutput)
    ensures
        r@ == match semantic::optional_output(output) {
            Some(output) => output,
            None => unanswered(),
        },
{
    match output {
        Some(output) => output,
        None => CommandOutput { success: false, stdout: "".to_owned(), stderr: "".to_owned() },
    }
}

impl BitBakeSession {
    pub closed spec fn view(&self) -> SessionView {
        SessionView {
            options: self.options@,
            version: semantic::optional_output(self.version),
            parse: semantic::optional_output(self.parse),
            environments: output::output_views(self.environments@),
            graphs: semantic::graph_output_views(self.graphs@),
            dry_run: semantic::optional_output(self.dry_run),
            inventory: semantic::optional_output(self.inventory),
        }
    }

    /// The files of the graphs are by name, no target is answered for twice,
    /// and metadata is only parsed once there is a version.
    pub closed spec fn wf(&self) -> bool {
        &&& forall|k: int|
            0 <= k < self.graphs@.len() ==> (#[trigger] self.graphs@[k]).artifacts.wf()
        &&& self.environments@.len() <= self.options.targets@.len()
        &&& self.graphs@.len() <= self.options.targets@.len()
        &&& self.parse is Some ==> (self.version matches Some(version) && version.success
            && output::reported_version(version@) is Some)
    }

    /// Starts an analysis, whose build directory holds a configuration.
    /// Analyses of targets need targets.
    pub fn begin(options: SemanticOptions) -> (r: Result<BitBakeSession, SemanticError>)
        ensures
            match semantic::lacking_mode(options@) {
                Some(mode) => r matches Err(SemanticError::AnalysisTargetsRequired { mode: m })
                    && m@ == mode,
                None => r matches Ok(session) && session.wf() && session@ == new_session(options@),
            },
    {
        if let Err(error) = check_targets(&options) {
            return Err(error);
        }
        let session = BitBakeSession {
            options,
            version: None,
            parse: None,
            environments: Vec::new(),
            graphs: Vec::new(),
            dry_run: None,
            inventory: None,
        };
        assert(session@ =~= new_session(options@));
        Ok(session)
    }

    /// Starts an analysis of a build directory of which `facts` are known. A path
    /// that is no build directory is refused before there is a command to run;
    /// analyses of targets need targets.
    pub fn begin_checked(options: SemanticOptions, facts: &BuildDirFacts) -> (r: Result<
        BitBakeSession,
        SemanticError,
    >)
        ensures
            match semantic::build_dir_fault(options@.build_dir, *facts) {
                Some(fault) => r matches Err(
                    SemanticError::InvalidBuildDirectory { path, reason },
                ) && path@ == options@.build_dir && reason@ == fault,
                None => match semantic::lacking_mode(options@) {
                    Some(mode) => r matches Err(SemanticError::AnalysisTargetsRequired { mode: m })
                        && m@ == mode,
                    None => r matches Ok(session) && session.wf() && session@ == new_session(
                        options@,
                    ),
                },
            },
    {
        match validate_build_dir(options.build_dir.as_str(), facts) {
            Ok(_) => BitBakeSession::begin(options),
            Err(error) => Err(error),
        }
    }

    /// What is analyzed.
    pub fn options(&self) -> (r: &SemanticOptions)
        ensures
            r@ == self@.options,
    {
        &self.options
    }

    /// The command to run next.
    pub fn next(&self) -> (r: Query)
        requires
            self.wf(),
        ensures
            r == next_query(self@),
    {
        let version = match &self.version {
            Some(version) => version,
            None => {
                return Query::Version;
            },
        };
        if !version.success || parse_version(version).is_none() {
            return Query::Finished;
        }
        let parse = match &self.parse {
            Some(parse) => parse,
            None => {
                return Query::Parse;
            },
        };
        if !parse.success {
            return Query::Finished;
        }
        let count = self.options.targets.len();
        assert(self@.options.targets.len() == count);
        assert(self@.environments.len() == self.environments@.len());
        assert(self@.graphs.len() == self.graphs@.len());
        let analysis = &self.options.analysis;
        if self.environments.len() < count {
            Query::Environment(self.environments.len())
        } else if analysis.dependency_graph && self.graphs.len() < count {
            Query::Graph(self.graphs.len())
        } else if analysis.dry_run && self.dry_run.is_none() {
            Query::DryRun
        } else if analysis.inventory && self.inventory.is_none() {
            Query::Inventory
        } else {
            Query::Finished
        }
    }

    /// The invocation of the command to run next; none once the session is
    /// finished.
    pub fn invocation(&self) -> (r: Option<BitBakeInvocation>)
        requires
            self.wf(),
        ensures
            match r {
                Some(found) => next_query(self@) != Query::Finished && found@ == query_invocation(
                    self@.options,
                    next_query(self@),
                ),
                None => next_query(self@) == Query::Finished,
            },
    {
        let o = &self.options;
        let ghost texts = collections::string_texts(o.targets@);
        assert(texts.len() == o.targets@.len());
        assert(self@.environments.len() == self.environments@.len());
        assert(self@.graphs.len() == self.graphs@.len());
        match self.next() {
            Query::Version => Some(plain_invocation(o, BitBakePhase::Version, &one("--version"))),
            Query::Parse => Some(
                plain_invocation(o, BitBakePhase::Parse, &parse_arguments(&o.targets)),
            ),
            Query::Environment(k) => {
                let target = o.targets[k].as_str();
                assert(texts[k as int] == target@);
                let arguments = environment_arguments(target);
                let found = plain_invocation(o, BitBakePhase::TargetEnvironment, &arguments);
                Some(found.target(target))
            },
            Query::Graph(k) => {
                let target = o.targets[k].as_str();
                assert(texts[k as int] == target@);
                let arguments = graph_arguments(target);
                let found = plain_invocation(o, BitBakePhase::DependencyGraph, &arguments);
                Some(found.target(target))
            },
            Query::DryRun => Some(
                plain_invocation(o, BitBakePhase::DryRun, &dry_run_arguments(&o.targets)),
            ),
            Query::Inventory => Some(
                plain_invocation(o, BitBakePhase::RecipeInventory, &one("--show-versions")),
            ),
            Query::Finished => None,
        }
    }

    /// Takes the answer to the command to run next; `artifacts` are the files
    /// that a graph command left.
    pub fn answer(&mut self, output: CommandOutput, artifacts: TextMap)
        requires
            old(self).wf(),
            artifacts.wf(),
        ensures
            final(self).wf(),
            final(self)@ == answered(old(self)@, output@, artifacts.pairs()),
    {
        let ghost before = self@;
        let ghost view = output@;
        assert(before.options.targets.len() == self.options.targets@.len());
        assert(before.environments.len() == self.environments@.len());
        assert(before.graphs.len() == self.graphs@.len());
        match self.next() {
            Query::Version => {
                self.version = Some(output);
            },
            Query::Parse => {
                self.parse = Some(output);
            },
            Query::Environment(_) => {
                self.environments.push(output);
                assert(self@.environments =~= before.environments.push(view));
            },
            Query::Graph(_) => {
                let graph = GraphOutput { output, artifacts };
                let ghost added = graph@;
                self.graphs.push(graph);
                assert(self@.graphs =~= before.graphs.push(added));
            },
            Query::DryRun => {
                self.dry_run = Some(output);
            },
            Query::Inventory => {
                self.inventory = Some(output);
            },
            Query::Finished => {},
        }
        assert(self@ =~= answered(before, view, artifacts.pairs()));
    }

    /// The answers of a finished session: all that the analysis needs.
    pub fn transcript(self) -> (r: BitBakeTranscript)
        requires
            self.wf(),
            next_query(self@) == Query::Finished,
        ensures
            r.wf(),
            r@ == transcript_of(self@),
            semantic::transcript_serves(r@, self@.options),
    {
        let ghost s = self@;
        assert(s.options.targets.len() == self.options.targets@.len());
        assert(s.environments.len() == self.environments@.len());
        assert(s.graphs.len() == self.graphs@.len());
        let r = BitBakeTranscript {
            version: or_unanswered(self.version),
            parse: or_unanswered(self.parse),
            environments: self.environments,
            graphs: self.graphs,
            dry_run: self.dry_run,
            inventory: self.inventory,
        };
        assert(r@ =~= transcript_of(s));
        r
    }
}

fn one(argument: &str) -> (r: Vec<String>)
    ensures
        collections::string_texts(r@) == seq![argument@],
{
    let mut out: Vec<String> = Vec::new();
    out.push(argument.to_owned());
    assert(collections::string_texts(out@) =~= seq![argument@]);
    out
}

fn plain_invocation(options: &SemanticOptions, phase: BitBakePhase, arguments: &Vec<String>) -> (r:
    BitBakeInvocation)
    ensures
        r@ == (InvocationView {
            executable: options@.bitbake,
            current_dir: options@.build_dir,
            arguments: collections::string_texts(arguments@),
            phase,
            target: None,
            recipe: None,
            environment: Seq::empty(),
            cacheable: phase == BitBakePhase::Version || phase == BitBakePhase::Parse,
        }),
{
    BitBakeInvocation::new(options.bitbake.as_str(), options.build_dir.as_str(), phase, arguments)
}

// ---------------------------------------------------------------------------
// Laws
// ---------------------------------------------------------------------------
/// How many answers a session can still take.
pub open spec fn answers_left(s: SessionView) -> int {
    let count = s.options.targets.len();
    (if s.version is None {
        1int
    } else {
        0
    }) + (if s.parse is None {
        1int
    } else {
        0
    }) + (count - s.environments.len()) + (count - s.graphs.len()) + (if s.dry_run is None {
        1int
    } else {
        0
    }) + (if s.inventory is None {
        1int
    } else {
        0
    })
}

/// Sessions end: each answer brings a session nearer to its end.
pub proof fn law_sessions_end(
    s: SessionView,
    answer: OutputView,
    artifacts: Seq<(Seq<char>, Seq<char>)>,
)
    requires
        next_query(s) != Query::Finished,
        s.environments.len() <= s.options.targets.len(),
        s.graphs.len() <= s.options.targets.len(),
        s.version is None ==> s.parse is None,
    ensures
        0 <= answers_left(answered(s, answer, artifacts)) < answers_left(s),
        answered(s, answer, artifacts).environments.len() <= s.options.targets.len(),
        answered(s, answer, artifacts).graphs.len() <= s.options.targets.len(),
{
}

/// What does not parse is not asked about: once parsing has failed a session
/// is finished.
pub proof fn law_failed_parses_end_sessions(
    s: SessionView,
    answer: OutputView,
    artifacts: Seq<(Seq<char>, Seq<char>)>,
)
    requires
        next_query(s) == Query::Parse,
        !answer.success,
    ensures
        next_query(answered(s, answer, artifacts)) == Query::Finished,
        semantic::transcript_serves(transcript_of(answered(s, answer, artifacts)), s.options),
{
}

} // verus!
