//! The bounded subprocess boundary shared by all BitBake-backed operations:
//! what may be started, when a command has to stop, and what is counted.
use crate::collections;
use crate::numbers;
use crate::text;
use crate::collections::copy_strings;
use crate::collections::same_texts;
use crate::numbers::decimal_chars;
use crate::output::CommandOutput;
use crate::output::OutputView;
use crate::text::CharClass;
use crate::text::append_chars;
use crate::text::chars_of;
use crate::text::same_str;
use crate::text::string_of;
use crate::text::trim;
use vstd::prelude::*;
use vstd::slice::slice_subrange;
use vstd::utf8::{decode_utf8, valid_utf8};

verus! {

/// The most bytes of an output that an error quotes.
pub const EXCERPT_BYTES: usize = 4096;

/// The nanoseconds in a second.
pub const NANOS_PER_SECOND: u128 = 1_000_000_000;

/// Conservative defaults for BitBake-backed commands. These are intentionally
/// separate from source-file safety limits because BitBake environments and
/// diagnostics have different failure modes.
pub const DEFAULT_BITBAKE_COMMAND_TIMEOUT_SECONDS: u64 = 1_800;

pub const DEFAULT_BITBAKE_TOTAL_TIMEOUT_SECONDS: u64 = 7_200;

pub const DEFAULT_BITBAKE_MAX_STDOUT_BYTES: u64 = 268_435_456;

pub const DEFAULT_BITBAKE_MAX_STDERR_BYTES: u64 = 16_777_216;

pub const DEFAULT_BITBAKE_MAX_COMMANDS: usize = 20_000;

pub const DEFAULT_BITBAKE_MAX_RECIPE_QUERIES: usize = 10_000;

/// Limits applied to every BitBake-backed command in one operation. Times are
/// in nanoseconds.
#[derive(Clone, Copy, Debug, Eq, PartialEq, Structural)]
pub struct BitBakeExecutionLimits {
    pub command_timeout: u128,
    pub total_timeout: u128,
    pub max_stdout_bytes: u64,
    pub max_stderr_bytes: u64,
    pub max_commands: usize,
    pub max_recipe_queries: usize,
}

/// The limits that hold where none are set.
pub open spec fn default_limits() -> BitBakeExecutionLimits {
    BitBakeExecutionLimits {
        command_timeout: 1_800_000_000_000,
        total_timeout: 7_200_000_000_000,
        max_stdout_bytes: 268_435_456,
        max_stderr_bytes: 16_777_216,
        max_commands: 20_000,
        max_recipe_queries: 10_000,
    }
}

impl Default for BitBakeExecutionLimits {
    fn default() -> (r: BitBakeExecutionLimits)
        ensures
            r == default_limits(),
    {
        BitBakeExecutionLimits {
            command_timeout: DEFAULT_BITBAKE_COMMAND_TIMEOUT_SECONDS as u128 * NANOS_PER_SECOND,
            total_timeout: DEFAULT_BITBAKE_TOTAL_TIMEOUT_SECONDS as u128 * NANOS_PER_SECOND,
            max_stdout_bytes: DEFAULT_BITBAKE_MAX_STDOUT_BYTES,
            max_stderr_bytes: DEFAULT_BITBAKE_MAX_STDERR_BYTES,
            max_commands: DEFAULT_BITBAKE_MAX_COMMANDS,
            max_recipe_queries: DEFAULT_BITBAKE_MAX_RECIPE_QUERIES,
        }
    }
}

/// What is wrong with some limits.
pub open spec fn limits_fault(l: BitBakeExecutionLimits) -> Option<Seq<char>> {
    if l.command_timeout == 0 {
        Some("bitbake.command_timeout_seconds must be greater than zero"@)
    } else if l.total_timeout == 0 {
        Some("bitbake.total_timeout_seconds must be greater than zero"@)
    } else if l.total_timeout < l.command_timeout {
        Some("bitbake.total_timeout_seconds must be at least command_timeout_seconds"@)
    } else if l.max_stdout_bytes == 0 {
        Some("bitbake.max_stdout_bytes must be greater than zero"@)
    } else if l.max_stderr_bytes == 0 {
        Some("bitbake.max_stderr_bytes must be greater than zero"@)
    } else if l.max_commands == 0 {
        Some("bitbake.max_commands must be greater than zero"@)
    } else if l.max_recipe_queries == 0 {
        Some("bitbake.max_recipe_queries must be greater than zero"@)
    } else if l.command_timeout / 1_000_000 > u64::MAX || l.total_timeout / 1_000_000 > u64::MAX {
        Some("bitbake timeout is too large"@)
    } else if l.max_stdout_bytes > usize::MAX || l.max_stderr_bytes > usize::MAX {
        Some("bitbake output limit is too large for this platform"@)
    } else {
        None
    }
}

impl BitBakeExecutionLimits {
    /// The limits, where they can be kept; else what is wrong with them.
    pub fn validate(self) -> (r: Result<BitBakeExecutionLimits, String>)
        ensures
            match limits_fault(self) {
                Some(fault) => r matches Err(message) && message@ == fault,
                None => r == Ok::<BitBakeExecutionLimits, String>(self),
            },
    {
        let fault = if self.command_timeout == 0 {
            "bitbake.command_timeout_seconds must be greater than zero"
        } else if self.total_timeout == 0 {
            "bitbake.total_timeout_seconds must be greater than zero"
        } else if self.total_timeout < self.command_timeout {
            "bitbake.total_timeout_seconds must be at least command_timeout_seconds"
        } else if self.max_stdout_bytes == 0 {
            "bitbake.max_stdout_bytes must be greater than zero"
        } else if self.max_stderr_bytes == 0 {
            "bitbake.max_stderr_bytes must be greater than zero"
        } else if self.max_commands == 0 {
            "bitbake.max_commands must be greater than zero"
        } else if self.max_recipe_queries == 0 {
            "bitbake.max_recipe_queries must be greater than zero"
        } else if self.command_timeout / 1_000_000 > u64::MAX as u128 || self.total_timeout
            / 1_000_000 > u64::MAX as u128 {
            "bitbake timeout is too large"
        } else if self.max_stdout_bytes > usize::MAX as u64 || self.max_stderr_bytes
            > usize::MAX as u64 {
            "bitbake output limit is too large for this platform"
        } else {
            return Ok(self);
        };
        Err(fault.to_owned())
    }
}

// ---------------------------------------------------------------------------
// Phases
// ---------------------------------------------------------------------------
/// A phase is part of every invocation and operational error.
#[derive(Clone, Copy, Debug, PartialEq, Eq, PartialOrd, Ord, Hash, Structural)]
pub enum BitBakePhase {
    Version,
    Parse,
    GlobalEnvironment,
    RecipeEnvironment,
    TargetEnvironment,
    DependencyGraph,
    DryRun,
    RecipeInventory,
}

/// The words for a phase.
pub open spec fn phase_words(phase: BitBakePhase) -> Seq<char> {
    match phase {
        BitBakePhase::Version => "version"@,
        BitBakePhase::Parse => "parse"@,
        BitBakePhase::GlobalEnvironment => "global environment"@,
        BitBakePhase::RecipeEnvironment => "recipe environment"@,
        BitBakePhase::TargetEnvironment => "target environment"@,
        BitBakePhase::DependencyGraph => "dependency graph"@,
        BitBakePhase::DryRun => "dry run"@,
        BitBakePhase::RecipeInventory => "recipe inventory"@,
    }
}

impl BitBakePhase {
    /// The words for the phase.
    pub fn as_str(self) -> (r: &'static str)
        ensures
            r@ == phase_words(self),
    {
        match self {
            BitBakePhase::Version => "version",
            BitBakePhase::Parse => "parse",
            BitBakePhase::GlobalEnvironment => "global environment",
            BitBakePhase::RecipeEnvironment => "recipe environment",
            BitBakePhase::TargetEnvironment => "target environment",
            BitBakePhase::DependencyGraph => "dependency graph",
            BitBakePhase::DryRun => "dry run",
            BitBakePhase::RecipeInventory => "recipe inventory",
        }
    }
}

/// A counter for each phase that was entered.
#[derive(Clone, Debug, Eq, PartialEq, Structural)]
pub struct PhaseCounts {
    version: Option<u128>,
    parse: Option<u128>,
    global_environment: Option<u128>,
    recipe_environment: Option<u128>,
    target_environment: Option<u128>,
    dependency_graph: Option<u128>,
    dry_run: Option<u128>,
    recipe_inventory: Option<u128>,
}

impl PhaseCounts {
    /// The counter of a phase.
    pub closed spec fn of(&self, phase: BitBakePhase) -> Option<u128> {
        match phase {
            BitBakePhase::Version => self.version,
            BitBakePhase::Parse => self.parse,
            BitBakePhase::GlobalEnvironment => self.global_environment,
            BitBakePhase::RecipeEnvironment => self.recipe_environment,
            BitBakePhase::TargetEnvironment => self.target_environment,
            BitBakePhase::DependencyGraph => self.dependency_graph,
            BitBakePhase::DryRun => self.dry_run,
            BitBakePhase::RecipeInventory => self.recipe_inventory,
        }
    }

    /// The counter of a phase, zero where it was not entered.
    pub open spec fn total(&self, phase: BitBakePhase) -> nat {
        match self.of(phase) {
            Some(count) => count as nat,
            None => 0,
        }
    }

    /// No phase was entered.
    pub fn new() -> (r: PhaseCounts)
        ensures
            forall|p: BitBakePhase| (#[trigger] r.of(p)) is None,
    {
        PhaseCounts {
            version: None,
            parse: None,
            global_environment: None,
            recipe_environment: None,
            target_environment: None,
            dependency_graph: None,
            dry_run: None,
            recipe_inventory: None,
        }
    }

    /// The counter of a phase.
    pub fn get(&self, phase: BitBakePhase) -> (r: Option<u128>)
        ensures
            r == self.of(phase),
    {
        match phase {
            BitBakePhase::Version => self.version,
            BitBakePhase::Parse => self.parse,
            BitBakePhase::GlobalEnvironment => self.global_environment,
            BitBakePhase::RecipeEnvironment => self.recipe_environment,
            BitBakePhase::TargetEnvironment => self.target_environment,
            BitBakePhase::DependencyGraph => self.dependency_graph,
            BitBakePhase::DryRun => self.dry_run,
            BitBakePhase::RecipeInventory => self.recipe_inventory,
        }
    }

    /// Adds to the counter of a phase.
    pub fn raise(&mut self, phase: BitBakePhase, amount: u128)
        requires
            old(self).total(phase) + amount <= u128::MAX,
        ensures
            raised(*old(self), *final(self), phase, amount as nat),
    {
        let count = match self.get(phase) {
            Some(count) => count + amount,
            None => amount,
        };
        match phase {
            BitBakePhase::Version => {
                self.version = Some(count);
            },
            BitBakePhase::Parse => {
                self.parse = Some(count);
            },
            BitBakePhase::GlobalEnvironment => {
                self.global_environment = Some(count);
            },
            BitBakePhase::RecipeEnvironment => {
                self.recipe_environment = Some(count);
            },
            BitBakePhase::TargetEnvironment => {
                self.target_environment = Some(count);
            },
            BitBakePhase::DependencyGraph => {
                self.dependency_graph = Some(count);
            },
            BitBakePhase::DryRun => {
                self.dry_run = Some(count);
            },
            BitBakePhase::RecipeInventory => {
                self.recipe_inventory = Some(count);
            },
        }
    }
}

/// `after` is `before` with `amount` added to the counter of a phase.
pub open spec fn raised(before: PhaseCounts, after: PhaseCounts, phase: BitBakePhase, amount: nat) -> bool {
    &&& after.of(phase) is Some
    &&& after.total(phase) == before.total(phase) + amount
    &&& forall|p: BitBakePhase| p != phase ==> #[trigger] after.of(p) == before.of(p)
}

// ---------------------------------------------------------------------------
// Invocations
// ---------------------------------------------------------------------------
/// A single bounded invocation description.
#[derive(Clone, Debug)]
pub struct BitBakeInvocation {
    pub executable: String,
    pub current_dir: String,
    pub arguments: Vec<String>,
    pub phase: BitBakePhase,
    pub target: Option<String>,
    pub recipe: Option<String>,
    pub environment: Vec<(String, String)>,
    pub cacheable: bool,
}

#[verifier::ext_equal]
pub struct InvocationView {
    pub executable: Seq<char>,
    pub current_dir: Seq<char>,
    pub arguments: Seq<Seq<char>>,
    pub phase: BitBakePhase,
    pub target: Option<Seq<char>>,
    pub recipe: Option<Seq<char>>,
    pub environment: Seq<(Seq<char>, Seq<char>)>,
    pub cacheable: bool,
}

/// The text of an optional string.
pub open spec fn some_text(text: Option<String>) -> Option<Seq<char>> {
    match text {
        Some(text) => Some(text@),
        None => None,
    }
}

fn copy_some(text: &Option<String>) -> (r: Option<String>)
    ensures
        some_text(r) == some_text(*text),
{
    match text {
        Some(text) => Some(text.clone()),
        None => None,
    }
}

fn copy_pairs(items: &Vec<(String, String)>) -> (r: Vec<(String, String)>)
    ensures
        collections::pair_texts(r@) == collections::pair_texts(items@),
{
    let mut out: Vec<(String, String)> = Vec::new();
    let mut k: usize = 0;
    while k < items.len()
        invariant
            k <= items@.len(),
            out@.len() == k,
            forall|j: int|
                0 <= j < k ==> (#[trigger] out@[j]).0@ == items@[j].0@ && out@[j].1@
                    == items@[j].1@,
        decreases items@.len() - k,
    {
        out.push((items[k].0.clone(), items[k].1.clone()));
        k += 1;
    }
    assert(collections::pair_texts(out@) =~= collections::pair_texts(items@));
    out
}

impl BitBakeInvocation {
    pub open spec fn view(&self) -> InvocationView {
        InvocationView {
            executable: self.executable@,
            current_dir: self.current_dir@,
            arguments: collections::string_texts(self.arguments@),
            phase: self.phase,
            target: some_text(self.target),
            recipe: some_text(self.recipe),
            environment: collections::pair_texts(self.environment@),
            cacheable: self.cacheable,
        }
    }

    /// An invocation without a target or a recipe. Only the outputs of the
    /// version and the parse phase can be used again.
    pub fn new(
        executable: &str,
        current_dir: &str,
        phase: BitBakePhase,
        arguments: &Vec<String>,
    ) -> (r: BitBakeInvocation)
        ensures
            r@ == (InvocationView {
                executable: executable@,
                current_dir: current_dir@,
                arguments: collections::string_texts(arguments@),
                phase,
                target: None,
                recipe: None,
                environment: Seq::empty(),
                cacheable: phase == BitBakePhase::Version || phase == BitBakePhase::Parse,
            }),
    {
        let r = BitBakeInvocation {
            executable: executable.to_owned(),
            current_dir: current_dir.to_owned(),
            arguments: copy_strings(arguments),
            phase,
            target: None,
            recipe: None,
            environment: Vec::new(),
            cacheable: phase == BitBakePhase::Version || phase == BitBakePhase::Parse,
        };
        assert(r@.environment =~= Seq::empty());
        r
    }

    /// Names the target.
    pub fn target(self, target: &str) -> (r: BitBakeInvocation)
        ensures
            r@ == (InvocationView { target: Some(target@), ..self@ }),
    {
        let mut r = self;
        r.target = Some(target.to_owned());
        r
    }

    /// Names the recipe.
    pub fn recipe(self, recipe: &str) -> (r: BitBakeInvocation)
        ensures
            r@ == (InvocationView { recipe: Some(recipe@), ..self@ }),
    {
        let mut r = self;
        r.recipe = Some(recipe.to_owned());
        r
    }

    /// Adds a variable to the environment of the command.
    pub fn env(self, name: &str, value: &str) -> (r: BitBakeInvocation)
        ensures
            r@ == (InvocationView { environment: self@.environment.push((name@, value@)), ..self@ }),
    {
        let ghost before = self@;
        let mut r = self;
        r.environment.push((name.to_owned(), value.to_owned()));
        assert(r@.environment =~= before.environment.push((name@, value@)));
        r
    }

    /// Has the command run each time.
    pub fn uncached(self) -> (r: BitBakeInvocation)
        ensures
            r@ == (InvocationView { cacheable: false, ..self@ }),
    {
        let mut r = self;
        r.cacheable = false;
        r
    }

    /// The same invocation once more.
    pub fn copy(&self) -> (r: BitBakeInvocation)
        ensures
            r@ == self@,
    {
        BitBakeInvocation {
            executable: self.executable.clone(),
            current_dir: self.current_dir.clone(),
            arguments: copy_strings(&self.arguments),
            phase: self.phase,
            target: copy_some(&self.target),
            recipe: copy_some(&self.recipe),
            environment: copy_pairs(&self.environment),
            cacheable: self.cacheable,
        }
    }
}

/// What two invocations have to share for one to use the output of the other.
#[derive(Clone, Debug)]
pub struct InvocationKey {
    executable: String,
    current_dir: String,
    phase: BitBakePhase,
    arguments: Vec<String>,
    environment: Vec<(String, String)>,
}

#[verifier::ext_equal]
pub struct InvocationKeyView {
    pub executable: Seq<char>,
    pub current_dir: Seq<char>,
    pub phase: BitBakePhase,
    pub arguments: Seq<Seq<char>>,
    pub environment: Seq<(Seq<char>, Seq<char>)>,
}

/// The canonical form of a path, or the path where it has none.
pub open spec fn canonical_or(path: Seq<char>, canonical: Option<String>) -> Seq<char> {
    match canonical {
        Some(canonical) => canonical@,
        None => path,
    }
}

/// The key of an invocation.
pub open spec fn key_of(
    i: InvocationView,
    executable: Option<String>,
    current_dir: Option<String>,
) -> InvocationKeyView {
    InvocationKeyView {
        executable: canonical_or(i.executable, executable),
        current_dir: canonical_or(i.current_dir, current_dir),
        phase: i.phase,
        arguments: i.arguments,
        environment: i.environment,
    }
}

impl InvocationKey {
    pub closed spec fn view(&self) -> InvocationKeyView {
        InvocationKeyView {
            executable: self.executable@,
            current_dir: self.current_dir@,
            phase: self.phase,
            arguments: collections::string_texts(self.arguments@),
            environment: collections::pair_texts(self.environment@),
        }
    }

    /// The key of an invocation: `executable` and `current_dir` are the
    /// canonical forms of its paths, where they have one.
    pub fn from(
        invocation: &BitBakeInvocation,
        executable: &Option<String>,
        current_dir: &Option<String>,
    ) -> (r: InvocationKey)
        ensures
            r@ == key_of(invocation@, *executable, *current_dir),
    {
        InvocationKey {
            executable: match executable {
                Some(path) => path.clone(),
                None => invocation.executable.clone(),
            },
            current_dir: match current_dir {
                Some(path) => path.clone(),
                None => invocation.current_dir.clone(),
            },
            phase: invocation.phase,
            arguments: copy_strings(&invocation.arguments),
            environment: copy_pairs(&invocation.environment),
        }
    }

    fn copy(&self) -> (r: InvocationKey)
        ensures
            r@ == self@,
    {
        InvocationKey {
            executable: self.executable.clone(),
            current_dir: self.current_dir.clone(),
            phase: self.phase,
            arguments: copy_strings(&self.arguments),
            environment: copy_pairs(&self.environment),
        }
    }

    fn same(&self, other: &InvocationKey) -> (r: bool)
        ensures
            r == (self@ == other@),
    {
        let same = same_str(self.executable.as_str(), other.executable.as_str()) && same_str(self.current_dir.as_str(), other.current_dir.as_str()) && self.phase == other.phase && same_texts(&self.arguments, &other.arguments)
            && same_pairs(&self.environment, &other.environment);
        proof {
            if same {
                assert(self@ =~= other@);
            }
        }
        same
    }
}

fn same_pairs(a: &Vec<(String, String)>, b: &Vec<(String, String)>) -> (r: bool)
    ensures
        r == (collections::pair_texts(a@) == collections::pair_texts(b@)),
{
    assert(collections::pair_texts(a@).len() == a@.len() && collections::pair_texts(b@).len() == b@.len());
    if a.len() != b.len() {
        return false;
    }
    let mut k: usize = 0;
    while k < a.len()
        invariant
            k <= a@.len(),
            a@.len() == b@.len(),
            forall|j: int| 0 <= j < k ==> collections::pair_texts(a@)[j] == collections::pair_texts(b@)[j],
        decreases a@.len() - k,
    {
        assert(collections::pair_texts(a@)[k as int] == (a@[k as int].0@, a@[k as int].1@));
        assert(collections::pair_texts(b@)[k as int] == (b@[k as int].0@, b@[k as int].1@));
        if !same_str(a[k].0.as_str(), b[k].0.as_str()) || !same_str(a[k].1.as_str(), b[k].1.as_str()) {
            return false;
        }
        k += 1;
    }
    assert(collections::pair_texts(a@) =~= collections::pair_texts(b@));
    true
}

// ---------------------------------------------------------------------------
// Outputs
// ---------------------------------------------------------------------------
/// A span of time, with its seconds to three decimals in words.
#[derive(Clone, Debug, Eq, PartialEq)]
pub struct BitBakeTime {
    pub nanos: u128,
    pub seconds: String,
}

#[verifier::ext_equal]
pub struct TimeView {
    pub nanos: u128,
    pub seconds: Seq<char>,
}

impl BitBakeTime {
    pub open spec fn view(&self) -> TimeView {
        TimeView { nanos: self.nanos, seconds: self.seconds@ }
    }

    /// The same span once more.
    pub fn copy(&self) -> (r: BitBakeTime)
        ensures
            r@ == self@,
    {
        BitBakeTime { nanos: self.nanos, seconds: self.seconds.clone() }
    }
}

/// The exact bounded output of an invocation.
#[derive(Clone, Debug)]
pub struct BitBakeOutput {
    pub success: bool,
    /// The exit status in words.
    pub status: String,
    pub stdout: Vec<u8>,
    pub stderr: Vec<u8>,
    pub elapsed: BitBakeTime,
}

#[verifier::ext_equal]
pub struct BytesView {
    pub success: bool,
    pub status: Seq<char>,
    pub stdout: Seq<u8>,
    pub stderr: Seq<u8>,
    pub elapsed: TimeView,
}

fn copy_bytes(bytes: &Vec<u8>) -> (r: Vec<u8>)
    ensures
        r@ == bytes@,
{
    let mut out: Vec<u8> = Vec::new();
    let mut k: usize = 0;
    while k < bytes.len()
        invariant
            k <= bytes@.len(),
            out@ == bytes@.take(k as int),
        decreases bytes@.len() - k,
    {
        out.push(bytes[k]);
        assert(bytes@.take(k + 1) =~= bytes@.take(k as int).push(bytes@[k as int]));
        k += 1;
    }
    assert(bytes@.take(k as int) =~= bytes@);
    out
}

impl BitBakeOutput {
    pub open spec fn view(&self) -> BytesView {
        BytesView {
            success: self.success,
            status: self.status@,
            stdout: self.stdout@,
            stderr: self.stderr@,
            elapsed: self.elapsed@,
        }
    }

    /// The bytes of standard output.
    pub fn stdout_bytes(&self) -> (r: u64)
        ensures
            r == self@.stdout.len(),
    {
        self.stdout.len() as u64
    }

    /// The bytes of standard error.
    pub fn stderr_bytes(&self) -> (r: u64)
        ensures
            r == self@.stderr.len(),
    {
        self.stderr.len() as u64
    }

    /// The same output once more.
    pub fn copy(&self) -> (r: BitBakeOutput)
        ensures
            r@ == self@,
    {
        BitBakeOutput {
            success: self.success,
            status: self.status.clone(),
            stdout: copy_bytes(&self.stdout),
            stderr: copy_bytes(&self.stderr),
            elapsed: self.elapsed.copy(),
        }
    }

    /// The two streams as texts.
    pub fn text(&self) -> (r: CommandOutput)
        ensures
            r@ == text_output(self@),
            valid_utf8(self@.stdout) ==> r@.stdout == decode_utf8(self@.stdout),
            valid_utf8(self@.stderr) ==> r@.stderr == decode_utf8(self@.stderr),
    {
        CommandOutput {
            success: self.success,
            stdout: text_of_bytes(self.stdout.as_slice()),
            stderr: text_of_bytes(self.stderr.as_slice()),
        }
    }
}

/// What a command printed, as texts.
pub open spec fn text_output(o: BytesView) -> OutputView {
    OutputView {
        success: o.success,
        stdout: lossy_text(o.stdout),
        stderr: lossy_text(o.stderr),
    }
}

/// How many bytes of a chunk are kept after `held` bytes under a limit.
pub open spec fn kept_bytes(held: nat, chunk: nat, limit: u64) -> nat {
    if held + chunk <= limit {
        chunk
    } else if held <= limit {
        (limit - held) as nat
    } else {
        0
    }
}

/// Adds a chunk to what was read; says whether the chunk is over the limit.
/// What is over the limit is dropped, so that no more than the limit is held.
pub fn accept_chunk(bytes: &mut Vec<u8>, chunk: &[u8], limit: u64) -> (r: bool)
    requires
        limit <= usize::MAX,
    ensures
        final(bytes)@ == old(bytes)@ + chunk@.take(
            kept_bytes(old(bytes)@.len(), chunk@.len(), limit) as int,
        ),
        r == (old(bytes)@.len() <= limit && old(bytes)@.len() + chunk@.len() > limit || (old(
            bytes,
        )@.len() > limit && chunk@.len() > 0)),
        old(bytes)@.len() <= limit ==> final(bytes)@.len() <= limit,
{
    let held = bytes.len() as u64;
    let remaining: u64 = if held > limit {
        0
    } else {
        limit - held
    };
    let over = chunk.len() as u64 > remaining;
    let count: usize = if over {
        remaining as usize
    } else {
        chunk.len()
    };
    let ghost before = bytes@;
    let mut k: usize = 0;
    assert(before + chunk@.take(0) =~= before);
    while k < count
        invariant
            k <= count <= chunk@.len(),
            bytes@ == before + chunk@.take(k as int),
        decreases count - k,
    {
        bytes.push(chunk[k]);
        assert(before + chunk@.take(k + 1) =~= (before + chunk@.take(k as int)).push(
            chunk@[k as int],
        ));
        k += 1;
    }
    over
}

/// The text that bytes hold, with the replacement character for what is not
/// UTF-8.
pub uninterp spec fn lossy_text(bytes: Seq<u8>) -> Seq<char>;

/// `String::from_utf8_lossy`: the text of bytes that are UTF-8, and of others
/// a text that depends on the bytes alone.
#[verifier::external_body]
fn text_of_bytes(bytes: &[u8]) -> (r: String)
    ensures
        r@ == lossy_text(bytes@),
        valid_utf8(bytes@) ==> r@ == decode_utf8(bytes@),
{
    String::from_utf8_lossy(bytes).into_owned()
}

/// A text as a quoted literal.
pub uninterp spec fn debug_text(text: Seq<char>) -> Seq<char>;

/// The `Debug` form of a string: quoted, with what cannot be printed escaped.
#[verifier::external_body]
fn quoted_literal(text: &str) -> (r: String)
    ensures
        r@ == debug_text(text@),
{
    format!("{text:?}")
}

/// What an error quotes of an output that reads as `text`.
pub open spec fn excerpt_of(text: Seq<char>, truncated: bool) -> Seq<char> {
    text::trimmed(
        if truncated {
            text + " …[excerpt truncated]"@
        } else {
            text
        },
        CharClass::Whitespace,
    )
}

/// What an error quotes of an output.
pub open spec fn excerpt_text(bytes: Seq<u8>) -> Seq<char> {
    if bytes.len() > EXCERPT_BYTES {
        excerpt_of(lossy_text(bytes.take(EXCERPT_BYTES as int)), true)
    } else {
        excerpt_of(lossy_text(bytes), false)
    }
}

/// What an error quotes of an output that reads as `text`.
pub fn trim_excerpt(text: &str, truncated: bool) -> (r: String)
    ensures
        r@ == excerpt_of(text@, truncated),
{
    let mut chars = chars_of(text);
    if truncated {
        append_chars(&mut chars, chars_of(" …[excerpt truncated]").as_slice());
    }
    string_of(trim(chars.as_slice(), CharClass::Whitespace))
}

/// What an error quotes of an output: its first bytes as text.
pub fn excerpt(bytes: &Vec<u8>) -> (r: String)
    ensures
        r@ == excerpt_text(bytes@),
{
    if bytes.len() > EXCERPT_BYTES {
        let first = slice_subrange(bytes.as_slice(), 0, EXCERPT_BYTES);
        assert(first@ =~= bytes@.take(EXCERPT_BYTES as int));
        trim_excerpt(text_of_bytes(first).as_str(), true)
    } else {
        trim_excerpt(text_of_bytes(bytes.as_slice()).as_str(), false)
    }
}

/// How an error shows an excerpt.
pub open spec fn suffix_of(excerpt: Seq<char>) -> Seq<char> {
    if excerpt.len() == 0 {
        " empty"@
    } else {
        " "@ + debug_text(excerpt)
    }
}

fn excerpt_suffix(text: &str) -> (r: Vec<char>)
    ensures
        r@ == suffix_of(text@),
{
    if chars_of(text).len() == 0 {
        return chars_of(" empty");
    }
    let mut out = chars_of(" ");
    append_chars(&mut out, chars_of(quoted_literal(text).as_str()).as_slice());
    out
}

// ---------------------------------------------------------------------------
// Counters
// ---------------------------------------------------------------------------
/// Deterministic, machine-readable execution counters.
#[derive(Clone, Debug, Eq, PartialEq)]
pub struct BitBakeExecutionStats {
    pub limits: BitBakeExecutionLimits,
    pub total_commands: usize,
    pub commands_by_phase: PhaseCounts,
    pub elapsed_ms_by_phase: PhaseCounts,
    pub stdout_bytes_by_phase: PhaseCounts,
    pub stderr_bytes_by_phase: PhaseCounts,
    pub max_stdout_bytes: u64,
    pub max_stderr_bytes: u64,
    pub total_stdout_bytes: u64,
    pub total_stderr_bytes: u64,
    pub recipe_queries_scheduled: usize,
    pub recipe_queries_completed: usize,
    pub cache_hits: usize,
    pub strategy: Option<String>,
}

/// Nothing was counted yet.
pub open spec fn nothing_counted(s: BitBakeExecutionStats, limits: BitBakeExecutionLimits) -> bool {
    &&& s.limits == limits
    &&& s.total_commands == 0
    &&& forall|p: BitBakePhase| (#[trigger] s.commands_by_phase.of(p)) is None
    &&& forall|p: BitBakePhase| (#[trigger] s.elapsed_ms_by_phase.of(p)) is None
    &&& forall|p: BitBakePhase| (#[trigger] s.stdout_bytes_by_phase.of(p)) is None
    &&& forall|p: BitBakePhase| (#[trigger] s.stderr_bytes_by_phase.of(p)) is None
    &&& s.max_stdout_bytes == 0
    &&& s.max_stderr_bytes == 0
    &&& s.total_stdout_bytes == 0
    &&& s.total_stderr_bytes == 0
    &&& s.recipe_queries_scheduled == 0
    &&& s.recipe_queries_completed == 0
    &&& s.cache_hits == 0
    &&& s.strategy is None
}

impl Default for BitBakeExecutionStats {
    fn default() -> (r: BitBakeExecutionStats)
        ensures
            nothing_counted(r, default_limits()),
    {
        BitBakeExecutionStats {
            limits: BitBakeExecutionLimits::default(),
            total_commands: 0,
            commands_by_phase: PhaseCounts::new(),
            elapsed_ms_by_phase: PhaseCounts::new(),
            stdout_bytes_by_phase: PhaseCounts::new(),
            stderr_bytes_by_phase: PhaseCounts::new(),
            max_stdout_bytes: 0,
            max_stderr_bytes: 0,
            total_stdout_bytes: 0,
            total_stderr_bytes: 0,
            recipe_queries_scheduled: 0,
            recipe_queries_completed: 0,
            cache_hits: 0,
            strategy: None,
        }
    }
}

/// One more than `n`, but never more than the largest number.
pub open spec fn saturated(n: nat, amount: nat, most: nat) -> nat {
    if n + amount > most {
        most
    } else {
        n + amount
    }
}

impl BitBakeExecutionStats {
    /// Counts an output that was used again.
    pub fn record_cache_hit(&mut self)
        ensures
            *final(self) == (BitBakeExecutionStats {
                cache_hits: saturated(
                    old(self).cache_hits as nat,
                    1,
                    usize::MAX as nat,
                ) as usize,
                ..*old(self)
            }),
    {
        self.cache_hits = self.cache_hits.saturating_add(1);
    }

    /// Says how the work was planned.
    pub fn set_strategy(&mut self, strategy: &str)
        ensures
            some_text(final(self).strategy) == Some(strategy@),
            *final(self) == (BitBakeExecutionStats {
                strategy: final(self).strategy,
                ..*old(self)
            }),
    {
        self.strategy = Some(strategy.to_owned());
    }
}

// ---------------------------------------------------------------------------
// Errors
// ---------------------------------------------------------------------------
/// Typed operational failure at the BitBake boundary.
#[allow(inconsistent_fields)]
#[derive(Clone, Debug)]
pub enum BitBakeError {
    Spawn { invocation: BitBakeInvocation, source: String },
    Wait { invocation: BitBakeInvocation, source: String },
    Read {
        phase: BitBakePhase,
        stream: String,
        target: Option<String>,
        recipe: Option<String>,
        source: String,
    },
    Cancelled { invocation: BitBakeInvocation, elapsed: BitBakeTime },
    Timeout { invocation: BitBakeInvocation, elapsed: BitBakeTime, limit: BitBakeTime },
    TotalDeadline { invocation: BitBakeInvocation, elapsed: BitBakeTime, limit: BitBakeTime },
    StdoutLimit { invocation: BitBakeInvocation, elapsed: BitBakeTime, limit: u64, captured: u64 },
    StderrLimit { invocation: BitBakeInvocation, elapsed: BitBakeTime, limit: u64, captured: u64 },
    CommandBudget { phase: BitBakePhase, limit: usize },
    RecipeQueryBudget { phase: BitBakePhase, recipe: Option<String>, limit: usize },
    NonZero {
        invocation: BitBakeInvocation,
        output: BitBakeOutput,
        stdout_excerpt: String,
        stderr_excerpt: String,
    },
}

#[allow(inconsistent_fields)]
pub enum ErrorView {
    Spawn { invocation: InvocationView, source: Seq<char> },
    Wait { invocation: InvocationView, source: Seq<char> },
    Read {
        phase: BitBakePhase,
        stream: Seq<char>,
        target: Option<Seq<char>>,
        recipe: Option<Seq<char>>,
        source: Seq<char>,
    },
    Cancelled { invocation: InvocationView, elapsed: TimeView },
    Timeout { invocation: InvocationView, elapsed: TimeView, limit: TimeView },
    TotalDeadline { invocation: InvocationView, elapsed: TimeView, limit: TimeView },
    StdoutLimit { invocation: InvocationView, elapsed: TimeView, limit: u64, captured: u64 },
    StderrLimit { invocation: InvocationView, elapsed: TimeView, limit: u64, captured: u64 },
    CommandBudget { phase: BitBakePhase, limit: usize },
    RecipeQueryBudget { phase: BitBakePhase, recipe: Option<Seq<char>>, limit: usize },
    NonZero {
        invocation: InvocationView,
        output: BytesView,
        stdout_excerpt: Seq<char>,
        stderr_excerpt: Seq<char>,
    },
}

/// A word before an optional text, or nothing.
pub open spec fn optional_part(word: Seq<char>, text: Option<Seq<char>>) -> Seq<char> {
    match text {
        Some(text) => word + text,
        None => Seq::empty(),
    }
}

/// A detail with the command that it is about.
pub open spec fn context_text(i: InvocationView, detail: Seq<char>) -> Seq<char> {
    "BitBake "@ + phase_words(i.phase) + optional_part(" target "@, i.target) + optional_part(
        " recipe "@,
        i.recipe,
    ) + " ("@ + i.executable + "): "@ + detail
}

/// What is said of an output that is over its limit.
pub open spec fn over_limit_text(
    stream: Seq<char>,
    elapsed: TimeView,
    limit: u64,
    captured: u64,
) -> Seq<char> {
    stream + " limit exceeded after "@ + elapsed.seconds + "s (captured "@ + numbers::decimal(
        captured as nat,
    ) + " bytes, limit "@ + numbers::decimal(limit as nat) + ")"@
}

/// What is said of a failure.
pub open spec fn error_text(e: ErrorView) -> Seq<char> {
    match e {
        ErrorView::Spawn { invocation, source } => context_text(
            invocation,
            "could not spawn BitBake: "@ + source,
        ),
        ErrorView::Wait { invocation, source } => context_text(
            invocation,
            "could not wait for BitBake: "@ + source,
        ),
        ErrorView::Read { phase, stream, target, recipe, source } => "BitBake "@ + phase_words(
            phase,
        ) + " "@ + stream + " read failed"@ + optional_part(" for target "@, target)
            + optional_part(" for recipe "@, recipe) + ": "@ + source,
        ErrorView::Cancelled { invocation, elapsed } => context_text(
            invocation,
            "cancelled after "@ + elapsed.seconds + "s"@,
        ),
        ErrorView::Timeout { invocation, elapsed, limit } => context_text(
            invocation,
            "command timeout after "@ + elapsed.seconds + "s (limit "@ + limit.seconds + "s)"@,
        ),
        ErrorView::TotalDeadline { invocation, elapsed, limit } => context_text(
            invocation,
            "total BitBake deadline after "@ + elapsed.seconds + "s (limit "@ + limit.seconds
                + "s)"@,
        ),
        ErrorView::StdoutLimit { invocation, elapsed, limit, captured } => context_text(
            invocation,
            over_limit_text("stdout"@, elapsed, limit, captured),
        ),
        ErrorView::StderrLimit { invocation, elapsed, limit, captured } => context_text(
            invocation,
            over_limit_text("stderr"@, elapsed, limit, captured),
        ),
        ErrorView::CommandBudget { phase, limit } => "BitBake "@ + phase_words(phase)
            + " command budget exhausted (limit "@ + numbers::decimal(limit as nat) + ")"@,
        ErrorView::RecipeQueryBudget { phase, recipe, limit } => "BitBake "@ + phase_words(phase)
            + " recipe-query budget exhausted"@ + optional_part(" at "@, recipe) + " (limit "@
            + numbers::decimal(limit as nat) + ")"@,
        ErrorView::NonZero { invocation, output, stdout_excerpt, stderr_excerpt } => context_text(
            invocation,
            "exited with "@ + output.status + " after "@ + output.elapsed.seconds + "s; stdout"@
                + suffix_of(stdout_excerpt) + "; stderr"@ + suffix_of(stderr_excerpt),
        ),
    }
}

/// The phase of a failure.
pub open spec fn error_phase(e: ErrorView) -> BitBakePhase {
    match e {
        ErrorView::Spawn { invocation, source } => invocation.phase,
        ErrorView::Wait { invocation, source } => invocation.phase,
        ErrorView::Read { phase, stream, target, recipe, source } => phase,
        ErrorView::Cancelled { invocation, elapsed } => invocation.phase,
        ErrorView::Timeout { invocation, elapsed, limit } => invocation.phase,
        ErrorView::TotalDeadline { invocation, elapsed, limit } => invocation.phase,
        ErrorView::StdoutLimit { invocation, elapsed, limit, captured } => invocation.phase,
        ErrorView::StderrLimit { invocation, elapsed, limit, captured } => invocation.phase,
        ErrorView::CommandBudget { phase, limit } => phase,
        ErrorView::RecipeQueryBudget { phase, recipe, limit } => phase,
        ErrorView::NonZero { invocation, output, stdout_excerpt, stderr_excerpt } =>
            invocation.phase,
    }
}

fn put(out: &mut Vec<char>, text: &str)
    ensures
        final(out)@ == old(out)@ + text@,
{
    append_chars(out, chars_of(text).as_slice());
}

fn put_number(out: &mut Vec<char>, number: u64)
    ensures
        final(out)@ == old(out)@ + numbers::decimal(number as nat),
{
    append_chars(out, decimal_chars(number).as_slice());
}

fn put_optional(out: &mut Vec<char>, word: &str, text: &Option<String>)
    ensures
        final(out)@ == old(out)@ + optional_part(word@, some_text(*text)),
{
    match text {
        Some(text) => {
            let ghost before = out@;
            put(out, word);
            put(out, text.as_str());
            assert(out@ =~= before + (word@ + text@));
        },
        None => {
            assert(out@ + Seq::<char>::empty() =~= out@);
        },
    }
}

fn write_context(invocation: &BitBakeInvocation, detail: &[char]) -> (r: Vec<char>)
    ensures
        r@ == context_text(invocation@, detail@),
{
    let mut out = chars_of("BitBake ");
    put(&mut out, invocation.phase.as_str());
    put_optional(&mut out, " target ", &invocation.target);
    put_optional(&mut out, " recipe ", &invocation.recipe);
    put(&mut out, " (");
    put(&mut out, invocation.executable.as_str());
    put(&mut out, "): ");
    append_chars(&mut out, detail);
    out
}

fn two_times(first: &str, elapsed: &BitBakeTime, limit: &BitBakeTime) -> (r: Vec<char>)
    ensures
        r@ == first@ + elapsed@.seconds + "s (limit "@ + limit@.seconds + "s)"@,
{
    let mut out = chars_of(first);
    put(&mut out, elapsed.seconds.as_str());
    put(&mut out, "s (limit ");
    put(&mut out, limit.seconds.as_str());
    put(&mut out, "s)");
    out
}

fn over_limit(stream: &str, elapsed: &BitBakeTime, limit: u64, captured: u64) -> (r: Vec<char>)
    ensures
        r@ == over_limit_text(stream@, elapsed@, limit, captured),
{
    let mut out = chars_of(stream);
    put(&mut out, " limit exceeded after ");
    put(&mut out, elapsed.seconds.as_str());
    put(&mut out, "s (captured ");
    put_number(&mut out, captured);
    put(&mut out, " bytes, limit ");
    put_number(&mut out, limit);
    put(&mut out, ")");
    out
}

impl BitBakeError {
    pub open spec fn view(&self) -> ErrorView {
        match *self {
            BitBakeError::Spawn { invocation, source } => ErrorView::Spawn {
                invocation: invocation@,
                source: source@,
            },
            BitBakeError::Wait { invocation, source } => ErrorView::Wait {
                invocation: invocation@,
                source: source@,
            },
            BitBakeError::Read { phase, stream, target, recipe, source } => ErrorView::Read {
                phase,
                stream: stream@,
                target: some_text(target),
                recipe: some_text(recipe),
                source: source@,
            },
            BitBakeError::Cancelled { invocation, elapsed } => ErrorView::Cancelled {
                invocation: invocation@,
                elapsed: elapsed@,
            },
            BitBakeError::Timeout { invocation, elapsed, limit } => ErrorView::Timeout {
                invocation: invocation@,
                elapsed: elapsed@,
                limit: limit@,
            },
            BitBakeError::TotalDeadline { invocation, elapsed, limit } => ErrorView::TotalDeadline {
                invocation: invocation@,
                elapsed: elapsed@,
                limit: limit@,
            },
            BitBakeError::StdoutLimit { invocation, elapsed, limit, captured } =>
                ErrorView::StdoutLimit {
                invocation: invocation@,
                elapsed: elapsed@,
                limit,
                captured,
            },
            BitBakeError::StderrLimit { invocation, elapsed, limit, captured } =>
                ErrorView::StderrLimit {
                invocation: invocation@,
                elapsed: elapsed@,
                limit,
                captured,
            },
            BitBakeError::CommandBudget { phase, limit } => ErrorView::CommandBudget {
                phase,
                limit,
            },
            BitBakeError::RecipeQueryBudget { phase, recipe, limit } =>
                ErrorView::RecipeQueryBudget { phase, recipe: some_text(recipe), limit },
            BitBakeError::NonZero { invocation, output, stdout_excerpt, stderr_excerpt } =>
                ErrorView::NonZero {
                invocation: invocation@,
                output: output@,
                stdout_excerpt: stdout_excerpt@,
                stderr_excerpt: stderr_excerpt@,
            },
        }
    }

    /// The phase that failed.
    pub fn phase(&self) -> (r: BitBakePhase)
        ensures
            r == error_phase(self@),
    {
        match self {
            BitBakeError::Spawn { invocation, source } => invocation.phase,
            BitBakeError::Wait { invocation, source } => invocation.phase,
            BitBakeError::Read { phase, stream, target, recipe, source } => *phase,
            BitBakeError::Cancelled { invocation, elapsed } => invocation.phase,
            BitBakeError::Timeout { invocation, elapsed, limit } => invocation.phase,
            BitBakeError::TotalDeadline { invocation, elapsed, limit } => invocation.phase,
            BitBakeError::StdoutLimit { invocation, elapsed, limit, captured } => invocation.phase,
            BitBakeError::StderrLimit { invocation, elapsed, limit, captured } => invocation.phase,
            BitBakeError::CommandBudget { phase, limit } => *phase,
            BitBakeError::RecipeQueryBudget { phase, recipe, limit } => *phase,
            BitBakeError::NonZero { invocation, output, stdout_excerpt, stderr_excerpt } =>
                invocation.phase,
        }
    }

    /// The failure in words.
    pub fn to_string(&self) -> (r: String)
        ensures
            r@ == error_text(self@),
    {
        let out = match self {
            BitBakeError::Spawn { invocation, source } => {
                let mut detail = chars_of("could not spawn BitBake: ");
                put(&mut detail, source.as_str());
                write_context(invocation, detail.as_slice())
            },
            BitBakeError::Wait { invocation, source } => {
                let mut detail = chars_of("could not wait for BitBake: ");
                put(&mut detail, source.as_str());
                write_context(invocation, detail.as_slice())
            },
            BitBakeError::Read { phase, stream, target, recipe, source } => {
                let mut text = chars_of("BitBake ");
                put(&mut text, phase.as_str());
                put(&mut text, " ");
                put(&mut text, stream.as_str());
                put(&mut text, " read failed");
                put_optional(&mut text, " for target ", target);
                put_optional(&mut text, " for recipe ", recipe);
                put(&mut text, ": ");
                put(&mut text, source.as_str());
                text
            },
            BitBakeError::Cancelled { invocation, elapsed } => {
                let mut detail = chars_of("cancelled after ");
                put(&mut detail, elapsed.seconds.as_str());
                put(&mut detail, "s");
                write_context(invocation, detail.as_slice())
            },
            BitBakeError::Timeout { invocation, elapsed, limit } => write_context(
                invocation,
                two_times("command timeout after ", elapsed, limit).as_slice(),
            ),
            BitBakeError::TotalDeadline { invocation, elapsed, limit } => write_context(
                invocation,
                two_times("total BitBake deadline after ", elapsed, limit).as_slice(),
            ),
            BitBakeError::StdoutLimit { invocation, elapsed, limit, captured } => write_context(
                invocation,
                over_limit("stdout", elapsed, *limit, *captured).as_slice(),
            ),
            BitBakeError::StderrLimit { invocation, elapsed, limit, captured } => write_context(
                invocation,
                over_limit("stderr", elapsed, *limit, *captured).as_slice(),
            ),
            BitBakeError::CommandBudget { phase, limit } => {
                let mut text = chars_of("BitBake ");
                put(&mut text, phase.as_str());
                put(&mut text, " command budget exhausted (limit ");
                put_number(&mut text, *limit as u64);
                put(&mut text, ")");
                text
            },
            BitBakeError::RecipeQueryBudget { phase, recipe, limit } => {
                let mut text = chars_of("BitBake ");
                put(&mut text, phase.as_str());
                put(&mut text, " recipe-query budget exhausted");
                put_optional(&mut text, " at ", recipe);
                put(&mut text, " (limit ");
                put_number(&mut text, *limit as u64);
                put(&mut text, ")");
                text
            },
            BitBakeError::NonZero { invocation, output, stdout_excerpt, stderr_excerpt } => {
                let mut detail = chars_of("exited with ");
                put(&mut detail, output.status.as_str());
                put(&mut detail, " after ");
                put(&mut detail, output.elapsed.seconds.as_str());
                put(&mut detail, "s; stdout");
                append_chars(&mut detail, excerpt_suffix(stdout_excerpt.as_str()).as_slice());
                put(&mut detail, "; stderr");
                append_chars(&mut detail, excerpt_suffix(stderr_excerpt.as_str()).as_slice());
                write_context(invocation, detail.as_slice())
            },
        };
        string_of(out.as_slice())
    }
}

// ---------------------------------------------------------------------------
// The runner
// ---------------------------------------------------------------------------
/// A sequential runner with operation-wide accounting and cache scope. It
/// decides what is started and stopped; its caller runs the processes.
pub struct BitBakeRunner {
    limits: BitBakeExecutionLimits,
    cache: Vec<(InvocationKey, BitBakeOutput)>,
    stats: BitBakeExecutionStats,
}

/// The output that is kept for a key in `items[k..]`.
pub open spec fn kept_from(
    items: Seq<(InvocationKey, BitBakeOutput)>,
    key: InvocationKeyView,
    k: int,
) -> Option<BytesView>
    decreases items.len() - k,
{
    if k < 0 || k >= items.len() {
        None
    } else if items[k].0@ == key {
        Some(items[k].1@)
    } else {
        kept_from(items, key, k + 1)
    }
}

/// The counters respect the limits.
pub open spec fn within_limits(s: BitBakeExecutionStats, limits: BitBakeExecutionLimits) -> bool {
    &&& s.limits == limits
    &&& s.total_commands <= limits.max_commands
    &&& s.recipe_queries_completed <= s.recipe_queries_scheduled <= limits.max_recipe_queries
    &&& forall|p: BitBakePhase| #[trigger] s.commands_by_phase.total(p) <= s.total_commands
}

/// What happens to an invocation before a process is started.
pub enum BitBakeStart {
    /// It may not run.
    Refused(BitBakeError),
    /// An earlier output is used again.
    Cached(BitBakeOutput),
    /// A process is to be started.
    Spawn,
}

pub enum StartView {
    Refused(ErrorView),
    Cached(BytesView),
    Spawn,
}

impl BitBakeStart {
    pub open spec fn view(&self) -> StartView {
        match *self {
            BitBakeStart::Refused(error) => StartView::Refused(error@),
            BitBakeStart::Cached(output) => StartView::Cached(output@),
            BitBakeStart::Spawn => StartView::Spawn,
        }
    }
}

/// Why an invocation may not run.
pub open spec fn refusal(
    s: BitBakeExecutionStats,
    l: BitBakeExecutionLimits,
    i: InvocationView,
    cancelled: bool,
    elapsed: TimeView,
    total_limit: TimeView,
) -> Option<ErrorView> {
    if cancelled {
        Some(ErrorView::Cancelled { invocation: i, elapsed })
    } else if elapsed.nanos >= l.total_timeout {
        Some(ErrorView::TotalDeadline { invocation: i, elapsed, limit: total_limit })
    } else if s.total_commands >= l.max_commands {
        Some(ErrorView::CommandBudget { phase: i.phase, limit: l.max_commands })
    } else if i.recipe is Some && s.recipe_queries_scheduled >= l.max_recipe_queries {
        Some(
            ErrorView::RecipeQueryBudget {
                phase: i.phase,
                recipe: i.recipe,
                limit: l.max_recipe_queries,
            },
        )
    } else {
        None
    }
}

/// What happens to an invocation, where `kept` is the output kept for it.
pub open spec fn start_of(refused: Option<ErrorView>, i: InvocationView, kept: Option<BytesView>) -> StartView {
    match refused {
        Some(error) => StartView::Refused(error),
        None => match kept {
            Some(output) => if i.cacheable {
                StartView::Cached(output)
            } else {
                StartView::Spawn
            },
            None => StartView::Spawn,
        },
    }
}

/// What is counted at the start of an invocation.
pub open spec fn counted_start(
    before: BitBakeExecutionStats,
    after: BitBakeExecutionStats,
    i: InvocationView,
    start: StartView,
) -> bool {
    match start {
        StartView::Refused(error) => after == before,
        StartView::Cached(output) => after == (BitBakeExecutionStats {
            recipe_queries_scheduled: (before.recipe_queries_scheduled + recipes_in(i)) as usize,
            cache_hits: saturated(before.cache_hits as nat, 1, usize::MAX as nat) as usize,
            ..before
        }),
        StartView::Spawn => {
            &&& raised(before.commands_by_phase, after.commands_by_phase, i.phase, 1)
            &&& after == (BitBakeExecutionStats {
                recipe_queries_scheduled: (before.recipe_queries_scheduled + recipes_in(
                    i,
                )) as usize,
                total_commands: (before.total_commands + 1) as usize,
                commands_by_phase: after.commands_by_phase,
                ..before
            })
        },
    }
}

/// How many recipe queries an invocation is.
pub open spec fn recipes_in(i: InvocationView) -> int {
    if i.recipe is Some {
        1
    } else {
        0
    }
}

/// What is known of a running command.
pub struct CommandState {
    /// The process has ended.
    pub exited: bool,
    /// Standard output, and standard error, went over its limit.
    pub stdout_over: bool,
    pub stderr_over: bool,
    /// Standard output, and standard error, was read to its end.
    pub stdout_done: bool,
    pub stderr_done: bool,
    pub cancelled: bool,
}

/// What to do with a running command.
pub enum BitBakePoll {
    /// It has to be ended.
    Stop(BitBakeError),
    /// Its output is complete.
    Finished,
    /// It goes on.
    Wait,
}

pub enum PollView {
    Stop(ErrorView),
    Finished,
    Wait,
}

impl BitBakePoll {
    pub open spec fn view(&self) -> PollView {
        match *self {
            BitBakePoll::Stop(error) => PollView::Stop(error@),
            BitBakePoll::Finished => PollView::Finished,
            BitBakePoll::Wait => PollView::Wait,
        }
    }
}

/// The limits on time, in words too.
pub struct TimeLimits {
    pub command: BitBakeTime,
    pub total: BitBakeTime,
}

/// What to do with a running command: `elapsed` is the time that it has run
/// and `total` that of the whole operation.
pub open spec fn poll_of(
    l: BitBakeExecutionLimits,
    limits: TimeLimits,
    i: InvocationView,
    c: CommandState,
    elapsed: TimeView,
    total: TimeView,
) -> PollView {
    if c.cancelled {
        PollView::Stop(ErrorView::Cancelled { invocation: i, elapsed: total })
    } else if c.stdout_over {
        PollView::Stop(
            ErrorView::StdoutLimit {
                invocation: i,
                elapsed,
                limit: l.max_stdout_bytes,
                captured: l.max_stdout_bytes,
            },
        )
    } else if c.stderr_over {
        PollView::Stop(
            ErrorView::StderrLimit {
                invocation: i,
                elapsed,
                limit: l.max_stderr_bytes,
                captured: l.max_stderr_bytes,
            },
        )
    } else if c.exited && c.stdout_done && c.stderr_done {
        PollView::Finished
    } else if elapsed.nanos >= l.command_timeout {
        PollView::Stop(
            ErrorView::Timeout { invocation: i, elapsed, limit: limits.command@ },
        )
    } else if total.nanos >= l.total_timeout {
        PollView::Stop(
            ErrorView::TotalDeadline { invocation: i, elapsed: total, limit: limits.total@ },
        )
    } else {
        PollView::Wait
    }
}

/// There is room in the counters for the output of a command.
pub open spec fn has_room(s: BitBakeExecutionStats, phase: BitBakePhase, o: BytesView) -> bool {
    &&& s.elapsed_ms_by_phase.total(phase) + o.elapsed.nanos / 1_000_000 <= u128::MAX
    &&& s.stdout_bytes_by_phase.total(phase) + o.stdout.len() <= u64::MAX
    &&& s.stderr_bytes_by_phase.total(phase) + o.stderr.len() <= u64::MAX
}

/// The larger of two numbers.
pub open spec fn larger_of(a: nat, b: nat) -> nat {
    if a < b {
        b
    } else {
        a
    }
}

/// What is counted at the end of an invocation.
pub open spec fn counted_end(
    before: BitBakeExecutionStats,
    after: BitBakeExecutionStats,
    i: InvocationView,
    o: BytesView,
) -> bool {
    &&& raised(
        before.elapsed_ms_by_phase,
        after.elapsed_ms_by_phase,
        i.phase,
        (o.elapsed.nanos / 1_000_000) as nat,
    )
    &&& raised(
        before.stdout_bytes_by_phase,
        after.stdout_bytes_by_phase,
        i.phase,
        o.stdout.len(),
    )
    &&& raised(
        before.stderr_bytes_by_phase,
        after.stderr_bytes_by_phase,
        i.phase,
        o.stderr.len(),
    )
    &&& after == (BitBakeExecutionStats {
        elapsed_ms_by_phase: after.elapsed_ms_by_phase,
        stdout_bytes_by_phase: after.stdout_bytes_by_phase,
        stderr_bytes_by_phase: after.stderr_bytes_by_phase,
        total_stdout_bytes: saturated(
            before.total_stdout_bytes as nat,
            o.stdout.len(),
            u64::MAX as nat,
        ) as u64,
        total_stderr_bytes: saturated(
            before.total_stderr_bytes as nat,
            o.stderr.len(),
            u64::MAX as nat,
        ) as u64,
        max_stdout_bytes: larger_of(before.max_stdout_bytes as nat, o.stdout.len()) as u64,
        max_stderr_bytes: larger_of(before.max_stderr_bytes as nat, o.stderr.len()) as u64,
        recipe_queries_completed: (before.recipe_queries_completed + recipes_in(i)) as usize,
        ..before
    })
}

/// The result of an invocation that ended.
pub open spec fn end_of(i: InvocationView, o: BytesView) -> Result<BytesView, ErrorView> {
    if o.success {
        Ok(o)
    } else {
        Err(
            ErrorView::NonZero {
                invocation: i,
                output: o,
                stdout_excerpt: excerpt_text(o.stdout),
                stderr_excerpt: excerpt_text(o.stderr),
            },
        )
    }
}

pub open spec fn result_view(r: Result<BitBakeOutput, BitBakeError>) -> Result<
    BytesView,
    ErrorView,
> {
    match r {
        Ok(output) => Ok(output@),
        Err(error) => Err(error@),
    }
}

impl BitBakeRunner {
    /// The limits.
    pub closed spec fn spec_limits(&self) -> BitBakeExecutionLimits {
        self.limits
    }

    /// The counters.
    pub closed spec fn counters(&self) -> BitBakeExecutionStats {
        self.stats
    }

    /// The output that is kept for a key.
    pub closed spec fn kept(&self, key: InvocationKeyView) -> Option<BytesView> {
        kept_from(self.cache@, key, 0)
    }

    /// The limits can be kept, and the counters respect them.
    pub open spec fn wf(&self) -> bool {
        limits_fault(self.spec_limits()) is None && within_limits(
            self.counters(),
            self.spec_limits(),
        )
    }

    /// A runner that has run nothing yet.
    pub fn new(limits: BitBakeExecutionLimits) -> (r: Result<BitBakeRunner, String>)
        ensures
            match limits_fault(limits) {
                Some(fault) => r matches Err(message) && message@ == fault,
                None => r matches Ok(runner) && runner.wf() && runner.spec_limits() == limits
                    && nothing_counted(runner.counters(), limits) && (forall|key: InvocationKeyView|
                    (#[trigger] runner.kept(key)) is None),
            },
    {
        match limits.validate() {
            Ok(limits) => {
                let mut stats = BitBakeExecutionStats::default();
                stats.limits = limits;
                Ok(BitBakeRunner { limits, cache: Vec::new(), stats })
            },
            Err(message) => Err(message),
        }
    }

    /// The limits.
    pub fn limits(&self) -> (r: BitBakeExecutionLimits)
        ensures
            r == self.spec_limits(),
    {
        self.limits
    }

    /// The counters.
    pub fn stats(&self) -> (r: &BitBakeExecutionStats)
        ensures
            *r == self.counters(),
    {
        &self.stats
    }

    /// The counters, to be changed.
    pub fn stats_mut(&mut self) -> (r: &mut BitBakeExecutionStats)
        ensures
            *r == old(self).counters(),
            final(self).counters() == *final(r),
            final(self).spec_limits() == old(self).spec_limits(),
            forall|key: InvocationKeyView| #[trigger] final(self).kept(key) == old(self).kept(key),
    {
        &mut self.stats
    }

    /// Counts recipe queries that were answered together.
    pub fn record_recipe_queries(&mut self, count: usize) -> (r: Result<(), BitBakeError>)
        requires
            old(self).wf(),
        ensures
            final(self).wf(),
            final(self).spec_limits() == old(self).spec_limits(),
            forall|key: InvocationKeyView| #[trigger] final(self).kept(key) == old(self).kept(key),
            if old(self).counters().recipe_queries_scheduled + count > old(
                self,
            ).spec_limits().max_recipe_queries {
                &&& r matches Err(error) && error@ == (ErrorView::RecipeQueryBudget {
                    phase: BitBakePhase::RecipeEnvironment,
                    recipe: None,
                    limit: old(self).spec_limits().max_recipe_queries,
                })
                &&& final(self).counters() == old(self).counters()
            } else {
                &&& r is Ok
                &&& final(self).counters() == (BitBakeExecutionStats {
                    recipe_queries_scheduled: (old(self).counters().recipe_queries_scheduled
                        + count) as usize,
                    recipe_queries_completed: (old(self).counters().recipe_queries_completed
                        + count) as usize,
                    ..old(self).counters()
                })
            },
    {
        if count > self.limits.max_recipe_queries - self.stats.recipe_queries_scheduled {
            return Err(
                BitBakeError::RecipeQueryBudget {
                    phase: BitBakePhase::RecipeEnvironment,
                    recipe: None,
                    limit: self.limits.max_recipe_queries,
                },
            );
        }
        self.stats.recipe_queries_scheduled = self.stats.recipe_queries_scheduled + count;
        self.stats.recipe_queries_completed = self.stats.recipe_queries_completed + count;
        Ok(())
    }

    /// Why an invocation may not run.
    fn refuse(
        &self,
        invocation: &BitBakeInvocation,
        cancelled: bool,
        elapsed: &BitBakeTime,
        total_limit: &BitBakeTime,
    ) -> (r: Option<BitBakeError>)
        ensures
            match r {
                Some(error) => refusal(
                    self.counters(),
                    self.spec_limits(),
                    invocation@,
                    cancelled,
                    elapsed@,
                    total_limit@,
                ) == Some(error@),
                None => refusal(
                    self.counters(),
                    self.spec_limits(),
                    invocation@,
                    cancelled,
                    elapsed@,
                    total_limit@,
                ) is None,
            },
    {
        if cancelled {
            return Some(
                BitBakeError::Cancelled { invocation: invocation.copy(), elapsed: elapsed.copy() },
            );
        }
        if elapsed.nanos >= self.limits.total_timeout {
            return Some(
                BitBakeError::TotalDeadline {
                    invocation: invocation.copy(),
                    elapsed: elapsed.copy(),
                    limit: total_limit.copy(),
                },
            );
        }
        if self.stats.total_commands >= self.limits.max_commands {
            return Some(
                BitBakeError::CommandBudget {
                    phase: invocation.phase,
                    limit: self.limits.max_commands,
                },
            );
        }
        if invocation.recipe.is_some() && self.stats.recipe_queries_scheduled
            >= self.limits.max_recipe_queries {
            return Some(
                BitBakeError::RecipeQueryBudget {
                    phase: invocation.phase,
                    recipe: copy_some(&invocation.recipe),
                    limit: self.limits.max_recipe_queries,
                },
            );
        }
        None
    }

    fn find(&self, key: &InvocationKey) -> (r: Option<usize>)
        ensures
            match r {
                Some(k) => k < self.cache@.len() && self.cache@[k as int].0@ == key@ && self.kept(
                    key@,
                ) == Some(self.cache@[k as int].1@) && forall|j: int|
                    0 <= j < k ==> (#[trigger] self.cache@[j]).0@ != key@,
                None => self.kept(key@) is None,
            },
    {
        let mut k: usize = 0;
        while k < self.cache.len()
            invariant
                k <= self.cache@.len(),
                kept_from(self.cache@, key@, k as int) == kept_from(self.cache@, key@, 0),
                forall|j: int| 0 <= j < k ==> (#[trigger] self.cache@[j]).0@ != key@,
            decreases self.cache@.len() - k,
        {
            if self.cache[k].0.same(key) {
                return Some(k);
            }
            k += 1;
        }
        None
    }

    /// Decides on an invocation before a process is started for it. `elapsed`
    /// is the time that the operation has taken, `total_limit` its limit.
    pub fn begin(
        &mut self,
        invocation: &BitBakeInvocation,
        key: &InvocationKey,
        cancelled: bool,
        elapsed: &BitBakeTime,
        total_limit: &BitBakeTime,
    ) -> (r: BitBakeStart)
        requires
            old(self).wf(),
        ensures
            final(self).wf(),
            final(self).spec_limits() == old(self).spec_limits(),
            forall|k: InvocationKeyView| #[trigger] final(self).kept(k) == old(self).kept(k),
            r@ == start_of(
                refusal(
                    old(self).counters(),
                    old(self).spec_limits(),
                    invocation@,
                    cancelled,
                    elapsed@,
                    total_limit@,
                ),
                invocation@,
                old(self).kept(key@),
            ),
            counted_start(old(self).counters(), final(self).counters(), invocation@, r@),
    {
        if let Some(error) = self.refuse(invocation, cancelled, elapsed, total_limit) {
            return BitBakeStart::Refused(error);
        }
        if invocation.recipe.is_some() {
            self.stats.recipe_queries_scheduled = self.stats.recipe_queries_scheduled + 1;
        }
        if invocation.cacheable {
            if let Some(k) = self.find(key) {
                let output = self.cache[k].1.copy();
                self.stats.record_cache_hit();
                return BitBakeStart::Cached(output);
            }
        }
        self.stats.total_commands = self.stats.total_commands + 1;
        let ghost counts = self.stats.commands_by_phase;
        assert(counts.total(invocation.phase) <= self.stats.total_commands);
        self.stats.commands_by_phase.raise(invocation.phase, 1);
        assert forall|p: BitBakePhase| #[trigger]
            self.stats.commands_by_phase.total(p) <= self.stats.total_commands by {
            assert(counts.total(p) <= old(self).counters().total_commands);
            if p != invocation.phase {
                assert(self.stats.commands_by_phase.of(p) == counts.of(p));
            }
        }
        BitBakeStart::Spawn
    }

    /// Decides on a running command.
    pub fn poll(
        &self,
        invocation: &BitBakeInvocation,
        command: &CommandState,
        limits: &TimeLimits,
        elapsed: &BitBakeTime,
        total: &BitBakeTime,
    ) -> (r: BitBakePoll)
        ensures
            r@ == poll_of(
                self.spec_limits(),
                *limits,
                invocation@,
                *command,
                elapsed@,
                total@,
            ),
    {
        if command.cancelled {
            return BitBakePoll::Stop(
                BitBakeError::Cancelled { invocation: invocation.copy(), elapsed: total.copy() },
            );
        }
        if command.stdout_over {
            return BitBakePoll::Stop(
                BitBakeError::StdoutLimit {
                    invocation: invocation.copy(),
                    elapsed: elapsed.copy(),
                    limit: self.limits.max_stdout_bytes,
                    captured: self.limits.max_stdout_bytes,
                },
            );
        }
        if command.stderr_over {
            return BitBakePoll::Stop(
                BitBakeError::StderrLimit {
                    invocation: invocation.copy(),
                    elapsed: elapsed.copy(),
                    limit: self.limits.max_stderr_bytes,
                    captured: self.limits.max_stderr_bytes,
                },
            );
        }
        if command.exited && command.stdout_done && command.stderr_done {
            return BitBakePoll::Finished;
        }
        if elapsed.nanos >= self.limits.command_timeout {
            return BitBakePoll::Stop(
                BitBakeError::Timeout {
                    invocation: invocation.copy(),
                    elapsed: elapsed.copy(),
                    limit: limits.command.copy(),
                },
            );
        }
        if total.nanos >= self.limits.total_timeout {
            return BitBakePoll::Stop(
                BitBakeError::TotalDeadline {
                    invocation: invocation.copy(),
                    elapsed: total.copy(),
                    limit: limits.total.copy(),
                },
            );
        }
        BitBakePoll::Wait
    }

    /// Whether there is room in the counters for the output of a command.
    pub fn can_count(&self, phase: BitBakePhase, output: &BitBakeOutput) -> (r: bool)
        ensures
            r == has_room(self.counters(), phase, output@),
    {
        let time = match self.stats.elapsed_ms_by_phase.get(phase) {
            Some(count) => count,
            None => 0,
        };
        let stdout = match self.stats.stdout_bytes_by_phase.get(phase) {
            Some(count) => count,
            None => 0,
        };
        let stderr = match self.stats.stderr_bytes_by_phase.get(phase) {
            Some(count) => count,
            None => 0,
        };
        time <= u128::MAX - output.elapsed.nanos / 1_000_000 && stdout <= u64::MAX as u128
            - output.stdout.len() as u128 && stderr <= u64::MAX as u128
            - output.stderr.len() as u128
    }

    fn keep(&mut self, key: &InvocationKey, output: &BitBakeOutput)
        ensures
            final(self).spec_limits() == old(self).spec_limits(),
            final(self).counters() == old(self).counters(),
            final(self).kept(key@) == Some(output@),
            forall|k: InvocationKeyView| k != key@ ==> #[trigger] final(self).kept(k) == old(self).kept(k),
    {
        let ghost before = self.cache@;
        let found = self.find(key);
        let entry = (key.copy(), output.copy());
        let ghost added = entry;
        match found {
            Some(k) => {
                self.cache.set(k, entry);
                proof {
                    assert forall|other: InvocationKeyView| other != key@ implies #[trigger] kept_from(
                        self.cache@,
                        other,
                        0,
                    ) == kept_from(before, other, 0) by {
                        lemma_set_other(before, k as int, added, other, 0);
                    }
                    lemma_set_same(before, k as int, added, 0);
                }
            },
            None => {
                self.cache.push(entry);
                proof {
                    assert forall|other: InvocationKeyView| other != key@ implies #[trigger] kept_from(
                        self.cache@,
                        other,
                        0,
                    ) == kept_from(before, other, 0) by {
                        lemma_push_other(before, added, other, 0);
                    }
                    lemma_push_same(before, added, 0);
                }
            },
        }
    }

    /// Counts a command that ended, and keeps its output where it succeeded
    /// and can be used again.
    pub fn finish(
        &mut self,
        invocation: &BitBakeInvocation,
        key: &InvocationKey,
        output: BitBakeOutput,
    ) -> (r: Result<BitBakeOutput, BitBakeError>)
        requires
            old(self).wf(),
            has_room(old(self).counters(), invocation@.phase, output@),
            invocation@.recipe is Some ==> old(self).counters().recipe_queries_completed < old(
                self,
            ).counters().recipe_queries_scheduled,
        ensures
            final(self).wf(),
            final(self).spec_limits() == old(self).spec_limits(),
            counted_end(old(self).counters(), final(self).counters(), invocation@, output@),
            result_view(r) == end_of(invocation@, output@),
            final(self).kept(key@) == (if output@.success && invocation@.cacheable {
                Some(output@)
            } else {
                old(self).kept(key@)
            }),
            forall|k: InvocationKeyView| k != key@ ==> #[trigger] final(self).kept(k) == old(self).kept(k),
    {
        let ghost before = self.stats;
        let phase = invocation.phase;
        let stdout_bytes = output.stdout_bytes();
        let stderr_bytes = output.stderr_bytes();
        self.stats.elapsed_ms_by_phase.raise(phase, output.elapsed.nanos / 1_000_000);
        self.stats.stdout_bytes_by_phase.raise(phase, stdout_bytes as u128);
        self.stats.stderr_bytes_by_phase.raise(phase, stderr_bytes as u128);
        self.stats.total_stdout_bytes = self.stats.total_stdout_bytes.saturating_add(stdout_bytes);
        self.stats.total_stderr_bytes = self.stats.total_stderr_bytes.saturating_add(stderr_bytes);
        if self.stats.max_stdout_bytes < stdout_bytes {
            self.stats.max_stdout_bytes = stdout_bytes;
        }
        if self.stats.max_stderr_bytes < stderr_bytes {
            self.stats.max_stderr_bytes = stderr_bytes;
        }
        if invocation.recipe.is_some() {
            self.stats.recipe_queries_completed = self.stats.recipe_queries_completed + 1;
        }
        assert(counted_end(before, self.stats, invocation@, output@));
        if !output.success {
            let stdout_excerpt = excerpt(&output.stdout);
            let stderr_excerpt = excerpt(&output.stderr);
            return Err(
                BitBakeError::NonZero {
                    invocation: invocation.copy(),
                    output,
                    stdout_excerpt,
                    stderr_excerpt,
                },
            );
        }
        if invocation.cacheable {
            self.keep(key, &output);
        }
        Ok(output)
    }
}

proof fn lemma_set_other(
    items: Seq<(InvocationKey, BitBakeOutput)>,
    at: int,
    entry: (InvocationKey, BitBakeOutput),
    other: InvocationKeyView,
    k: int,
)
    requires
        0 <= at < items.len(),
        0 <= k <= items.len(),
        items[at].0@ == entry.0@,
        other != entry.0@,
    ensures
        kept_from(items.update(at, entry), other, k) == kept_from(items, other, k),
    decreases items.len() - k,
{
    if k < items.len() {
        lemma_set_other(items, at, entry, other, k + 1);
    }
}

proof fn lemma_set_same(
    items: Seq<(InvocationKey, BitBakeOutput)>,
    at: int,
    entry: (InvocationKey, BitBakeOutput),
    k: int,
)
    requires
        0 <= k <= at < items.len(),
        items[at].0@ == entry.0@,
        forall|j: int| k <= j < at ==> (#[trigger] items[j]).0@ != entry.0@,
    ensures
        kept_from(items.update(at, entry), entry.0@, k) == Some(entry.1@),
    decreases items.len() - k,
{
    if k < at {
        lemma_set_same(items, at, entry, k + 1);
    }
}

proof fn lemma_push_other(
    items: Seq<(InvocationKey, BitBakeOutput)>,
    entry: (InvocationKey, BitBakeOutput),
    other: InvocationKeyView,
    k: int,
)
    requires
        0 <= k <= items.len(),
        other != entry.0@,
    ensures
        kept_from(items.push(entry), other, k) == kept_from(items, other, k),
    decreases items.len() - k,
{
    if k < items.len() {
        lemma_push_other(items, entry, other, k + 1);
    } else {
        assert(kept_from(items.push(entry), other, k + 1) is None);
    }
}

proof fn lemma_push_same(
    items: Seq<(InvocationKey, BitBakeOutput)>,
    entry: (InvocationKey, BitBakeOutput),
    k: int,
)
    requires
        0 <= k <= items.len(),
        kept_from(items, entry.0@, k) is None,
    ensures
        kept_from(items.push(entry), entry.0@, k) == Some(entry.1@),
    decreases items.len() - k,
{
    if k < items.len() {
        lemma_push_same(items, entry, k + 1);
    }
}

} // verus!
