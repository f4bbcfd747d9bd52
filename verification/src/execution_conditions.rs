//! When a command may run, how long it may run, and where a build is found.
use crate::bitbake;
use crate::bitbake::BitBakeExecutionLimits;
use crate::bitbake::BitBakeExecutionStats;
use crate::bitbake::BytesView;
use crate::bitbake::CommandState;
use crate::bitbake::ErrorView;
use crate::bitbake::InvocationView;
use crate::bitbake::PollView;
use crate::bitbake::StartView;
use crate::bitbake::TimeLimits;
use crate::bitbake::TimeView;
use crate::orders;
use crate::orders::TextOrder;
use crate::paths;
use crate::project;
use crate::project::BuildContextDiscoveryOptions;
use crate::project::BuildContextSource;
use crate::project::BuildPath;
use crate::project::ContextErrorView;
use crate::project::ContextView;
use crate::project::ProjectProbe;
use crate::project::StartFacts;
use crate::runs;
use crate::runs::LintRequest;
use crate::text;
use vstd::prelude::*;

verus! {

// ---------------------------------------------------------------------------
// Commands
// ---------------------------------------------------------------------------
/// A command starts exactly where nothing was cancelled, time is left, and one
/// more command, and one more query of a recipe where it is one, are within the
/// limits. Only a command that may start is answered from what is kept, and only one
/// that may be kept.
pub proof fn law_commands_start_within_their_limits(
    s: BitBakeExecutionStats,
    l: BitBakeExecutionLimits,
    i: InvocationView,
    cancelled: bool,
    elapsed: TimeView,
    total_limit: TimeView,
    kept: Option<BytesView>,
)
    ensures
        ({
            let refused = bitbake::refusal(s, l, i, cancelled, elapsed, total_limit);
            let start = bitbake::start_of(refused, i, kept);
            &&& !(start is Refused) <==> {
                &&& !cancelled
                &&& elapsed.nanos < l.total_timeout
                &&& s.total_commands + 1 <= l.max_commands
                &&& i.recipe is Some ==> s.recipe_queries_scheduled + 1 <= l.max_recipe_queries
            }
            &&& start is Cached <==> !(start is Refused) && i.cacheable && kept is Some
            &&& start matches StartView::Cached(output) ==> kept == Some(output)
            &&& start == StartView::Refused(ErrorView::Cancelled { invocation: i, elapsed })
                <==> cancelled
        }),
{
}

/// Counting the start of a command keeps the counters within the limits, and
/// counts a command only where one is spawned.
pub proof fn law_counted_starts_stay_within_limits(
    before: BitBakeExecutionStats,
    after: BitBakeExecutionStats,
    l: BitBakeExecutionLimits,
    i: InvocationView,
    cancelled: bool,
    elapsed: TimeView,
    total_limit: TimeView,
    kept: Option<BytesView>,
)
    requires
        before.total_commands <= l.max_commands,
        before.recipe_queries_scheduled <= l.max_recipe_queries,
        bitbake::counted_start(
            before,
            after,
            i,
            bitbake::start_of(
                bitbake::refusal(before, l, i, cancelled, elapsed, total_limit),
                i,
                kept,
            ),
        ),
    ensures
        after.total_commands <= l.max_commands,
        after.recipe_queries_scheduled <= l.max_recipe_queries,
        ({
            let start = bitbake::start_of(
                bitbake::refusal(before, l, i, cancelled, elapsed, total_limit),
                i,
                kept,
            );
            &&& after.total_commands == before.total_commands + if start is Spawn {
                1int
            } else {
                0
            }
            &&& after.recipe_queries_scheduled == before.recipe_queries_scheduled + if i.recipe
                is Some && !(start is Refused) {
                1int
            } else {
                0
            }
            &&& start is Refused ==> after == before
        }),
{
}

/// A running command is stopped exactly where something was cancelled, where an
/// output went over its limit, or where it has not ended and its time, or the time of
/// all, is over. It is finished exactly where it has ended, both outputs were read to
/// their ends and it is not stopped.
pub proof fn law_commands_run_within_their_limits(
    l: BitBakeExecutionLimits,
    limits: TimeLimits,
    i: InvocationView,
    c: CommandState,
    elapsed: TimeView,
    total: TimeView,
)
    ensures
        ({
            let poll = bitbake::poll_of(l, limits, i, c, elapsed, total);
            let ended = c.exited && c.stdout_done && c.stderr_done;
            let over = elapsed.nanos >= l.command_timeout || total.nanos >= l.total_timeout;
            &&& poll is Stop <==> c.cancelled || c.stdout_over || c.stderr_over || (!ended && over)
            &&& poll is Finished <==> ended && !c.cancelled && !c.stdout_over && !c.stderr_over
            &&& poll is Wait <==> !c.cancelled && !c.stdout_over && !c.stderr_over && !ended
                && elapsed.nanos < l.command_timeout && total.nanos < l.total_timeout
        }),
{
}

/// Of a chunk of output as much is kept as fits under the limit, and all of it
/// where all fits.
pub proof fn law_output_is_kept_up_to_its_limit(held: nat, chunk: nat, limit: u64)
    requires
        held <= limit,
    ensures
        bitbake::kept_bytes(held, chunk, limit) <= chunk,
        held + bitbake::kept_bytes(held, chunk, limit) <= limit,
        bitbake::kept_bytes(held, chunk, limit) == chunk || held + bitbake::kept_bytes(
            held,
            chunk,
            limit,
        ) == limit,
{
}

/// A lint command runs exactly where a workspace is not given together with
/// paths, where nothing that only a semantic analysis uses is given without one (the
/// executable is used for a workspace too), and where standard input is neither
/// analysed nor edited.
pub proof fn law_lint_commands_that_run(a: LintRequest)
    ensures
        runs::lint_misuse(a) is None <==> {
            &&& a.workspace ==> !a.paths
            &&& a.stdin ==> !a.semantic && !a.fix
            &&& a.semantic || !(a.build_dir || a.project_dir || a.targets || a.variables || a.full
                || a.graph || a.dry_run || a.inventory || a.packages || a.limits)
            &&& a.bitbake ==> a.semantic || a.workspace
        },
{
}

// ---------------------------------------------------------------------------
// Builds
// ---------------------------------------------------------------------------
/// Whether a path that was looked at is a build directory: a directory with both
/// of its configuration files.
pub open spec fn sound(found: BuildPath) -> bool {
    &&& found.facts.failure is None
    &&& found.facts.is_directory
    &&& found.facts.has_local_conf
    &&& found.facts.has_bblayers_conf
}

/// Whether the first look at `path` is the `k`th.
pub open spec fn first_look(p: ProjectProbe, path: Seq<char>, k: int) -> bool {
    &&& 0 <= k < p.build_paths@.len()
    &&& p.build_paths@[k].path@ == path
    &&& forall|j: int| 0 <= j < k ==> (#[trigger] p.build_paths@[j]).path@ != path
}

/// Whether `path` was found to be a build directory.
pub open spec fn build_at(p: ProjectProbe, path: Seq<char>) -> bool {
    exists|k: int| #[trigger] first_look(p, path, k) && sound(p.build_paths@[k])
}

proof fn lemma_probed(items: Seq<BuildPath>, path: Seq<char>, k: int)
    requires
        0 <= k <= items.len(),
    ensures
        match project::probed_from(items, path, k) {
            Some(found) => exists|i: int|
                k <= i < items.len() && #[trigger] items[i] == found && found.path@ == path
                    && forall|j: int| k <= j < i ==> (#[trigger] items[j]).path@ != path,
            None => forall|j: int| k <= j < items.len() ==> (#[trigger] items[j]).path@ != path,
        },
    decreases items.len() - k,
{
    if k < items.len() && items[k].path@ != path {
        lemma_probed(items, path, k + 1);
    }
}

proof fn lemma_build_at(p: ProjectProbe, path: Seq<char>)
    ensures
        project::is_build_dir(p, path) <==> build_at(p, path),
{
    lemma_probed(p.build_paths@, path, 0);
    match project::probed_from(p.build_paths@, path, 0) {
        Some(found) => {
            let i = choose|i: int|
                0 <= i < p.build_paths@.len() && #[trigger] p.build_paths@[i] == found
                    && found.path@ == path && forall|j: int|
                    0 <= j < i ==> (#[trigger] p.build_paths@[j]).path@ != path;
            assert(first_look(p, path, i));
            if build_at(p, path) {
                let k = choose|k: int| #[trigger] first_look(p, path, k) && sound(p.build_paths@[k]);
                assert(k == i) by {
                    if k < i {
                        assert(p.build_paths@[k].path@ != path);
                    }
                    if i < k {
                        assert(p.build_paths@[i].path@ != path);
                    }
                }
            }
        },
        None => {},
    }
}

/// Whether `path` is in `directory` and has the name of a build directory:
/// `build`, or one that begins with `build-`.
pub open spec fn named_as_build(directory: Seq<char>, names: Seq<Seq<char>>, path: Seq<char>) -> bool {
    ||| path == paths::pushed_path(directory, "build"@)
    ||| exists|i: int|
        0 <= i < names.len() && "build-"@.is_prefix_of(#[trigger] names[i]) && path
            == paths::pushed_path(directory, names[i])
}

proof fn lemma_conventional(directory: Seq<char>, names: Seq<Seq<char>>, k: int, path: Seq<char>)
    requires
        0 <= k <= names.len(),
    ensures
        project::conventional_from(directory, names, k).contains(path) <==> exists|i: int|
            k <= i < names.len() && "build-"@.is_prefix_of(#[trigger] names[i]) && path
                == paths::pushed_path(directory, names[i]),
    decreases names.len() - k,
{
    if k < names.len() {
        lemma_conventional(directory, names, k + 1, path);
        let rest = project::conventional_from(directory, names, k + 1);
        let all = project::conventional_from(directory, names, k);
        let p = "build-"@;
        assert(text::has_prefix(names[k], p) <==> p.is_prefix_of(names[k])) by {
            if p.len() <= names[k].len() {
                assert(names[k].take(p.len() as int) =~= names[k].subrange(0, p.len() as int));
            }
        }
        if text::has_prefix(names[k], p) {
            assert(all[0] == paths::pushed_path(directory, names[k]));
            if rest.contains(path) {
                let at = choose|at: int| 0 <= at < rest.len() && rest[at] == path;
                assert(all[at + 1] == path);
            }
            if all.contains(path) {
                let at = choose|at: int| 0 <= at < all.len() && all[at] == path;
                if at > 0 {
                    assert(rest[at - 1] == path);
                }
            }
        }
    }
}

proof fn lemma_build_dirs(p: ProjectProbe, items: Seq<Seq<char>>, k: int, path: Seq<char>)
    requires
        0 <= k <= items.len(),
    ensures
        project::build_dirs_from(p, items, k).contains(path) <==> build_at(p, path) && exists|
            i: int,
        |
            k <= i < items.len() && #[trigger] items[i] == path,
    decreases items.len() - k,
{
    if k < items.len() {
        lemma_build_dirs(p, items, k + 1, path);
        lemma_build_at(p, items[k]);
        let rest = project::build_dirs_from(p, items, k + 1);
        let all = project::build_dirs_from(p, items, k);
        if project::is_build_dir(p, items[k]) {
            assert(all[0] == items[k]);
            if rest.contains(path) {
                let at = choose|at: int| 0 <= at < rest.len() && rest[at] == path;
                assert(all[at + 1] == path);
            }
            if all.contains(path) {
                let at = choose|at: int| 0 <= at < all.len() && all[at] == path;
                if at > 0 {
                    assert(rest[at - 1] == path);
                }
            }
        }
    }
}

/// The build directories that are found in a directory are those that have both
/// configuration files and such a name.
pub proof fn law_build_directories_in_a_directory(
    p: ProjectProbe,
    directory: Seq<char>,
    path: Seq<char>,
)
    ensures
        project::build_dirs_in(p, directory).contains(path) <==> build_at(p, path)
            && named_as_build(
            directory,
            project::names_from(p.directories@, directory, 0),
            path,
        ),
{
    let names = project::names_from(p.directories@, directory, 0);
    let items = project::conventional(directory, names);
    let inner = project::conventional_from(directory, names, 0);
    orders::law_sorting_keeps_the_texts(TextOrder::Path, project::build_dirs_from(p, items, 0));
    lemma_build_dirs(p, items, 0, path);
    lemma_conventional(directory, names, 0, path);
    assert(items[0] == paths::pushed_path(directory, "build"@));
    if inner.contains(path) {
        let at = choose|at: int| 0 <= at < inner.len() && inner[at] == path;
        assert(items[at + 1] == path);
    }
    if exists|i: int| 0 <= i < items.len() && #[trigger] items[i] == path {
        let i = choose|i: int| 0 <= i < items.len() && #[trigger] items[i] == path;
        if i > 0 {
            assert(inner[i - 1] == path);
        }
    }
}

/// Whether `c` is the context of the build directory at `path`, which `source`
/// gave.
pub open spec fn context_at(
    p: ProjectProbe,
    path: Seq<char>,
    source: BuildContextSource,
    c: ContextView,
) -> bool {
    exists|k: int| #[trigger]
        first_look(p, path, k) && sound(p.build_paths@[k]) && c.source == source && c.build_dir
            == match p.build_paths@[k].canonical {
            Some(canonical) => canonical@,
            None => path,
        }
}

proof fn lemma_context(
    p: ProjectProbe,
    path: Seq<char>,
    source: BuildContextSource,
    base: Option<Seq<char>>,
)
    ensures
        ({
            let absolute = project::placed(path, base);
            let r = project::context_of(p, path, source, base);
            &&& r is Ok <==> build_at(p, absolute)
            &&& r matches Ok(c) ==> context_at(p, absolute, source, c)
            &&& r matches Err(e) ==> e is InvalidBuildDirectory && e->InvalidBuildDirectory_source
                == source
        }),
{
    let absolute = project::placed(path, base);
    lemma_build_at(p, absolute);
    lemma_probed(p.build_paths@, absolute, 0);
    let r = project::context_of(p, path, source, base);
    if r is Ok {
        let found = project::probed_from(p.build_paths@, absolute, 0)->0;
        let i = choose|i: int|
            0 <= i < p.build_paths@.len() && #[trigger] p.build_paths@[i] == found && found.path@
                == absolute && forall|j: int|
                0 <= j < i ==> (#[trigger] p.build_paths@[j]).path@ != absolute;
        assert(first_look(p, absolute, i));
        assert(sound(p.build_paths@[i]));
    }
}

/// A build directory that is configured is used before one that an environment
/// variable names, the tool's own variable before BitBake's, and only where none is
/// named a build is looked for. One that is named must be a build directory: nothing
/// else is tried.
pub proof fn law_named_builds_come_first(
    p: ProjectProbe,
    path: Seq<char>,
    facts: StartFacts,
    o: BuildContextDiscoveryOptions,
    start: Seq<char>,
)
    requires
        project::start_of_discovery(path, facts) == Ok::<Seq<char>, ContextErrorView>(start),
    ensures
        ({
            let r = project::discovered(p, path, facts, o);
            &&& o.configured_build_dir matches Some(dir) ==> {
                let at = paths::pushed_path(start, dir@);
                &&& r is Ok <==> build_at(p, at)
                &&& r matches Ok(c) ==> context_at(p, at, BuildContextSource::Configured, c)
            }
            &&& o.configured_build_dir is None ==> (o.bbtidy_build_dir matches Some(dir) ==> {
                let at = paths::pushed_path(start, dir@);
                &&& r is Ok <==> build_at(p, at)
                &&& r matches Ok(c) ==> context_at(p, at, BuildContextSource::BbtidyEnvironment, c)
            })
            &&& o.configured_build_dir is None && o.bbtidy_build_dir is None ==> (
            o.build_dir_environment matches Some(dir) ==> {
                let at = paths::pushed_path(start, dir@);
                &&& r is Ok <==> build_at(p, at)
                &&& r matches Ok(c) ==> context_at(p, at, BuildContextSource::BuildDirEnvironment, c)
            })
        }),
{
    if let Some(dir) = o.configured_build_dir {
        lemma_context(p, dir@, BuildContextSource::Configured, Some(start));
    } else if let Some(dir) = o.bbtidy_build_dir {
        lemma_context(p, dir@, BuildContextSource::BbtidyEnvironment, Some(start));
    } else if let Some(dir) = o.build_dir_environment {
        lemma_context(p, dir@, BuildContextSource::BuildDirEnvironment, Some(start));
    }
}

/// Whether neither `directory` nor anything in it with such a name is a build
/// directory.
pub open spec fn no_build_at(p: ProjectProbe, directory: Seq<char>) -> bool {
    !build_at(p, directory) && project::build_dirs_in(p, directory).len() == 0
}

proof fn lemma_discovered(p: ProjectProbe, start: Seq<char>, above: Seq<Seq<char>>, j: int, k: int)
    requires
        0 <= j <= k <= above.len(),
        forall|i: int| j <= i < k ==> no_build_at(p, #[trigger] above[i]),
    ensures
        project::discovered_from(p, start, above, j) == project::discovered_from(
            p,
            start,
            above,
            k,
        ),
    decreases k - j,
{
    if j < k {
        assert(no_build_at(p, above[j]));
        lemma_build_at(p, above[j]);
        lemma_discovered(p, start, above, j + 1, k);
    }
}

/// A build is looked for from the nearest directory outwards: the first
/// directory that is a build directory, or holds one by its name, decides. It is used
/// itself, or the one that it holds; two or more in it are ambiguous. Where no
/// directory has one, none is found.
pub proof fn law_nearest_build_is_found(
    p: ProjectProbe,
    start: Seq<char>,
    above: Seq<Seq<char>>,
    k: int,
)
    requires
        0 <= k <= above.len(),
        forall|i: int| 0 <= i < k ==> no_build_at(p, #[trigger] above[i]),
    ensures
        ({
            let r = project::discovered_from(p, start, above, 0);
            let inside = project::build_dirs_in(p, above[k]);
            &&& k < above.len() && build_at(p, above[k]) ==> r is Ok && context_at(
                p,
                above[k],
                BuildContextSource::Discovered,
                r->Ok_0,
            )
            &&& k < above.len() && !build_at(p, above[k]) && inside.len() == 1 ==> r is Ok
                && context_at(p, inside[0], BuildContextSource::Discovered, r->Ok_0)
            &&& k < above.len() && !build_at(p, above[k]) && inside.len() > 1 ==> r is Err
                && r->Err_0 == (ContextErrorView::Ambiguous { start, candidates: inside })
            &&& k == above.len() ==> r is Err && r->Err_0 == (ContextErrorView::NotFound { start })
        }),
{
    lemma_discovered(p, start, above, 0, k);
    if k < above.len() {
        lemma_build_at(p, above[k]);
        if build_at(p, above[k]) {
            lemma_context(p, above[k], BuildContextSource::Discovered, None);
        } else {
            let inside = project::build_dirs_in(p, above[k]);
            if inside.len() == 1 {
                law_build_directories_in_a_directory(p, above[k], inside[0]);
                assert(inside.contains(inside[0]));
                lemma_context(p, inside[0], BuildContextSource::Discovered, None);
            }
        }
    }
}

} // verus!
