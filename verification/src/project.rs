//! Project and BitBake build-context discovery.
//!
//! BitBake projects commonly have a source tree and one or more build trees.
//! This module provides deterministic discovery for commands that need a
//! configured build context, from what is known of the directories around a
//! starting point.
use crate::collections;
use crate::orders;
use crate::paths;
use crate::text;
use crate::checks::long_phrase;
use crate::checks::phrase;
use crate::collections::copy_strings;
use crate::collections::join;
use crate::collections::push_text;
use crate::orders::TextOrder;
use crate::orders::sort_distinct;
use crate::paths::parent_path;
use crate::paths::path_ancestors;
use crate::paths::push_path;
use crate::semantic::BuildDirFacts;
use crate::text::append_chars;
use crate::text::chars_of;
use crate::text::same_str;
use crate::text::starts_with;
use crate::text::string_of;
use vstd::prelude::*;

verus! {

/// How a build context was selected.
#[derive(Clone, Copy, Debug, Eq, PartialEq, Structural)]
pub enum BuildContextSource {
    Explicit,
    Configured,
    BbtidyEnvironment,
    BuildDirEnvironment,
    Discovered,
}

/// The word for a source.
pub open spec fn source_label(source: BuildContextSource) -> Seq<char> {
    match source {
        BuildContextSource::Explicit => "explicit"@,
        BuildContextSource::Configured => "configured"@,
        BuildContextSource::BbtidyEnvironment => "bbtidy-environment"@,
        BuildContextSource::BuildDirEnvironment => "builddir-environment"@,
        BuildContextSource::Discovered => "discovered"@,
    }
}

impl BuildContextSource {
    /// The word for the source.
    pub fn label(self) -> (r: &'static str)
        ensures
            r@ == source_label(self),
    {
        match self {
            BuildContextSource::Explicit => "explicit",
            BuildContextSource::Configured => "configured",
            BuildContextSource::BbtidyEnvironment => "bbtidy-environment",
            BuildContextSource::BuildDirEnvironment => "builddir-environment",
            BuildContextSource::Discovered => "discovered",
        }
    }
}

/// A validated BitBake build directory and its source project directory.
#[derive(Clone, Debug, Eq, PartialEq)]
pub struct BuildContext {
    project_dir: String,
    build_dir: String,
    source: BuildContextSource,
}

#[verifier::ext_equal]
pub struct ContextView {
    pub project_dir: Seq<char>,
    pub build_dir: Seq<char>,
    pub source: BuildContextSource,
}

/// Inputs used by [`discover_build_context_with_options`].
#[derive(Clone, Debug, Eq, PartialEq)]
pub struct BuildContextDiscoveryOptions {
    /// A path from project configuration, resolved relative to that config.
    pub configured_build_dir: Option<String>,
    /// Optional override corresponding to `BBTIDY_BITBAKE_BUILD_DIR`.
    pub bbtidy_build_dir: Option<String>,
    /// Optional override corresponding to `BUILDDIR`.
    pub build_dir_environment: Option<String>,
}

impl Default for BuildContextDiscoveryOptions {
    fn default() -> (r: BuildContextDiscoveryOptions)
        ensures
            r == (BuildContextDiscoveryOptions {
                configured_build_dir: None,
                bbtidy_build_dir: None,
                build_dir_environment: None,
            }),
    {
        BuildContextDiscoveryOptions {
            configured_build_dir: None,
            bbtidy_build_dir: None,
            build_dir_environment: None,
        }
    }
}

/// A value that is not empty.
pub open spec fn nonempty(value: Option<String>) -> Option<String> {
    match value {
        Some(text) => if text@.len() > 0 {
            Some(text)
        } else {
            None
        },
        None => None,
    }
}

/// The options that the values of two environment variables give.
pub open spec fn environment_options(
    bbtidy_build_dir: Option<String>,
    build_dir: Option<String>,
) -> BuildContextDiscoveryOptions {
    BuildContextDiscoveryOptions {
        configured_build_dir: None,
        bbtidy_build_dir: nonempty(bbtidy_build_dir),
        build_dir_environment: nonempty(build_dir),
    }
}

fn unless_empty(value: Option<String>) -> (r: Option<String>)
    ensures
        r == nonempty(value),
{
    match value {
        Some(text) => if chars_of(text.as_str()).len() > 0 {
            Some(text)
        } else {
            None
        },
        None => None,
    }
}

impl BuildContextDiscoveryOptions {
    /// The options that the values of `BBTIDY_BITBAKE_BUILD_DIR` and
    /// `BUILDDIR` give. An empty value counts for nothing.
    pub fn from_environment(bbtidy_build_dir: Option<String>, build_dir: Option<String>) -> (r:
        BuildContextDiscoveryOptions)
        ensures
            r == environment_options(bbtidy_build_dir, build_dir),
    {
        BuildContextDiscoveryOptions {
            configured_build_dir: None,
            bbtidy_build_dir: unless_empty(bbtidy_build_dir),
            build_dir_environment: unless_empty(build_dir),
        }
    }
}

// ---------------------------------------------------------------------------
// Errors
// ---------------------------------------------------------------------------
/// Operational failures while discovering a project or build context.
#[derive(Clone, Debug, Eq, PartialEq)]
pub enum BuildContextError {
    InvalidStart { path: String, reason: String },
    InvalidBuildDirectory { path: String, source: BuildContextSource, reason: String },
    NotFound { start: String },
    Ambiguous { start: String, candidates: Vec<String> },
}

pub enum ContextErrorView {
    InvalidStart { path: Seq<char>, reason: Seq<char> },
    InvalidBuildDirectory { path: Seq<char>, source: BuildContextSource, reason: Seq<char> },
    NotFound { start: Seq<char> },
    Ambiguous { start: Seq<char>, candidates: Seq<Seq<char>> },
}

/// What is said of a failure.
pub open spec fn context_error_text(e: ContextErrorView) -> Seq<char> {
    match e {
        ContextErrorView::InvalidStart { path, reason } => "invalid project discovery path "@ + path
            + ": "@ + reason + ""@,
        ContextErrorView::InvalidBuildDirectory { path, source, reason } => "invalid "@
            + source_label(source) + " BitBake build directory "@ + path + ": "@ + reason,
        ContextErrorView::NotFound { start } =>
            "could not discover a BitBake build directory from "@ + start + ""@,
        ContextErrorView::Ambiguous { start, candidates } =>
            "multiple BitBake build directories discovered from "@ + start + ": "@ + collections::joined(
            candidates,
            ", "@,
        ) + "; use --build-dir"@,
    }
}

impl BuildContextError {
    pub open spec fn view(&self) -> ContextErrorView {
        match *self {
            BuildContextError::InvalidStart { path, reason } => ContextErrorView::InvalidStart {
                path: path@,
                reason: reason@,
            },
            BuildContextError::InvalidBuildDirectory { path, source, reason } =>
                ContextErrorView::InvalidBuildDirectory { path: path@, source, reason: reason@ },
            BuildContextError::NotFound { start } => ContextErrorView::NotFound { start: start@ },
            BuildContextError::Ambiguous { start, candidates } => ContextErrorView::Ambiguous {
                start: start@,
                candidates: collections::string_texts(candidates@),
            },
        }
    }

    /// The failure in words.
    pub fn to_string(&self) -> (r: String)
        ensures
            r@ == context_error_text(self@),
    {
        let out = match self {
            BuildContextError::InvalidStart { path, reason } => long_phrase(
                "invalid project discovery path ",
                chars_of(path.as_str()).as_slice(),
                ": ",
                chars_of(reason.as_str()).as_slice(),
                "",
            ),
            BuildContextError::InvalidBuildDirectory { path, source, reason } => {
                let mut text = long_phrase(
                    "invalid ",
                    chars_of(source.label()).as_slice(),
                    " BitBake build directory ",
                    chars_of(path.as_str()).as_slice(),
                    ": ",
                );
                append_chars(&mut text, chars_of(reason.as_str()).as_slice());
                text
            },
            BuildContextError::NotFound { start } => phrase(
                "could not discover a BitBake build directory from ",
                chars_of(start.as_str()).as_slice(),
                "",
            ),
            BuildContextError::Ambiguous { start, candidates } => {
                let names = join(candidates, ", ");
                long_phrase(
                    "multiple BitBake build directories discovered from ",
                    chars_of(start.as_str()).as_slice(),
                    ": ",
                    chars_of(names.as_str()).as_slice(),
                    "; use --build-dir",
                )
            },
        };
        string_of(out.as_slice())
    }
}

// ---------------------------------------------------------------------------
// What is known of the file system
// ---------------------------------------------------------------------------
/// What is known of a path that may be a build directory.
pub struct BuildPath {
    pub path: String,
    /// Its canonical form, where it has one.
    pub canonical: Option<String>,
    pub facts: BuildDirFacts,
}

/// What is known of a directory that may hold build directories.
pub struct SourceDirectory {
    pub path: String,
    /// The names in it; none where it could not be read.
    pub names: Vec<String>,
}

/// What is known of the file system. A path that is not listed is not there.
pub struct ProjectProbe {
    pub build_paths: Vec<BuildPath>,
    pub directories: Vec<SourceDirectory>,
}

/// The first of `items[k..]` for a path.
pub open spec fn probed_from(items: Seq<BuildPath>, path: Seq<char>, k: int) -> Option<BuildPath>
    decreases items.len() - k,
{
    if k < 0 || k >= items.len() {
        None
    } else if items[k].path@ == path {
        Some(items[k])
    } else {
        probed_from(items, path, k + 1)
    }
}

/// The names in a directory.
pub open spec fn names_from(items: Seq<SourceDirectory>, path: Seq<char>, k: int) -> Seq<Seq<char>>
    decreases items.len() - k,
{
    if k < 0 || k >= items.len() {
        Seq::empty()
    } else if items[k].path@ == path {
        collections::string_texts(items[k].names@)
    } else {
        names_from(items, path, k + 1)
    }
}

/// A path is a build directory.
pub open spec fn is_build_dir(p: ProjectProbe, path: Seq<char>) -> bool {
    match probed_from(p.build_paths@, path, 0) {
        Some(found) => build_path_fault(found.facts) is None,
        None => false,
    }
}

/// Why a path that exists is no build directory.
pub open spec fn build_path_fault(facts: BuildDirFacts) -> Option<Seq<char>> {
    match facts.failure {
        Some(failure) => Some(failure@),
        None => if !facts.is_directory {
            Some("path is not a directory"@)
        } else if !facts.has_local_conf {
            Some("missing conf/local.conf"@)
        } else if !facts.has_bblayers_conf {
            Some("missing conf/bblayers.conf"@)
        } else {
            None
        },
    }
}

impl ProjectProbe {
    fn find(&self, path: &str) -> (r: Option<usize>)
        ensures
            match r {
                Some(k) => k < self.build_paths@.len() && probed_from(
                    self.build_paths@,
                    path@,
                    0,
                ) == Some(self.build_paths@[k as int]),
                None => probed_from(self.build_paths@, path@, 0) is None,
            },
    {
        let mut k: usize = 0;
        while k < self.build_paths.len()
            invariant
                k <= self.build_paths@.len(),
                probed_from(self.build_paths@, path@, k as int) == probed_from(
                    self.build_paths@,
                    path@,
                    0,
                ),
            decreases self.build_paths@.len() - k,
        {
            if same_str(self.build_paths[k].path.as_str(), path) {
                return Some(k);
            }
            k += 1;
        }
        None
    }

    fn names(&self, path: &str) -> (r: Vec<String>)
        ensures
            collections::string_texts(r@) == names_from(self.directories@, path@, 0),
    {
        let mut k: usize = 0;
        while k < self.directories.len()
            invariant
                k <= self.directories@.len(),
                names_from(self.directories@, path@, k as int) == names_from(
                    self.directories@,
                    path@,
                    0,
                ),
            decreases self.directories@.len() - k,
        {
            if same_str(self.directories[k].path.as_str(), path) {
                return copy_strings(&self.directories[k].names);
            }
            k += 1;
        }
        let none: Vec<String> = Vec::new();
        assert(collections::string_texts(none@) =~= Seq::empty());
        none
    }

    /// Whether a path is a build directory.
    pub fn is_valid_build_directory(&self, path: &str) -> (r: bool)
        ensures
            r == is_build_dir(*self, path@),
    {
        match self.find(path) {
            Some(k) => build_path_reason(&self.build_paths[k].facts).is_none(),
            None => false,
        }
    }
}

fn build_path_reason(facts: &BuildDirFacts) -> (r: Option<String>)
    ensures
        collections::optional_text(r) == build_path_fault(*facts),
{
    if let Some(failure) = &facts.failure {
        return Some(failure.clone());
    }
    if !facts.is_directory {
        return Some("path is not a directory".to_owned());
    }
    if !facts.has_local_conf {
        return Some("missing conf/local.conf".to_owned());
    }
    if !facts.has_bblayers_conf {
        return Some("missing conf/bblayers.conf".to_owned());
    }
    None
}

/// A path below `base`, where it is not absolute.
pub open spec fn placed(path: Seq<char>, base: Option<Seq<char>>) -> Seq<char> {
    match base {
        Some(base) => paths::pushed_path(base, path),
        None => path,
    }
}

/// The build context of a path: `base` is the directory that the path is
/// relative to.
pub open spec fn context_of(
    p: ProjectProbe,
    path: Seq<char>,
    source: BuildContextSource,
    base: Option<Seq<char>>,
) -> Result<ContextView, ContextErrorView> {
    let absolute = placed(path, base);
    match probed_from(p.build_paths@, absolute, 0) {
        Some(found) => {
            let settled = match found.canonical {
                Some(canonical) => canonical@,
                None => absolute,
            };
            match build_path_fault(found.facts) {
                Some(reason) => Err(
                    ContextErrorView::InvalidBuildDirectory { path: settled, source, reason },
                ),
                None => Ok(
                    ContextView {
                        project_dir: match paths::lexical_parent(settled) {
                            Some(above) => above,
                            None => settled,
                        },
                        build_dir: settled,
                        source,
                    },
                ),
            }
        },
        None => Err(
            ContextErrorView::InvalidBuildDirectory {
                path: absolute,
                source,
                reason: "entity not found"@,
            },
        ),
    }
}

pub open spec fn context_view(r: Result<BuildContext, BuildContextError>) -> Result<
    ContextView,
    ContextErrorView,
> {
    match r {
        Ok(context) => Ok(context@),
        Err(error) => Err(error@),
    }
}

/// The build context of a path: `base` is the directory that the path is
/// relative to.
pub fn context_from_path(
    probe: &ProjectProbe,
    path: &str,
    source: BuildContextSource,
    base: &Option<String>,
) -> (r: Result<BuildContext, BuildContextError>)
    ensures
        context_view(r) == context_of(*probe, path@, source, collections::optional_text(*base)),
{
    let absolute = match base {
        Some(base) => push_path(base.as_str(), path),
        None => path.to_owned(),
    };
    match probe.find(absolute.as_str()) {
        Some(k) => {
            let settled = match &probe.build_paths[k].canonical {
                Some(canonical) => canonical.clone(),
                None => absolute,
            };
            match build_path_reason(&probe.build_paths[k].facts) {
                Some(reason) => Err(
                    BuildContextError::InvalidBuildDirectory { path: settled, source, reason },
                ),
                None => {
                    let project_dir = match parent_path(settled.as_str()) {
                        Some(above) => above,
                        None => settled.clone(),
                    };
                    Ok(BuildContext { project_dir, build_dir: settled, source })
                },
            }
        },
        None => Err(
            BuildContextError::InvalidBuildDirectory {
                path: absolute,
                source,
                reason: "entity not found".to_owned(),
            },
        ),
    }
}

impl BuildContext {
    pub closed spec fn view(&self) -> ContextView {
        ContextView {
            project_dir: self.project_dir@,
            build_dir: self.build_dir@,
            source: self.source,
        }
    }

    /// Validates an explicitly supplied build directory. A relative path is
    /// below the current directory, where it is known.
    pub fn from_build_dir(
        path: &str,
        current_dir: &Option<String>,
        probe: &ProjectProbe,
    ) -> (r: Result<BuildContext, BuildContextError>)
        ensures
            context_view(r) == context_of(
                *probe,
                path@,
                BuildContextSource::Explicit,
                collections::optional_text(*current_dir),
            ),
    {
        context_from_path(probe, path, BuildContextSource::Explicit, current_dir)
    }

    /// The directory of the project.
    pub fn project_dir(&self) -> (r: &str)
        ensures
            r@ == self@.project_dir,
    {
        self.project_dir.as_str()
    }

    /// The build directory.
    pub fn build_dir(&self) -> (r: &str)
        ensures
            r@ == self@.build_dir,
    {
        self.build_dir.as_str()
    }

    /// How the context was selected.
    pub fn source(&self) -> (r: BuildContextSource)
        ensures
            r == self@.source,
    {
        self.source
    }
}

// ---------------------------------------------------------------------------
// Discovery
// ---------------------------------------------------------------------------
/// What is known of the path that discovery starts from.
pub struct StartFacts {
    /// Why the path could not be looked at.
    pub failure: Option<String>,
    pub is_directory: bool,
    /// The canonical form of the directory to start from; why it has none.
    pub canonical: Result<String, String>,
}

/// The directory that discovery starts from, before it is made canonical.
pub open spec fn start_directory(path: Seq<char>, is_directory: bool) -> Seq<char> {
    if is_directory {
        path
    } else {
        match paths::lexical_parent(path) {
            Some(above) => above,
            None => path,
        }
    }
}

/// The directory that discovery starts from, before it is made canonical.
pub fn discovery_directory(path: &str, is_directory: bool) -> (r: String)
    ensures
        r@ == start_directory(path@, is_directory),
{
    if is_directory {
        return path.to_owned();
    }
    match parent_path(path) {
        Some(above) => above,
        None => path.to_owned(),
    }
}

/// The directory that discovery starts from.
pub open spec fn start_of_discovery(path: Seq<char>, facts: StartFacts) -> Result<
    Seq<char>,
    ContextErrorView,
> {
    match facts.failure {
        Some(reason) => Err(ContextErrorView::InvalidStart { path, reason: reason@ }),
        None => match facts.canonical {
            Ok(canonical) => Ok(canonical@),
            Err(reason) => Err(
                ContextErrorView::InvalidStart {
                    path: start_directory(path, facts.is_directory),
                    reason: reason@,
                },
            ),
        },
    }
}

/// The directory that discovery starts from.
pub fn normalize_start(path: &str, facts: &StartFacts) -> (r: Result<String, BuildContextError>)
    ensures
        match start_of_discovery(path@, *facts) {
            Ok(start) => r matches Ok(found) && found@ == start,
            Err(error) => r matches Err(found) && found@ == error,
        },
{
    if let Some(reason) = &facts.failure {
        return Err(
            BuildContextError::InvalidStart { path: path.to_owned(), reason: reason.clone() },
        );
    }
    match &facts.canonical {
        Ok(canonical) => Ok(canonical.clone()),
        Err(reason) => Err(
            BuildContextError::InvalidStart {
                path: discovery_directory(path, facts.is_directory),
                reason: reason.clone(),
            },
        ),
    }
}

/// The paths in `directory` that may be build directories by their names
/// `names[k..]`.
pub open spec fn conventional_from(directory: Seq<char>, names: Seq<Seq<char>>, k: int) -> Seq<
    Seq<char>,
>
    decreases names.len() - k,
{
    if k < 0 || k >= names.len() {
        Seq::empty()
    } else if text::has_prefix(names[k], "build-"@) {
        seq![paths::pushed_path(directory, names[k])] + conventional_from(directory, names, k + 1)
    } else {
        conventional_from(directory, names, k + 1)
    }
}

/// The paths in a directory that may be build directories.
pub open spec fn conventional(directory: Seq<char>, names: Seq<Seq<char>>) -> Seq<Seq<char>> {
    seq![paths::pushed_path(directory, "build"@)] + conventional_from(directory, names, 0)
}

/// The paths in a directory that may be build directories.
pub fn build_candidates(directory: &str, names: &Vec<String>) -> (r: Vec<String>)
    ensures
        collections::string_texts(r@) == conventional(directory@, collections::string_texts(names@)),
{
    let ghost all = collections::string_texts(names@);
    let ghost goal = conventional(directory@, all);
    let mut out: Vec<String> = Vec::new();
    push_text(&mut out, push_path(directory, "build"));
    let mut k: usize = 0;
    assert(collections::string_texts(out@) =~= seq![paths::pushed_path(directory@, "build"@)]);
    while k < names.len()
        invariant
            k <= names@.len(),
            all == collections::string_texts(names@),
            collections::string_texts(out@) + conventional_from(directory@, all, k as int) == goal,
        decreases names@.len() - k,
    {
        assert(all[k as int] == names@[k as int]@);
        if starts_with(chars_of(names[k].as_str()).as_slice(), "build-") {
            let ghost before = collections::string_texts(out@);
            let path = push_path(directory, names[k].as_str());
            let ghost added = path@;
            push_text(&mut out, path);
            proof {
                let rest = conventional_from(directory@, all, k + 1);
                assert(before + (seq![added] + rest) =~= before.push(added) + rest);
            }
        }
        k += 1;
    }
    assert(collections::string_texts(out@) + Seq::<Seq<char>>::empty() =~= collections::string_texts(out@));
    out
}

/// Those of `paths[k..]` that are build directories.
pub open spec fn build_dirs_from(p: ProjectProbe, paths: Seq<Seq<char>>, k: int) -> Seq<Seq<char>>
    decreases paths.len() - k,
{
    if k < 0 || k >= paths.len() {
        Seq::empty()
    } else if is_build_dir(p, paths[k]) {
        seq![paths[k]] + build_dirs_from(p, paths, k + 1)
    } else {
        build_dirs_from(p, paths, k + 1)
    }
}

/// The build directories in a directory, in order, each once.
pub open spec fn build_dirs_in(p: ProjectProbe, directory: Seq<char>) -> Seq<Seq<char>> {
    orders::sorted_distinct(
        TextOrder::Path,
        build_dirs_from(
            p,
            conventional(directory, names_from(p.directories@, directory, 0)),
            0,
        ),
    )
}

/// What is discovered at the directories `above[k..]`.
pub open spec fn discovered_from(
    p: ProjectProbe,
    start: Seq<char>,
    above: Seq<Seq<char>>,
    k: int,
) -> Result<ContextView, ContextErrorView>
    decreases above.len() - k,
{
    if k < 0 || k >= above.len() {
        Err(ContextErrorView::NotFound { start })
    } else if is_build_dir(p, above[k]) {
        context_of(p, above[k], BuildContextSource::Discovered, None)
    } else {
        let found = build_dirs_in(p, above[k]);
        if found.len() == 1 {
            context_of(p, found[0], BuildContextSource::Discovered, None)
        } else if found.len() > 1 {
            Err(ContextErrorView::Ambiguous { start, candidates: found })
        } else {
            discovered_from(p, start, above, k + 1)
        }
    }
}

/// The build context that the options name, or that is discovered.
pub open spec fn discovered(
    p: ProjectProbe,
    path: Seq<char>,
    facts: StartFacts,
    o: BuildContextDiscoveryOptions,
) -> Result<ContextView, ContextErrorView> {
    match start_of_discovery(path, facts) {
        Err(error) => Err(error),
        Ok(start) => if let Some(dir) = o.configured_build_dir {
            context_of(p, dir@, BuildContextSource::Configured, Some(start))
        } else if let Some(dir) = o.bbtidy_build_dir {
            context_of(p, dir@, BuildContextSource::BbtidyEnvironment, Some(start))
        } else if let Some(dir) = o.build_dir_environment {
            context_of(p, dir@, BuildContextSource::BuildDirEnvironment, Some(start))
        } else {
            discovered_from(p, start, paths::ancestors(start), 0)
        },
    }
}

fn build_dirs(probe: &ProjectProbe, directory: &str) -> (r: Vec<String>)
    ensures
        collections::string_texts(r@) == build_dirs_in(*probe, directory@),
{
    let names = probe.names(directory);
    let paths = build_candidates(directory, &names);
    let ghost all = collections::string_texts(paths@);
    let ghost goal = build_dirs_from(*probe, all, 0);
    let mut out: Vec<String> = Vec::new();
    let mut k: usize = 0;
    assert(collections::string_texts(out@) + goal =~= goal);
    while k < paths.len()
        invariant
            k <= paths@.len(),
            all == collections::string_texts(paths@),
            collections::string_texts(out@) + build_dirs_from(*probe, all, k as int) == goal,
        decreases paths@.len() - k,
    {
        assert(all[k as int] == paths@[k as int]@);
        if probe.is_valid_build_directory(paths[k].as_str()) {
            let ghost before = collections::string_texts(out@);
            push_text(&mut out, paths[k].clone());
            proof {
                let rest = build_dirs_from(*probe, all, k + 1);
                assert(before + (seq![all[k as int]] + rest) =~= before.push(all[k as int]) + rest);
            }
        }
        k += 1;
    }
    assert(collections::string_texts(out@) + Seq::<Seq<char>>::empty() =~= collections::string_texts(out@));
    sort_distinct(TextOrder::Path, &out)
}

fn discover_from_ancestors(probe: &ProjectProbe, start: &str) -> (r: Result<
    BuildContext,
    BuildContextError,
>)
    ensures
        context_view(r) == discovered_from(*probe, start@, paths::ancestors(start@), 0),
{
    let above = path_ancestors(start);
    let ghost all = collections::string_texts(above@);
    let mut k: usize = 0;
    while k < above.len()
        invariant
            k <= above@.len(),
            all == collections::string_texts(above@),
            all == paths::ancestors(start@),
            discovered_from(*probe, start@, all, k as int) == discovered_from(
                *probe,
                start@,
                all,
                0,
            ),
        decreases above@.len() - k,
    {
        assert(all[k as int] == above@[k as int]@);
        let directory = above[k].as_str();
        if probe.is_valid_build_directory(directory) {
            return context_from_path(probe, directory, BuildContextSource::Discovered, &None);
        }
        let found = build_dirs(probe, directory);
        assert(collections::string_texts(found@).len() == found@.len());
        if found.len() == 1 {
            assert(collections::string_texts(found@)[0] == found@[0]@);
            return context_from_path(
                probe,
                found[0].as_str(),
                BuildContextSource::Discovered,
                &None,
            );
        }
        if found.len() > 1 {
            return Err(
                BuildContextError::Ambiguous { start: start.to_owned(), candidates: found },
            );
        }
        k += 1;
    }
    Err(BuildContextError::NotFound { start: start.to_owned() })
}

/// Discovers a BitBake build context using deterministic caller-provided
/// precedence inputs: the configured directory, those of the environment, and
/// the directories at and above the start.
pub fn discover_build_context_with_options(
    start: &str,
    facts: &StartFacts,
    options: &BuildContextDiscoveryOptions,
    probe: &ProjectProbe,
) -> (r: Result<BuildContext, BuildContextError>)
    ensures
        context_view(r) == discovered(*probe, start@, *facts, *options),
{
    let from = match normalize_start(start, facts) {
        Ok(from) => from,
        Err(error) => {
            return Err(error);
        },
    };
    if let Some(dir) = &options.configured_build_dir {
        return context_from_path(
            probe,
            dir.as_str(),
            BuildContextSource::Configured,
            &Some(from),
        );
    }
    if let Some(dir) = &options.bbtidy_build_dir {
        return context_from_path(
            probe,
            dir.as_str(),
            BuildContextSource::BbtidyEnvironment,
            &Some(from),
        );
    }
    if let Some(dir) = &options.build_dir_environment {
        return context_from_path(
            probe,
            dir.as_str(),
            BuildContextSource::BuildDirEnvironment,
            &Some(from),
        );
    }
    discover_from_ancestors(probe, from.as_str())
}

/// Discovers a BitBake build context from a project location and the values of
/// `BBTIDY_BITBAKE_BUILD_DIR` and `BUILDDIR`.
pub fn discover_build_context(
    start: &str,
    facts: &StartFacts,
    bbtidy_build_dir: Option<String>,
    build_dir: Option<String>,
    probe: &ProjectProbe,
) -> (r: Result<BuildContext, BuildContextError>)
    ensures
        context_view(r) == discovered(
            *probe,
            start@,
            *facts,
            environment_options(bbtidy_build_dir, build_dir),
        ),
{
    let options = BuildContextDiscoveryOptions::from_environment(bbtidy_build_dir, build_dir);
    discover_build_context_with_options(start, facts, &options, probe)
}

} // verus!
