//! An index of the metadata files of a workspace and how BitBake finds them.
use crate::collections;
use crate::layers;
use crate::orders;
use crate::paths;
use crate::text;
use crate::values;
use crate::collections::TextMap;
use crate::collections::copy_strings;
use crate::collections::has_text;
use crate::collections::push_text;
use crate::layers::LayerMetadata;
use crate::layers::MetadataView;
use crate::orders::TextOrder;
use crate::orders::sort_distinct;
use crate::paths::has_extension;
use crate::paths::has_part;
use crate::paths::is_absolute;
use crate::paths::is_layer_configuration;
use crate::paths::is_path_less;
use crate::paths::join_path;
use crate::paths::path_parent;
use crate::paths::path_starts_with;
use crate::paths::tidy_path;
use crate::text::append_str;
use crate::text::chars_of;
use crate::text::contains_char;
use crate::text::eq_str;
use crate::text::same_str;
use crate::text::string_of;
use crate::values::split_pieces;
use vstd::prelude::*;
use vstd::slice::slice_subrange;

verus! {

// ---------------------------------------------------------------------------
// Kinds
// ---------------------------------------------------------------------------
/// Describes the BitBake search scope that produced a workspace candidate.
#[derive(Clone, Copy, Debug, Eq, PartialEq, Structural)]
pub enum WorkspaceSearchScope {
    /// An absolute path or a file beside the referencing metadata file.
    CurrentFile,
    /// A file found through the effective BBPATH search path.
    Bbpath,
    /// A class found in a classes-recipe directory on BBPATH.
    ClassesRecipe,
    /// A class found in a classes-global directory on BBPATH.
    ClassesGlobal,
    /// A class found in a classes directory on BBPATH.
    Classes,
}

pub open spec fn scope_text(scope: WorkspaceSearchScope) -> Seq<char> {
    match scope {
        WorkspaceSearchScope::CurrentFile => "the current file directory"@,
        WorkspaceSearchScope::Bbpath => "BBPATH"@,
        WorkspaceSearchScope::ClassesRecipe => "classes-recipe on BBPATH"@,
        WorkspaceSearchScope::ClassesGlobal => "classes-global on BBPATH"@,
        WorkspaceSearchScope::Classes => "classes on BBPATH"@,
    }
}

impl WorkspaceSearchScope {
    /// A stable human-readable name for this search scope.
    pub fn description(self) -> (r: &'static str)
        ensures
            r@ == scope_text(self),
    {
        match self {
            WorkspaceSearchScope::CurrentFile => "the current file directory",
            WorkspaceSearchScope::Bbpath => "BBPATH",
            WorkspaceSearchScope::ClassesRecipe => "classes-recipe on BBPATH",
            WorkspaceSearchScope::ClassesGlobal => "classes-global on BBPATH",
            WorkspaceSearchScope::Classes => "classes on BBPATH",
        }
    }
}

/// Selects the BitBake class namespace used while parsing metadata.
#[derive(Clone, Copy, Debug, Eq, Hash, PartialEq, Structural)]
pub enum WorkspaceClassContext {
    /// Configuration parsing and classes inherited through `INHERIT`.
    Global,
    /// Recipe parsing and classes inherited with the `inherit` directive.
    Recipe,
}

/// Identifies the directive semantics used for a metadata file lookup.
#[derive(Clone, Copy, Debug, Eq, PartialEq, Structural)]
pub enum WorkspaceFileDirective {
    /// Search beside the referencing file and then select the first BBPATH match.
    Include,
    /// Search only BBPATH and retain every matching file.
    IncludeAll,
    /// Search beside the referencing file and then retain the BBPATH matches.
    Require,
}

/// Identifies the directive that created a resolved static workspace edge.
#[derive(Clone, Copy, Debug, Eq, PartialEq, PartialOrd, Ord, Hash, Structural)]
pub enum WorkspaceDependencyKind {
    Include,
    IncludeAll,
    Require,
    Inherit,
    InheritDefer,
    InheritGlobal,
    UserClasses,
}

pub open spec fn kind_keyword(kind: WorkspaceDependencyKind) -> Seq<char> {
    match kind {
        WorkspaceDependencyKind::Include => "include"@,
        WorkspaceDependencyKind::IncludeAll => "include_all"@,
        WorkspaceDependencyKind::Require => "require"@,
        WorkspaceDependencyKind::Inherit => "inherit"@,
        WorkspaceDependencyKind::InheritDefer => "inherit_defer"@,
        WorkspaceDependencyKind::InheritGlobal => "INHERIT"@,
        WorkspaceDependencyKind::UserClasses => "USER_CLASSES"@,
    }
}

impl WorkspaceDependencyKind {
    /// The directive keyword represented by this dependency edge.
    pub fn keyword(self) -> (r: &'static str)
        ensures
            r@ == kind_keyword(self),
    {
        match self {
            WorkspaceDependencyKind::Include => "include",
            WorkspaceDependencyKind::IncludeAll => "include_all",
            WorkspaceDependencyKind::Require => "require",
            WorkspaceDependencyKind::Inherit => "inherit",
            WorkspaceDependencyKind::InheritDefer => "inherit_defer",
            WorkspaceDependencyKind::InheritGlobal => "INHERIT",
            WorkspaceDependencyKind::UserClasses => "USER_CLASSES",
        }
    }
}

/// Whether a component of `parts[k..]` is `part`.
pub open spec fn piece_in(parts: Seq<Seq<char>>, k: int, part: Seq<char>) -> bool {
    exists|j: int| k <= j < parts.len() && #[trigger] parts[j] == part
}

/// The classes that an assignment of the variable `name` makes every file
/// inherit.
pub open spec fn global_class_kind(name: Seq<char>) -> Option<WorkspaceDependencyKind> {
    let parts = values::pieces(name, ':');
    if piece_in(parts, 1, "remove"@) {
        None
    } else if parts[0] == "INHERIT"@ {
        Some(WorkspaceDependencyKind::InheritGlobal)
    } else if parts[0] == "USER_CLASSES"@ {
        Some(WorkspaceDependencyKind::UserClasses)
    } else {
        None
    }
}

/// The classes that an assignment of the variable `name` makes every file
/// inherit.
pub fn global_class_assignment_kind(name: &[char]) -> (r: Option<WorkspaceDependencyKind>)
    ensures
        r == global_class_kind(name@),
{
    let ranges = split_pieces(name, ':');
    let ghost parts = values::pieces(name@, ':');
    let mut k: usize = 1;
    while k < ranges.len()
        invariant
            1 <= k <= ranges@.len(),
            parts == values::pieces(name@, ':'),
            text::ranges_match(ranges@, values::pieces_of(name@, ':')),
            values::pieces_inside(ranges@, name@.len() as int),
            forall|j: int| 1 <= j < k ==> #[trigger] parts[j] != "remove"@,
        decreases ranges@.len() - k,
    {
        let (a, b) = ranges[k];
        let part = slice_subrange(name, a, b);
        assert(parts[k as int] == part@);
        if eq_str(part, "remove") {
            assert(piece_in(parts, 1, "remove"@));
            return None;
        }
        k += 1;
    }
    let (a, b) = ranges[0];
    let base = slice_subrange(name, a, b);
    assert(parts[0] == base@);
    if eq_str(base, "INHERIT") {
        Some(WorkspaceDependencyKind::InheritGlobal)
    } else if eq_str(base, "USER_CLASSES") {
        Some(WorkspaceDependencyKind::UserClasses)
    } else {
        None
    }
}

// ---------------------------------------------------------------------------
// Paths
// ---------------------------------------------------------------------------
/// A path by its components, where it is rooted.
pub open spec fn normal(path: Seq<char>) -> Seq<char> {
    if paths::is_rooted(path) {
        paths::tidy(path)
    } else {
        path
    }
}

/// A path by its components, where it is rooted.
pub fn normal_path(path: &str) -> (r: String)
    ensures
        r@ == normal(path@),
{
    if is_absolute(path) {
        tidy_path(path)
    } else {
        path.to_owned()
    }
}

/// What the file system says about paths: the canonical paths of those that
/// exist, and the current directory.
#[verifier::ext_equal]
pub struct TableView {
    pub resolved: Map<Seq<char>, Seq<char>>,
    pub current: Option<Seq<char>>,
}

/// The canonical form of `path`, as far as it is known.
pub open spec fn canonical(table: TableView, path: Seq<char>) -> Seq<char> {
    normal(
        if table.resolved.dom().contains(path) {
            table.resolved[path]
        } else if paths::is_rooted(path) {
            path
        } else {
            match table.current {
                Some(directory) => paths::joined_path(directory, path),
                None => path,
            }
        },
    )
}

/// What the file system says about paths.
#[derive(Clone, Debug)]
pub struct PathTable {
    resolved: TextMap,
    current: Option<String>,
}

impl PathTable {
    pub closed spec fn view(&self) -> TableView {
        TableView { resolved: self.resolved.map(), current: collections::optional_text(self.current) }
    }

    pub closed spec fn wf(&self) -> bool {
        self.resolved.wf()
    }

    /// A table without paths.
    pub fn new(current: Option<String>) -> (r: PathTable)
        ensures
            r.wf(),
            r@ == (TableView { resolved: Map::empty(), current: collections::optional_text(current) }),
    {
        PathTable { resolved: TextMap::new(), current }
    }

    /// Records the canonical path of a path that exists.
    pub fn record(&mut self, path: String, resolved: String)
        requires
            old(self).wf(),
        ensures
            final(self).wf(),
            final(self)@ == (TableView {
                resolved: old(self)@.resolved.insert(path@, resolved@),
                current: old(self)@.current,
            }),
    {
        self.resolved.insert(path, resolved);
    }

    /// The canonical path of a path that exists.
    pub fn resolved(&self, path: &str) -> (r: Option<String>)
        requires
            self.wf(),
        ensures
            match r {
                Some(found) => self@.resolved.dom().contains(path@) && self@.resolved[path@]
                    == found@,
                None => !self@.resolved.dom().contains(path@),
            },
    {
        match self.resolved.get(path) {
            Some(found) => Some(found.to_owned()),
            None => None,
        }
    }

    /// The canonical form of `path`, as far as it is known.
    pub fn canonicalize_for_lookup(&self, path: &str) -> (r: String)
        requires
            self.wf(),
        ensures
            r@ == canonical(self@, path@),
    {
        match self.resolved.get(path) {
            Some(found) => normal_path(found),
            None => if is_absolute(path) {
                normal_path(path)
            } else {
                match &self.current {
                    Some(directory) => normal_path(join_path(directory.as_str(), path).as_str()),
                    None => normal_path(path),
                }
            },
        }
    }
}

/// Whether a path must be asked of the file system to be found: it is relative
/// or leads through a parent directory.
pub open spec fn unsettled(path: Seq<char>) -> bool {
    !paths::is_rooted(path) || paths::path_parts(path).contains(".."@)
}

/// Whether a path must be asked of the file system to be found.
pub fn needs_canonicalization(path: &str) -> (r: bool)
    ensures
        r == unsettled(path@),
{
    !is_absolute(path) || has_part(path, "..")
}

/// The class namespaces in which the file at `path` can be parsed.
pub open spec fn contexts_of(path: Seq<char>) -> Seq<WorkspaceClassContext> {
    if paths::extension(path) == Some("conf"@) || paths::path_parts(path).contains("classes-global"@) {
        seq![WorkspaceClassContext::Global]
    } else if paths::extension(path) == Some("bb"@) || paths::extension(path) == Some("bbappend"@) || paths::path_parts(
        path,
    ).contains("classes-recipe"@) {
        seq![WorkspaceClassContext::Recipe]
    } else {
        seq![WorkspaceClassContext::Recipe, WorkspaceClassContext::Global]
    }
}

/// The class namespaces in which the file at `path` can be parsed.
pub fn dependency_contexts_for_path(path: &str) -> (r: Vec<WorkspaceClassContext>)
    ensures
        r@ == contexts_of(path@),
{
    let mut out: Vec<WorkspaceClassContext> = Vec::new();
    if has_extension(path, "conf") || has_part(path, "classes-global") {
        out.push(WorkspaceClassContext::Global);
    } else if has_extension(path, "bb") || has_extension(path, "bbappend") || has_part(
        path,
        "classes-recipe",
    ) {
        out.push(WorkspaceClassContext::Recipe);
    } else {
        out.push(WorkspaceClassContext::Recipe);
        out.push(WorkspaceClassContext::Global);
    }
    assert(out@ =~= contexts_of(path@));
    out
}

/// The layer whose configuration file `path` is.
pub open spec fn supplied_layer_root(path: Seq<char>) -> Option<Seq<char>> {
    if paths::layer_configuration(path) {
        match paths::parent(path) {
            Some(directory) => paths::parent(directory),
            None => None,
        }
    } else {
        None
    }
}

/// The layer whose configuration file `path` is.
pub fn supplied_layer_root_for(path: &str) -> (r: Option<String>)
    ensures
        collections::optional_text(r) == supplied_layer_root(path@),
{
    if !is_layer_configuration(path) {
        return None;
    }
    match path_parent(path) {
        Some(directory) => path_parent(directory.as_str()),
        None => None,
    }
}

// ---------------------------------------------------------------------------
// Files and layers
// ---------------------------------------------------------------------------
/// A metadata file: its canonical path, and its text where it could be read.
#[derive(Clone, Debug)]
pub struct WorkspaceFile {
    pub path: String,
    pub source: Option<String>,
}

#[verifier::ext_equal]
pub struct FileView {
    pub path: Seq<char>,
    pub source: Option<Seq<char>>,
}

impl WorkspaceFile {
    pub open spec fn view(&self) -> FileView {
        FileView { path: normal(self.path@), source: collections::optional_text(self.source) }
    }
}

/// The contents of a list of files.
pub open spec fn file_views(files: Seq<WorkspaceFile>) -> Seq<FileView> {
    files.map_values(|f: WorkspaceFile| f@)
}

/// Every text fits in the address space.
pub open spec fn sources_fit(files: Seq<FileView>) -> bool {
    forall|k: int|
        0 <= k < files.len() ==> ((#[trigger] files[k]).source matches Some(text) ==> text::byte_len(text)
            < usize::MAX)
}

/// The paths of a list of files.
pub open spec fn file_paths(files: Seq<FileView>) -> Seq<Seq<char>> {
    files.map_values(|f: FileView| f.path)
}

/// The text of the first of the files `files[k..]` at `path`.
pub open spec fn source_from(files: Seq<FileView>, path: Seq<char>, k: int) -> Option<Seq<char>>
    decreases files.len() - k,
{
    if k < 0 || k >= files.len() {
        None
    } else if files[k].path == path {
        files[k].source
    } else {
        source_from(files, path, k + 1)
    }
}

pub fn source_at<'a>(files: &'a Vec<WorkspaceFile>, path: &str) -> (r: Option<&'a str>)
    ensures
        match r {
            Some(text) => source_from(file_views(files@), path@, 0) == Some(text@) && (sources_fit(
                file_views(files@),
            ) ==> text::byte_len(text@) < usize::MAX),
            None => source_from(file_views(files@), path@, 0) is None,
        },
{
    let ghost all = file_views(files@);
    let mut k: usize = 0;
    while k < files.len()
        invariant
            k <= files@.len(),
            all == file_views(files@),
            source_from(all, path@, 0) == source_from(all, path@, k as int),
        decreases files@.len() - k,
    {
        assert(all[k as int] == files@[k as int]@);
        if same_str(normal_path(files[k].path.as_str()).as_str(), path) {
            return match &files[k].source {
                Some(text) => Some(text.as_str()),
                None => None,
            };
        }
        k += 1;
    }
    None
}

/// The paths of `paths[k..]` in the directory `root`.
pub open spec fn below_from(paths: Seq<Seq<char>>, root: Seq<char>, k: int) -> Seq<Seq<char>>
    decreases paths.len() - k,
{
    if k < 0 || k >= paths.len() {
        Seq::empty()
    } else if paths::is_below(paths[k], root) {
        seq![paths[k]] + below_from(paths, root, k + 1)
    } else {
        below_from(paths, root, k + 1)
    }
}

fn paths_below(paths: &Vec<String>, root: &str) -> (r: Vec<String>)
    ensures
        collections::string_texts(r@) == below_from(collections::string_texts(paths@), root@, 0),
{
    let ghost all = collections::string_texts(paths@);
    let mut out: Vec<String> = Vec::new();
    let mut k: usize = 0;
    assert(collections::string_texts(out@) =~= Seq::empty());
    assert(Seq::<Seq<char>>::empty() + below_from(all, root@, 0) =~= below_from(all, root@, 0));
    while k < paths.len()
        invariant
            k <= paths@.len(),
            all == collections::string_texts(paths@),
            collections::string_texts(out@) + below_from(all, root@, k as int) == below_from(all, root@, 0),
        decreases paths@.len() - k,
    {
        assert(all[k as int] == paths@[k as int]@);
        if path_starts_with(paths[k].as_str(), root) {
            let ghost before = collections::string_texts(out@);
            push_text(&mut out, paths[k].clone());
            proof {
                let rest = below_from(all, root@, k + 1);
                assert(before + (seq![all[k as int]] + rest) =~= before.push(all[k as int]) + rest);
            }
        }
        k += 1;
    }
    assert(collections::string_texts(out@) + Seq::<Seq<char>>::empty() =~= collections::string_texts(out@));
    out
}

/// A layer of the workspace.
#[verifier::ext_equal]
pub struct LayerView {
    pub root: Seq<char>,
    pub metadata: MetadataView,
    pub files: Seq<Seq<char>>,
}

/// The path of a layer's configuration.
pub open spec fn configuration_path(root: Seq<char>) -> Seq<char> {
    normal(paths::joined_path(root, "conf/layer.conf"@))
}

/// The layer at `root` among the files of a workspace, whose sorted paths are
/// `paths`.
pub open spec fn layer_of(root: Seq<char>, files: Seq<FileView>, paths: Seq<Seq<char>>) -> LayerView {
    let own = below_from(paths, root, 0);
    LayerView {
        root,
        metadata: if own.contains(configuration_path(root)) {
            layers::metadata_of(source_from(files, configuration_path(root), 0), root)
        } else {
            layers::no_metadata()
        },
        files: own,
    }
}

/// Whether a layer has its configuration.
pub open spec fn is_complete_layer(layer: LayerView) -> bool {
    layer.files.contains(configuration_path(layer.root))
}

/// A layer of the workspace.
#[derive(Clone, Debug)]
pub struct LayerIndex {
    root: String,
    priority: i32,
    metadata: LayerMetadata,
    files: Vec<String>,
}

impl LayerIndex {
    pub closed spec fn view(&self) -> LayerView {
        LayerView {
            root: self.root@,
            metadata: self.metadata@,
            files: collections::string_texts(self.files@),
        }
    }

    pub closed spec fn wf(&self) -> bool {
        self.metadata.wf() && self.priority == layers::layer_priority(self.metadata@)
    }

    /// The layer at `root` among the files of a workspace.
    pub fn new(root: String, files: &Vec<WorkspaceFile>, paths: &Vec<String>) -> (r: LayerIndex)
        requires
            sources_fit(file_views(files@)),
        ensures
            r.wf(),
            r@ == layer_of(root@, file_views(files@), collections::string_texts(paths@)),
    {
        let own = paths_below(paths, root.as_str());
        let configuration = normal_path(join_path(root.as_str(), "conf/layer.conf").as_str());
        let source = if has_text(&own, configuration.as_str()) {
            source_at(files, configuration.as_str())
        } else {
            None
        };
        let metadata = LayerMetadata::read(source, root.as_str());
        let priority = metadata.priority();
        LayerIndex { root, priority, metadata, files: own }
    }

    /// The directory of the layer.
    pub fn root(&self) -> (r: &str)
        ensures
            r@ == self@.root,
    {
        self.root.as_str()
    }

    /// The priority of the layer.
    pub fn priority(&self) -> (r: i32)
        requires
            self.wf(),
        ensures
            r == layers::layer_priority(self@.metadata),
    {
        self.priority
    }

    /// Whether the layer has its configuration.
    pub fn is_complete(&self) -> (r: bool)
        ensures
            r == is_complete_layer(self@),
    {
        let configuration = normal_path(join_path(self.root.as_str(), "conf/layer.conf").as_str());
        has_text(&self.files, configuration.as_str())
    }

    /// Whether the layer holds the file at `path`, a path by its components.
    pub fn holds_file(&self, path: &str) -> (r: bool)
        ensures
            r == self@.files.contains(path@),
    {
        has_text(&self.files, path)
    }

    fn make_candidate(&self, path: &str, scope: WorkspaceSearchScope) -> (r: WorkspaceCandidate)
        requires
            self.wf(),
        ensures
            r@ == layer_candidate(self@, path@, scope),
    {
        WorkspaceCandidate {
            path: path.to_owned(),
            layer: self.root.clone(),
            priority: self.priority,
            collection: self.metadata.collection_for(path, self.root.as_str()),
            scope,
        }
    }
}

/// The contents of a list of layers.
pub open spec fn layer_views(layers: Seq<LayerIndex>) -> Seq<LayerView> {
    layers.map_values(|l: LayerIndex| l@)
}

pub open spec fn layers_wf(layers: Seq<LayerIndex>) -> bool {
    forall|k: int| 0 <= k < layers.len() ==> (#[trigger] layers[k]).wf()
}

/// Whether layer `a` is ranked before layer `b`: it has a higher priority, or
/// the same one and the smaller path.
pub open spec fn ranked_before(a: LayerView, b: LayerView) -> bool {
    layers::layer_priority(a.metadata) > layers::layer_priority(b.metadata) || (layers::layer_priority(a.metadata)
        == layers::layer_priority(b.metadata) && paths::path_less(a.root, b.root))
}

/// The end of the layers of `layers[..k]` that `x` is not ranked before.
pub open spec fn rank_place(layers: Seq<LayerView>, x: LayerView, k: int) -> int
    decreases k,
{
    if k <= 0 || k > layers.len() {
        0
    } else if ranked_before(x, layers[k - 1]) {
        rank_place(layers, x, k - 1)
    } else {
        k
    }
}

/// The layers at the directories `roots`, by rank.
pub open spec fn ranked_layers(
    roots: Seq<Seq<char>>,
    files: Seq<FileView>,
    paths: Seq<Seq<char>>,
) -> Seq<LayerView>
    decreases roots.len(),
{
    if roots.len() == 0 {
        Seq::empty()
    } else {
        let before = ranked_layers(roots.drop_last(), files, paths);
        let layer = layer_of(roots.last(), files, paths);
        before.insert(rank_place(before, layer, before.len() as int), layer)
    }
}

/// The place of a layer lies among those before it.
pub proof fn lemma_rank_place(layers: Seq<LayerView>, x: LayerView, k: int)
    requires
        0 <= k <= layers.len(),
    ensures
        0 <= rank_place(layers, x, k) <= k,
    decreases k,
{
    if k > 0 && ranked_before(x, layers[k - 1]) {
        lemma_rank_place(layers, x, k - 1);
    }
}

fn insert_layer(layers: &mut Vec<LayerIndex>, layer: LayerIndex)
    requires
        layers_wf(old(layers)@),
        layer.wf(),
    ensures
        layers_wf(final(layers)@),
        layer_views(final(layers)@) == layer_views(old(layers)@).insert(
            rank_place(layer_views(old(layers)@), layer@, old(layers)@.len() as int),
            layer@,
        ),
{
    let ghost all = layer_views(layers@);
    let ghost before = layers@;
    let ghost view = layer@;
    let mut k: usize = layers.len();
    while k > 0 && (layer.priority() > layers[k - 1].priority() || (layer.priority() == layers[k
        - 1].priority() && is_path_less(layer.root(), layers[k - 1].root())))
        invariant
            k <= layers@.len(),
            layers@ == before,
            layers_wf(layers@),
            layer.wf(),
            layer@ == view,
            all == layer_views(layers@),
            rank_place(all, view, layers@.len() as int) == rank_place(all, view, k as int),
        decreases k,
    {
        assert(all[k - 1] == layers@[k - 1]@);
        k -= 1;
    }
    if k > 0 {
        assert(all[k - 1] == layers@[k - 1]@);
    }
    layers.insert(k, layer);
    assert(layer_views(layers@) =~= all.insert(k as int, view));
}

fn rank_layers(roots: &Vec<String>, files: &Vec<WorkspaceFile>, paths: &Vec<String>) -> (r: Vec<
    LayerIndex,
>)
    requires
        sources_fit(file_views(files@)),
    ensures
        layers_wf(r@),
        layer_views(r@) == ranked_layers(
            collections::string_texts(roots@),
            file_views(files@),
            collections::string_texts(paths@),
        ),
{
    let ghost all = collections::string_texts(roots@);
    let ghost sources = file_views(files@);
    let ghost sorted = collections::string_texts(paths@);
    let mut out: Vec<LayerIndex> = Vec::new();
    let mut k: usize = 0;
    assert(all.take(0) =~= Seq::empty());
    assert(layer_views(out@) =~= Seq::empty());
    while k < roots.len()
        invariant
            k <= roots@.len(),
            all == collections::string_texts(roots@),
            sources == file_views(files@),
            sorted == collections::string_texts(paths@),
            sources_fit(sources),
            layers_wf(out@),
            layer_views(out@) == ranked_layers(all.take(k as int), sources, sorted),
        decreases roots@.len() - k,
    {
        let layer = LayerIndex::new(roots[k].clone(), files, paths);
        insert_layer(&mut out, layer);
        k += 1;
        assert(all.take(k as int).drop_last() =~= all.take(k - 1));
        assert(all.take(k as int).last() == roots@[k - 1]@);
    }
    assert(all.take(k as int) =~= all);
    out
}

// ---------------------------------------------------------------------------
// Search paths
// ---------------------------------------------------------------------------
/// The first layer from `k` that holds `path`, or `otherwise`.
pub open spec fn owner_from(layers: Seq<LayerView>, path: Seq<char>, k: int, otherwise: int) -> int
    decreases layers.len() - k,
{
    if k < 0 || k >= layers.len() {
        otherwise
    } else if paths::is_below(path, layers[k].root) {
        k
    } else {
        owner_from(layers, path, k + 1, otherwise)
    }
}

/// Whether one of the search paths is `path`.
pub open spec fn searches(found: Seq<(Seq<char>, int)>, path: Seq<char>) -> bool {
    exists|k: int| 0 <= k < found.len() && (#[trigger] found[k]).0 == path
}

/// `found` with the search path `path` of the layer `layer`.
pub open spec fn with_search(
    found: Seq<(Seq<char>, int)>,
    layers: Seq<LayerView>,
    layer: int,
    path: Seq<char>,
) -> Seq<(Seq<char>, int)> {
    if searches(found, path) {
        found
    } else {
        found.push((path, owner_from(layers, path, 0, layer)))
    }
}

/// `found` with the directories `paths[k..]` of the layer `layer`.
pub open spec fn layer_search_from(
    found: Seq<(Seq<char>, int)>,
    layers: Seq<LayerView>,
    layer: int,
    paths: Seq<Seq<char>>,
    k: int,
    table: TableView,
) -> Seq<(Seq<char>, int)>
    decreases paths.len() - k,
{
    if k < 0 || k >= paths.len() {
        found
    } else {
        layer_search_from(
            with_search(found, layers, layer, canonical(table, paths[k])),
            layers,
            layer,
            paths,
            k + 1,
            table,
        )
    }
}

/// The directories that a layer searches: those of its configuration, or its
/// own.
pub open spec fn layer_paths(layer: LayerView) -> Seq<Seq<char>> {
    if layer.metadata.bbpath.len() == 0 {
        seq![layer.root]
    } else {
        layer.metadata.bbpath
    }
}

/// `found` with the search paths of the layers `layers[k..]`.
pub open spec fn search_from(
    found: Seq<(Seq<char>, int)>,
    layers: Seq<LayerView>,
    k: int,
    table: TableView,
) -> Seq<(Seq<char>, int)>
    decreases layers.len() - k,
{
    if k < 0 || k >= layers.len() {
        found
    } else {
        search_from(
            layer_search_from(found, layers, k, layer_paths(layers[k]), 0, table),
            layers,
            k + 1,
            table,
        )
    }
}

/// A directory that is searched, and the layer that owns it.
#[derive(Clone, Debug)]
struct SearchPath {
    path: String,
    layer_index: usize,
}

spec fn search_views(items: Seq<SearchPath>) -> Seq<(Seq<char>, int)> {
    items.map_values(|s: SearchPath| (s.path@, s.layer_index as int))
}

spec fn owners_inside(items: Seq<SearchPath>, n: int) -> bool {
    forall|k: int| 0 <= k < items.len() ==> (#[trigger] items[k]).layer_index < n
}

fn owner_of(layers: &Vec<LayerIndex>, path: &str, otherwise: usize) -> (r: usize)
    requires
        otherwise < layers@.len(),
    ensures
        r < layers@.len(),
        r == owner_from(layer_views(layers@), path@, 0, otherwise as int),
{
    let ghost views = layer_views(layers@);
    let mut k: usize = 0;
    while k < layers.len()
        invariant
            k <= layers@.len(),
            otherwise < layers@.len(),
            views == layer_views(layers@),
            owner_from(views, path@, 0, otherwise as int) == owner_from(
                views,
                path@,
                k as int,
                otherwise as int,
            ),
        decreases layers@.len() - k,
    {
        assert(views[k as int] == layers@[k as int]@);
        if path_starts_with(path, layers[k].root()) {
            return k;
        }
        k += 1;
    }
    otherwise
}

fn add_search(
    found: &mut Vec<SearchPath>,
    layers: &Vec<LayerIndex>,
    layer: usize,
    path: String,
)
    requires
        layer < layers@.len(),
        owners_inside(old(found)@, layers@.len() as int),
    ensures
        owners_inside(final(found)@, layers@.len() as int),
        search_views(final(found)@) == with_search(
            search_views(old(found)@),
            layer_views(layers@),
            layer as int,
            path@,
        ),
{
    let ghost all = search_views(found@);
    let ghost views = layer_views(layers@);
    let mut k: usize = 0;
    while k < found.len()
        invariant
            k <= found@.len(),
            owners_inside(found@, layers@.len() as int),
            all == search_views(found@),
            forall|j: int| 0 <= j < k ==> (#[trigger] all[j]).0 != path@,
        decreases found@.len() - k,
    {
        assert(all[k as int].0 == found@[k as int].path@);
        if same_str(found[k].path.as_str(), path.as_str()) {
            assert(searches(all, path@));
            return;
        }
        k += 1;
    }
    assert(!searches(all, path@));
    let owner = owner_of(layers, path.as_str(), layer);
    let ghost added = path@;
    let ghost before = found@;
    found.push(SearchPath { path, layer_index: owner });
    assert(search_views(found@) =~= all.push((added, owner as int)));
}

fn build_search_paths(layers: &Vec<LayerIndex>, table: &PathTable) -> (r: Vec<SearchPath>)
    requires
        table.wf(),
    ensures
        owners_inside(r@, layers@.len() as int),
        search_views(r@) == search_from(Seq::empty(), layer_views(layers@), 0, table@),
{
    let ghost views = layer_views(layers@);
    let ghost goal = search_from(Seq::empty(), views, 0, table@);
    let mut out: Vec<SearchPath> = Vec::new();
    let mut k: usize = 0;
    assert(search_views(out@) =~= Seq::empty());
    while k < layers.len()
        invariant
            k <= layers@.len(),
            table.wf(),
            views == layer_views(layers@),
            owners_inside(out@, layers@.len() as int),
            search_from(search_views(out@), views, k as int, table@) == goal,
        decreases layers@.len() - k,
    {
        assert(views[k as int] == layers@[k as int]@);
        let own = layers[k].metadata.bbpath();
        let paths = if own.len() == 0 {
            let mut single: Vec<String> = Vec::new();
            single.push(layers[k].root.clone());
            assert(collections::string_texts(single@) =~= seq![views[k as int].root]);
            single
        } else {
            copy_strings(own)
        };
        let ghost texts = collections::string_texts(paths@);
        assert(texts == layer_paths(views[k as int]));
        let ghost after = layer_search_from(search_views(out@), views, k as int, texts, 0, table@);
        let mut j: usize = 0;
        while j < paths.len()
            invariant
                j <= paths@.len(),
                k < layers@.len(),
                table.wf(),
                texts == collections::string_texts(paths@),
                views == layer_views(layers@),
                owners_inside(out@, layers@.len() as int),
                layer_search_from(
                    search_views(out@),
                    views,
                    k as int,
                    texts,
                    j as int,
                    table@,
                ) == after,
            decreases paths@.len() - j,
        {
            assert(texts[j as int] == paths@[j as int]@);
            let path = table.canonicalize_for_lookup(paths[j].as_str());
            add_search(&mut out, layers, k, path);
            j += 1;
        }
        k += 1;
    }
    out
}

// ---------------------------------------------------------------------------
// Candidates
// ---------------------------------------------------------------------------
/// A candidate of a lookup.
#[verifier::ext_equal]
pub struct CandidateView {
    pub path: Seq<char>,
    pub layer: Seq<char>,
    pub priority: int,
    pub collection: Option<Seq<char>>,
    pub scope: WorkspaceSearchScope,
}

/// The candidate that the file `path` of a layer is.
pub open spec fn layer_candidate(layer: LayerView, path: Seq<char>, scope: WorkspaceSearchScope) -> CandidateView {
    CandidateView {
        path,
        layer: layer.root,
        priority: layers::layer_priority(layer.metadata),
        collection: layers::collection_of(layer.metadata, path, layer.root),
        scope,
    }
}

/// A candidate returned by BitBake-aware workspace resolution.
#[derive(Clone, Debug, Eq, PartialEq)]
pub struct WorkspaceCandidate {
    path: String,
    layer: String,
    priority: i32,
    collection: Option<String>,
    scope: WorkspaceSearchScope,
}

impl WorkspaceCandidate {
    pub closed spec fn view(&self) -> CandidateView {
        CandidateView {
            path: self.path@,
            layer: self.layer@,
            priority: self.priority as int,
            collection: collections::optional_text(self.collection),
            scope: self.scope,
        }
    }

    /// The resolved metadata path.
    pub fn path(&self) -> (r: &str)
        ensures
            r@ == self@.path,
    {
        self.path.as_str()
    }

    /// The layer root containing the candidate.
    pub fn layer(&self) -> (r: &str)
        ensures
            r@ == self@.layer,
    {
        self.layer.as_str()
    }

    /// The BBFILE_PRIORITY used to rank the candidate's layer.
    pub fn priority(&self) -> (r: i32)
        ensures
            r == self@.priority,
    {
        self.priority
    }

    /// The collection selected by the layer's BBFILE_PATTERN metadata.
    pub fn collection(&self) -> (r: Option<&str>)
        ensures
            match r {
                Some(name) => self@.collection == Some(name@),
                None => self@.collection is None,
            },
    {
        match &self.collection {
            Some(name) => Some(name.as_str()),
            None => None,
        }
    }

    /// The BitBake search scope that produced the candidate.
    pub fn scope(&self) -> (r: WorkspaceSearchScope)
        ensures
            r == self@.scope,
    {
        self.scope
    }
}

/// The contents of a list of candidates.
pub open spec fn candidate_views(items: Seq<WorkspaceCandidate>) -> Seq<CandidateView> {
    items.map_values(|c: WorkspaceCandidate| c@)
}

/// Whether one of the candidates is the file at `path`.
pub open spec fn offers(found: Seq<CandidateView>, path: Seq<char>) -> bool {
    exists|k: int| 0 <= k < found.len() && (#[trigger] found[k]).path == path
}

/// `found` with one more candidate, unless it offers the same file.
pub open spec fn with_candidate(found: Seq<CandidateView>, c: CandidateView) -> Seq<CandidateView> {
    if offers(found, c.path) {
        found
    } else {
        found.push(c)
    }
}

fn append_candidate(found: &mut Vec<WorkspaceCandidate>, candidate: WorkspaceCandidate)
    ensures
        candidate_views(final(found)@) == with_candidate(candidate_views(old(found)@), candidate@),
{
    let ghost all = candidate_views(found@);
    let mut k: usize = 0;
    while k < found.len()
        invariant
            k <= found@.len(),
            all == candidate_views(found@),
            forall|j: int| 0 <= j < k ==> (#[trigger] all[j]).path != candidate@.path,
        decreases found@.len() - k,
    {
        assert(all[k as int] == found@[k as int]@);
        if same_str(found[k].path.as_str(), candidate.path.as_str()) {
            assert(offers(all, candidate@.path));
            return;
        }
        k += 1;
    }
    let ghost view = candidate@;
    found.push(candidate);
    assert(candidate_views(found@) =~= all.push(view));
}

// ---------------------------------------------------------------------------
// The index
// ---------------------------------------------------------------------------
/// What a workspace knows about its files, without their dependencies.
#[verifier::ext_equal]
pub struct CoreView {
    pub layers: Seq<LayerView>,
    pub search: Seq<(Seq<char>, int)>,
    pub files: Seq<Seq<char>>,
    pub build_files: Seq<Seq<char>>,
    pub build_root: Option<Seq<char>>,
    pub table: TableView,
}

/// The directory two levels above the first of `paths[k..]` that has one.
pub open spec fn grandparent_from(paths: Seq<Seq<char>>, k: int) -> Option<Seq<char>>
    decreases paths.len() - k,
{
    if k < 0 || k >= paths.len() {
        None
    } else {
        match paths::parent(paths[k]) {
            Some(directory) => match paths::parent(directory) {
                Some(found) => Some(found),
                None => grandparent_from(paths, k + 1),
            },
            None => grandparent_from(paths, k + 1),
        }
    }
}

/// The workspace of `files`, whose layers are at `roots`; `build_files` are
/// the files of the build configuration.
pub open spec fn core_of(
    files: Seq<FileView>,
    build_files: Seq<Seq<char>>,
    roots: Seq<Seq<char>>,
    table: TableView,
) -> CoreView {
    let paths = orders::sorted_distinct(TextOrder::Path, file_paths(files));
    let layers = ranked_layers(orders::sorted_distinct(TextOrder::Path, roots), files, paths);
    let builds = orders::sorted_distinct(TextOrder::Path, build_files);
    CoreView {
        layers,
        search: search_from(Seq::empty(), layers, 0, table),
        files: paths,
        build_files: builds,
        build_root: grandparent_from(builds, 0),
        table,
    }
}

/// What a workspace knows about its files, without their dependencies.
#[derive(Clone, Debug)]
pub struct WorkspaceCore {
    layers: Vec<LayerIndex>,
    search_paths: Vec<SearchPath>,
    files: Vec<String>,
    build_files: Vec<String>,
    build_root: Option<String>,
    table: PathTable,
}

/// Whether the file at the canonical path `path` is in a complete layer.
pub open spec fn complete_at(core: CoreView, path: Seq<char>) -> bool {
    exists|k: int|
        0 <= k < core.layers.len() && is_complete_layer(#[trigger] core.layers[k])
            && core.layers[k].files.contains(path)
}

/// The names of the collections of `layers[k..]`.
pub open spec fn collections_from(layers: Seq<LayerView>, k: int) -> Seq<Seq<char>>
    decreases layers.len() - k,
{
    if k < 0 || k >= layers.len() {
        Seq::empty()
    } else {
        layers[k].metadata.collections + collections_from(layers, k + 1)
    }
}

/// `found` with the classes in the directories `directory` of the search paths
/// from `k`.
pub open spec fn class_from(
    core: CoreView,
    class: Seq<char>,
    directory: Seq<char>,
    scope: WorkspaceSearchScope,
    k: int,
    found: Seq<CandidateView>,
) -> Seq<CandidateView>
    decreases core.search.len() - k,
{
    if k < 0 || k >= core.search.len() {
        found
    } else {
        let path = normal(core.search[k].0 + "/"@ + directory + "/"@ + class + ".bbclass"@);
        let layer = core.layers[core.search[k].1];
        class_from(
            core,
            class,
            directory,
            scope,
            k + 1,
            if layer.files.contains(path) {
                with_candidate(found, layer_candidate(layer, path, scope))
            } else {
                found
            },
        )
    }
}

/// The definitions of `class` in the order in which BitBake finds them.
pub open spec fn class_candidates_of(
    core: CoreView,
    class: Seq<char>,
    context: WorkspaceClassContext,
) -> Seq<CandidateView> {
    if class.len() == 0 || values::holds_either(class, '/', '\\') {
        Seq::empty()
    } else {
        let first = match context {
            WorkspaceClassContext::Global => class_from(
                core,
                class,
                "classes-global"@,
                WorkspaceSearchScope::ClassesGlobal,
                0,
                Seq::empty(),
            ),
            WorkspaceClassContext::Recipe => class_from(
                core,
                class,
                "classes-recipe"@,
                WorkspaceSearchScope::ClassesRecipe,
                0,
                Seq::empty(),
            ),
        };
        class_from(core, class, "classes"@, WorkspaceSearchScope::Classes, 0, first)
    }
}

/// The candidate of the first of the layers `layers[k..]` that holds the file
/// at `path`.
pub open spec fn layer_hit(
    layers: Seq<LayerView>,
    path: Seq<char>,
    scope: WorkspaceSearchScope,
    k: int,
) -> Option<CandidateView>
    decreases layers.len() - k,
{
    if k < 0 || k >= layers.len() {
        None
    } else if layers[k].files.contains(path) {
        Some(layer_candidate(layers[k], path, scope))
    } else {
        layer_hit(layers, path, scope, k + 1)
    }
}

/// The candidate of the layers at `path`, as it stands or as the file system
/// knows it.
pub open spec fn layer_path_hit(core: CoreView, path: Seq<char>, scope: WorkspaceSearchScope) -> Option<
    CandidateView,
> {
    match layer_hit(core.layers, normal(path), scope, 0) {
        Some(found) => Some(found),
        None => if unsettled(path) && core.table.resolved.dom().contains(path) {
            layer_hit(core.layers, normal(core.table.resolved[path]), scope, 0)
        } else {
            None
        },
    }
}

/// The candidate at `path`: a file of a layer, or of the build configuration.
pub open spec fn path_hit(core: CoreView, path: Seq<char>, scope: WorkspaceSearchScope) -> Option<
    CandidateView,
> {
    match layer_path_hit(core, path, scope) {
        Some(found) => Some(found),
        None => match core.build_root {
            Some(root) => if core.build_files.contains(canonical(core.table, path)) {
                Some(
                    CandidateView {
                        path: canonical(core.table, path),
                        layer: root,
                        priority: 0,
                        collection: None,
                        scope,
                    },
                )
            } else {
                None
            },
            None => None,
        },
    }
}

/// `found` with the files `target` of the search paths from `k`.
pub open spec fn searched_from(core: CoreView, target: Seq<char>, k: int, found: Seq<CandidateView>) -> Seq<
    CandidateView,
>
    decreases core.search.len() - k,
{
    if k < 0 || k >= core.search.len() {
        found
    } else {
        let path = normal(paths::joined_path(core.search[k].0, target));
        let layer = core.layers[core.search[k].1];
        searched_from(
            core,
            target,
            k + 1,
            if layer.files.contains(path) {
                with_candidate(found, layer_candidate(layer, path, WorkspaceSearchScope::Bbpath))
            } else {
                found
            },
        )
    }
}

/// The file beside `from` that a directive names by `target`.
pub open spec fn beside(
    core: CoreView,
    from: Seq<char>,
    target: Seq<char>,
    directive: WorkspaceFileDirective,
) -> Option<CandidateView> {
    match paths::parent(canonical(core.table, from)) {
        Some(directory) => if directive == WorkspaceFileDirective::IncludeAll {
            None
        } else {
            path_hit(core, paths::joined_path(directory, target), WorkspaceSearchScope::CurrentFile)
        },
        None => None,
    }
}

/// The files that a directive of `from` names by `target`, in the order in
/// which BitBake finds them.
pub open spec fn file_candidates_of(
    core: CoreView,
    from: Seq<char>,
    target: Seq<char>,
    directive: WorkspaceFileDirective,
) -> Seq<CandidateView> {
    if paths::is_rooted(target) {
        match path_hit(core, target, WorkspaceSearchScope::CurrentFile) {
            Some(found) => seq![found],
            None => Seq::empty(),
        }
    } else {
        match beside(core, from, target, directive) {
            Some(found) => seq![found],
            None => searched_from(core, target, 0, Seq::empty()),
        }
    }
}

impl WorkspaceCore {
    pub closed spec fn view(&self) -> CoreView {
        CoreView {
            layers: layer_views(self.layers@),
            search: search_views(self.search_paths@),
            files: collections::string_texts(self.files@),
            build_files: collections::string_texts(self.build_files@),
            build_root: collections::optional_text(self.build_root),
            table: self.table@,
        }
    }

    pub closed spec fn wf(&self) -> bool {
        &&& layers_wf(self.layers@)
        &&& owners_inside(self.search_paths@, self.layers@.len() as int)
        &&& self.table.wf()
    }

    /// The workspace of `files`, whose layers are at `roots`.
    pub fn new(
        files: &Vec<WorkspaceFile>,
        build_files: &Vec<String>,
        roots: &Vec<String>,
        table: PathTable,
    ) -> (r: WorkspaceCore)
        requires
            sources_fit(file_views(files@)),
            table.wf(),
        ensures
            r.wf(),
            r@ == core_of(
                file_views(files@),
                collections::string_texts(build_files@),
                collections::string_texts(roots@),
                table@,
            ),
    {
        let mut listed: Vec<String> = Vec::new();
        let mut k: usize = 0;
        while k < files.len()
            invariant
                k <= files@.len(),
                listed@.len() == k,
                forall|j: int| 0 <= j < k ==> (#[trigger] listed@[j])@ == files@[j]@.path,
            decreases files@.len() - k,
        {
            listed.push(normal_path(files[k].path.as_str()));
            k += 1;
        }
        assert(collections::string_texts(listed@) =~= file_paths(file_views(files@)));
        let paths = sort_distinct(TextOrder::Path, &listed);
        let layers = rank_layers(&sort_distinct(TextOrder::Path, roots), files, &paths);
        let search_paths = build_search_paths(&layers, &table);
        let builds = sort_distinct(TextOrder::Path, build_files);
        let build_root = grandparent(&builds);
        WorkspaceCore {
            layers,
            search_paths,
            files: paths,
            build_files: builds,
            build_root,
            table,
        }
    }

    /// Every metadata file of the workspace in stable path order.
    pub fn files(&self) -> (r: &Vec<String>)
        ensures
            collections::string_texts(r@) == self@.files,
    {
        &self.files
    }

    /// The canonical form of `path`, as far as it is known.
    pub fn canonical_path(&self, path: &str) -> (r: String)
        requires
            self.wf(),
        ensures
            r@ == canonical(self@.table, path@),
    {
        self.table.canonicalize_for_lookup(path)
    }

    /// Whether `path` has enough whole-workspace context for workspace-aware
    /// lint rules.
    pub fn is_workspace_file(&self, path: &str) -> (r: bool)
        requires
            self.wf(),
        ensures
            r == (self@.build_files.contains(canonical(self@.table, path@)) || complete_at(
                self@,
                canonical(self@.table, canonical(self@.table, path@)),
            )),
    {
        let path = self.table.canonicalize_for_lookup(path);
        has_text(&self.build_files, path.as_str()) || self.is_complete_for(path.as_str())
    }

    /// Whether `path` belongs to a complete indexed layer.
    pub fn is_complete_for(&self, path: &str) -> (r: bool)
        requires
            self.wf(),
        ensures
            r == complete_at(self@, canonical(self@.table, path@)),
    {
        let resolved = self.table.canonicalize_for_lookup(path);
        let ghost core = self@;
        let mut k: usize = 0;
        while k < self.layers.len()
            invariant
                k <= self.layers@.len(),
                core == self@,
                resolved@ == canonical(core.table, path@),
                forall|j: int|
                    0 <= j < k ==> !(is_complete_layer(#[trigger] core.layers[j])
                        && core.layers[j].files.contains(resolved@)),
            decreases self.layers@.len() - k,
        {
            assert(core.layers[k as int] == self.layers@[k as int]@);
            if self.layers[k].is_complete() && self.layers[k].holds_file(resolved.as_str()) {
                assert(is_complete_layer(core.layers[k as int]));
                return true;
            }
            k += 1;
        }
        false
    }

    /// Every statically declared layer collection in the workspace, in order.
    pub fn collection_names(&self) -> (r: Vec<String>)
        ensures
            collections::string_texts(r@) == orders::sorted_distinct(
                TextOrder::Plain,
                collections_from(self@.layers, 0),
            ),
    {
        let ghost views = layer_views(self.layers@);
        let mut names: Vec<String> = Vec::new();
        let mut k: usize = 0;
        assert(collections::string_texts(names@) =~= Seq::empty());
        assert(Seq::<Seq<char>>::empty() + collections_from(views, 0) =~= collections_from(
            views,
            0,
        ));
        while k < self.layers.len()
            invariant
                k <= self.layers@.len(),
                views == layer_views(self.layers@),
                collections::string_texts(names@) + collections_from(views, k as int) == collections_from(
                    views,
                    0,
                ),
            decreases self.layers@.len() - k,
        {
            assert(views[k as int] == self.layers@[k as int]@);
            let ghost before = names@;
            let mut more = copy_strings(self.layers[k].metadata.collections());
            let ghost added = more@;
            names.append(&mut more);
            proof {
                assert(collections::string_texts(names@) =~= collections::string_texts(before) + collections::string_texts(added));
                let rest = collections_from(views, k + 1);
                assert(collections::string_texts(before) + (collections::string_texts(added) + rest) =~= (collections::string_texts(before)
                    + collections::string_texts(added)) + rest);
            }
            k += 1;
        }
        assert(collections::string_texts(names@) + Seq::<Seq<char>>::empty() =~= collections::string_texts(names@));
        sort_distinct(TextOrder::Plain, &names)
    }

    fn classes_in(
        &self,
        class: &str,
        directory: &str,
        scope: WorkspaceSearchScope,
        found: &mut Vec<WorkspaceCandidate>,
    )
        requires
            self.wf(),
        ensures
            candidate_views(final(found)@) == class_from(
                self@,
                class@,
                directory@,
                scope,
                0,
                candidate_views(old(found)@),
            ),
    {
        let ghost core = self@;
        let ghost goal = class_from(core, class@, directory@, scope, 0, candidate_views(found@));
        let mut k: usize = 0;
        while k < self.search_paths.len()
            invariant
                k <= self.search_paths@.len(),
                core == self@,
                self.wf(),
                class_from(
                    core,
                    class@,
                    directory@,
                    scope,
                    k as int,
                    candidate_views(found@),
                ) == goal,
            decreases self.search_paths@.len() - k,
        {
            let search = &self.search_paths[k];
            assert(core.search[k as int] == (search.path@, search.layer_index as int));
            assert(core.layers[search.layer_index as int]
                == self.layers@[search.layer_index as int]@);
            let mut text = chars_of(search.path.as_str());
            append_str(&mut text, "/");
            append_str(&mut text, directory);
            append_str(&mut text, "/");
            append_str(&mut text, class);
            append_str(&mut text, ".bbclass");
            let path = normal_path(string_of(text.as_slice()).as_str());
            let layer = &self.layers[search.layer_index];
            if layer.holds_file(path.as_str()) {
                append_candidate(found, layer.make_candidate(path.as_str(), scope));
            }
            k += 1;
        }
    }

    /// All matching static class definitions for a BitBake parse context.
    ///
    /// Global metadata searches `classes-global` before the shared `classes`
    /// directory. Recipe metadata searches `classes-recipe` before `classes`.
    pub fn class_candidates_for(&self, class: &str, context: WorkspaceClassContext) -> (r: Vec<
        WorkspaceCandidate,
    >)
        requires
            self.wf(),
        ensures
            candidate_views(r@) == class_candidates_of(self@, class@, context),
    {
        let mut found: Vec<WorkspaceCandidate> = Vec::new();
        assert(candidate_views(found@) =~= Seq::empty());
        let chars = chars_of(class);
        if chars.len() == 0 || contains_char(chars.as_slice(), '/') || contains_char(
            chars.as_slice(),
            '\\',
        ) {
            return found;
        }
        match context {
            WorkspaceClassContext::Global => self.classes_in(
                class,
                "classes-global",
                WorkspaceSearchScope::ClassesGlobal,
                &mut found,
            ),
            WorkspaceClassContext::Recipe => self.classes_in(
                class,
                "classes-recipe",
                WorkspaceSearchScope::ClassesRecipe,
                &mut found,
            ),
        }
        self.classes_in(class, "classes", WorkspaceSearchScope::Classes, &mut found);
        found
    }

    fn layer_candidate_at(&self, path: &str, scope: WorkspaceSearchScope) -> (r: Option<
        WorkspaceCandidate,
    >)
        requires
            self.wf(),
        ensures
            match r {
                Some(found) => layer_hit(self@.layers, path@, scope, 0) == Some(found@),
                None => layer_hit(self@.layers, path@, scope, 0) is None,
            },
    {
        let ghost views = layer_views(self.layers@);
        let mut k: usize = 0;
        while k < self.layers.len()
            invariant
                k <= self.layers@.len(),
                self.wf(),
                views == layer_views(self.layers@),
                layer_hit(views, path@, scope, 0) == layer_hit(views, path@, scope, k as int),
            decreases self.layers@.len() - k,
        {
            assert(views[k as int] == self.layers@[k as int]@);
            if self.layers[k].holds_file(path) {
                return Some(self.layers[k].make_candidate(path, scope));
            }
            k += 1;
        }
        None
    }

    fn find_layer_path(&self, path: &str, scope: WorkspaceSearchScope) -> (r: Option<
        WorkspaceCandidate,
    >)
        requires
            self.wf(),
        ensures
            match r {
                Some(found) => layer_path_hit(self@, path@, scope) == Some(found@),
                None => layer_path_hit(self@, path@, scope) is None,
            },
    {
        if let Some(found) = self.layer_candidate_at(normal_path(path).as_str(), scope) {
            return Some(found);
        }
        if !needs_canonicalization(path) {
            return None;
        }
        match self.table.resolved(path) {
            Some(resolved) => self.layer_candidate_at(
                normal_path(resolved.as_str()).as_str(),
                scope,
            ),
            None => None,
        }
    }

    fn candidate_for_path(&self, path: &str, scope: WorkspaceSearchScope) -> (r: Option<
        WorkspaceCandidate,
    >)
        requires
            self.wf(),
        ensures
            match r {
                Some(found) => path_hit(self@, path@, scope) == Some(found@),
                None => path_hit(self@, path@, scope) is None,
            },
    {
        if let Some(found) = self.find_layer_path(path, scope) {
            return Some(found);
        }
        let resolved = self.table.canonicalize_for_lookup(path);
        match &self.build_root {
            Some(root) => if has_text(&self.build_files, resolved.as_str()) {
                Some(
                    WorkspaceCandidate {
                        path: resolved,
                        layer: root.clone(),
                        priority: 0,
                        collection: None,
                        scope,
                    },
                )
            } else {
                None
            },
            None => None,
        }
    }

    /// All matching static metadata files for a directive.
    ///
    /// Include and require first check the directory containing `from`, then
    /// search BBPATH. IncludeAll skips the current directory and returns every
    /// BBPATH match in search order.
    pub fn file_candidates_for(
        &self,
        from: &str,
        target: &str,
        directive: WorkspaceFileDirective,
    ) -> (r: Vec<WorkspaceCandidate>)
        requires
            self.wf(),
        ensures
            candidate_views(r@) == file_candidates_of(self@, from@, target@, directive),
    {
        let mut found: Vec<WorkspaceCandidate> = Vec::new();
        assert(candidate_views(found@) =~= Seq::empty());
        if is_absolute(target) {
            if let Some(candidate) = self.candidate_for_path(
                target,
                WorkspaceSearchScope::CurrentFile,
            ) {
                found.push(candidate);
                assert(candidate_views(found@) =~= file_candidates_of(
                    self@,
                    from@,
                    target@,
                    directive,
                ));
            }
            return found;
        }
        let from = self.table.canonicalize_for_lookup(from);
        if directive != WorkspaceFileDirective::IncludeAll {
            if let Some(directory) = path_parent(from.as_str()) {
                let path = join_path(directory.as_str(), target);
                if let Some(candidate) = self.candidate_for_path(
                    path.as_str(),
                    WorkspaceSearchScope::CurrentFile,
                ) {
                    let ghost view = candidate@;
                    found.push(candidate);
                    assert(candidate_views(found@) =~= seq![view]);
                    return found;
                }
            }
        }
        let ghost core = self@;
        let mut k: usize = 0;
        while k < self.search_paths.len()
            invariant
                k <= self.search_paths@.len(),
                core == self@,
                self.wf(),
                searched_from(core, target@, k as int, candidate_views(found@)) == searched_from(
                    core,
                    target@,
                    0,
                    Seq::empty(),
                ),
            decreases self.search_paths@.len() - k,
        {
            let search = &self.search_paths[k];
            assert(core.search[k as int] == (search.path@, search.layer_index as int));
            assert(core.layers[search.layer_index as int]
                == self.layers@[search.layer_index as int]@);
            let path = normal_path(join_path(search.path.as_str(), target).as_str());
            let layer = &self.layers[search.layer_index];
            if layer.holds_file(path.as_str()) {
                append_candidate(
                    &mut found,
                    layer.make_candidate(path.as_str(), WorkspaceSearchScope::Bbpath),
                );
            }
            k += 1;
        }
        found
    }
}

fn grandparent(paths: &Vec<String>) -> (r: Option<String>)
    ensures
        collections::optional_text(r) == grandparent_from(collections::string_texts(paths@), 0),
{
    let ghost all = collections::string_texts(paths@);
    let mut k: usize = 0;
    while k < paths.len()
        invariant
            k <= paths@.len(),
            all == collections::string_texts(paths@),
            grandparent_from(all, 0) == grandparent_from(all, k as int),
        decreases paths@.len() - k,
    {
        assert(all[k as int] == paths@[k as int]@);
        if let Some(directory) = path_parent(paths[k].as_str()) {
            if let Some(found) = path_parent(directory.as_str()) {
                return Some(found);
            }
        }
        k += 1;
    }
    None
}

} // verus!
