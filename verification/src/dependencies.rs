//! The static dependencies between the files of a workspace.
use crate::build_layers;
use crate::checks;
use crate::collections;
use crate::layers;
use crate::orders;
use crate::paths;
use crate::statements;
use crate::syntax;
use crate::text;
use crate::values;
use crate::workspace;
use crate::build_layers::check_build_directory;
use crate::collections::has_text;
use crate::collections::push_text;
use crate::layers::read_plain_value;
use crate::orders::TextOrder;
use crate::paths::is_absolute;
use crate::paths::is_path_less;
use crate::paths::join_path;
use crate::paths::path_parent;
use crate::scanner::comment_start;
use crate::semantic::BuildDirFacts;
use crate::statements::Statement;
use crate::statements::StatementView;
use crate::statements::statements;
use crate::syntax::DirectiveKeyword;
use crate::text::CharClass;
use crate::text::same_str;
use crate::text::string_of;
use crate::tree::parse;
use crate::values::static_words;
use crate::workspace::CandidateView;
use crate::workspace::CoreView;
use crate::workspace::FileView;
use crate::workspace::PathTable;
use crate::workspace::TableView;
use crate::workspace::WorkspaceCandidate;
use crate::workspace::WorkspaceClassContext;
use crate::workspace::WorkspaceCore;
use crate::workspace::WorkspaceDependencyKind;
use crate::workspace::WorkspaceFile;
use crate::workspace::WorkspaceFileDirective;
use crate::workspace::dependency_contexts_for_path;
use crate::workspace::global_class_assignment_kind;
use crate::workspace::normal_path;
use crate::workspace::source_at;
use crate::workspace::supplied_layer_root_for;
use vstd::prelude::*;
use vstd::slice::slice_subrange;

verus! {

// ---------------------------------------------------------------------------
// Edges
// ---------------------------------------------------------------------------
/// A dependency on the file at `path`.
#[verifier::ext_equal]
pub struct EdgeView {
    pub path: Seq<char>,
    pub kind: WorkspaceDependencyKind,
}

/// The dependencies of the file at `path` in one class namespace.
#[verifier::ext_equal]
pub struct EntryView {
    pub path: Seq<char>,
    pub context: WorkspaceClassContext,
    pub edges: Seq<EdgeView>,
}

pub open spec fn kind_rank(kind: WorkspaceDependencyKind) -> int {
    match kind {
        WorkspaceDependencyKind::Include => 0,
        WorkspaceDependencyKind::IncludeAll => 1,
        WorkspaceDependencyKind::Require => 2,
        WorkspaceDependencyKind::Inherit => 3,
        WorkspaceDependencyKind::InheritDefer => 4,
        WorkspaceDependencyKind::InheritGlobal => 5,
        WorkspaceDependencyKind::UserClasses => 6,
    }
}

/// The order of dependencies: by path, then by kind.
pub open spec fn edge_before(a: EdgeView, b: EdgeView) -> bool {
    paths::path_less(a.path, b.path) || (a.path == b.path && kind_rank(a.kind) < kind_rank(b.kind))
}

/// The first position from `k` whose dependency does not come before `x`.
pub open spec fn edge_place(items: Seq<EdgeView>, x: EdgeView, k: int) -> int
    decreases items.len() - k,
{
    if k < 0 || k >= items.len() {
        items.len() as int
    } else if edge_before(items[k], x) {
        edge_place(items, x, k + 1)
    } else {
        k
    }
}

/// A sorted list of dependencies with `x`.
pub open spec fn with_edge(items: Seq<EdgeView>, x: EdgeView) -> Seq<EdgeView> {
    let p = edge_place(items, x, 0);
    if p < items.len() && items[p] == x {
        items
    } else {
        items.insert(p, x)
    }
}

/// `items` with the dependencies `more[k..]`, in order and each once.
pub open spec fn with_edges(items: Seq<EdgeView>, more: Seq<EdgeView>, k: int) -> Seq<EdgeView>
    decreases more.len() - k,
{
    if k < 0 || k >= more.len() {
        items
    } else {
        with_edges(with_edge(items, more[k]), more, k + 1)
    }
}

#[derive(Clone, Debug)]
struct DependencyEdge {
    path: String,
    kind: WorkspaceDependencyKind,
}

impl DependencyEdge {
    spec fn view(&self) -> EdgeView {
        EdgeView { path: self.path@, kind: self.kind }
    }
}

spec fn edge_views(items: Seq<DependencyEdge>) -> Seq<EdgeView> {
    items.map_values(|e: DependencyEdge| e@)
}

fn rank_of(kind: WorkspaceDependencyKind) -> (r: u8)
    ensures
        r == kind_rank(kind),
{
    match kind {
        WorkspaceDependencyKind::Include => 0,
        WorkspaceDependencyKind::IncludeAll => 1,
        WorkspaceDependencyKind::Require => 2,
        WorkspaceDependencyKind::Inherit => 3,
        WorkspaceDependencyKind::InheritDefer => 4,
        WorkspaceDependencyKind::InheritGlobal => 5,
        WorkspaceDependencyKind::UserClasses => 6,
    }
}

fn insert_edge(items: &mut Vec<DependencyEdge>, path: String, kind: WorkspaceDependencyKind)
    ensures
        edge_views(final(items)@) == with_edge(
            edge_views(old(items)@),
            (EdgeView { path: path@, kind }),
        ),
{
    let ghost all = edge_views(items@);
    let ghost x = EdgeView { path: path@, kind };
    let mut k: usize = 0;
    while k < items.len() && (is_path_less(items[k].path.as_str(), path.as_str()) || (same_str(
        items[k].path.as_str(),
        path.as_str(),
    ) && rank_of(items[k].kind) < rank_of(kind)))
        invariant
            k <= items@.len(),
            all == edge_views(items@),
            x == (EdgeView { path: path@, kind }),
            edge_place(all, x, 0) == edge_place(all, x, k as int),
        decreases items@.len() - k,
    {
        assert(all[k as int] == items@[k as int]@);
        k += 1;
    }
    if k < items.len() {
        assert(all[k as int] == items@[k as int]@);
        if same_str(items[k].path.as_str(), path.as_str()) && items[k].kind == kind {
            return;
        }
    }
    items.insert(k, DependencyEdge { path, kind });
    assert(edge_views(items@) =~= all.insert(k as int, x));
}

/// The words of a text that no expression computes, between ASCII blanks.
pub open spec fn static_texts(t: Seq<char>) -> Seq<Seq<char>> {
    values::static_words_of(t, CharClass::Ascii, true).map_values(|w: (int, int)| t.subrange(w.0, w.1))
}

/// The words of a text that no expression computes, between ASCII blanks.
pub fn static_directive_words(t: &[char]) -> (r: Vec<String>)
    ensures
        collections::string_texts(r@) == static_texts(t@),
{
    let words = static_words(t, CharClass::Ascii, true);
    let mut out: Vec<String> = Vec::new();
    let mut k: usize = 0;
    while k < words.len()
        invariant
            k <= words@.len(),
            text::ranges_match(words@, values::static_words_of(t@, CharClass::Ascii, true)),
            text::ranges_inside(words@, t@.len() as int),
            out@.len() == k,
            forall|j: int| 0 <= j < k ==> (#[trigger] out@[j])@ == static_texts(t@)[j],
        decreases words@.len() - k,
    {
        let (a, b) = words[k];
        out.push(string_of(slice_subrange(t, a, b)));
        k += 1;
    }
    assert(collections::string_texts(out@) =~= static_texts(t@));
    out
}

/// The words of an assignment's value that no expression computes.
pub open spec fn static_value_texts(value: Seq<char>) -> Seq<Seq<char>> {
    match layers::plain_value(value) {
        Some(text) => static_texts(text),
        None => Seq::empty(),
    }
}

/// The dependencies on the files of `found[k..]`.
pub open spec fn edges_to(found: Seq<CandidateView>, kind: WorkspaceDependencyKind, k: int) -> Seq<
    EdgeView,
>
    decreases found.len() - k,
{
    if k < 0 || k >= found.len() {
        Seq::empty()
    } else {
        seq![EdgeView { path: found[k].path, kind }] + edges_to(found, kind, k + 1)
    }
}

/// The dependencies on the first of some candidates, or on all of them.
pub open spec fn chosen_edges(found: Seq<CandidateView>, kind: WorkspaceDependencyKind, all: bool) -> Seq<
    EdgeView,
> {
    if all {
        edges_to(found, kind, 0)
    } else if found.len() > 0 {
        seq![EdgeView { path: found[0].path, kind }]
    } else {
        Seq::empty()
    }
}

/// What a directive or an assignment makes a file depend on.
pub enum ReferenceView {
    Files(WorkspaceFileDirective, WorkspaceDependencyKind),
    Classes(WorkspaceDependencyKind),
}

/// The dependencies that the words `words[k..]` of a reference name.
pub open spec fn reference_from(
    core: CoreView,
    from: Seq<char>,
    context: WorkspaceClassContext,
    reference: ReferenceView,
    words: Seq<Seq<char>>,
    k: int,
) -> Seq<EdgeView>
    decreases words.len() - k,
{
    if k < 0 || k >= words.len() {
        Seq::empty()
    } else {
        (match reference {
            ReferenceView::Files(directive, kind) => chosen_edges(
                workspace::file_candidates_of(core, from, words[k], directive),
                kind,
                directive == WorkspaceFileDirective::IncludeAll,
            ),
            ReferenceView::Classes(kind) => chosen_edges(
                workspace::class_candidates_of(core, words[k], context),
                kind,
                false,
            ),
        }) + reference_from(core, from, context, reference, words, k + 1)
    }
}

/// What a directive refers to.
pub open spec fn directive_reference(keyword: DirectiveKeyword) -> Option<ReferenceView> {
    match keyword {
        DirectiveKeyword::Include => Some(
            ReferenceView::Files(WorkspaceFileDirective::Include, WorkspaceDependencyKind::Include),
        ),
        DirectiveKeyword::IncludeAll => Some(
            ReferenceView::Files(
                WorkspaceFileDirective::IncludeAll,
                WorkspaceDependencyKind::IncludeAll,
            ),
        ),
        DirectiveKeyword::Require => Some(
            ReferenceView::Files(WorkspaceFileDirective::Require, WorkspaceDependencyKind::Require),
        ),
        DirectiveKeyword::Inherit => Some(
            ReferenceView::Classes(WorkspaceDependencyKind::Inherit),
        ),
        DirectiveKeyword::InheritDefer => Some(
            ReferenceView::Classes(WorkspaceDependencyKind::InheritDefer),
        ),
        _ => None,
    }
}

/// The dependencies that one statement of the file `from` names.
pub open spec fn statement_edges(
    core: CoreView,
    from: Seq<char>,
    context: WorkspaceClassContext,
    s: StatementView,
) -> Seq<EdgeView> {
    match s {
        StatementView::Directive(d) => match directive_reference(d.keyword) {
            Some(reference) => reference_from(
                core,
                from,
                context,
                reference,
                static_texts(checks::argument_code(d)),
                0,
            ),
            None => Seq::empty(),
        },
        StatementView::Assignment(a) => match workspace::global_class_kind(a.name) {
            Some(kind) => if context == WorkspaceClassContext::Global {
                reference_from(
                    core,
                    from,
                    context,
                    ReferenceView::Classes(kind),
                    static_value_texts(a.value),
                    0,
                )
            } else {
                Seq::empty()
            },
            None => Seq::empty(),
        },
        _ => Seq::empty(),
    }
}

/// `found` with the dependencies that the statements `s[k..]` name.
pub open spec fn edges_from(
    core: CoreView,
    from: Seq<char>,
    context: WorkspaceClassContext,
    s: Seq<StatementView>,
    k: int,
    found: Seq<EdgeView>,
) -> Seq<EdgeView>
    decreases s.len() - k,
{
    if k < 0 || k >= s.len() {
        found
    } else {
        edges_from(
            core,
            from,
            context,
            s,
            k + 1,
            with_edges(found, statement_edges(core, from, context, s[k]), 0),
        )
    }
}

/// The dependencies of the file `from` with the text `source`.
pub open spec fn file_edges(
    core: CoreView,
    from: Seq<char>,
    context: WorkspaceClassContext,
    source: Seq<char>,
) -> Seq<EdgeView> {
    edges_from(core, from, context, statements::statements_of(source), 0, Seq::empty())
}

proof fn lemma_with_edges_add(items: Seq<EdgeView>, a: Seq<EdgeView>, b: Seq<EdgeView>, k: int)
    requires
        0 <= k <= a.len(),
    ensures
        with_edges(items, a + b, k) == with_edges(with_edges(items, a, k), b, 0),
    decreases a.len() - k,
{
    if k == a.len() {
        lemma_with_edges_shift(items, a, b, 0);
    } else {
        assert((a + b)[k] == a[k]);
        lemma_with_edges_add(with_edge(items, a[k]), a, b, k + 1);
    }
}

proof fn lemma_with_edges_shift(items: Seq<EdgeView>, a: Seq<EdgeView>, b: Seq<EdgeView>, k: int)
    requires
        0 <= k <= b.len(),
    ensures
        with_edges(items, a + b, a.len() + k) == with_edges(items, b, k),
    decreases b.len() - k,
{
    if k < b.len() {
        assert((a + b)[a.len() + k] == b[k]);
        lemma_with_edges_shift(with_edge(items, b[k]), a, b, k + 1);
    }
}

fn insert_chosen(
    edges: &mut Vec<DependencyEdge>,
    found: &Vec<WorkspaceCandidate>,
    kind: WorkspaceDependencyKind,
    all: bool,
)
    ensures
        edge_views(final(edges)@) == with_edges(
            edge_views(old(edges)@),
            chosen_edges(workspace::candidate_views(found@), kind, all),
            0,
        ),
{
    let ghost views = workspace::candidate_views(found@);
    let ghost goal = with_edges(edge_views(edges@), chosen_edges(views, kind, all), 0);
    if all {
        let mut k: usize = 0;
        while k < found.len()
            invariant
                k <= found@.len(),
                views == workspace::candidate_views(found@),
                with_edges(edge_views(edges@), edges_to(views, kind, k as int), 0) == goal,
            decreases found@.len() - k,
        {
            assert(views[k as int] == found@[k as int]@);
            let ghost items = edge_views(edges@);
            let ghost x = EdgeView { path: views[k as int].path, kind };
            proof {
                let rest = edges_to(views, kind, k + 1);
                lemma_with_edges_add(items, seq![x], rest, 0);
                reveal_with_fuel(with_edges, 2);
                assert(with_edges(items, seq![x], 0) == with_edge(items, x));
            }
            insert_edge(edges, found[k].path().to_owned(), kind);
            k += 1;
        }
    } else if found.len() > 0 {
        assert(views[0] == found@[0]@);
        proof {
            reveal_with_fuel(with_edges, 2);
        }
        insert_edge(edges, found[0].path().to_owned(), kind);
    }
}

enum Reference {
    Files(WorkspaceFileDirective, WorkspaceDependencyKind),
    Classes(WorkspaceDependencyKind),
}

impl Reference {
    spec fn view(&self) -> ReferenceView {
        match self {
            Reference::Files(directive, kind) => ReferenceView::Files(*directive, *kind),
            Reference::Classes(kind) => ReferenceView::Classes(*kind),
        }
    }
}

fn reference_for(keyword: DirectiveKeyword) -> (r: Option<Reference>)
    ensures
        match r {
            Some(reference) => directive_reference(keyword) == Some(reference@),
            None => directive_reference(keyword) is None,
        },
{
    match keyword {
        DirectiveKeyword::Include => Some(
            Reference::Files(WorkspaceFileDirective::Include, WorkspaceDependencyKind::Include),
        ),
        DirectiveKeyword::IncludeAll => Some(
            Reference::Files(
                WorkspaceFileDirective::IncludeAll,
                WorkspaceDependencyKind::IncludeAll,
            ),
        ),
        DirectiveKeyword::Require => Some(
            Reference::Files(WorkspaceFileDirective::Require, WorkspaceDependencyKind::Require),
        ),
        DirectiveKeyword::Inherit => Some(Reference::Classes(WorkspaceDependencyKind::Inherit)),
        DirectiveKeyword::InheritDefer => Some(
            Reference::Classes(WorkspaceDependencyKind::InheritDefer),
        ),
        _ => None,
    }
}

fn insert_references(
    core: &WorkspaceCore,
    from: &str,
    context: WorkspaceClassContext,
    reference: &Reference,
    words: &Vec<String>,
    edges: &mut Vec<DependencyEdge>,
)
    requires
        core.wf(),
    ensures
        edge_views(final(edges)@) == with_edges(
            edge_views(old(edges)@),
            reference_from(core@, from@, context, reference@, collections::string_texts(words@), 0),
            0,
        ),
{
    let ghost texts = collections::string_texts(words@);
    let ghost goal = with_edges(
        edge_views(edges@),
        reference_from(core@, from@, context, reference@, texts, 0),
        0,
    );
    let mut k: usize = 0;
    while k < words.len()
        invariant
            k <= words@.len(),
            core.wf(),
            texts == collections::string_texts(words@),
            with_edges(
                edge_views(edges@),
                reference_from(core@, from@, context, reference@, texts, k as int),
                0,
            ) == goal,
        decreases words@.len() - k,
    {
        assert(texts[k as int] == words@[k as int]@);
        let ghost items = edge_views(edges@);
        let ghost rest = reference_from(core@, from@, context, reference@, texts, k + 1);
        match reference {
            Reference::Files(directive, kind) => {
                let found = core.file_candidates_for(from, words[k].as_str(), *directive);
                let all = *directive == WorkspaceFileDirective::IncludeAll;
                proof {
                    lemma_with_edges_add(
                        items,
                        chosen_edges(workspace::candidate_views(found@), *kind, all),
                        rest,
                        0,
                    );
                }
                insert_chosen(edges, &found, *kind, all);
            },
            Reference::Classes(kind) => {
                let found = core.class_candidates_for(words[k].as_str(), context);
                proof {
                    lemma_with_edges_add(
                        items,
                        chosen_edges(workspace::candidate_views(found@), *kind, false),
                        rest,
                        0,
                    );
                }
                insert_chosen(edges, &found, *kind, false);
            },
        }
        k += 1;
    }
}

/// The dependencies of the file `from` with the given statements.
fn collect_dependency_edges(
    core: &WorkspaceCore,
    from: &str,
    context: WorkspaceClassContext,
    statements: &Vec<Statement>,
) -> (r: Vec<DependencyEdge>)
    requires
        core.wf(),
    ensures
        edge_views(r@) == edges_from(
            core@,
            from@,
            context,
            statements::statement_views(statements@),
            0,
            Seq::empty(),
        ),
{
    let ghost all = statements::statement_views(statements@);
    let ghost goal = edges_from(core@, from@, context, all, 0, Seq::empty());
    let mut edges: Vec<DependencyEdge> = Vec::new();
    let mut k: usize = 0;
    assert(edge_views(edges@) =~= Seq::empty());
    while k < statements.len()
        invariant
            k <= statements@.len(),
            core.wf(),
            all == statements::statement_views(statements@),
            edges_from(core@, from@, context, all, k as int, edge_views(edges@)) == goal,
        decreases statements@.len() - k,
    {
        assert(all[k as int] == statements@[k as int]@);
        match &statements[k] {
            Statement::Directive(d) => {
                if let Some(reference) = reference_for(d.keyword) {
                    let end = comment_start(d.arguments.as_slice());
                    let code = slice_subrange(d.arguments.as_slice(), 0, end);
                    assert(code@ =~= checks::argument_code(d@));
                    let words = static_directive_words(code);
                    insert_references(core, from, context, &reference, &words, &mut edges);
                }
            },
            Statement::Assignment(a) => {
                if context == WorkspaceClassContext::Global {
                    if let Some(kind) = global_class_assignment_kind(a.name.as_slice()) {
                        let words = match read_plain_value(a.value.as_slice()) {
                            Some(text) => static_directive_words(text.as_slice()),
                            None => {
                                let none: Vec<String> = Vec::new();
                                assert(collections::string_texts(none@) =~= Seq::empty());
                                none
                            },
                        };
                        let reference = Reference::Classes(kind);
                        insert_references(core, from, context, &reference, &words, &mut edges);
                    }
                }
            },
            _ => {},
        }
        k += 1;
    }
    edges
}

// ---------------------------------------------------------------------------
// The graph
// ---------------------------------------------------------------------------
/// Whether the file at `path` of the workspace has whole-workspace context.
pub open spec fn workspace_file(core: CoreView, path: Seq<char>) -> bool {
    core.build_files.contains(workspace::canonical(core.table, path)) || workspace::complete_at(
        core,
        workspace::canonical(core.table, workspace::canonical(core.table, path)),
    )
}

/// `found` with the dependencies of the file `path` in the namespaces
/// `contexts[k..]`.
pub open spec fn contexts_from(
    core: CoreView,
    path: Seq<char>,
    source: Seq<char>,
    contexts: Seq<WorkspaceClassContext>,
    k: int,
    found: Seq<EntryView>,
) -> Seq<EntryView>
    decreases contexts.len() - k,
{
    if k < 0 || k >= contexts.len() {
        found
    } else {
        let edges = file_edges(core, path, contexts[k], source);
        contexts_from(
            core,
            path,
            source,
            contexts,
            k + 1,
            if edges.len() == 0 {
                found
            } else {
                found.push(EntryView { path, context: contexts[k], edges })
            },
        )
    }
}

/// `found` with the dependencies of one file of the workspace.
pub open spec fn file_entries(
    core: CoreView,
    files: Seq<FileView>,
    path: Seq<char>,
    found: Seq<EntryView>,
) -> Seq<EntryView> {
    match workspace::source_from(files, path, 0) {
        Some(source) => if workspace_file(core, path) && syntax::nodes_of(source) is Ok {
            contexts_from(core, path, source, workspace::contexts_of(path), 0, found)
        } else {
            found
        },
        None => found,
    }
}

/// `found` with the dependencies of the files `core.files[k..]`.
pub open spec fn entries_from(core: CoreView, files: Seq<FileView>, k: int, found: Seq<EntryView>) -> Seq<
    EntryView,
>
    decreases core.files.len() - k,
{
    if k < 0 || k >= core.files.len() {
        found
    } else {
        entries_from(core, files, k + 1, file_entries(core, files, core.files[k], found))
    }
}

/// The first of the entries from `k` for a file in a namespace.
pub open spec fn entry_from(
    entries: Seq<EntryView>,
    path: Seq<char>,
    context: WorkspaceClassContext,
    k: int,
) -> int
    decreases entries.len() - k,
{
    if k < 0 || k >= entries.len() {
        entries.len() as int
    } else if entries[k].path == path && entries[k].context == context {
        k
    } else {
        entry_from(entries, path, context, k + 1)
    }
}

/// The dependencies of a file in a namespace.
pub open spec fn edges_at(
    entries: Seq<EntryView>,
    path: Seq<char>,
    context: WorkspaceClassContext,
) -> Seq<EdgeView> {
    let k = entry_from(entries, path, context, 0);
    if k < entries.len() {
        entries[k].edges
    } else {
        Seq::empty()
    }
}

#[derive(Clone, Debug)]
struct DependencyEntry {
    path: String,
    context: WorkspaceClassContext,
    edges: Vec<DependencyEdge>,
}

impl DependencyEntry {
    spec fn view(&self) -> EntryView {
        EntryView { path: self.path@, context: self.context, edges: edge_views(self.edges@) }
    }
}

spec fn entry_views(items: Seq<DependencyEntry>) -> Seq<EntryView> {
    items.map_values(|e: DependencyEntry| e@)
}

fn build_dependencies(core: &WorkspaceCore, files: &Vec<WorkspaceFile>) -> (r: Vec<DependencyEntry>)
    requires
        core.wf(),
        workspace::sources_fit(workspace::file_views(files@)),
    ensures
        entry_views(r@) == entries_from(core@, workspace::file_views(files@), 0, Seq::empty()),
{
    let ghost views = workspace::file_views(files@);
    let ghost goal = entries_from(core@, views, 0, Seq::empty());
    let paths = core.files();
    let mut out: Vec<DependencyEntry> = Vec::new();
    let mut k: usize = 0;
    assert(entry_views(out@) =~= Seq::empty());
    while k < paths.len()
        invariant
            k <= paths@.len(),
            core.wf(),
            collections::string_texts(paths@) == core@.files,
            views == workspace::file_views(files@),
            workspace::sources_fit(views),
            entries_from(core@, views, k as int, entry_views(out@)) == goal,
        decreases paths@.len() - k,
    {
        assert(core@.files[k as int] == paths@[k as int]@);
        let path = paths[k].as_str();
        add_file(core, files, path, &mut out);
        k += 1;
    }
    out
}

fn add_file(core: &WorkspaceCore, files: &Vec<WorkspaceFile>, path: &str, out: &mut Vec<
    DependencyEntry,
>)
    requires
        core.wf(),
        workspace::sources_fit(workspace::file_views(files@)),
    ensures
        entry_views(final(out)@) == file_entries(
            core@,
            workspace::file_views(files@),
            path@,
            entry_views(old(out)@),
        ),
{
    let source = match source_at(files, path) {
        Some(source) => source,
        None => {
            return;
        },
    };
    if !core.is_workspace_file(path) {
        return;
    }
    let tree = match parse(source) {
        Ok(tree) => tree,
        Err(_) => {
            return;
        },
    };
    let statements = statements(&tree);
    let contexts = dependency_contexts_for_path(path);
    let ghost goal = contexts_from(core@, path@, source@, contexts@, 0, entry_views(out@));
    let mut j: usize = 0;
    while j < contexts.len()
        invariant
            j <= contexts@.len(),
            core.wf(),
            statements::statement_views(statements@) == statements::statements_of(source@),
            contexts_from(core@, path@, source@, contexts@, j as int, entry_views(out@)) == goal,
        decreases contexts@.len() - j,
    {
        let edges = collect_dependency_edges(core, path, contexts[j], &statements);
        assert(edge_views(edges@) == file_edges(core@, path@, contexts@[j as int], source@));
        if edges.len() > 0 {
            let ghost before = entry_views(out@);
            let entry = DependencyEntry { path: path.to_owned(), context: contexts[j], edges };
            let ghost view = entry@;
            out.push(entry);
            assert(entry_views(out@) =~= before.push(view));
        }
        j += 1;
    }
}

/// A workspace: its files and their dependencies.
#[verifier::ext_equal]
pub struct IndexView {
    pub core: CoreView,
    pub entries: Seq<EntryView>,
}

/// The workspace of `files`, whose layers are at `roots`.
pub open spec fn index_of(
    files: Seq<FileView>,
    build_files: Seq<Seq<char>>,
    roots: Seq<Seq<char>>,
    table: TableView,
) -> IndexView {
    let core = workspace::core_of(files, build_files, roots, table);
    IndexView { core, entries: entries_from(core, files, 0, Seq::empty()) }
}

/// The layers whose configuration is among `paths[k..]`.
pub open spec fn supplied_from(paths: Seq<Seq<char>>, k: int) -> Seq<Seq<char>>
    decreases paths.len() - k,
{
    if k < 0 || k >= paths.len() {
        Seq::empty()
    } else {
        match workspace::supplied_layer_root(paths[k]) {
            Some(root) => seq![root] + supplied_from(paths, k + 1),
            None => supplied_from(paths, k + 1),
        }
    }
}

/// A resolved static dependency between two metadata files in an indexed
/// workspace.
#[derive(Clone, Debug, Eq, PartialEq)]
pub struct WorkspaceDependency {
    from: String,
    to: String,
    kind: WorkspaceDependencyKind,
}

#[verifier::ext_equal]
pub struct DependencyView {
    pub from: Seq<char>,
    pub to: Seq<char>,
    pub kind: WorkspaceDependencyKind,
}

impl WorkspaceDependency {
    pub closed spec fn view(&self) -> DependencyView {
        DependencyView { from: self.from@, to: self.to@, kind: self.kind }
    }

    /// The metadata file containing the dependency directive.
    pub fn from(&self) -> (r: &str)
        ensures
            r@ == self@.from,
    {
        self.from.as_str()
    }

    /// The metadata file selected by BitBake search semantics.
    pub fn to(&self) -> (r: &str)
        ensures
            r@ == self@.to,
    {
        self.to.as_str()
    }

    /// The directive that introduced this dependency.
    pub fn kind(&self) -> (r: WorkspaceDependencyKind)
        ensures
            r == self@.kind,
    {
        self.kind
    }
}

/// The contents of a list of dependencies.
pub open spec fn dependency_views(items: Seq<WorkspaceDependency>) -> Seq<DependencyView> {
    items.map_values(|d: WorkspaceDependency| d@)
}

/// `found` with the dependencies `edges[k..]` of `from` that it does not hold.
pub open spec fn listed_edges(from: Seq<char>, edges: Seq<EdgeView>, k: int, found: Seq<
    DependencyView,
>) -> Seq<DependencyView>
    decreases edges.len() - k,
{
    if k < 0 || k >= edges.len() {
        found
    } else {
        let next = DependencyView { from, to: edges[k].path, kind: edges[k].kind };
        listed_edges(
            from,
            edges,
            k + 1,
            if found.contains(next) {
                found
            } else {
                found.push(next)
            },
        )
    }
}

/// `found` with the dependencies of `from` in the namespaces `contexts[k..]`.
pub open spec fn listed_from_contexts(
    entries: Seq<EntryView>,
    from: Seq<char>,
    contexts: Seq<WorkspaceClassContext>,
    k: int,
    found: Seq<DependencyView>,
) -> Seq<DependencyView>
    decreases contexts.len() - k,
{
    if k < 0 || k >= contexts.len() {
        found
    } else {
        listed_from_contexts(
            entries,
            from,
            contexts,
            k + 1,
            listed_edges(from, edges_at(entries, from, contexts[k]), 0, found),
        )
    }
}

/// The dependencies of the file at `path`.
pub open spec fn dependencies_of(index: IndexView, path: Seq<char>) -> Seq<DependencyView> {
    let from = workspace::canonical(index.core.table, path);
    listed_from_contexts(index.entries, from, workspace::contexts_of(from), 0, Seq::empty())
}

// ---------------------------------------------------------------------------
// Cycles
// ---------------------------------------------------------------------------
/// The files that `entries[k..]` depend on.
pub open spec fn targets_from(entries: Seq<EntryView>, k: int) -> Seq<Seq<char>>
    decreases entries.len() - k,
{
    if k < 0 || k >= entries.len() {
        Seq::empty()
    } else {
        entries[k].edges.map_values(|e: EdgeView| e.path) + targets_from(entries, k + 1)
    }
}

/// The files visited after the dependencies `edges[j..]` of the file at
/// position `head`, each with the position of the file it was reached from.
/// The visit ends at `goal`.
pub open spec fn visit(
    edges: Seq<EdgeView>,
    j: int,
    goal: Seq<char>,
    visited: Seq<Seq<char>>,
    parents: Seq<int>,
    head: int,
) -> (Seq<Seq<char>>, Seq<int>)
    decreases edges.len() - j,
{
    if j < 0 || j >= edges.len() {
        (visited, parents)
    } else if visited.contains(edges[j].path) {
        visit(edges, j + 1, goal, visited, parents, head)
    } else if edges[j].path == goal {
        (visited.push(goal), parents.push(head))
    } else {
        visit(edges, j + 1, goal, visited.push(edges[j].path), parents.push(head), head)
    }
}

/// The files on the way from the first visited one to that at position `i`.
pub open spec fn way_to(visited: Seq<Seq<char>>, parents: Seq<int>, i: int) -> Seq<Seq<char>>
    decreases i,
{
    if i <= 0 || i >= parents.len() || parents[i] < 0 || parents[i] >= i {
        seq![visited[0]]
    } else {
        way_to(visited, parents, parents[i]).push(visited[i])
    }
}

/// A way from the first visited file to `goal`, searched breadth first from
/// the visited file at position `head`.
pub open spec fn explore(
    entries: Seq<EntryView>,
    context: WorkspaceClassContext,
    goal: Seq<char>,
    visited: Seq<Seq<char>>,
    parents: Seq<int>,
    head: int,
) -> Option<Seq<Seq<char>>>
    decreases targets_from(entries, 0).len() + 1 - head,
{
    if head < 0 || head >= visited.len() || head > targets_from(entries, 0).len() {
        None
    } else {
        let (v, p) = visit(
            edges_at(entries, visited[head], context),
            0,
            goal,
            visited,
            parents,
            head,
        );
        if v.last() == goal {
            Some(way_to(v, p, v.len() - 1))
        } else {
            explore(entries, context, goal, v, p, head + 1)
        }
    }
}

/// The files of a cycle that a dependency of `from` on `to` closes in a class
/// namespace.
pub open spec fn cycle_between(
    entries: Seq<EntryView>,
    from: Seq<char>,
    to: Seq<char>,
    context: WorkspaceClassContext,
) -> Option<Seq<Seq<char>>> {
    if from == to {
        if depends(entries, context, from, from) {
            Some(seq![from, from])
        } else {
            None
        }
    } else {
        match explore(entries, context, from, seq![to], seq![0int], 0) {
            Some(way) => Some(seq![from] + way),
            None => None,
        }
    }
}

/// The files of a cycle that a dependency of `from` on `to` closes.
pub open spec fn cycle_of(
    index: IndexView,
    from: Seq<char>,
    to: Seq<char>,
    context: WorkspaceClassContext,
) -> Option<Seq<Seq<char>>> {
    cycle_between(
        index.entries,
        workspace::canonical(index.core.table, from),
        workspace::canonical(index.core.table, to),
        context,
    )
}

/// The first cycle in the namespaces `contexts[k..]`.
pub open spec fn any_cycle(
    index: IndexView,
    from: Seq<char>,
    to: Seq<char>,
    contexts: Seq<WorkspaceClassContext>,
    k: int,
) -> Option<Seq<Seq<char>>>
    decreases contexts.len() - k,
{
    if k < 0 || k >= contexts.len() {
        None
    } else {
        match cycle_of(index, from, to, contexts[k]) {
            Some(cycle) => Some(cycle),
            None => any_cycle(index, from, to, contexts, k + 1),
        }
    }
}

/// Whether the file `a` depends on the file `b`.
pub open spec fn depends(
    entries: Seq<EntryView>,
    context: WorkspaceClassContext,
    a: Seq<char>,
    b: Seq<char>,
) -> bool {
    exists|j: int|
        0 <= j < edges_at(entries, a, context).len() && (#[trigger] edges_at(
            entries,
            a,
            context,
        )[j]).path == b
}

/// Whether each file of `way` depends on the next one.
pub open spec fn is_way(
    entries: Seq<EntryView>,
    context: WorkspaceClassContext,
    way: Seq<Seq<char>>,
) -> bool {
    way.len() > 0 && forall|i: int|
        #![trigger way[i]]
        0 <= i < way.len() - 1 ==> depends(entries, context, way[i], way[i + 1])
}

/// The visited files are distinct, and each but the first is a dependency of
/// an earlier one.
pub open spec fn visit_inv(
    entries: Seq<EntryView>,
    context: WorkspaceClassContext,
    visited: Seq<Seq<char>>,
    parents: Seq<int>,
) -> bool {
    &&& visited.len() == parents.len()
    &&& visited.len() > 0
    &&& visited.no_duplicates()
    &&& forall|i: int|
        1 <= i < visited.len() ==> 0 <= (#[trigger] parents[i]) < i && depends(
            entries,
            context,
            visited[parents[i]],
            visited[i],
        )
}

/// Every dependency of the visited files before `head` is visited.
pub open spec fn visit_closed(
    entries: Seq<EntryView>,
    context: WorkspaceClassContext,
    visited: Seq<Seq<char>>,
    head: int,
) -> bool {
    forall|i: int, b: Seq<char>|
        #![trigger depends(entries, context, visited[i], b)]
        0 <= i < head && i < visited.len() && depends(entries, context, visited[i], b)
            ==> visited.contains(b)
}

/// The files were reached in the order of those that they were reached from, none
/// from one after `head`.
pub open spec fn reached_in_order(parents: Seq<int>, head: int) -> bool {
    &&& forall|i: int, j: int|
        1 <= i <= j < parents.len() ==> #[trigger] parents[i] <= #[trigger] parents[j]
    &&& forall|i: int| 1 <= i < parents.len() ==> #[trigger] parents[i] <= head
}

/// The file `b` is visited, and was reached from no file after `i`.
pub open spec fn reached_by(
    visited: Seq<Seq<char>>,
    parents: Seq<int>,
    b: Seq<char>,
    i: int,
) -> bool {
    exists|k: int|
        0 <= k < visited.len() && #[trigger] visited[k] == b && (k == 0 || parents[k] <= i)
}

/// Every dependency of a visited file before `head` was reached from no file
/// after it.
pub open spec fn reached_early(
    entries: Seq<EntryView>,
    context: WorkspaceClassContext,
    visited: Seq<Seq<char>>,
    parents: Seq<int>,
    head: int,
) -> bool {
    forall|i: int, b: Seq<char>|
        #![trigger depends(entries, context, visited[i], b)]
        0 <= i < head && i < visited.len() && depends(entries, context, visited[i], b)
            ==> reached_by(visited, parents, b, i)
}

proof fn lemma_visit(
    entries: Seq<EntryView>,
    context: WorkspaceClassContext,
    j: int,
    goal: Seq<char>,
    visited: Seq<Seq<char>>,
    parents: Seq<int>,
    head: int,
)
    requires
        0 <= j,
        0 <= head < visited.len(),
        visit_inv(entries, context, visited, parents),
        reached_in_order(parents, head),
        !visited.contains(goal),
    ensures
        ({
            let edges = edges_at(entries, visited[head], context);
            let (v, p) = visit(edges, j, goal, visited, parents, head);
            &&& visit_inv(entries, context, v, p)
            &&& reached_in_order(p, head)
            &&& p.take(visited.len() as int) == parents
            &&& v.last() == goal ==> p.last() == head
            &&& visited.len() <= v.len()
            &&& v.take(visited.len() as int) == visited
            &&& (v.last() == goal || !v.contains(goal))
            &&& v.last() != goal ==> forall|i: int|
                j <= i < edges.len() ==> v.contains((#[trigger] edges[i]).path)
        }),
    decreases edges_at(entries, visited[head], context).len() - j,
{
    let edges = edges_at(entries, visited[head], context);
    let (v, p) = visit(edges, j, goal, visited, parents, head);
    assert(visited.take(visited.len() as int) =~= visited);
    assert(parents.take(visited.len() as int) =~= parents);
    assert(visited.contains(visited.last())) by {
        assert(visited[visited.len() - 1] == visited.last());
    }
    if j < edges.len() {
        let x = edges[j].path;
        assert(depends(entries, context, visited[head], x));
        if visited.contains(x) {
            lemma_visit(entries, context, j + 1, goal, visited, parents, head);
            let k = choose|k: int| 0 <= k < visited.len() && visited[k] == x;
            assert(v.take(visited.len() as int)[k] == x);
            assert(v[k] == x);
            assert(v.contains(x));
        } else {
            let nv = visited.push(x);
            let np = parents.push(head);
            assert forall|i: int| 1 <= i < nv.len() implies 0 <= (#[trigger] np[i]) < i && depends(
                entries,
                context,
                nv[np[i]],
                nv[i],
            ) by {
                if i < visited.len() {
                    assert(np[i] == parents[i]);
                }
            }
            assert(nv.no_duplicates());
            assert(nv.take(visited.len() as int) =~= visited);
            assert(np.take(visited.len() as int) =~= parents);
            assert(reached_in_order(np, head)) by {
                assert forall|i: int, j: int| 1 <= i <= j < np.len() implies #[trigger] np[i]
                    <= #[trigger] np[j] by {
                    if j < parents.len() {
                        assert(np[i] == parents[i] && np[j] == parents[j]);
                    } else if i < parents.len() {
                        assert(np[i] == parents[i]);
                    }
                }
            }
            if x == goal {
                assert(nv.last() == goal);
            } else {
                assert(!nv.contains(goal)) by {
                    if nv.contains(goal) {
                        let k = choose|k: int| 0 <= k < nv.len() && nv[k] == goal;
                        assert(visited[k] == goal);
                    }
                }
                assert(nv[head] == visited[head]);
                lemma_visit(entries, context, j + 1, goal, nv, np, head);
                assert(v.take(visited.len() as int) =~= v.take(nv.len() as int).take(
                    visited.len() as int,
                ));
                assert(p.take(visited.len() as int) =~= p.take(nv.len() as int).take(
                    visited.len() as int,
                ));
                assert(v.take(nv.len() as int)[visited.len() as int] == x);
                assert(v[visited.len() as int] == x);
                assert(v.contains(x));
            }
        }
    }
}

proof fn lemma_way(
    entries: Seq<EntryView>,
    context: WorkspaceClassContext,
    visited: Seq<Seq<char>>,
    parents: Seq<int>,
    i: int,
)
    requires
        visit_inv(entries, context, visited, parents),
        0 <= i < visited.len(),
    ensures
        is_way(entries, context, way_to(visited, parents, i)),
        way_to(visited, parents, i)[0] == visited[0],
        way_to(visited, parents, i).last() == visited[i],
        i > 0 ==> way_to(visited, parents, i).len() > 1,
    decreases i,
{
    if i > 0 {
        lemma_way(entries, context, visited, parents, parents[i]);
        let rest = way_to(visited, parents, parents[i]);
        let way = way_to(visited, parents, i);
        assert(way == rest.push(visited[i]));
        assert forall|k: int| #![trigger way[k]] 0 <= k < way.len() - 1 implies depends(
            entries,
            context,
            way[k],
            way[k + 1],
        ) by {
            if k < rest.len() - 1 {
                assert(rest[k] == way[k]);
                assert(rest[k + 1] == way[k + 1]);
            } else {
                assert(way[k] == rest.last());
            }
        }
    }
}

proof fn lemma_target(entries: Seq<EntryView>, k: int, e: int, j: int)
    requires
        0 <= k <= e < entries.len(),
        0 <= j < entries[e].edges.len(),
    ensures
        targets_from(entries, k).contains(entries[e].edges[j].path),
    decreases e - k,
{
    let own = entries[k].edges.map_values(|x: EdgeView| x.path);
    let rest = targets_from(entries, k + 1);
    let x = entries[e].edges[j].path;
    if k == e {
        assert((own + rest)[j] == x);
    } else {
        lemma_target(entries, k + 1, e, j);
        let i = choose|i: int| 0 <= i < rest.len() && rest[i] == x;
        assert((own + rest)[own.len() + i] == x);
    }
}

proof fn lemma_entry_from(
    entries: Seq<EntryView>,
    path: Seq<char>,
    context: WorkspaceClassContext,
    k: int,
)
    requires
        0 <= k <= entries.len(),
    ensures
        k <= entry_from(entries, path, context, k) <= entries.len(),
    decreases entries.len() - k,
{
    if k < entries.len() {
        lemma_entry_from(entries, path, context, k + 1);
    }
}

/// No more files are visited than the dependencies name, and the first one.
proof fn lemma_visited_bound(
    entries: Seq<EntryView>,
    context: WorkspaceClassContext,
    visited: Seq<Seq<char>>,
    parents: Seq<int>,
)
    requires
        visit_inv(entries, context, visited, parents),
    ensures
        visited.len() <= targets_from(entries, 0).len() + 1,
{
    let targets = targets_from(entries, 0);
    let rest = visited.drop_first();
    assert forall|i: int| 0 <= i < rest.len() implies targets.contains(#[trigger] rest[i]) by {
        let b = visited[i + 1];
        let a = visited[parents[i + 1]];
        assert(depends(entries, context, a, b));
        let j = choose|j: int|
            0 <= j < edges_at(entries, a, context).len() && (#[trigger] edges_at(
                entries,
                a,
                context,
            )[j]).path == b;
        lemma_entry_from(entries, a, context, 0);
        lemma_target(entries, 0, entry_from(entries, a, context, 0), j);
    }
    assert(rest.no_duplicates());
    rest.unique_seq_to_set();
    targets.lemma_cardinality_of_set();
    vstd::seq_lib::seq_to_set_is_finite(targets);
    assert(rest.to_set().subset_of(targets.to_set())) by {
        assert forall|x: Seq<char>| rest.to_set().contains(x) implies targets.to_set().contains(
            x,
        ) by {
            let i = choose|i: int| 0 <= i < rest.len() && rest[i] == x;
            assert(targets.contains(rest[i]));
        }
    }
    vstd::set_lib::lemma_len_subset(rest.to_set(), targets.to_set());
}

/// A file that is visited earlier is no farther from the first.
proof fn lemma_depth(visited: Seq<Seq<char>>, parents: Seq<int>, i: int, j: int)
    requires
        visited.len() == parents.len(),
        forall|k: int| 1 <= k < parents.len() ==> 0 <= (#[trigger] parents[k]) < k,
        forall|k: int, l: int|
            1 <= k <= l < parents.len() ==> #[trigger] parents[k] <= #[trigger] parents[l],
        0 <= i <= j < visited.len(),
    ensures
        1 <= way_to(visited, parents, i).len() <= way_to(visited, parents, j).len(),
    decreases j,
{
    if j > 0 {
        if i > 0 {
            assert(parents[i] <= parents[j]);
            lemma_depth(visited, parents, parents[i], parents[j]);
        } else {
            lemma_depth(visited, parents, parents[j], parents[j]);
        }
    }
}

/// The way to a visited file is the same after more files were visited.
proof fn lemma_way_kept(
    visited: Seq<Seq<char>>,
    parents: Seq<int>,
    v: Seq<Seq<char>>,
    p: Seq<int>,
    i: int,
)
    requires
        visited.len() == parents.len() <= v.len() == p.len(),
        v.take(visited.len() as int) == visited,
        p.take(visited.len() as int) == parents,
        0 <= i < visited.len(),
    ensures
        way_to(v, p, i) == way_to(visited, parents, i),
    decreases i,
{
    assert(v.take(visited.len() as int)[i] == v[i]);
    assert(v.take(visited.len() as int)[0] == v[0]);
    assert(p.take(visited.len() as int)[i] == p[i]);
    if i > 0 && 0 <= parents[i] < i {
        lemma_way_kept(visited, parents, v, p, parents[i]);
    }
}

/// A way of dependencies to a file that is not visited passes a file from `head`
/// on, and is longer than the way to the file at `head`: up to its file `t`, all
/// before which come before `head`, it is no shorter than the ways that were
/// searched.
proof fn lemma_no_shorter(
    entries: Seq<EntryView>,
    context: WorkspaceClassContext,
    visited: Seq<Seq<char>>,
    parents: Seq<int>,
    head: int,
    way: Seq<Seq<char>>,
    t: int,
    k: int,
)
    requires
        visit_inv(entries, context, visited, parents),
        reached_in_order(parents, head),
        reached_early(entries, context, visited, parents, head),
        0 <= head < visited.len(),
        is_way(entries, context, way),
        !visited.contains(way.last()),
        0 <= t < way.len(),
        0 <= k < visited.len(),
        way[t] == visited[k],
        way_to(visited, parents, k).len() <= t + 1,
    ensures
        way.len() > way_to(visited, parents, head).len(),
    decreases way.len() - t,
{
    assert(visited.contains(visited[k]));
    assert(t < way.len() - 1);
    if k >= head {
        lemma_depth(visited, parents, head, k);
    } else {
        assert(depends(entries, context, way[t], way[t + 1]));
        assert(depends(entries, context, visited[k], way[t + 1]));
        assert(reached_by(visited, parents, way[t + 1], k));
        let next = choose|n: int|
            0 <= n < visited.len() && #[trigger] visited[n] == way[t + 1] && (n == 0 || parents[n]
                <= k);
        lemma_depth(visited, parents, k, k);
        if next > 0 {
            lemma_depth(visited, parents, parents[next], k);
        }
        lemma_no_shorter(entries, context, visited, parents, head, way, t + 1, next);
    }
}

/// Where the files before `head` and then `head` itself were visited, every
/// dependency of one of them was reached from no file after it.
proof fn lemma_reached_early(
    entries: Seq<EntryView>,
    context: WorkspaceClassContext,
    visited: Seq<Seq<char>>,
    parents: Seq<int>,
    v: Seq<Seq<char>>,
    p: Seq<int>,
    head: int,
)
    requires
        visited.len() == parents.len() <= v.len() == p.len(),
        0 <= head < visited.len(),
        v.take(visited.len() as int) == visited,
        p.take(visited.len() as int) == parents,
        reached_early(entries, context, visited, parents, head),
        reached_in_order(p, head),
        forall|i: int|
            0 <= i < edges_at(entries, visited[head], context).len() ==> v.contains(
                (#[trigger] edges_at(entries, visited[head], context)[i]).path,
            ),
    ensures
        reached_early(entries, context, v, p, head + 1),
        reached_in_order(p, head + 1),
{
    let edges = edges_at(entries, visited[head], context);
    assert forall|i: int, b: Seq<char>|
        #![trigger depends(entries, context, v[i], b)]
        0 <= i < head + 1 && i < v.len() && depends(entries, context, v[i], b) implies reached_by(
        v,
        p,
        b,
        i,
    ) by {
        assert(v.take(visited.len() as int)[i] == v[i]);
        if i == head {
            let j = choose|j: int|
                0 <= j < edges_at(entries, v[i], context).len() && (#[trigger] edges_at(
                    entries,
                    v[i],
                    context,
                )[j]).path == b;
            assert(v.contains(edges[j].path));
            let k = choose|k: int| 0 <= k < v.len() && v[k] == b;
            assert(v[k] == b && (k == 0 || p[k] <= i));
        } else {
            assert(depends(entries, context, visited[i], b));
            assert(reached_by(visited, parents, b, i));
            let k = choose|k: int|
                0 <= k < visited.len() && #[trigger] visited[k] == b && (k == 0 || parents[k] <= i);
            assert(v.take(visited.len() as int)[k] == v[k]);
            assert(p.take(visited.len() as int)[k] == p[k]);
            assert(v[k] == b);
        }
    }
}

/// The search finds a way exactly where there is one, and none is shorter.
proof fn lemma_explore(
    entries: Seq<EntryView>,
    context: WorkspaceClassContext,
    goal: Seq<char>,
    visited: Seq<Seq<char>>,
    parents: Seq<int>,
    head: int,
)
    requires
        0 <= head <= visited.len(),
        visit_inv(entries, context, visited, parents),
        reached_in_order(parents, head),
        reached_early(entries, context, visited, parents, head),
        !visited.contains(goal),
    ensures
        match explore(entries, context, goal, visited, parents, head) {
            Some(found) => is_way(entries, context, found) && found[0] == visited[0]
                && found.last() == goal && found.len() > 1 && forall|way: Seq<Seq<char>>| #[trigger]
                is_way(entries, context, way) && way[0] == visited[0] && way.last() == goal
                    ==> way.len() >= found.len(),
            None => forall|way: Seq<Seq<char>>| #[trigger]
                is_way(entries, context, way) && way[0] == visited[0] ==> way.last() != goal,
        },
    decreases targets_from(entries, 0).len() + 1 - head,
{
    lemma_visited_bound(entries, context, visited, parents);
    if head < visited.len() {
        let edges = edges_at(entries, visited[head], context);
        let (v, p) = visit(edges, 0, goal, visited, parents, head);
        lemma_visit(entries, context, 0, goal, visited, parents, head);
        assert(v.take(visited.len() as int)[0] == v[0]);
        if v.last() == goal {
            assert(v.len() > visited.len()) by {
                if v.len() == visited.len() {
                    assert(v.take(visited.len() as int) =~= v);
                    assert(visited.contains(visited.last()));
                }
            }
            lemma_way(entries, context, v, p, v.len() - 1);
            lemma_way_kept(visited, parents, v, p, head);
            let found = way_to(v, p, v.len() - 1);
            assert(found.len() == way_to(visited, parents, head).len() + 1);
            assert forall|way: Seq<Seq<char>>| #[trigger]
                is_way(entries, context, way) && way[0] == visited[0] && way.last()
                    == goal implies way.len() >= found.len() by {
                lemma_no_shorter(entries, context, visited, parents, head, way, 0, 0);
            }
        } else {
            lemma_reached_early(entries, context, visited, parents, v, p, head);
            lemma_explore(entries, context, goal, v, p, head + 1);
        }
    } else {
        assert(visit_closed(entries, context, visited, visited.len() as int)) by {
            assert forall|i: int, b: Seq<char>|
                #![trigger depends(entries, context, visited[i], b)]
                0 <= i < visited.len() && depends(
                    entries,
                    context,
                    visited[i],
                    b,
                ) implies visited.contains(b) by {
                assert(reached_by(visited, parents, b, i));
            }
        }
        assert forall|way: Seq<Seq<char>>| #[trigger]
            is_way(entries, context, way) && way[0] == visited[0] implies way.last() != goal by {
            lemma_stays(entries, context, visited, way, way.len() - 1);
        }
    }
}

/// A way from the first visited file stays among files that are closed under
/// dependencies.
proof fn lemma_stays(
    entries: Seq<EntryView>,
    context: WorkspaceClassContext,
    visited: Seq<Seq<char>>,
    way: Seq<Seq<char>>,
    i: int,
)
    requires
        visited.len() > 0,
        visit_closed(entries, context, visited, visited.len() as int),
        is_way(entries, context, way),
        way[0] == visited[0],
        0 <= i < way.len(),
    ensures
        visited.contains(way[i]),
    decreases i,
{
    if i == 0 {
        assert(visited.contains(visited[0]));
    } else {
        lemma_stays(entries, context, visited, way, i - 1);
        let k = choose|k: int| 0 <= k < visited.len() && visited[k] == way[i - 1];
        assert(way[i - 1] == visited[k]);
        assert(depends(entries, context, visited[k], way[i]));
    }
}

/// A dependency of `from` on another file `to` closes a cycle exactly where a
/// way of dependencies leads from `to` back to `from`, and one of `from` on
/// itself exactly where `from` depends on itself. The witness starts and ends
/// at `from`, has `to` as its second file, and leads along dependencies from
/// there; no way of dependencies from `to` back to `from` is shorter. Without
/// dependencies there is no witness.
pub proof fn law_cycle_witnesses(
    entries: Seq<EntryView>,
    from: Seq<char>,
    to: Seq<char>,
    context: WorkspaceClassContext,
)
    ensures
        match cycle_between(entries, from, to, context) {
            Some(cycle) => {
                &&& cycle.len() >= 2
                &&& cycle[0] == from
                &&& cycle[1] == to
                &&& cycle.last() == from
                &&& is_way(entries, context, cycle.skip(1))
                &&& from == to ==> is_way(entries, context, cycle)
                &&& forall|way: Seq<Seq<char>>| #[trigger]
                    is_way(entries, context, way) && way[0] == to && way.last() == from
                        ==> way.len() >= cycle.skip(1).len()
            },
            None => if from == to {
                !depends(entries, context, from, from)
            } else {
                forall|way: Seq<Seq<char>>| #[trigger]
                    is_way(entries, context, way) && way[0] == to ==> way.last() != from
            },
        },
        entries.len() == 0 ==> cycle_between(entries, from, to, context) is None,
{
    if from != to {
        let visited = seq![to];
        let parents = seq![0int];
        assert(!visited.contains(from));
        lemma_explore(entries, context, from, visited, parents, 0);
        if let Some(way) = explore(entries, context, from, visited, parents, 0) {
            assert((seq![from] + way).skip(1) =~= way);
            if entries.len() == 0 {
                assert(depends(entries, context, way[0], way[1]));
            }
        }
    } else {
        let cycle = seq![from, from];
        assert(cycle.skip(1) =~= seq![from]);
    }
}

// ---------------------------------------------------------------------------
// The index
// ---------------------------------------------------------------------------
/// A conservative index of BitBake metadata and its static workspace context.
///
/// [`WorkspaceIndex::from_paths`] deliberately considers only files supplied
/// by the caller, making single-file linting safe: semantic findings are
/// emitted only when a complete layer, including its `conf/layer.conf`, is
/// present in the input set. [`WorkspaceIndex::from_build_dir`] instead takes
/// the complete static scope declared by a build's `BBLAYERS`. Layer metadata
/// is used to build a deterministic BBPATH search order; layer priority
/// remains the fallback when the supplied metadata does not describe a more
/// specific path order.
#[derive(Clone, Debug)]
pub struct WorkspaceIndex {
    core: WorkspaceCore,
    dependencies: Vec<DependencyEntry>,
}

impl Default for WorkspaceIndex {
    /// The index of no files.
    fn default() -> (r: WorkspaceIndex)
        ensures
            r.wf(),
            r@ == index_of(
                Seq::empty(),
                Seq::empty(),
                Seq::empty(),
                TableView { resolved: Map::empty(), current: None },
            ),
    {
        let files: Vec<WorkspaceFile> = Vec::new();
        let none: Vec<String> = Vec::new();
        assert(workspace::file_views(files@) =~= Seq::empty());
        assert(collections::string_texts(none@) =~= Seq::empty());
        WorkspaceIndex::from_canonical_files(&files, &none, &none, PathTable::new(None))
    }
}

impl WorkspaceIndex {
    pub closed spec fn view(&self) -> IndexView {
        IndexView { core: self.core@, entries: entry_views(self.dependencies@) }
    }

    pub closed spec fn wf(&self) -> bool {
        self.core.wf()
    }

    fn from_canonical_files(
        files: &Vec<WorkspaceFile>,
        build_files: &Vec<String>,
        roots: &Vec<String>,
        table: PathTable,
    ) -> (r: WorkspaceIndex)
        requires
            workspace::sources_fit(workspace::file_views(files@)),
            table.wf(),
        ensures
            r.wf(),
            r@ == index_of(
                workspace::file_views(files@),
                collections::string_texts(build_files@),
                collections::string_texts(roots@),
                table@,
            ),
    {
        let core = WorkspaceCore::new(files, build_files, roots, table);
        let dependencies = build_dependencies(&core, files);
        WorkspaceIndex { core, dependencies }
    }

    /// Builds an index from metadata files with canonical paths. The layers
    /// are those whose `conf/layer.conf` is among the files.
    pub fn from_paths(files: &Vec<WorkspaceFile>, table: PathTable) -> (r: WorkspaceIndex)
        requires
            workspace::sources_fit(workspace::file_views(files@)),
            table.wf(),
        ensures
            r.wf(),
            r@ == index_of(
                workspace::file_views(files@),
                Seq::empty(),
                supplied_from(workspace::file_paths(workspace::file_views(files@)), 0),
                table@,
            ),
    {
        let ghost paths = workspace::file_paths(workspace::file_views(files@));
        let mut roots: Vec<String> = Vec::new();
        let mut k: usize = 0;
        assert(collections::string_texts(roots@) =~= Seq::empty());
        assert(Seq::<Seq<char>>::empty() + supplied_from(paths, 0) =~= supplied_from(paths, 0));
        while k < files.len()
            invariant
                k <= files@.len(),
                paths == workspace::file_paths(workspace::file_views(files@)),
                collections::string_texts(roots@) + supplied_from(paths, k as int) == supplied_from(paths, 0),
            decreases files@.len() - k,
        {
            assert(paths[k as int] == files@[k as int]@.path);
            let path = normal_path(files[k].path.as_str());
            if let Some(root) = supplied_layer_root_for(path.as_str()) {
                let ghost before = collections::string_texts(roots@);
                let ghost added = root@;
                push_text(&mut roots, root);
                proof {
                    let rest = supplied_from(paths, k + 1);
                    assert(before + (seq![added] + rest) =~= before.push(added) + rest);
                }
            }
            k += 1;
        }
        assert(collections::string_texts(roots@) + Seq::<Seq<char>>::empty() =~= collections::string_texts(roots@));
        let none: Vec<String> = Vec::new();
        assert(collections::string_texts(none@) =~= Seq::empty());
        WorkspaceIndex::from_canonical_files(files, &none, &roots, table)
    }

    /// Builds an index for every metadata file of the BitBake build that is
    /// configured in the directory `path`: the files of its layers and of its own
    /// configuration, of which `build_files` are the paths. `linked` says whether
    /// the path is a symbolic link, which is refused, and `facts` what else is
    /// known of it.
    pub fn from_build_dir(
        path: &str,
        linked: bool,
        facts: &BuildDirFacts,
        files: &Vec<WorkspaceFile>,
        build_files: &Vec<String>,
        layer_roots: &Vec<String>,
        table: PathTable,
    ) -> (r: Result<WorkspaceIndex, String>)
        requires
            workspace::sources_fit(workspace::file_views(files@)),
            table.wf(),
        ensures
            match build_layers::build_directory_fault(path@, linked, *facts) {
                Some(fault) => r matches Err(message) && message@ == fault,
                None => if build_files@.len() == 0 {
                    r matches Err(message) && message@
                        == "build configuration contains no metadata files"@
                } else {
                    r matches Ok(index) && index.wf() && index@ == index_of(
                        workspace::file_views(files@),
                        collections::string_texts(build_files@),
                        collections::string_texts(layer_roots@),
                        table@,
                    )
                },
            },
    {
        if let Err(message) = check_build_directory(path, linked, facts) {
            return Err(message);
        }
        if build_files.len() == 0 {
            return Err("build configuration contains no metadata files".to_owned());
        }
        Ok(WorkspaceIndex::from_canonical_files(files, build_files, layer_roots, table))
    }

    /// Every metadata file included in this workspace in stable path order.
    pub fn files(&self) -> (r: &Vec<String>)
        ensures
            collections::string_texts(r@) == self@.core.files,
    {
        self.core.files()
    }

    /// Whether a path has enough whole-workspace context for workspace-aware
    /// lint rules.
    pub fn is_workspace_file(&self, path: &str) -> (r: bool)
        requires
            self.wf(),
        ensures
            r == workspace_file(self@.core, path@),
    {
        self.core.is_workspace_file(path)
    }

    /// Whether path belongs to a complete indexed layer.
    pub fn is_complete_for(&self, path: &str) -> (r: bool)
        requires
            self.wf(),
        ensures
            r == workspace::complete_at(self@.core, workspace::canonical(self@.core.table, path@)),
    {
        self.core.is_complete_for(path)
    }

    /// Every statically declared layer collection in the indexed workspace.
    ///
    /// The result is useful for validating `LAYERDEPENDS_*` without exposing
    /// the index's internal layer representation.
    pub fn collection_names(&self) -> (r: Vec<String>)
        ensures
            collections::string_texts(r@) == orders::sorted_distinct(
                TextOrder::Plain,
                workspace::collections_from(self@.core.layers, 0),
            ),
    {
        self.core.collection_names()
    }

    /// All matching recipe class definitions in BitBake search order.
    pub fn class_candidates(&self, class: &str) -> (r: Vec<WorkspaceCandidate>)
        requires
            self.wf(),
        ensures
            workspace::candidate_views(r@) == workspace::class_candidates_of(
                self@.core,
                class@,
                WorkspaceClassContext::Recipe,
            ),
    {
        self.core.class_candidates_for(class, WorkspaceClassContext::Recipe)
    }

    /// All matching static class definitions for a BitBake parse context.
    pub fn class_candidates_for(&self, class: &str, context: WorkspaceClassContext) -> (r: Vec<
        WorkspaceCandidate,
    >)
        requires
            self.wf(),
        ensures
            workspace::candidate_views(r@) == workspace::class_candidates_of(self@.core, class@, context),
    {
        self.core.class_candidates_for(class, context)
    }

    /// Resolves a static class name against the indexed layer class files.
    pub fn resolve_class(&self, class: &str) -> (r: Option<String>)
        requires
            self.wf(),
        ensures
            collections::optional_text(r) == first_path(
                workspace::class_candidates_of(self@.core, class@, WorkspaceClassContext::Recipe),
            ),
    {
        self.resolve_class_for(class, WorkspaceClassContext::Recipe)
    }

    /// Resolves a static class name for a BitBake parse context.
    pub fn resolve_class_for(&self, class: &str, context: WorkspaceClassContext) -> (r: Option<
        String,
    >)
        requires
            self.wf(),
        ensures
            collections::optional_text(r) == first_path(workspace::class_candidates_of(self@.core, class@, context)),
    {
        first_candidate(&self.core.class_candidates_for(class, context))
    }

    /// The class namespace implied by an independently linted path.
    ///
    /// Configuration files and files in `classes-global` use global class
    /// lookup. Recipes, recipe classes, and otherwise ambiguous includes use
    /// recipe lookup.
    pub fn class_context_for_path(&self, path: &str) -> (r: WorkspaceClassContext)
        requires
            self.wf(),
        ensures
            r == workspace::contexts_of(workspace::canonical(self@.core.table, path@))[0],
    {
        self.class_contexts_for_path(path)[0]
    }

    /// Every class namespace in which a metadata file can be parsed.
    ///
    /// Generic classes and includes can be reached from either configuration
    /// or recipe parsing, so both contexts are returned for those paths.
    pub fn class_contexts_for_path(&self, path: &str) -> (r: Vec<WorkspaceClassContext>)
        requires
            self.wf(),
        ensures
            r@ == workspace::contexts_of(workspace::canonical(self@.core.table, path@)),
            r@.len() > 0,
    {
        dependency_contexts_for_path(self.core.canonical_path(path).as_str())
    }

    /// All matching static metadata files for a directive.
    pub fn file_candidates_for(
        &self,
        from: &str,
        target: &str,
        directive: WorkspaceFileDirective,
    ) -> (r: Vec<WorkspaceCandidate>)
        requires
            self.wf(),
        ensures
            workspace::candidate_views(r@) == workspace::file_candidates_of(self@.core, from@, target@, directive),
    {
        self.core.file_candidates_for(from, target, directive)
    }

    /// All matching static metadata files using require semantics.
    pub fn file_candidates(&self, from: &str, target: &str) -> (r: Vec<WorkspaceCandidate>)
        requires
            self.wf(),
        ensures
            workspace::candidate_views(r@) == workspace::file_candidates_of(
                self@.core,
                from@,
                target@,
                WorkspaceFileDirective::Require,
            ),
    {
        self.core.file_candidates_for(from, target, WorkspaceFileDirective::Require)
    }

    /// Resolves a static metadata file reference using require semantics.
    ///
    /// Relative references are checked beside the referencing file first and
    /// then through the effective BBPATH. The first candidate is returned.
    pub fn resolve_file(&self, from: &str, target: &str) -> (r: Option<String>)
        requires
            self.wf(),
        ensures
            collections::optional_text(r) == first_path(
                workspace::file_candidates_of(
                    self@.core,
                    from@,
                    target@,
                    WorkspaceFileDirective::Require,
                ),
            ),
    {
        first_candidate(&self.file_candidates(from, target))
    }

    /// Every file that include_all would parse.
    pub fn include_all_candidates(&self, from: &str, target: &str) -> (r: Vec<WorkspaceCandidate>)
        requires
            self.wf(),
        ensures
            workspace::candidate_views(r@) == workspace::file_candidates_of(
                self@.core,
                from@,
                target@,
                WorkspaceFileDirective::IncludeAll,
            ),
    {
        self.core.file_candidates_for(from, target, WorkspaceFileDirective::IncludeAll)
    }

    /// Whether the file `from` depends on the file `to`.
    fn depends_on(&self, from: &str, to: &str, context: WorkspaceClassContext) -> (r: bool)
        ensures
            r == depends(self@.entries, context, from@, to@),
    {
        let ghost entries = entry_views(self.dependencies@);
        let p = self.entry_position(from, context);
        if p >= self.dependencies.len() {
            return false;
        }
        assert(entries[p as int] == self.dependencies@[p as int]@);
        let edges = &self.dependencies[p].edges;
        let ghost views = edges_at(entries, from@, context);
        assert(views == edge_views(edges@));
        let mut k: usize = 0;
        while k < edges.len()
            invariant
                k <= edges@.len(),
                views == edge_views(edges@),
                views == edges_at(self@.entries, from@, context),
                forall|j: int| 0 <= j < k ==> (#[trigger] views[j]).path != to@,
            decreases edges@.len() - k,
        {
            assert(views[k as int] == edges@[k as int]@);
            if same_str(edges[k].path.as_str(), to) {
                return true;
            }
            k += 1;
        }
        false
    }

    fn entry_position(&self, path: &str, context: WorkspaceClassContext) -> (r: usize)
        ensures
            r == entry_from(self@.entries, path@, context, 0),
            r <= self.dependencies@.len(),
    {
        let ghost all = entry_views(self.dependencies@);
        let mut k: usize = 0;
        while k < self.dependencies.len()
            invariant
                k <= self.dependencies@.len(),
                all == entry_views(self.dependencies@),
                entry_from(all, path@, context, 0) == entry_from(all, path@, context, k as int),
            decreases self.dependencies@.len() - k,
        {
            assert(all[k as int] == self.dependencies@[k as int]@);
            if self.dependencies[k].context == context && same_str(
                self.dependencies[k].path.as_str(),
                path,
            ) {
                return k;
            }
            k += 1;
        }
        k
    }

    /// The resolved static dependency edges originating at `path`.
    ///
    /// Edges are built only for complete supplied layers. Dynamic directive
    /// arguments and unresolved optional includes are deliberately omitted.
    pub fn dependencies_from(&self, path: &str) -> (r: Vec<WorkspaceDependency>)
        requires
            self.wf(),
        ensures
            dependency_views(r@) == dependencies_of(self@, path@),
    {
        let from = self.core.canonical_path(path);
        let contexts = dependency_contexts_for_path(from.as_str());
        let ghost entries = entry_views(self.dependencies@);
        let ghost goal = listed_from_contexts(entries, from@, contexts@, 0, Seq::empty());
        let mut out: Vec<WorkspaceDependency> = Vec::new();
        let mut k: usize = 0;
        assert(dependency_views(out@) =~= Seq::empty());
        while k < contexts.len()
            invariant
                k <= contexts@.len(),
                entries == entry_views(self.dependencies@),
                listed_from_contexts(
                    entries,
                    from@,
                    contexts@,
                    k as int,
                    dependency_views(out@),
                ) == goal,
            decreases contexts@.len() - k,
        {
            let p = self.entry_position(from.as_str(), contexts[k]);
            if p < self.dependencies.len() {
                assert(entries[p as int] == self.dependencies@[p as int]@);
                list_edges(from.as_str(), &self.dependencies[p].edges, &mut out);
            }
            k += 1;
        }
        out
    }

    /// A deterministic cycle witness if a resolved edge from `from` to `to`
    /// closes a static workspace dependency cycle.
    ///
    /// The returned path starts and ends at `from`, with `to` as its second
    /// entry. An empty or dynamically unresolved graph never produces a cycle
    /// witness.
    pub fn dependency_cycle(&self, from: &str, to: &str) -> (r: Option<Vec<String>>)
        requires
            self.wf(),
        ensures
            match r {
                Some(cycle) => any_cycle(
                    self@,
                    from@,
                    to@,
                    workspace::contexts_of(workspace::canonical(self@.core.table, from@)),
                    0,
                ) == Some(collections::string_texts(cycle@)),
                None => any_cycle(
                    self@,
                    from@,
                    to@,
                    workspace::contexts_of(workspace::canonical(self@.core.table, from@)),
                    0,
                ) is None,
            },
    {
        let contexts = self.class_contexts_for_path(from);
        let ghost all = contexts@;
        let mut k: usize = 0;
        while k < contexts.len()
            invariant
                k <= contexts@.len(),
                self.wf(),
                all == contexts@,
                all == workspace::contexts_of(workspace::canonical(self@.core.table, from@)),
                any_cycle(self@, from@, to@, all, 0) == any_cycle(
                    self@,
                    from@,
                    to@,
                    all,
                    k as int,
                ),
            decreases contexts@.len() - k,
        {
            if let Some(cycle) = self.dependency_cycle_for(from, to, contexts[k]) {
                return Some(cycle);
            }
            k += 1;
        }
        None
    }

    /// A deterministic cycle witness in a specific BitBake parse context.
    pub fn dependency_cycle_for(
        &self,
        from: &str,
        to: &str,
        context: WorkspaceClassContext,
    ) -> (r: Option<Vec<String>>)
        requires
            self.wf(),
        ensures
            match r {
                Some(cycle) => cycle_of(self@, from@, to@, context) == Some(collections::string_texts(cycle@)),
                None => cycle_of(self@, from@, to@, context) is None,
            },
    {
        let goal = self.core.canonical_path(from);
        let start = self.core.canonical_path(to);
        let ghost entries = entry_views(self.dependencies@);
        if same_str(goal.as_str(), start.as_str()) {
            if !self.depends_on(goal.as_str(), goal.as_str(), context) {
                return None;
            }
            let mut cycle: Vec<String> = Vec::new();
            cycle.push(goal.clone());
            cycle.push(goal);
            assert(collections::string_texts(cycle@) =~= seq![start@, start@]);
            return Some(cycle);
        }
        let mut visited: Vec<String> = Vec::new();
        let mut parents: Vec<usize> = Vec::new();
        visited.push(start);
        parents.push(0);
        let mut head: usize = 0;
        proof {
            assert(collections::string_texts(visited@) =~= seq![start@]);
            assert(positions(parents@) =~= seq![0int]);
            assert(!seq![start@].contains(goal@));
        }
        while head < visited.len()
            invariant
                head <= visited@.len(),
                entries == entry_views(self.dependencies@),
                visit_inv(entries, context, collections::string_texts(visited@), positions(parents@)),
                reached_in_order(positions(parents@), head as int),
                !collections::string_texts(visited@).contains(goal@),
                explore(entries, context, goal@, seq![start@], seq![0int], 0) == explore(
                    entries,
                    context,
                    goal@,
                    collections::string_texts(visited@),
                    positions(parents@),
                    head as int,
                ),
                cycle_of(self@, from@, to@, context) == (match explore(
                    entries,
                    context,
                    goal@,
                    seq![start@],
                    seq![0int],
                    0,
                ) {
                    Some(way) => Some(seq![goal@] + way),
                    None => None,
                }),
            decreases targets_from(entries, 0).len() + 1 - head,
        {
            let ghost v0 = collections::string_texts(visited@);
            let ghost p0 = positions(parents@);
            proof {
                lemma_visited_bound(entries, context, v0, p0);
                lemma_visit(entries, context, 0, goal@, v0, p0, head as int);
                assert(v0[head as int] == visited@[head as int]@);
            }
            let p = self.entry_position(visited[head].as_str(), context);
            let mut found = false;
            if p < self.dependencies.len() {
                assert(entries[p as int] == self.dependencies@[p as int]@);
                found = visit_edges(
                    &self.dependencies[p].edges,
                    goal.as_str(),
                    &mut visited,
                    &mut parents,
                    head,
                );
            } else {
                assert(edges_at(entries, v0[head as int], context) =~= Seq::empty());
                assert(v0.contains(v0.last())) by {
                    assert(v0[v0.len() - 1] == v0.last());
                }
            }
            if found {
                let mut cycle = way_back(&visited, &parents);
                let ghost way = collections::string_texts(cycle@);
                cycle.insert(0, goal);
                assert(collections::string_texts(cycle@) =~= seq![goal@] + way);
                return Some(cycle);
            }
            head += 1;
        }
        None
    }
}

/// The path of the first of some candidates.
pub open spec fn first_path(found: Seq<CandidateView>) -> Option<Seq<char>> {
    if found.len() > 0 {
        Some(found[0].path)
    } else {
        None
    }
}

fn first_candidate(found: &Vec<WorkspaceCandidate>) -> (r: Option<String>)
    ensures
        collections::optional_text(r) == first_path(workspace::candidate_views(found@)),
{
    if found.len() > 0 {
        assert(workspace::candidate_views(found@)[0] == found@[0]@);
        Some(found[0].path().to_owned())
    } else {
        None
    }
}

fn list_edges(from: &str, edges: &Vec<DependencyEdge>, out: &mut Vec<WorkspaceDependency>)
    ensures
        dependency_views(final(out)@) == listed_edges(
            from@,
            edge_views(edges@),
            0,
            dependency_views(old(out)@),
        ),
{
    let ghost all = edge_views(edges@);
    let ghost goal = listed_edges(from@, all, 0, dependency_views(out@));
    let mut k: usize = 0;
    while k < edges.len()
        invariant
            k <= edges@.len(),
            all == edge_views(edges@),
            listed_edges(from@, all, k as int, dependency_views(out@)) == goal,
        decreases edges@.len() - k,
    {
        assert(all[k as int] == edges@[k as int]@);
        let next = WorkspaceDependency {
            from: from.to_owned(),
            to: edges[k].path.clone(),
            kind: edges[k].kind,
        };
        let ghost view = next@;
        let ghost before = dependency_views(out@);
        if !has_dependency(out, &next) {
            out.push(next);
            assert(dependency_views(out@) =~= before.push(view));
        }
        k += 1;
    }
}

fn has_dependency(items: &Vec<WorkspaceDependency>, wanted: &WorkspaceDependency) -> (r: bool)
    ensures
        r == dependency_views(items@).contains(wanted@),
{
    let ghost all = dependency_views(items@);
    let mut k: usize = 0;
    while k < items.len()
        invariant
            k <= items@.len(),
            all == dependency_views(items@),
            forall|j: int| 0 <= j < k ==> #[trigger] all[j] != wanted@,
        decreases items@.len() - k,
    {
        assert(all[k as int] == items@[k as int]@);
        if items[k].kind == wanted.kind && same_str(items[k].to.as_str(), wanted.to.as_str())
            && same_str(items[k].from.as_str(), wanted.from.as_str()) {
            return true;
        }
        k += 1;
    }
    false
}

spec fn positions(items: Seq<usize>) -> Seq<int> {
    items.map_values(|p: usize| p as int)
}

fn visit_edges(
    edges: &Vec<DependencyEdge>,
    goal: &str,
    visited: &mut Vec<String>,
    parents: &mut Vec<usize>,
    head: usize,
) -> (r: bool)
    requires
        old(visited)@.len() > 0,
        !collections::string_texts(old(visited)@).contains(goal@),
    ensures
        (collections::string_texts(final(visited)@), positions(final(parents)@)) == visit(
            edge_views(edges@),
            0,
            goal@,
            collections::string_texts(old(visited)@),
            positions(old(parents)@),
            head as int,
        ),
        r == (collections::string_texts(final(visited)@).last() == goal@),
        final(visited)@.len() >= old(visited)@.len(),
{
    let ghost all = edge_views(edges@);
    let ghost end = visit(
        all,
        0,
        goal@,
        collections::string_texts(visited@),
        positions(parents@),
        head as int,
    );
    let mut k: usize = 0;
    while k < edges.len()
        invariant
            k <= edges@.len(),
            all == edge_views(edges@),
            end == visit(
                all,
                0,
                goal@,
                collections::string_texts(old(visited)@),
                positions(old(parents)@),
                head as int,
            ),
            visited@.len() > 0,
            visited@.len() >= old(visited)@.len(),
            !collections::string_texts(visited@).contains(goal@),
            visit(
                all,
                k as int,
                goal@,
                collections::string_texts(visited@),
                positions(parents@),
                head as int,
            ) == end,
        decreases edges@.len() - k,
    {
        assert(all[k as int] == edges@[k as int]@);
        let path = edges[k].path.as_str();
        let ghost v = collections::string_texts(visited@);
        let ghost p = positions(parents@);
        if !has_text(visited, path) {
            push_text(visited, path.to_owned());
            parents.push(head);
            assert(positions(parents@) =~= p.push(head as int));
            if same_str(path, goal) {
                return true;
            }
            assert(!v.push(path@).contains(goal@)) by {
                if v.push(path@).contains(goal@) {
                    let i = choose|i: int| 0 <= i < v.push(path@).len() && v.push(path@)[i] == goal@;
                    assert(v[i] == goal@);
                }
            }
        }
        k += 1;
    }
    proof {
        let v = collections::string_texts(visited@);
        assert(v[v.len() - 1] == v.last());
    }
    false
}

/// The files on the way from the first visited one to the last.
fn way_back(visited: &Vec<String>, parents: &Vec<usize>) -> (r: Vec<String>)
    requires
        visited@.len() > 0,
        visited@.len() == parents@.len(),
    ensures
        collections::string_texts(r@) == way_to(
            collections::string_texts(visited@),
            positions(parents@),
            visited@.len() - 1,
        ),
{
    let ghost v = collections::string_texts(visited@);
    let ghost p = positions(parents@);
    let mut out: Vec<String> = Vec::new();
    let mut i: usize = visited.len() - 1;
    assert(collections::string_texts(out@) =~= Seq::empty());
    assert(way_to(v, p, i as int) + Seq::<Seq<char>>::empty() =~= way_to(v, p, i as int));
    while i > 0 && parents[i] < i
        invariant
            i < visited@.len(),
            visited@.len() == parents@.len(),
            v == collections::string_texts(visited@),
            p == positions(parents@),
            way_to(v, p, i as int) + collections::string_texts(out@) == way_to(v, p, visited@.len() - 1),
        decreases i,
    {
        let ghost before = collections::string_texts(out@);
        assert(v[i as int] == visited@[i as int]@);
        assert(p[i as int] == parents@[i as int]);
        out.insert(0, visited[i].clone());
        proof {
            assert(collections::string_texts(out@) =~= seq![v[i as int]] + before);
            let rest = way_to(v, p, p[i as int]);
            assert(rest.push(v[i as int]) + before =~= rest + (seq![v[i as int]] + before));
        }
        i = parents[i];
    }
    let ghost before = collections::string_texts(out@);
    proof {
        assert(v[0] == visited@[0]@);
        if i > 0 {
            assert(p[i as int] == parents@[i as int]);
        }
    }
    out.insert(0, visited[0].clone());
    assert(collections::string_texts(out@) =~= seq![v[0]] + before);
    out
}

// ---------------------------------------------------------------------------
// Lookups
// ---------------------------------------------------------------------------
/// The path at which a directive of the file at `path` first looks for `word`.
pub open spec fn looked_up(path: Seq<char>, word: Seq<char>, directive: WorkspaceFileDirective) -> Option<
    Seq<char>,
> {
    if paths::is_rooted(word) {
        Some(word)
    } else if directive == WorkspaceFileDirective::IncludeAll {
        None
    } else {
        match paths::parent(path) {
            Some(directory) => Some(paths::joined_path(directory, word)),
            None => None,
        }
    }
}

/// The paths at which a directive of the file at `path` looks for `words[k..]`.
pub open spec fn lookups_of(
    path: Seq<char>,
    directive: WorkspaceFileDirective,
    words: Seq<Seq<char>>,
    k: int,
) -> Seq<Seq<char>>
    decreases words.len() - k,
{
    if k < 0 || k >= words.len() {
        Seq::empty()
    } else {
        (match looked_up(path, words[k], directive) {
            Some(found) => seq![found],
            None => Seq::empty(),
        }) + lookups_of(path, directive, words, k + 1)
    }
}

/// The paths at which the statements `s[k..]` of the file at `path` look for
/// files.
pub open spec fn lookups_from(path: Seq<char>, s: Seq<StatementView>, k: int) -> Seq<Seq<char>>
    decreases s.len() - k,
{
    if k < 0 || k >= s.len() {
        Seq::empty()
    } else {
        (match s[k] {
            StatementView::Directive(d) => match directive_reference(d.keyword) {
                Some(ReferenceView::Files(directive, _)) => lookups_of(
                    path,
                    directive,
                    static_texts(checks::argument_code(d)),
                    0,
                ),
                _ => Seq::empty(),
            },
            _ => Seq::empty(),
        }) + lookups_from(path, s, k + 1)
    }
}

/// The path at which a directive of the file at `path` first looks for `word`.
fn lookup_path(path: &str, word: &str, directive: WorkspaceFileDirective) -> (r: Option<String>)
    ensures
        collections::optional_text(r) == looked_up(path@, word@, directive),
{
    if is_absolute(word) {
        return Some(word.to_owned());
    }
    if directive == WorkspaceFileDirective::IncludeAll {
        return None;
    }
    match path_parent(path) {
        Some(directory) => Some(join_path(directory.as_str(), word)),
        None => None,
    }
}

fn add_lookups(
    path: &str,
    directive: WorkspaceFileDirective,
    words: &Vec<String>,
    found: &mut Vec<String>,
)
    ensures
        collections::string_texts(final(found)@) == collections::string_texts(old(found)@)
            + lookups_of(path@, directive, collections::string_texts(words@), 0),
{
    let ghost texts = collections::string_texts(words@);
    let ghost goal = collections::string_texts(found@) + lookups_of(path@, directive, texts, 0);
    let mut k: usize = 0;
    while k < words.len()
        invariant
            k <= words@.len(),
            texts == collections::string_texts(words@),
            collections::string_texts(found@) + lookups_of(path@, directive, texts, k as int)
                == goal,
        decreases words@.len() - k,
    {
        assert(texts[k as int] == words@[k as int]@);
        let ghost before = collections::string_texts(found@);
        let ghost rest = lookups_of(path@, directive, texts, k + 1);
        if let Some(next) = lookup_path(path, words[k].as_str(), directive) {
            let ghost x = next@;
            push_text(found, next);
            assert(before + (seq![x] + rest) =~= before.push(x) + rest);
        } else {
            assert(before + (Seq::<Seq<char>>::empty() + rest) =~= before + rest);
        }
        k += 1;
    }
    assert(collections::string_texts(found@) =~= goal);
}

/// The paths at which the file directives of the file at `path` look for
/// static names before any search path: absolute names, and others beside the
/// file. A source that cannot be parsed has none.
pub fn lookup_paths(path: &str, source: &str) -> (r: Vec<String>)
    requires
        text::byte_len(source@) < usize::MAX,
    ensures
        collections::string_texts(r@) == match syntax::nodes_of(source@) {
            Ok(_) => lookups_from(path@, statements::statements_of(source@), 0),
            Err(_) => Seq::empty(),
        },
{
    let mut found: Vec<String> = Vec::new();
    assert(collections::string_texts(found@) =~= Seq::empty());
    let tree = match parse(source) {
        Ok(tree) => tree,
        Err(_) => {
            return found;
        },
    };
    let items = statements(&tree);
    let ghost all = statements::statement_views(items@);
    let ghost goal = lookups_from(path@, all, 0);
    let mut k: usize = 0;
    assert(Seq::<Seq<char>>::empty() + goal =~= goal);
    while k < items.len()
        invariant
            k <= items@.len(),
            all == statements::statement_views(items@),
            collections::string_texts(found@) + lookups_from(path@, all, k as int) == goal,
        decreases items@.len() - k,
    {
        assert(all[k as int] == items@[k as int]@);
        let ghost before = collections::string_texts(found@);
        let ghost rest = lookups_from(path@, all, k + 1);
        if let Statement::Directive(d) = &items[k] {
            if let Some(Reference::Files(directive, _)) = reference_for(d.keyword) {
                let end = comment_start(d.arguments.as_slice());
                let code = slice_subrange(d.arguments.as_slice(), 0, end);
                assert(code@ =~= checks::argument_code(d@));
                let words = static_directive_words(code);
                add_lookups(path, directive, &words, &mut found);
                proof {
                    let now = lookups_of(path@, directive, static_texts(code@), 0);
                    assert(before + (now + rest) =~= (before + now) + rest);
                }
            } else {
                assert(before + (Seq::<Seq<char>>::empty() + rest) =~= before + rest);
            }
        } else {
            assert(before + (Seq::<Seq<char>>::empty() + rest) =~= before + rest);
        }
        k += 1;
    }
    assert(collections::string_texts(found@) =~= goal);
    found
}

} // verus!
