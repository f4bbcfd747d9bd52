//! What the search for a class finds.
use crate::collections;
use crate::dependencies;
use crate::layers;
use crate::orders;
use crate::paths;
use crate::text;
use crate::values;
use crate::workspace;
use crate::orders::TextOrder;
use crate::workspace::CandidateView;
use crate::workspace::CoreView;
use crate::workspace::FileView;
use crate::workspace::LayerView;
use crate::workspace::TableView;
use crate::workspace::WorkspaceClassContext;
use crate::workspace::WorkspaceFileDirective;
use crate::workspace::WorkspaceSearchScope;
use vstd::prelude::*;

verus! {

// ---------------------------------------------------------------------------
// Layers
// ---------------------------------------------------------------------------
/// The files of every layer are files of the workspace.
spec fn own_files(layers: Seq<LayerView>, files: Seq<Seq<char>>) -> bool {
    forall|k: int, path: Seq<char>|
        0 <= k < layers.len() && #[trigger] layers[k].files.contains(path) ==> files.contains(path)
}

proof fn lemma_below_is_file(paths: Seq<Seq<char>>, root: Seq<char>, k: int, path: Seq<char>)
    requires
        0 <= k <= paths.len(),
        workspace::below_from(paths, root, k).contains(path),
    ensures
        paths.contains(path),
    decreases paths.len() - k,
{
    if k < paths.len() {
        let rest = workspace::below_from(paths, root, k + 1);
        let all = workspace::below_from(paths, root, k);
        let j = choose|j: int| 0 <= j < all.len() && all[j] == path;
        if paths::is_below(paths[k], root) {
            if j == 0 {
                assert(paths[k] == path);
            } else {
                assert(rest[j - 1] == path);
                lemma_below_is_file(paths, root, k + 1, path);
            }
        } else {
            lemma_below_is_file(paths, root, k + 1, path);
        }
    }
}

proof fn lemma_layer_files(roots: Seq<Seq<char>>, files: Seq<FileView>, paths: Seq<Seq<char>>)
    ensures
        own_files(workspace::ranked_layers(roots, files, paths), paths),
    decreases roots.len(),
{
    if roots.len() > 0 {
        lemma_layer_files(roots.drop_last(), files, paths);
        let before = workspace::ranked_layers(roots.drop_last(), files, paths);
        let layer = workspace::layer_of(roots.last(), files, paths);
        let p = workspace::rank_place(before, layer, before.len() as int);
        workspace::lemma_rank_place(before, layer, before.len() as int);
        let all = workspace::ranked_layers(roots, files, paths);
        assert forall|k: int, path: Seq<char>|
            0 <= k < all.len() && #[trigger] all[k].files.contains(path) implies paths.contains(
            path,
        ) by {
            if k < p {
                assert(all[k] == before[k]);
            } else if k == p {
                lemma_below_is_file(paths, roots.last(), 0, path);
            } else {
                assert(all[k] == before[k - 1]);
            }
        }
    }
}

/// Every directory that is searched has a layer.
spec fn owned(search: Seq<(Seq<char>, int)>, n: int) -> bool {
    forall|k: int| 0 <= k < search.len() ==> 0 <= (#[trigger] search[k]).1 < n
}

proof fn lemma_owner(layers: Seq<LayerView>, path: Seq<char>, k: int, layer: int)
    requires
        0 <= k <= layers.len(),
        0 <= layer < layers.len(),
    ensures
        0 <= workspace::owner_from(layers, path, k, layer) < layers.len(),
    decreases layers.len() - k,
{
    if k < layers.len() {
        lemma_owner(layers, path, k + 1, layer);
        lemma_owner(layers, path, k + 1, k);
    }
}

proof fn lemma_layer_search(
    found: Seq<(Seq<char>, int)>,
    layers: Seq<LayerView>,
    layer: int,
    paths: Seq<Seq<char>>,
    k: int,
    table: TableView,
)
    requires
        0 <= layer < layers.len(),
        0 <= k <= paths.len(),
        owned(found, layers.len() as int),
    ensures
        owned(
            workspace::layer_search_from(found, layers, layer, paths, k, table),
            layers.len() as int,
        ),
    decreases paths.len() - k,
{
    if k < paths.len() {
        let path = workspace::canonical(table, paths[k]);
        lemma_owner(layers, path, 0, layer);
        lemma_layer_search(
            workspace::with_search(found, layers, layer, path),
            layers,
            layer,
            paths,
            k + 1,
            table,
        );
    }
}

proof fn lemma_search(
    found: Seq<(Seq<char>, int)>,
    layers: Seq<LayerView>,
    k: int,
    table: TableView,
)
    requires
        0 <= k <= layers.len(),
        owned(found, layers.len() as int),
    ensures
        owned(workspace::search_from(found, layers, k, table), layers.len() as int),
    decreases layers.len() - k,
{
    if k < layers.len() {
        let paths = workspace::layer_paths(layers[k]);
        lemma_layer_search(found, layers, k, paths, 0, table);
        lemma_search(
            workspace::layer_search_from(found, layers, k, paths, 0, table),
            layers,
            k + 1,
            table,
        );
    }
}

// ---------------------------------------------------------------------------
// Names
// ---------------------------------------------------------------------------
/// Whether a path ends in the file of a class.
pub open spec fn names_class(path: Seq<char>, class: Seq<char>) -> bool {
    let name = "/"@ + class + ".bbclass"@;
    path.len() >= name.len() && path.skip(path.len() - name.len()) == name
}

/// The last piece of a text is what follows its last separator.
proof fn lemma_last_piece(t: Seq<char>, c: char, i: int, n: int)
    requires
        0 <= i <= n <= t.len(),
        i == n || t[n - 1] == c,
        forall|k: int| n <= k < t.len() ==> #[trigger] t[k] != c,
    ensures
        values::pieces_from(t, c, i).len() > 0,
        values::pieces_from(t, c, i).last() == (n, t.len() as int),
    decreases t.len() - i,
{
    text::lemma_find(t, c, i);
    let e = text::find_from(t, c, i);
    if i < n {
        assert(e < n) by {
            if e >= n {
                assert(t[n - 1] != c);
            }
        }
        lemma_last_piece(t, c, e + 1, n);
        let rest = values::pieces_from(t, c, e + 1);
        assert((seq![(i, e)] + rest).last() == rest.last());
    } else {
        assert(e == t.len());
    }
}

proof fn lemma_last_part(pieces: Seq<Seq<char>>, k: int)
    requires
        0 <= k < pieces.len(),
        paths::is_part(pieces.last()),
    ensures
        paths::parts_from(pieces, k).len() > 0,
        paths::parts_from(pieces, k).last() == pieces.last(),
    decreases pieces.len() - k,
{
    if k + 1 < pieces.len() {
        lemma_last_part(pieces, k + 1);
        let rest = paths::parts_from(pieces, k + 1);
        assert((seq![pieces[k]] + rest).last() == rest.last());
    } else {
        assert(paths::parts_from(pieces, k + 1) =~= Seq::empty());
        assert(paths::parts_from(pieces, k) =~= seq![pieces[k]]);
    }
}

/// The normal form of a path that ends in a file ends in it.
proof fn lemma_normal_name(before: Seq<char>, class: Seq<char>)
    requires
        !values::holds_either(class, '/', '\\'),
    ensures
        names_class(workspace::normal(before + "/"@ + class + ".bbclass"@), class),
{
    reveal_strlit("/");
    reveal_strlit(".bbclass");
    assert("/"@ =~= seq!['/']);
    let name = class + ".bbclass"@;
    let suffix = "/"@ + class + ".bbclass"@;
    assert(suffix =~= seq!['/'] + name);
    let path = before + "/"@ + class + ".bbclass"@;
    assert(path =~= before + suffix);
    if paths::is_rooted(path) {
        let n = before.len() as int + 1;
        assert(path[n - 1] == '/');
        assert forall|k: int| n <= k < path.len() implies #[trigger] path[k] != '/' by {
            if k - n < class.len() {
                assert(path[k] == class[k - n]);
            } else {
                assert(path[k] == ".bbclass"@[k - n - class.len()]);
            }
        }
        lemma_last_piece(path, '/', 0, n);
        let pieces = values::pieces(path, '/');
        let ranges = values::pieces_of(path, '/');
        assert(pieces.last() == path.subrange(ranges.last().0, ranges.last().1));
        assert(pieces.last() =~= name);
        assert(name.len() >= 8);
        lemma_last_part(pieces, 0);
        let parts = paths::path_parts(path);
        assert(parts.last() == name);
        let out = paths::tidy(path);
        let head = if parts.len() == 1 {
            Seq::empty()
        } else {
            "/"@ + collections::joined(parts.drop_last(), "/"@)
        };
        assert(out =~= head + suffix);
        assert(out.skip(head.len() as int) =~= suffix);
    } else {
        assert(path.skip(before.len() as int) =~= suffix);
    }
}

// ---------------------------------------------------------------------------
// Candidates
// ---------------------------------------------------------------------------
/// The candidates are files of the workspace that name the class, no two of
/// them the same, and those from `n` on have the scope `scope`.
spec fn sound(
    core: CoreView,
    class: Seq<char>,
    found: Seq<CandidateView>,
    n: int,
    scope: WorkspaceSearchScope,
) -> bool {
    &&& forall|i: int|
        0 <= i < found.len() ==> core.files.contains((#[trigger] found[i]).path) && names_class(
            found[i].path,
            class,
        )
    &&& forall|i: int, j: int|
        0 <= i < j < found.len() ==> (#[trigger] found[i]).path != (#[trigger] found[j]).path
    &&& forall|i: int| n <= i < found.len() ==> (#[trigger] found[i]).scope == scope
}

proof fn lemma_class_from(
    core: CoreView,
    class: Seq<char>,
    directory: Seq<char>,
    scope: WorkspaceSearchScope,
    k: int,
    found: Seq<CandidateView>,
    n: int,
)
    requires
        0 <= k <= core.search.len(),
        own_files(core.layers, core.files),
        owned(core.search, core.layers.len() as int),
        !values::holds_either(class, '/', '\\'),
        0 <= n <= found.len(),
        sound(core, class, found, n, scope),
    ensures
        ({
            let all = workspace::class_from(core, class, directory, scope, k, found);
            &&& sound(core, class, all, n, scope)
            &&& found.len() <= all.len()
            &&& forall|i: int| 0 <= i < found.len() ==> #[trigger] all[i] == found[i]
        }),
    decreases core.search.len() - k,
{
    if k < core.search.len() {
        let path = workspace::normal(
            core.search[k].0 + "/"@ + directory + "/"@ + class + ".bbclass"@,
        );
        let layer = core.layers[core.search[k].1];
        lemma_normal_name(core.search[k].0 + "/"@ + directory, class);
        let next = if layer.files.contains(path) {
            workspace::with_candidate(found, workspace::layer_candidate(layer, path, scope))
        } else {
            found
        };
        lemma_class_from(core, class, directory, scope, k + 1, next, n);
        let all = workspace::class_from(core, class, directory, scope, k, found);
        assert forall|i: int| 0 <= i < found.len() implies #[trigger] all[i] == found[i] by {
            assert(next[i] == found[i]);
        }
    }
}

// ---------------------------------------------------------------------------
// Laws
// ---------------------------------------------------------------------------
/// The scope of the class directory that a context searches first.
pub open spec fn first_scope(context: WorkspaceClassContext) -> WorkspaceSearchScope {
    match context {
        WorkspaceClassContext::Global => WorkspaceSearchScope::ClassesGlobal,
        WorkspaceClassContext::Recipe => WorkspaceSearchScope::ClassesRecipe,
    }
}

/// The candidates before the position `n` are of the directory that the context
/// searches first, those from it on of the shared directory.
pub open spec fn shared_from(
    found: Seq<CandidateView>,
    context: WorkspaceClassContext,
    n: int,
) -> bool {
    &&& 0 <= n <= found.len()
    &&& forall|i: int| 0 <= i < n ==> (#[trigger] found[i]).scope == first_scope(context)
    &&& forall|i: int|
        n <= i < found.len() ==> (#[trigger] found[i]).scope == WorkspaceSearchScope::Classes
}

/// The search for a class in a workspace: a name that is empty or holds a slash
/// or a backslash finds nothing. What another name finds are files of the
/// workspace, no two of them the same, each called after the class with the
/// extension `.bbclass`; those of the directory that the context searches
/// first come before those of the shared directory. The class resolves to the
/// first, and to none exactly where nothing is found.
pub proof fn law_class_search(
    files: Seq<FileView>,
    build_files: Seq<Seq<char>>,
    roots: Seq<Seq<char>>,
    table: TableView,
    class: Seq<char>,
    context: WorkspaceClassContext,
)
    ensures
        ({
            let core = workspace::core_of(files, build_files, roots, table);
            let found = workspace::class_candidates_of(core, class, context);
            &&& class.len() == 0 || class.contains('/') || class.contains('\\') ==> found.len() == 0
            &&& forall|i: int|
                0 <= i < found.len() ==> core.files.contains((#[trigger] found[i]).path)
                    && names_class(found[i].path, class)
            &&& forall|i: int, j: int|
                0 <= i < j < found.len() ==> (#[trigger] found[i]).path != (
                #[trigger] found[j]).path
            &&& exists|n: int| #[trigger] shared_from(found, context, n)
            &&& dependencies::first_path(found) == if found.len() > 0 {
                Some(found[0].path)
            } else {
                None
            }
        }),
{
    let core = workspace::core_of(files, build_files, roots, table);
    let found = workspace::class_candidates_of(core, class, context);
    lemma_layer_files(
        orders::sorted_distinct(TextOrder::Path, roots),
        files,
        core.files,
    );
    lemma_search(Seq::empty(), core.layers, 0, table);
    if class.len() == 0 || values::holds_either(class, '/', '\\') {
        assert(shared_from(found, context, 0));
    } else {
        let directory = match context {
            WorkspaceClassContext::Global => "classes-global"@,
            WorkspaceClassContext::Recipe => "classes-recipe"@,
        };
        let scope = first_scope(context);
        lemma_class_from(core, class, directory, scope, 0, Seq::empty(), 0);
        let first = workspace::class_from(core, class, directory, scope, 0, Seq::empty());
        let n = first.len() as int;
        lemma_class_from(core, class, "classes"@, WorkspaceSearchScope::Classes, 0, first, n);
        assert(shared_from(found, context, n));
    }
}

/// Layers are searched by priority, the highest first: no layer comes before one
/// with a higher priority, and every root has its layer.
pub proof fn law_layers_are_ranked_by_priority(
    roots: Seq<Seq<char>>,
    files: Seq<FileView>,
    paths: Seq<Seq<char>>,
)
    ensures
        ({
            let found = workspace::ranked_layers(roots, files, paths);
            &&& found.len() == roots.len()
            &&& forall|i: int, j: int|
                0 <= i < j < found.len() ==> layers::layer_priority((#[trigger] found[i]).metadata)
                    >= layers::layer_priority((#[trigger] found[j]).metadata)
            &&& forall|r: int|
                0 <= r < roots.len() ==> found.contains(
                    #[trigger] workspace::layer_of(roots[r], files, paths),
                )
        }),
    decreases roots.len(),
{
    if roots.len() > 0 {
        let front = roots.drop_last();
        law_layers_are_ranked_by_priority(front, files, paths);
        let before = workspace::ranked_layers(front, files, paths);
        let layer = workspace::layer_of(roots.last(), files, paths);
        let n = before.len() as int;
        let p = workspace::rank_place(before, layer, n);
        workspace::lemma_rank_place(before, layer, n);
        lemma_rank(before, layer, n);
        let found = before.insert(p, layer);
        assert(workspace::ranked_layers(roots, files, paths) == found);
        assert forall|i: int, j: int| 0 <= i < j < found.len() implies layers::layer_priority(
            (#[trigger] found[i]).metadata,
        ) >= layers::layer_priority((#[trigger] found[j]).metadata) by {
            if j < p {
                assert(found[i] == before[i] && found[j] == before[j]);
            } else if j == p {
                assert(found[i] == before[i]);
                if i < p - 1 {
                    assert(layers::layer_priority(before[i].metadata) >= layers::layer_priority(
                        before[p - 1].metadata,
                    ));
                }
            } else if i < p {
                assert(found[i] == before[i] && found[j] == before[j - 1]);
            } else if i == p {
                assert(found[j] == before[j - 1]);
            } else {
                assert(found[i] == before[i - 1] && found[j] == before[j - 1]);
            }
        }
        assert forall|r: int| 0 <= r < roots.len() implies found.contains(
            #[trigger] workspace::layer_of(roots[r], files, paths),
        ) by {
            let own = workspace::layer_of(roots[r], files, paths);
            if r < front.len() {
                assert(front[r] == roots[r]);
                assert(before.contains(own));
                let i = choose|i: int| 0 <= i < before.len() && before[i] == own;
                if i < p {
                    assert(found[i] == own);
                } else {
                    assert(found[i + 1] == own);
                }
            } else {
                assert(found[p] == own);
            }
        }
    }
}

/// A layer is placed behind those it is not ranked before, and in front of the
/// others.
proof fn lemma_rank(layers: Seq<LayerView>, x: LayerView, k: int)
    requires
        0 <= k <= layers.len(),
    ensures
        ({
            let p = workspace::rank_place(layers, x, k);
            &&& p > 0 ==> !workspace::ranked_before(x, layers[p - 1])
            &&& forall|i: int| p <= i < k ==> workspace::ranked_before(x, #[trigger] layers[i])
        }),
    decreases k,
{
    if k > 0 && workspace::ranked_before(x, layers[k - 1]) {
        lemma_rank(layers, x, k - 1);
    }
}

/// The file of a class in a directory of search path `k`.
pub open spec fn class_path(core: CoreView, class: Seq<char>, directory: Seq<char>, k: int) -> Seq<char> {
    workspace::normal(core.search[k].0 + "/"@ + directory + "/"@ + class + ".bbclass"@)
}

/// Whether the layer of search path `k` holds the file of a class.
pub open spec fn class_hit(core: CoreView, class: Seq<char>, directory: Seq<char>, k: int) -> bool {
    0 <= k < core.search.len() && core.layers[core.search[k].1].files.contains(
        class_path(core, class, directory, k),
    )
}

/// The files of a class are found behind those found before, in the order of
/// the search paths.
proof fn lemma_class_hits(
    core: CoreView,
    class: Seq<char>,
    directory: Seq<char>,
    scope: WorkspaceSearchScope,
    k: int,
    found: Seq<CandidateView>,
)
    requires
        0 <= k <= core.search.len(),
    ensures
        ({
            let all = workspace::class_from(core, class, directory, scope, k, found);
            &&& found.len() <= all.len()
            &&& all.take(found.len() as int) == found
            &&& forall|path: Seq<char>|
                #[trigger] workspace::offers(all, path) <==> workspace::offers(found, path)
                    || exists|j: int|
                    k <= j && #[trigger] class_hit(core, class, directory, j) && class_path(
                        core,
                        class,
                        directory,
                        j,
                    ) == path
            &&& found.len() == 0 && all.len() > 0 ==> exists|j: int|
                k <= j && #[trigger] class_hit(core, class, directory, j) && all[0]
                    == workspace::layer_candidate(
                    core.layers[core.search[j].1],
                    class_path(core, class, directory, j),
                    scope,
                ) && forall|i: int| k <= i < j ==> !(#[trigger] class_hit(core, class, directory, i))
        }),
    decreases core.search.len() - k,
{
    let all = workspace::class_from(core, class, directory, scope, k, found);
    if k < core.search.len() {
        let path = class_path(core, class, directory, k);
        let layer = core.layers[core.search[k].1];
        let c = workspace::layer_candidate(layer, path, scope);
        let hit = class_hit(core, class, directory, k);
        let next = if hit {
            workspace::with_candidate(found, c)
        } else {
            found
        };
        lemma_class_hits(core, class, directory, scope, k + 1, next);
        assert(all == workspace::class_from(core, class, directory, scope, k + 1, next));
        assert(all.take(found.len() as int) =~= found) by {
            assert(all.take(next.len() as int) == next);
            assert forall|i: int| 0 <= i < found.len() implies #[trigger] all[i] == found[i] by {
                assert(all.take(next.len() as int)[i] == next[i]);
            }
        }
        lemma_offers_more(found, c);
        assert forall|p: Seq<char>| #[trigger] workspace::offers(all, p) <==> workspace::offers(
            found,
            p,
        ) || exists|j: int|
            k <= j && #[trigger] class_hit(core, class, directory, j) && class_path(
                core,
                class,
                directory,
                j,
            ) == p by {
            assert(workspace::offers(next, p) <==> workspace::offers(found, p) || (hit && path == p));
            if exists|j: int|
                k <= j && #[trigger] class_hit(core, class, directory, j) && class_path(
                    core,
                    class,
                    directory,
                    j,
                ) == p {
                let j = choose|j: int|
                    k <= j && #[trigger] class_hit(core, class, directory, j) && class_path(
                        core,
                        class,
                        directory,
                        j,
                    ) == p;
                if j > k {
                    assert(k + 1 <= j && class_hit(core, class, directory, j));
                }
            }
        }
        if found.len() == 0 && all.len() > 0 {
            if hit {
                assert(next =~= seq![c]) by {
                    assert(!workspace::offers(found, path));
                }
                assert(all.take(1)[0] == c);
                assert(all[0] == c);
            } else {
                let j = choose|j: int|
                    k + 1 <= j && #[trigger] class_hit(core, class, directory, j) && all[0]
                        == workspace::layer_candidate(
                        core.layers[core.search[j].1],
                        class_path(core, class, directory, j),
                        scope,
                    ) && forall|i: int|
                        k + 1 <= i < j ==> !(#[trigger] class_hit(core, class, directory, i));
                assert(k <= j && class_hit(core, class, directory, j));
            }
        }
    } else {
        assert(all.take(found.len() as int) =~= found);
        assert forall|j: int| k <= j implies !(#[trigger] class_hit(core, class, directory, j)) by {}
    }
}

proof fn lemma_offers_more(found: Seq<CandidateView>, c: CandidateView)
    ensures
        forall|path: Seq<char>|
            #[trigger] workspace::offers(workspace::with_candidate(found, c), path)
                <==> workspace::offers(found, path) || c.path == path,
{
    assert forall|path: Seq<char>|
        #[trigger] workspace::offers(workspace::with_candidate(found, c), path)
            <==> workspace::offers(found, path) || c.path == path by {
        let more = workspace::with_candidate(found, c);
        if workspace::offers(found, path) {
            let k = choose|k: int| 0 <= k < found.len() && (#[trigger] found[k]).path == path;
            assert(more[k] == found[k]);
        }
        if c.path == path && !workspace::offers(found, c.path) {
            assert(more[found.len() as int] == c);
        }
        if workspace::offers(more, path) {
            let k = choose|k: int| 0 <= k < more.len() && (#[trigger] more[k]).path == path;
            if k < found.len() {
                assert(found[k] == more[k]);
            }
        }
    }
}

/// The directory that a context searches first.
pub open spec fn context_directory(context: WorkspaceClassContext) -> Seq<char> {
    match context {
        WorkspaceClassContext::Global => "classes-global"@,
        WorkspaceClassContext::Recipe => "classes-recipe"@,
    }
}

/// Whether a search path has the class in a directory, at `path`.
pub open spec fn defined_at(
    core: CoreView,
    class: Seq<char>,
    directory: Seq<char>,
    path: Seq<char>,
) -> bool {
    exists|j: int| #[trigger]
        class_hit(core, class, directory, j) && class_path(core, class, directory, j) == path
}

/// Whether the candidate is the file of the class in a directory under search
/// path `j`, with the priority of its layer, no earlier search path has the
/// class in that directory, and the directory is `own`, or the shared one where
/// no search path has the class in `own`.
pub open spec fn first_found(
    core: CoreView,
    class: Seq<char>,
    own: Seq<char>,
    j: int,
    directory: Seq<char>,
    candidate: CandidateView,
) -> bool {
    &&& class_hit(core, class, directory, j)
    &&& forall|i: int| 0 <= i < j ==> !(#[trigger] class_hit(core, class, directory, i))
    &&& directory == own || (directory == "classes"@ && forall|i: int|
        !(#[trigger] class_hit(core, class, own, i)))
    &&& candidate.path == class_path(core, class, directory, j)
    &&& candidate.priority == layers::layer_priority(core.layers[core.search[j].1].metadata)
}

/// The search for a class finds every definition: the file of the class in the
/// directory of the context and in the shared one, under each search path whose
/// layer holds it, and nothing else. The first that is found is the one in the
/// directory of the context under the earliest search path that has it, with the
/// priority of its layer; the shared directory counts only where no search path
/// has it there.
pub proof fn law_class_search_is_complete(
    core: CoreView,
    class: Seq<char>,
    context: WorkspaceClassContext,
    path: Seq<char>,
)
    requires
        class.len() > 0,
        !class.contains('/'),
        !class.contains('\\'),
    ensures
        workspace::offers(workspace::class_candidates_of(core, class, context), path)
            <==> defined_at(core, class, context_directory(context), path) || defined_at(
            core,
            class,
            "classes"@,
            path,
        ),
        workspace::class_candidates_of(core, class, context).len() > 0 ==> exists|
            j: int,
            directory: Seq<char>,
        | #[trigger]
            first_found(
                core,
                class,
                context_directory(context),
                j,
                directory,
                workspace::class_candidates_of(core, class, context)[0],
            ),
{
    let none = Seq::<CandidateView>::empty();
    let own = context_directory(context);
    let scope = first_scope(context);
    let first = workspace::class_from(core, class, own, scope, 0, none);
    let shared = WorkspaceSearchScope::Classes;
    let found = workspace::class_candidates_of(core, class, context);
    assert(found == workspace::class_from(core, class, "classes"@, shared, 0, first));
    lemma_class_hits(core, class, own, scope, 0, none);
    lemma_class_hits(core, class, "classes"@, shared, 0, first);
    assert(workspace::offers(first, path) <==> exists|j: int| #[trigger]
        class_hit(core, class, own, j) && class_path(core, class, own, j) == path) by {
        if exists|j: int| #[trigger]
            class_hit(core, class, own, j) && class_path(core, class, own, j) == path {
            let j = choose|j: int| #[trigger]
                class_hit(core, class, own, j) && class_path(core, class, own, j) == path;
            assert(0 <= j && class_hit(core, class, own, j));
        }
    }
    if exists|j: int| #[trigger]
        class_hit(core, class, "classes"@, j) && class_path(core, class, "classes"@, j) == path {
        let j = choose|j: int| #[trigger]
            class_hit(core, class, "classes"@, j) && class_path(core, class, "classes"@, j) == path;
        assert(0 <= j && class_hit(core, class, "classes"@, j));
    }
    let in_shared = exists|j: int| #[trigger]
        class_hit(core, class, "classes"@, j) && class_path(core, class, "classes"@, j) == path;
    let in_own = exists|j: int| #[trigger]
        class_hit(core, class, own, j) && class_path(core, class, own, j) == path;
    assert(workspace::offers(found, path) <==> in_own || in_shared) by {
        if workspace::offers(found, path) && !workspace::offers(first, path) {
            let j = choose|j: int|
                0 <= j && #[trigger] class_hit(core, class, "classes"@, j) && class_path(
                    core,
                    class,
                    "classes"@,
                    j,
                ) == path;
            assert(class_hit(core, class, "classes"@, j));
        }
    }
    if found.len() > 0 {
        if first.len() > 0 {
            let j = choose|j: int|
                0 <= j && #[trigger] class_hit(core, class, own, j) && first[0]
                    == workspace::layer_candidate(
                    core.layers[core.search[j].1],
                    class_path(core, class, own, j),
                    scope,
                ) && forall|i: int| 0 <= i < j ==> !(#[trigger] class_hit(core, class, own, i));
            assert(found.take(first.len() as int)[0] == first[0]);
            assert(found[0] == first[0]);
            assert(first_found(core, class, own, j, own, found[0]));
        } else {
            assert forall|i: int| !(#[trigger] class_hit(core, class, own, i)) by {
                if class_hit(core, class, own, i) {
                    assert(0 <= i && class_hit(core, class, own, i));
                    assert(workspace::offers(first, class_path(core, class, own, i)));
                }
            }
            let j = choose|j: int|
                0 <= j && #[trigger] class_hit(core, class, "classes"@, j) && found[0]
                    == workspace::layer_candidate(
                    core.layers[core.search[j].1],
                    class_path(core, class, "classes"@, j),
                    shared,
                ) && forall|i: int|
                    0 <= i < j ==> !(#[trigger] class_hit(core, class, "classes"@, i));
            assert(first_found(core, class, own, j, "classes"@, found[0]));
        }
    }
}

/// The file that search path `k` gives for a relative name.
pub open spec fn searched_path(core: CoreView, target: Seq<char>, k: int) -> Seq<char> {
    workspace::normal(paths::joined_path(core.search[k].0, target))
}

/// Whether the layer of search path `k` holds the file of a relative name.
pub open spec fn searched_hit(core: CoreView, target: Seq<char>, k: int) -> bool {
    0 <= k < core.search.len() && core.layers[core.search[k].1].files.contains(
        searched_path(core, target, k),
    )
}

proof fn lemma_searched(core: CoreView, target: Seq<char>, k: int, found: Seq<CandidateView>)
    requires
        0 <= k <= core.search.len(),
    ensures
        ({
            let all = workspace::searched_from(core, target, k, found);
            &&& found.len() <= all.len()
            &&& all.take(found.len() as int) == found
            &&& forall|path: Seq<char>|
                #[trigger] workspace::offers(all, path) <==> workspace::offers(found, path)
                    || exists|j: int|
                    k <= j && #[trigger] searched_hit(core, target, j) && searched_path(
                        core,
                        target,
                        j,
                    ) == path
            &&& found.len() == 0 && all.len() > 0 ==> exists|j: int|
                k <= j && #[trigger] searched_hit(core, target, j) && all[0]
                    == workspace::layer_candidate(
                    core.layers[core.search[j].1],
                    searched_path(core, target, j),
                    WorkspaceSearchScope::Bbpath,
                ) && forall|i: int| k <= i < j ==> !(#[trigger] searched_hit(core, target, i))
        }),
    decreases core.search.len() - k,
{
    let all = workspace::searched_from(core, target, k, found);
    if k < core.search.len() {
        let path = searched_path(core, target, k);
        let layer = core.layers[core.search[k].1];
        let c = workspace::layer_candidate(layer, path, WorkspaceSearchScope::Bbpath);
        let hit = searched_hit(core, target, k);
        let next = if hit {
            workspace::with_candidate(found, c)
        } else {
            found
        };
        lemma_searched(core, target, k + 1, next);
        assert(all == workspace::searched_from(core, target, k + 1, next));
        assert(all.take(found.len() as int) =~= found) by {
            assert(all.take(next.len() as int) == next);
            assert forall|i: int| 0 <= i < found.len() implies #[trigger] all[i] == found[i] by {
                assert(all.take(next.len() as int)[i] == next[i]);
            }
        }
        lemma_offers_more(found, c);
        assert forall|p: Seq<char>| #[trigger] workspace::offers(all, p) <==> workspace::offers(
            found,
            p,
        ) || exists|j: int|
            k <= j && #[trigger] searched_hit(core, target, j) && searched_path(core, target, j)
                == p by {
            assert(workspace::offers(next, p) <==> workspace::offers(found, p) || (hit && path == p));
            if exists|j: int|
                k <= j && #[trigger] searched_hit(core, target, j) && searched_path(core, target, j)
                    == p {
                let j = choose|j: int|
                    k <= j && #[trigger] searched_hit(core, target, j) && searched_path(
                        core,
                        target,
                        j,
                    ) == p;
                if j > k {
                    assert(k + 1 <= j && searched_hit(core, target, j));
                }
            }
        }
        if found.len() == 0 && all.len() > 0 {
            if hit {
                assert(next =~= seq![c]) by {
                    assert(!workspace::offers(found, path));
                }
                assert(all.take(1)[0] == c);
                assert(all[0] == c);
            } else {
                let j = choose|j: int|
                    k + 1 <= j && #[trigger] searched_hit(core, target, j) && all[0]
                        == workspace::layer_candidate(
                        core.layers[core.search[j].1],
                        searched_path(core, target, j),
                        WorkspaceSearchScope::Bbpath,
                    ) && forall|i: int|
                        k + 1 <= i < j ==> !(#[trigger] searched_hit(core, target, i));
                assert(k <= j && searched_hit(core, target, j));
            }
        }
    } else {
        assert(all.take(found.len() as int) =~= found);
        assert forall|j: int| k <= j implies !(#[trigger] searched_hit(core, target, j)) by {}
    }
}

/// The search for a file by a relative name: a file of that name beside the one
/// that names it is the only one found, except for `include_all`, which does not
/// look there. Else every file of that name under a search path is found, and
/// nothing else, the one under the earliest search path first. An absolute name
/// means the file at that path alone.
pub proof fn law_file_search(
    core: CoreView,
    from: Seq<char>,
    target: Seq<char>,
    directive: WorkspaceFileDirective,
    path: Seq<char>,
)
    ensures
        ({
            let found = workspace::file_candidates_of(core, from, target, directive);
            let scope = WorkspaceSearchScope::CurrentFile;
            let near = match paths::parent(workspace::canonical(core.table, from)) {
                Some(directory) => workspace::path_hit(
                    core,
                    paths::joined_path(directory, target),
                    scope,
                ),
                None => None,
            };
            let all = directive == WorkspaceFileDirective::IncludeAll;
            &&& paths::is_rooted(target) ==> (match workspace::path_hit(core, target, scope) {
                Some(hit) => found == seq![hit],
                None => found.len() == 0,
            })
            &&& !paths::is_rooted(target) && !all && near is Some ==> found == seq![near->0]
            &&& !paths::is_rooted(target) && (all || near is None) ==> {
                &&& workspace::offers(found, path) <==> exists|j: int| #[trigger]
                    searched_hit(core, target, j) && searched_path(core, target, j) == path
                &&& found.len() > 0 ==> exists|j: int| #[trigger]
                    searched_hit(core, target, j) && found[0].path == searched_path(
                        core,
                        target,
                        j,
                    ) && found[0].priority == layers::layer_priority(
                        core.layers[core.search[j].1].metadata,
                    ) && forall|i: int| 0 <= i < j ==> !(#[trigger] searched_hit(core, target, i))
            }
        }),
{
    let none = Seq::<CandidateView>::empty();
    let found = workspace::file_candidates_of(core, from, target, directive);
    lemma_searched(core, target, 0, none);
    let all = workspace::searched_from(core, target, 0, none);
    if exists|j: int| #[trigger]
        searched_hit(core, target, j) && searched_path(core, target, j) == path {
        let j = choose|j: int| #[trigger]
            searched_hit(core, target, j) && searched_path(core, target, j) == path;
        assert(0 <= j && searched_hit(core, target, j));
    }
    if all.len() > 0 {
        let j = choose|j: int|
            0 <= j && #[trigger] searched_hit(core, target, j) && all[0]
                == workspace::layer_candidate(
                core.layers[core.search[j].1],
                searched_path(core, target, j),
                WorkspaceSearchScope::Bbpath,
            ) && forall|i: int| 0 <= i < j ==> !(#[trigger] searched_hit(core, target, i));
        assert(searched_hit(core, target, j));
    }
}

} // verus!
