//! Which files a layer has, which directories a workspace searches, and which
//! classes an assignment makes every file inherit.
use crate::paths;
use crate::values;
use crate::workspace;
use crate::workspace::LayerView;
use crate::workspace::TableView;
use crate::workspace::WorkspaceClassContext;
use crate::workspace::WorkspaceDependencyKind;
use vstd::prelude::*;

verus! {

proof fn lemma_below(items: Seq<Seq<char>>, root: Seq<char>, k: int, path: Seq<char>)
    requires
        0 <= k <= items.len(),
    ensures
        workspace::below_from(items, root, k).contains(path) <==> paths::is_below(path, root)
            && exists|i: int| k <= i < items.len() && #[trigger] items[i] == path,
    decreases items.len() - k,
{
    if k < items.len() {
        lemma_below(items, root, k + 1, path);
        let rest = workspace::below_from(items, root, k + 1);
        let all = workspace::below_from(items, root, k);
        if paths::is_below(items[k], root) {
            assert(all[0] == items[k]);
            if rest.contains(path) {
                let at = choose|at: int| 0 <= at < rest.len() && rest[at] == path;
                assert(all[at + 1] == path);
            }
            if all.contains(path) {
                let at = choose|at: int| 0 <= at < all.len() && all[at] == path;
                if at > 0 {
                    assert(rest[at - 1] == path);
                }
            }
        }
    }
}

/// The files of a layer are those files of the workspace that are below its
/// directory, all of them and no others.
pub proof fn law_files_of_a_layer(
    root: Seq<char>,
    files: Seq<workspace::FileView>,
    all: Seq<Seq<char>>,
    path: Seq<char>,
)
    ensures
        workspace::layer_of(root, files, all).files.contains(path) <==> all.contains(path)
            && paths::is_below(path, root),
        workspace::layer_of(root, files, all).root == root,
{
    lemma_below(all, root, 0, path);
}

/// Whether the directory `path` is one that the layer `layer` searches: one of
/// its configuration, or its own where its configuration has none.
pub open spec fn layer_searches(layer: LayerView, table: TableView, path: Seq<char>) -> bool {
    if layer.metadata.bbpath.len() == 0 {
        path == workspace::canonical(table, layer.root)
    } else {
        exists|j: int|
            0 <= j < layer.metadata.bbpath.len() && path == workspace::canonical(
                table,
                #[trigger] layer.metadata.bbpath[j],
            )
    }
}


/// Whether no directory is searched twice.
pub open spec fn searched_once(found: Seq<(Seq<char>, int)>) -> bool {
    forall|i: int, j: int|
        0 <= i < j < found.len() ==> (#[trigger] found[i]).0 != (#[trigger] found[j]).0
}

proof fn lemma_with_search(
    found: Seq<(Seq<char>, int)>,
    layers: Seq<LayerView>,
    layer: int,
    path: Seq<char>,
)
    ensures
        ({
            let after = workspace::with_search(found, layers, layer, path);
            &&& found.len() <= after.len()
            &&& after.take(found.len() as int) == found
            &&& searched_once(found) ==> searched_once(after)
            &&& forall|q: Seq<char>| #[trigger]
                workspace::searches(after, q) <==> workspace::searches(found, q) || q == path
        }),
{
    let after = workspace::with_search(found, layers, layer, path);
    assert(after.take(found.len() as int) =~= found);
    assert forall|q: Seq<char>| #[trigger]
        workspace::searches(after, q) <==> workspace::searches(found, q) || q == path by {
        if !workspace::searches(found, path) {
            assert(after[found.len() as int].0 == path);
            if workspace::searches(found, q) {
                let i = choose|i: int| 0 <= i < found.len() && (#[trigger] found[i]).0 == q;
                assert(after[i].0 == q);
            }
            if workspace::searches(after, q) {
                let i = choose|i: int| 0 <= i < after.len() && (#[trigger] after[i]).0 == q;
                if i < found.len() {
                    assert(found[i].0 == q);
                }
            }
        }
    }
    if searched_once(found) && !workspace::searches(found, path) {
        assert forall|i: int, j: int| 0 <= i < j < after.len() implies (#[trigger] after[i]).0 != (
        #[trigger] after[j]).0 by {
            assert(after[i] == found[i]);
            if j < found.len() {
                assert(after[j] == found[j]);
            } else {
                assert(found[i].0 != path);
            }
        }
    }
}

proof fn lemma_layer_search(
    found: Seq<(Seq<char>, int)>,
    layers: Seq<LayerView>,
    layer: int,
    items: Seq<Seq<char>>,
    k: int,
    table: TableView,
)
    requires
        0 <= k <= items.len(),
    ensures
        ({
            let after = workspace::layer_search_from(found, layers, layer, items, k, table);
            &&& found.len() <= after.len()
            &&& after.take(found.len() as int) == found
            &&& searched_once(found) ==> searched_once(after)
            &&& forall|q: Seq<char>| #[trigger]
                workspace::searches(after, q) <==> workspace::searches(found, q) || exists|j: int|
                    k <= j < items.len() && q == workspace::canonical(table, #[trigger] items[j])
        }),
    decreases items.len() - k,
{
    let after = workspace::layer_search_from(found, layers, layer, items, k, table);
    if k < items.len() {
        let path = workspace::canonical(table, items[k]);
        let next = workspace::with_search(found, layers, layer, path);
        lemma_with_search(found, layers, layer, path);
        lemma_layer_search(next, layers, layer, items, k + 1, table);
        assert(after.take(found.len() as int) =~= next.take(found.len() as int)) by {
            assert forall|i: int| 0 <= i < found.len() implies after[i] == next[i] by {
                assert(after.take(next.len() as int)[i] == after[i]);
            }
        }
        assert forall|q: Seq<char>| #[trigger]
            workspace::searches(after, q) <==> workspace::searches(found, q) || exists|j: int|
                k <= j < items.len() && q == workspace::canonical(table, #[trigger] items[j]) by {
            assert(workspace::searches(next, q) <==> workspace::searches(found, q) || q == path);
            if q == path {
                assert(q == workspace::canonical(table, items[k]));
            }
        }
    } else {
        assert(found.take(found.len() as int) =~= found);
    }
}

proof fn lemma_search(
    found: Seq<(Seq<char>, int)>,
    layers: Seq<LayerView>,
    k: int,
    table: TableView,
)
    requires
        0 <= k <= layers.len(),
    ensures
        ({
            let after = workspace::search_from(found, layers, k, table);
            &&& found.len() <= after.len()
            &&& after.take(found.len() as int) == found
            &&& searched_once(found) ==> searched_once(after)
            &&& forall|q: Seq<char>| #[trigger]
                workspace::searches(after, q) <==> workspace::searches(found, q) || exists|i: int|
                    k <= i < layers.len() && #[trigger] layer_searches(layers[i], table, q)
        }),
    decreases layers.len() - k,
{
    let after = workspace::search_from(found, layers, k, table);
    if k < layers.len() {
        let own = workspace::layer_paths(layers[k]);
        let next = workspace::layer_search_from(found, layers, k, own, 0, table);
        lemma_layer_search(found, layers, k, own, 0, table);
        lemma_search(next, layers, k + 1, table);
        assert(after.take(found.len() as int) =~= next.take(found.len() as int)) by {
            assert forall|i: int| 0 <= i < found.len() implies after[i] == next[i] by {
                assert(after.take(next.len() as int)[i] == after[i]);
            }
        }
        assert forall|q: Seq<char>| #[trigger]
            workspace::searches(after, q) <==> workspace::searches(found, q) || exists|i: int|
                k <= i < layers.len() && #[trigger] layer_searches(layers[i], table, q) by {
            assert(layer_searches(layers[k], table, q) <==> exists|j: int|
                0 <= j < own.len() && q == workspace::canonical(table, #[trigger] own[j])) by {
                if layers[k].metadata.bbpath.len() == 0 {
                    assert(own[0] == layers[k].root);
                }
            }
            assert(workspace::searches(next, q) <==> workspace::searches(found, q)
                || layer_searches(layers[k], table, q));
        }
    } else {
        assert(found.take(found.len() as int) =~= found);
    }
}

proof fn lemma_search_splits(
    found: Seq<(Seq<char>, int)>,
    layers: Seq<LayerView>,
    j: int,
    k: int,
    table: TableView,
) -> (r: Seq<(Seq<char>, int)>)
    requires
        0 <= j <= k <= layers.len(),
    ensures
        workspace::search_from(found, layers, j, table) == workspace::search_from(
            r,
            layers,
            k,
            table,
        ),
        forall|q: Seq<char>| #[trigger]
            workspace::searches(r, q) <==> workspace::searches(found, q) || exists|i: int|
                j <= i < k && #[trigger] layer_searches(layers[i], table, q),
    decreases k - j,
{
    if j < k {
        let own = workspace::layer_paths(layers[j]);
        let next = workspace::layer_search_from(found, layers, j, own, 0, table);
        lemma_layer_search(found, layers, j, own, 0, table);
        let r = lemma_search_splits(next, layers, j + 1, k, table);
        assert forall|q: Seq<char>| #[trigger]
            workspace::searches(r, q) <==> workspace::searches(found, q) || exists|i: int|
                j <= i < k && #[trigger] layer_searches(layers[i], table, q) by {
            assert(layer_searches(layers[j], table, q) <==> exists|m: int|
                0 <= m < own.len() && q == workspace::canonical(table, #[trigger] own[m])) by {
                if layers[j].metadata.bbpath.len() == 0 {
                    assert(own[0] == layers[j].root);
                }
            }
            assert(workspace::searches(next, q) <==> workspace::searches(found, q)
                || layer_searches(layers[j], table, q));
        }
        r
    } else {
        found
    }
}

/// A workspace searches the directories of its layers, each once, and no others.
/// What a layer searches comes before what only the layers behind it search.
pub proof fn law_directories_that_are_searched(
    layers: Seq<LayerView>,
    table: TableView,
    k: int,
    path: Seq<char>,
    later: Seq<char>,
)
    requires
        0 <= k <= layers.len(),
    ensures
        ({
            let all = workspace::search_from(Seq::empty(), layers, 0, table);
            &&& searched_once(all)
            &&& workspace::searches(all, path) <==> exists|i: int|
                0 <= i < layers.len() && #[trigger] layer_searches(layers[i], table, path)
            &&& (exists|i: int| 0 <= i < k && #[trigger] layer_searches(layers[i], table, path))
                && !(exists|i: int|
                0 <= i < k && #[trigger] layer_searches(layers[i], table, later)) ==> forall|
                a: int,
                b: int,
            |
                0 <= a < all.len() && 0 <= b < all.len() && (#[trigger] all[a]).0 == path && (
                #[trigger] all[b]).0 == later ==> a < b
        }),
{
    let none = Seq::<(Seq<char>, int)>::empty();
    let all = workspace::search_from(none, layers, 0, table);
    lemma_search(none, layers, 0, table);
    assert(!workspace::searches(none, path));
    assert(!workspace::searches(none, later));
    let mid = lemma_search_splits(none, layers, 0, k, table);
    lemma_search(mid, layers, k, table);
    assert(workspace::searches(mid, path) <==> exists|i: int|
        0 <= i < k && #[trigger] layer_searches(layers[i], table, path));
    assert(workspace::searches(mid, later) <==> exists|i: int|
        0 <= i < k && #[trigger] layer_searches(layers[i], table, later));
    if workspace::searches(mid, path) && !workspace::searches(mid, later) {
        let at = choose|at: int| 0 <= at < mid.len() && (#[trigger] mid[at]).0 == path;
        assert(all.take(mid.len() as int)[at] == all[at]);
        assert forall|a: int, b: int|
            0 <= a < all.len() && 0 <= b < all.len() && (#[trigger] all[a]).0 == path && (
            #[trigger] all[b]).0 == later implies a < b by {
            assert(a == at) by {
                if a < at {
                    assert(all[a].0 != all[at].0);
                }
                if at < a {
                    assert(all[at].0 != all[a].0);
                }
            }
            if b < mid.len() {
                assert(all.take(mid.len() as int)[b] == all[b]);
                assert(mid[b].0 == later);
            }
        }
    }
}

/// An assignment of `INHERIT`, or of `USER_CLASSES`, makes every file inherit
/// classes, with any overrides but `remove`; an assignment of another variable does
/// not.
pub proof fn law_variables_of_global_classes(name: Seq<char>)
    ensures
        ({
            let parts = values::pieces(name, ':');
            let removed = exists|j: int| 1 <= j < parts.len() && #[trigger] parts[j] == "remove"@;
            let kind = workspace::global_class_kind(name);
            &&& kind == Some(WorkspaceDependencyKind::InheritGlobal) <==> parts[0] == "INHERIT"@
                && !removed
            &&& kind == Some(WorkspaceDependencyKind::UserClasses) <==> parts[0]
                == "USER_CLASSES"@ && !removed
            &&& kind is None <==> removed || (parts[0] != "INHERIT"@ && parts[0]
                != "USER_CLASSES"@)
        }),
{
    reveal_strlit("INHERIT");
    reveal_strlit("USER_CLASSES");
    assert("INHERIT"@.len() == 7 && "USER_CLASSES"@.len() == 12);
}

/// A configuration file, and a class that is global, is parsed for all; a recipe
/// and a recipe's class for one recipe; every other file may be parsed for either.
pub proof fn law_contexts_of_a_file(path: Seq<char>)
    ensures
        ({
            let ext = paths::extension(path);
            let parts = paths::path_parts(path);
            let global = ext == Some("conf"@) || parts.contains("classes-global"@);
            let recipe = ext == Some("bb"@) || ext == Some("bbappend"@) || parts.contains(
                "classes-recipe"@,
            );
            let all = workspace::contexts_of(path);
            &&& all.contains(WorkspaceClassContext::Global) <==> global || !recipe
            &&& all.contains(WorkspaceClassContext::Recipe) <==> !global
        }),
{
    let g = WorkspaceClassContext::Global;
    let r = WorkspaceClassContext::Recipe;
    assert(seq![g][0] == g);
    assert(seq![r][0] == r);
    assert(seq![r, g][0] == r);
    assert(seq![r, g][1] == g);
}

/// The collections of some layers are those of each of them.
pub proof fn law_collections_of_layers(items: Seq<LayerView>, k: int, name: Seq<char>)
    requires
        0 <= k <= items.len(),
    ensures
        workspace::collections_from(items, k).contains(name) <==> exists|i: int|
            k <= i < items.len() && (#[trigger] items[i]).metadata.collections.contains(name),
    decreases items.len() - k,
{
    if k < items.len() {
        law_collections_of_layers(items, k + 1, name);
        let own = items[k].metadata.collections;
        let rest = workspace::collections_from(items, k + 1);
        let all = own + rest;
        if own.contains(name) {
            let i = choose|i: int| 0 <= i < own.len() && own[i] == name;
            assert(all[i] == name);
        }
        if rest.contains(name) {
            let i = choose|i: int| 0 <= i < rest.len() && rest[i] == name;
            assert(all[own.len() + i] == name);
        }
        if all.contains(name) {
            let i = choose|i: int| 0 <= i < all.len() && all[i] == name;
            if i < own.len() {
                assert(own[i] == name);
            } else {
                assert(rest[i - own.len()] == name);
            }
        }
    }
}

} // verus!
