//! What paths are made of.
use crate::paths;
use crate::text;
use crate::values;
use vstd::prelude::*;

verus! {

/// Whether a text can be one name of a path.
pub open spec fn is_name(t: Seq<char>) -> bool {
    t.len() > 0 && t != "."@ && !t.contains('/')
}

proof fn lemma_ranges(t: Seq<char>, c: char, name: Seq<char>, i: int)
    requires
        0 <= i <= t.len(),
        !name.contains(c),
    ensures
        values::pieces_from(t + seq![c] + name, c, i) == values::pieces_from(t, c, i).push(
            (1int + t.len(), 1int + t.len() + name.len()),
        ),
        forall|k: int|
            0 <= k < values::pieces_from(t, c, i).len() ==> 0 <= (#[trigger] values::pieces_from(
                t,
                c,
                i,
            )[k]).0 <= values::pieces_from(t, c, i)[k].1 <= t.len(),
    decreases t.len() - i,
{
    let u = t + seq![c] + name;
    let e = text::find_from(t, c, i);
    text::lemma_find(t, c, i);
    assert forall|k: int| i <= k < e implies #[trigger] u[k] != c by {
        assert(u[k] == t[k]);
    }
    assert(u[e] == c);
    text::lemma_find_unique(u, c, i, e);
    if e < t.len() {
        lemma_ranges(t, c, name, e + 1);
        let rest = values::pieces_from(t, c, e + 1);
        let all = values::pieces_from(t, c, i);
        assert(all =~= seq![(i, e)] + rest);
        assert(values::pieces_from(u, c, i) =~= all.push((1int + t.len(), 1int + t.len() + name.len())));
        assert forall|k: int| 0 <= k < all.len() implies 0 <= (#[trigger] all[k]).0 <= all[k].1
            <= t.len() by {
            if k > 0 {
                assert(all[k] == rest[k - 1]);
            }
        }
    } else {
        let n = u.len() as int;
        assert forall|k: int| 1int + t.len() <= k < n implies #[trigger] u[k] != c by {
            assert(u[k] == name[k - t.len() - 1]);
            assert(name.contains(name[k - t.len() - 1]));
        }
        text::lemma_find_unique(u, c, 1int + t.len(), n);
        assert(values::pieces_from(u, c, 1int + t.len()) =~= seq![(1int + t.len(), n)]);
        assert(values::pieces_from(u, c, i) =~= seq![(i, e)] + seq![(1int + t.len(), n)]);
        assert(values::pieces_from(t, c, i) =~= seq![(i, e)]);
    }
}

proof fn lemma_pieces_push(t: Seq<char>, c: char, name: Seq<char>)
    requires
        !name.contains(c),
    ensures
        values::pieces(t + seq![c] + name, c) == values::pieces(t, c).push(name),
{
    let u = t + seq![c] + name;
    lemma_ranges(t, c, name, 0);
    let ranges = values::pieces_from(t, c, 0);
    let all = values::pieces(u, c);
    let before = values::pieces(t, c);
    assert forall|k: int| 0 <= k < all.len() implies all[k] == before.push(name)[k] by {
        if k < ranges.len() {
            assert(u.subrange(ranges[k].0, ranges[k].1) =~= t.subrange(ranges[k].0, ranges[k].1));
        } else {
            assert(u.subrange(1int + t.len(), 1int + t.len() + name.len()) =~= name);
        }
    }
    assert(all =~= before.push(name));
}

proof fn lemma_parts_push(pieces: Seq<Seq<char>>, name: Seq<char>, k: int)
    requires
        0 <= k <= pieces.len(),
    ensures
        paths::parts_from(pieces.push(name), k) == if paths::is_part(name) {
            paths::parts_from(pieces, k).push(name)
        } else {
            paths::parts_from(pieces, k)
        },
    decreases pieces.len() - k,
{
    let more = pieces.push(name);
    if k < pieces.len() {
        lemma_parts_push(pieces, name, k + 1);
        assert(more[k] == pieces[k]);
        if paths::is_part(pieces[k]) {
            let rest = paths::parts_from(pieces, k + 1);
            if paths::is_part(name) {
                assert(seq![pieces[k]] + rest.push(name) =~= (seq![pieces[k]] + rest).push(name));
            }
        }
    } else {
        assert(more[k] == name);
        assert(paths::parts_from(more, k + 1) =~= Seq::empty());
        if paths::is_part(name) {
            assert(seq![name] + Seq::<Seq<char>>::empty() =~= Seq::<Seq<char>>::empty().push(name));
        }
    }
}

proof fn lemma_dot()
    ensures
        "."@ == seq!['.'],
        "/"@ == seq!['/'],
        ".."@.len() == 2,
{
    reveal_strlit(".");
    reveal_strlit("/");
    reveal_strlit("..");
    assert("."@ =~= seq!['.']);
    assert("/"@ =~= seq!['/']);
}

/// A name behind a path is one more component of it, the last; a slash at the
/// end and a `.` add none, and no path has components where there are no names.
pub proof fn law_a_name_is_one_more_component(path: Seq<char>, name: Seq<char>)
    ensures
        is_name(name) ==> paths::path_parts(path + "/"@ + name) == paths::path_parts(path).push(
            name,
        ),
        is_name(name) ==> paths::path_parts(name) == seq![name],
        paths::path_parts(path + "/"@) == paths::path_parts(path),
        paths::path_parts(path + "/"@ + "."@) == paths::path_parts(path),
        paths::path_parts(Seq::empty()) == Seq::<Seq<char>>::empty(),
{
    lemma_dot();
    let none = Seq::<char>::empty();
    assert(none.len() == 0);
    text::lemma_find_unique(none, '/', 0, 0);
    let first = values::pieces(none, '/');
    assert(values::pieces_from(none, '/', 0) =~= seq![(0int, 0int)]);
    assert(first =~= seq![none]) by {
        assert(none.subrange(0, 0) =~= none);
    }
    assert(paths::parts_from(first, 1) =~= Seq::empty());
    assert(paths::path_parts(none) =~= Seq::empty());
    lemma_pieces_push(path, '/', none);
    lemma_parts_push(values::pieces(path, '/'), none, 0);
    assert(path + seq!['/'] + none =~= path + seq!['/']);
    assert(!seq!['.'].contains('/'));
    lemma_pieces_push(path, '/', seq!['.']);
    lemma_parts_push(values::pieces(path, '/'), seq!['.'], 0);
    if is_name(name) {
        lemma_pieces_push(path, '/', name);
        lemma_parts_push(values::pieces(path, '/'), name, 0);
        let n = name.len() as int;
        assert forall|k: int| 0 <= k < n implies #[trigger] name[k] != '/' by {
            assert(name.contains(name[k]));
        }
        text::lemma_find_unique(name, '/', 0, n);
        let own = values::pieces(name, '/');
        assert(values::pieces_from(name, '/', 0) =~= seq![(0int, n)]);
        assert(own =~= seq![name]) by {
            assert(name.subrange(0, n) =~= name);
        }
        assert(paths::parts_from(own, 1) =~= Seq::empty());
        assert(paths::path_parts(name) =~= seq![name]);
    }
}

proof fn lemma_rooted(parts: Seq<Seq<char>>)
    requires
        forall|k: int| 0 <= k < parts.len() ==> is_name(#[trigger] parts[k]),
    ensures
        paths::path_parts(paths::rooted(parts)) == parts,
    decreases parts.len(),
{
    let none = Seq::<char>::empty();
    lemma_dot();
    let n = parts.len();
    if n == 0 {
        law_a_name_is_one_more_component(none, none);
        assert(none + "/"@ =~= "/"@);
        assert(paths::rooted(parts) =~= "/"@);
        assert(parts =~= Seq::empty());
    } else if n == 1 {
        law_a_name_is_one_more_component(none, parts[0]);
        assert(paths::rooted(parts) =~= none + "/"@ + parts[0]);
        assert(parts =~= Seq::<Seq<char>>::empty().push(parts[0]));
    } else {
        let front = parts.drop_last();
        assert forall|k: int| 0 <= k < front.len() implies is_name(#[trigger] front[k]) by {
            assert(front[k] == parts[k]);
        }
        lemma_rooted(front);
        law_a_name_is_one_more_component(paths::rooted(front), parts.last());
        assert(paths::rooted(parts) =~= paths::rooted(front) + "/"@ + parts.last());
        assert(parts =~= front.push(parts.last()));
    }
}

/// The components of a path are names, and the rooted path that they make has
/// them again, so that a tidy path stays as it is.
pub proof fn law_tidy_paths_stay(path: Seq<char>, parts: Seq<Seq<char>>)
    ensures
        (forall|k: int| 0 <= k < parts.len() ==> is_name(#[trigger] parts[k]))
            ==> paths::path_parts(paths::rooted(parts)) == parts,
        forall|k: int|
            0 <= k < paths::path_parts(path).len() ==> is_name(#[trigger] paths::path_parts(path)[k]),
        paths::path_parts(paths::tidy(path)) == paths::path_parts(path),
        paths::tidy(paths::tidy(path)) == paths::tidy(path),
        paths::is_rooted(paths::tidy(path)),
{
    lemma_dot();
    if forall|k: int| 0 <= k < parts.len() ==> is_name(#[trigger] parts[k]) {
        lemma_rooted(parts);
    }
    values::law_pieces_make_the_text(path, '/');
    lemma_parts_are_names(values::pieces(path, '/'), 0);
    lemma_rooted(paths::path_parts(path));
}

proof fn lemma_parts_are_names(pieces: Seq<Seq<char>>, k: int)
    requires
        0 <= k <= pieces.len(),
        forall|j: int| 0 <= j < pieces.len() ==> !(#[trigger] pieces[j]).contains('/'),
    ensures
        forall|j: int|
            0 <= j < paths::parts_from(pieces, k).len() ==> is_name(
                #[trigger] paths::parts_from(pieces, k)[j],
            ),
    decreases pieces.len() - k,
{
    lemma_dot();
    if k < pieces.len() {
        lemma_parts_are_names(pieces, k + 1);
        let rest = paths::parts_from(pieces, k + 1);
        let all = paths::parts_from(pieces, k);
        if paths::is_part(pieces[k]) {
            assert forall|j: int| 0 <= j < all.len() implies is_name(#[trigger] all[j]) by {
                if j > 0 {
                    assert(all[j] == rest[j - 1]);
                }
            }
        }
    }
}

/// A file in a directory has its own name, that directory as its parent, and is
/// below it and below all that the directory is below. What stands behind the last
/// dot of its name is its extension, what stands before is its stem; a dot that the
/// name begins with separates nothing.
pub proof fn law_files_in_a_directory(
    directory: Seq<char>,
    name: Seq<char>,
    stem: Seq<char>,
    ext: Seq<char>,
    root: Seq<char>,
)
    requires
        is_name(name),
        name != ".."@,
    ensures
        ({
            let path = directory + "/"@ + name;
            &&& paths::file_name(path) == Some(name)
            &&& paths::parent(path) == Some(paths::tidy(directory))
            &&& paths::is_below(path, directory)
            &&& !paths::is_below(directory, path)
            &&& paths::is_below(directory, root) ==> paths::is_below(path, root)
            &&& name == stem + "."@ + ext && stem.len() > 0 && !ext.contains('.')
                ==> paths::extension(path) == Some(ext) && paths::file_stem(path) == Some(stem)
            &&& !name.contains('.') || (name == "."@ + ext && !ext.contains('.'))
                ==> paths::extension(path) is None && paths::file_stem(path) == Some(name)
        }),
{
    lemma_dot();
    law_a_name_is_one_more_component(directory, name);
    let path = directory + "/"@ + name;
    let parts = paths::path_parts(path);
    let above = paths::path_parts(directory);
    assert(parts.last() == name);
    assert(parts.drop_last() =~= above);
    assert(parts.take(above.len() as int) =~= above);
    if paths::is_below(directory, root) {
        let n = paths::path_parts(root).len() as int;
        assert(parts.take(n) =~= above.take(n));
    }
    let n = name.len() as int;
    if name == stem + "."@ + ext && stem.len() > 0 && !ext.contains('.') {
        let at = stem.len() as int;
        assert(name[at] == '.');
        assert forall|k: int| at < k < n implies #[trigger] name[k] != '.' by {
            assert(name[k] == ext[k - at - 1]);
            assert(ext.contains(ext[k - at - 1]));
        }
        text::lemma_rfind_unique(name, '.', at, n);
        assert(name.skip(at + 1) =~= ext);
        assert(name.take(at) =~= stem);
    }
    if !name.contains('.') {
        assert forall|k: int| -1 < k < n implies #[trigger] name[k] != '.' by {
            assert(name.contains(name[k]));
        }
        text::lemma_rfind_unique(name, '.', -1, n);
        assert(name.take(n) =~= name);
    }
    if name == "."@ + ext && !ext.contains('.') {
        assert(name[0] == '.');
        assert forall|k: int| 0 < k < n implies #[trigger] name[k] != '.' by {
            assert(name[k] == ext[k - 1]);
            assert(ext.contains(ext[k - 1]));
        }
        text::lemma_rfind_unique(name, '.', 0, n);
        assert(name.take(n) =~= name);
    }
}

} // verus!
