//! Paths as texts of components between slashes.
use crate::collections;
use crate::text;
use crate::values;
use crate::collections::has_text;
use crate::collections::join;
use crate::collections::push_text;
use crate::text::append_chars;
use crate::text::append_str;
use crate::text::chars_of;
use crate::text::find_char;
use crate::text::rfind_char;
use crate::text::same_str;
use crate::text::string_of;
use crate::values::split_pieces;
use vstd::prelude::*;
use vstd::slice::slice_subrange;

verus! {

/// Whether a piece between slashes is a component: neither empty nor `.`.
pub open spec fn is_part(piece: Seq<char>) -> bool {
    piece.len() > 0 && piece != seq!['.']
}

/// The components among `pieces[k..]`.
pub open spec fn parts_from(pieces: Seq<Seq<char>>, k: int) -> Seq<Seq<char>>
    decreases pieces.len() - k,
{
    if k < 0 || k >= pieces.len() {
        Seq::empty()
    } else if is_part(pieces[k]) {
        seq![pieces[k]] + parts_from(pieces, k + 1)
    } else {
        parts_from(pieces, k + 1)
    }
}

/// The components of a path.
pub open spec fn path_parts(path: Seq<char>) -> Seq<Seq<char>> {
    parts_from(values::pieces(path, '/'), 0)
}

/// Whether a path begins at the root.
pub open spec fn is_rooted(path: Seq<char>) -> bool {
    path.len() > 0 && path[0] == '/'
}

/// The rooted path of some components.
pub open spec fn rooted(parts: Seq<Seq<char>>) -> Seq<char> {
    "/"@ + collections::joined(parts, "/"@)
}

/// The rooted path with the components of `path`.
pub open spec fn tidy(path: Seq<char>) -> Seq<char> {
    rooted(path_parts(path))
}

/// The path `target` as it is read from the directory `base`.
pub open spec fn joined_path(base: Seq<char>, target: Seq<char>) -> Seq<char> {
    if is_rooted(target) {
        target
    } else {
        base + "/"@ + target
    }
}

/// The last component of a path, unless it leads to a parent directory.
pub open spec fn file_name(path: Seq<char>) -> Option<Seq<char>> {
    let parts = path_parts(path);
    if parts.len() > 0 && parts.last() != ".."@ {
        Some(parts.last())
    } else {
        None
    }
}

/// The position of the dot that separates a file name from its extension, or
/// the length of a name without one.
pub open spec fn extension_dot(name: Seq<char>) -> int {
    let dot = text::rfind_before(name, '.', name.len() as int);
    if dot <= 0 {
        name.len() as int
    } else {
        dot
    }
}

/// The extension of the file that a path names.
pub open spec fn extension(path: Seq<char>) -> Option<Seq<char>> {
    match file_name(path) {
        Some(name) => if extension_dot(name) < name.len() {
            Some(name.skip(extension_dot(name) + 1))
        } else {
            None
        },
        None => None,
    }
}

/// The name of the file that a path names, without its extension.
pub open spec fn file_stem(path: Seq<char>) -> Option<Seq<char>> {
    match file_name(path) {
        Some(name) => Some(name.take(extension_dot(name))),
        None => None,
    }
}

/// The rooted directory of a rooted path.
pub open spec fn parent(path: Seq<char>) -> Option<Seq<char>> {
    let parts = path_parts(path);
    if parts.len() > 0 {
        Some(rooted(parts.drop_last()))
    } else {
        None
    }
}

/// Whether the components of `path` begin with those of `root`.
pub open spec fn is_below(path: Seq<char>, root: Seq<char>) -> bool {
    path_parts(root).len() <= path_parts(path).len() && path_parts(path).take(
        path_parts(root).len() as int,
    ) == path_parts(root)
}

/// The order of paths by their components.
pub open spec fn path_less(a: Seq<char>, b: Seq<char>) -> bool
    decreases a.len(),
{
    if b.len() == 0 {
        false
    } else if a.len() == 0 {
        true
    } else if a[0] == b[0] {
        path_less(a.drop_first(), b.drop_first())
    } else if a[0] == '/' {
        true
    } else if b[0] == '/' {
        false
    } else {
        a[0] < b[0]
    }
}

pub proof fn lemma_path_less_transitive(a: Seq<char>, b: Seq<char>, c: Seq<char>)
    requires
        path_less(a, b),
        path_less(b, c),
    ensures
        path_less(a, c),
    decreases a.len(),
{
    if a.len() > 0 && a[0] == b[0] && b[0] == c[0] {
        lemma_path_less_transitive(a.drop_first(), b.drop_first(), c.drop_first());
    }
}

pub proof fn lemma_path_less_total(a: Seq<char>, b: Seq<char>)
    ensures
        a == b || path_less(a, b) || path_less(b, a),
    decreases a.len(),
{
    if a.len() == 0 || b.len() == 0 {
        if a.len() == b.len() {
            assert(a =~= b);
        }
    } else if a[0] == b[0] {
        lemma_path_less_total(a.drop_first(), b.drop_first());
        if a.drop_first() == b.drop_first() {
            assert(a =~= seq![a[0]] + a.drop_first());
            assert(b =~= seq![b[0]] + b.drop_first());
        }
    }
}

/// Whether `a` comes before `b` in the order of paths.
pub fn is_path_less(a: &str, b: &str) -> (r: bool)
    ensures
        r == path_less(a@, b@),
{
    let left = chars_of(a);
    let right = chars_of(b);
    let mut k: usize = 0;
    assert(left@.skip(0) =~= left@);
    assert(right@.skip(0) =~= right@);
    while k < left.len() && k < right.len()
        invariant
            k <= left@.len(),
            k <= right@.len(),
            left@ == a@,
            right@ == b@,
            path_less(a@, b@) == path_less(left@.skip(k as int), right@.skip(k as int)),
        decreases left@.len() - k,
    {
        assert(left@.skip(k as int)[0] == left@[k as int]);
        assert(right@.skip(k as int)[0] == right@[k as int]);
        if left[k] != right[k] {
            return left[k] == '/' || (right[k] != '/' && left[k] < right[k]);
        }
        assert(left@.skip(k as int).drop_first() =~= left@.skip(k + 1));
        assert(right@.skip(k as int).drop_first() =~= right@.skip(k + 1));
        k += 1;
    }
    k < right.len()
}

/// The components of a path.
pub fn split_path(path: &str) -> (r: Vec<String>)
    ensures
        collections::string_texts(r@) == path_parts(path@),
{
    let chars = chars_of(path);
    let ranges = split_pieces(chars.as_slice(), '/');
    let ghost all = values::pieces(path@, '/');
    let mut out: Vec<String> = Vec::new();
    let mut k: usize = 0;
    assert(collections::string_texts(out@) =~= Seq::empty());
    assert(Seq::<Seq<char>>::empty() + parts_from(all, 0) =~= path_parts(path@));
    while k < ranges.len()
        invariant
            k <= ranges@.len(),
            chars@ == path@,
            all == values::pieces(path@, '/'),
            text::ranges_match(ranges@, values::pieces_of(path@, '/')),
            values::pieces_inside(ranges@, path@.len() as int),
            collections::string_texts(out@) + parts_from(all, k as int) == path_parts(path@),
        decreases ranges@.len() - k,
    {
        let (a, b) = ranges[k];
        let piece = slice_subrange(chars.as_slice(), a, b);
        assert(all[k as int] == piece@);
        let dot = piece.len() == 1 && piece[0] == '.';
        assert(dot == (piece@ == seq!['.'])) by {
            if dot {
                assert(piece@ =~= seq!['.']);
            }
        }
        if piece.len() > 0 && !dot {
            let ghost before = collections::string_texts(out@);
            let ghost rest = parts_from(all, k + 1);
            push_text(&mut out, string_of(piece));
            assert(before + (seq![piece@] + rest) =~= before.push(piece@) + rest);
        }
        k += 1;
    }
    assert(collections::string_texts(out@) + Seq::<Seq<char>>::empty() =~= collections::string_texts(out@));
    out
}

/// Whether a path begins at the root.
pub fn is_absolute(path: &str) -> (r: bool)
    ensures
        r == is_rooted(path@),
{
    let chars = chars_of(path);
    chars.len() > 0 && chars[0] == '/'
}

/// The rooted path of some components.
fn rooted_path(parts: &Vec<String>) -> (r: String)
    ensures
        r@ == rooted(collections::string_texts(parts@)),
{
    let mut out = chars_of("/");
    append_str(&mut out, join(parts, "/").as_str());
    string_of(out.as_slice())
}

/// The rooted path with the components of `path`.
pub fn tidy_path(path: &str) -> (r: String)
    ensures
        r@ == tidy(path@),
{
    rooted_path(&split_path(path))
}

/// The path `target` as it is read from the directory `base`.
pub fn join_path(base: &str, target: &str) -> (r: String)
    ensures
        r@ == joined_path(base@, target@),
{
    if is_absolute(target) {
        target.to_owned()
    } else {
        let mut out = chars_of(base);
        append_str(&mut out, "/");
        append_str(&mut out, target);
        string_of(out.as_slice())
    }
}

/// The last component of a path, unless it leads to a parent directory.
pub fn path_file_name(path: &str) -> (r: Option<String>)
    ensures
        collections::optional_text(r) == file_name(path@),
{
    let mut parts = split_path(path);
    let ghost texts = collections::string_texts(parts@);
    match parts.pop() {
        Some(name) => {
            assert(texts.last() == name@);
            if same_str(name.as_str(), "..") {
                None
            } else {
                Some(name)
            }
        },
        None => None,
    }
}

fn dot_position(name: &[char]) -> (r: usize)
    ensures
        r == extension_dot(name@),
        r <= name@.len(),
{
    match rfind_char(name, '.', name.len()) {
        Some(dot) => if dot == 0 {
            name.len()
        } else {
            dot
        },
        None => name.len(),
    }
}

/// The extension of the file that a path names.
pub fn path_extension(path: &str) -> (r: Option<String>)
    ensures
        collections::optional_text(r) == extension(path@),
{
    match path_file_name(path) {
        Some(name) => {
            let chars = chars_of(name.as_str());
            let dot = dot_position(chars.as_slice());
            if dot < chars.len() {
                let rest = slice_subrange(chars.as_slice(), dot + 1, chars.len());
                assert(rest@ =~= name@.skip(dot + 1));
                Some(string_of(rest))
            } else {
                None
            }
        },
        None => None,
    }
}

/// The name of the file that a path names, without its extension.
pub fn path_file_stem(path: &str) -> (r: Option<String>)
    ensures
        collections::optional_text(r) == file_stem(path@),
{
    match path_file_name(path) {
        Some(name) => {
            let chars = chars_of(name.as_str());
            let dot = dot_position(chars.as_slice());
            let stem = slice_subrange(chars.as_slice(), 0, dot);
            assert(stem@ =~= name@.take(dot as int));
            Some(string_of(stem))
        },
        None => None,
    }
}

/// The rooted directory of a rooted path.
pub fn path_parent(path: &str) -> (r: Option<String>)
    ensures
        collections::optional_text(r) == parent(path@),
{
    let mut parts = split_path(path);
    let ghost texts = collections::string_texts(parts@);
    match parts.pop() {
        Some(_) => {
            assert(collections::string_texts(parts@) =~= texts.drop_last());
            Some(rooted_path(&parts))
        },
        None => None,
    }
}

/// Whether the components of `path` begin with those of `root`.
pub fn path_starts_with(path: &str, root: &str) -> (r: bool)
    ensures
        r == is_below(path@, root@),
{
    let parts = split_path(path);
    let base = split_path(root);
    let ghost a = collections::string_texts(parts@);
    let ghost b = collections::string_texts(base@);
    if base.len() > parts.len() {
        return false;
    }
    let mut k: usize = 0;
    while k < base.len()
        invariant
            k <= base@.len() <= parts@.len(),
            a == collections::string_texts(parts@),
            a == path_parts(path@),
            b == path_parts(root@),
            b == collections::string_texts(base@),
            forall|j: int| 0 <= j < k ==> #[trigger] a[j] == b[j],
        decreases base@.len() - k,
    {
        if !same_str(parts[k].as_str(), base[k].as_str()) {
            assert(a[k as int] != b[k as int]);
            assert(a[k as int] == parts@[k as int]@);
            assert(a.take(b.len() as int)[k as int] != b[k as int]);
            return false;
        }
        assert(a[k as int] == b[k as int]);
        k += 1;
    }
    assert(a.take(b.len() as int) =~= b);
    true
}

/// Whether a path names a layer's configuration file.
pub open spec fn layer_configuration(path: Seq<char>) -> bool {
    let parts = path_parts(path);
    parts.len() >= 2 && parts.last() == "layer.conf"@ && parts[parts.len() - 2] == "conf"@
}

/// Whether a path names a layer's configuration file.
pub fn is_layer_configuration(path: &str) -> (r: bool)
    ensures
        r == layer_configuration(path@),
{
    let parts = split_path(path);
    let n = parts.len();
    assert(collections::string_texts(parts@).len() == n);
    if n < 2 {
        return false;
    }
    assert(collections::string_texts(parts@).last() == parts@[n - 1]@);
    assert(collections::string_texts(parts@)[n - 2] == parts@[n - 2]@);
    same_str(parts[n - 1].as_str(), "layer.conf") && same_str(parts[n - 2].as_str(), "conf")
}

/// Whether a component of `path` is `part`.
pub fn has_part(path: &str, part: &str) -> (r: bool)
    ensures
        r == path_parts(path@).contains(part@),
{
    has_text(&split_path(path), part)
}

/// Whether a path has the extension `wanted`.
pub fn has_extension(path: &str, wanted: &str) -> (r: bool)
    ensures
        r == (extension(path@) == Some(wanted@)),
{
    match path_extension(path) {
        Some(found) => same_str(found.as_str(), wanted),
        None => false,
    }
}

// ---------------------------------------------------------------------------
// Paths as they are written
// ---------------------------------------------------------------------------
/// Where the parts of a path begin: behind the root, or behind a leading `.`.
pub open spec fn body_start(path: Seq<char>) -> int {
    if is_rooted(path) || leads_with_dot(path) {
        1
    } else {
        0
    }
}

/// The first part of a path without a root is `.`.
pub open spec fn leads_with_dot(path: Seq<char>) -> bool {
    path.len() > 0 && path[0] == '.' && (path.len() == 1 || path[1] == '/')
}

/// Where the last piece of `path[body..e]` begins.
pub open spec fn last_piece(path: Seq<char>, body: int, e: int) -> int {
    let slash = text::rfind_before(path, '/', e);
    if slash < body {
        body
    } else {
        slash + 1
    }
}

/// The end of the piece before the one that begins at `s`.
pub open spec fn before_piece(body: int, s: int) -> int {
    if s > body {
        s - 1
    } else {
        body
    }
}

/// The end of `path[body..e]` without its trailing pieces that are empty or `.`.
pub open spec fn real_end(path: Seq<char>, body: int, e: int) -> int
    decreases e - body,
{
    let s = last_piece(path, body, e);
    if e <= body || s < body || s > e {
        body
    } else if is_part(path.subrange(s, e)) {
        e
    } else if s == e && s == body {
        body
    } else {
        real_end(path, body, before_piece(body, s))
    }
}

/// The path without its last part.
pub open spec fn lexical_parent(path: Seq<char>) -> Option<Seq<char>> {
    let body = body_start(path);
    let e = real_end(path, body, path.len() as int);
    if e > body {
        Some(
            path.take(
                real_end(path, body, before_piece(body, last_piece(path, body, e))),
            ),
        )
    } else if leads_with_dot(path) {
        Some(Seq::empty())
    } else {
        None
    }
}

/// A path and the paths above it, nearest first.
pub open spec fn ancestors(path: Seq<char>) -> Seq<Seq<char>>
    decreases path.len(),
{
    match lexical_parent(path) {
        Some(above) => if above.len() < path.len() {
            seq![path] + ancestors(above)
        } else {
            seq![path]
        },
        None => seq![path],
    }
}

/// A path with a relative path added at its end.
pub open spec fn pushed_path(base: Seq<char>, target: Seq<char>) -> Seq<char> {
    if is_rooted(target) {
        target
    } else if base.len() == 0 || base.last() == '/' {
        base + target
    } else {
        base + seq!['/'] + target
    }
}

/// Where the first part of a path from `i` on begins.
pub open spec fn part_start(path: Seq<char>, i: int) -> int
    decreases path.len() - i,
{
    let e = text::find_from(path, '/', i);
    if i < 0 || i >= path.len() || e < i {
        path.len() as int
    } else if is_part(path.subrange(i, e)) {
        i
    } else if e >= path.len() {
        path.len() as int
    } else {
        part_start(path, e + 1)
    }
}

/// Where a path goes on behind `n` parts from `i` on.
pub open spec fn behind_parts(path: Seq<char>, i: int, n: nat) -> int
    decreases n,
{
    if n == 0 {
        part_start(path, i)
    } else {
        behind_parts(path, text::find_from(path, '/', part_start(path, i)), (n - 1) as nat)
    }
}

/// What is left of an absolute path below `root`.
pub open spec fn relative_path(path: Seq<char>, root: Seq<char>) -> Option<Seq<char>> {
    if is_below(path, root) {
        let s = behind_parts(path, 0, path_parts(root).len());
        Some(path.subrange(s, real_end(path, s, path.len() as int)))
    } else {
        None
    }
}

fn real_end_of(path: &[char], body: usize, e: usize) -> (r: usize)
    requires
        body <= e <= path@.len(),
    ensures
        r == real_end(path@, body as int, e as int),
        body <= r <= e,
{
    let mut end = e;
    while end > body
        invariant
            body <= end <= e <= path@.len(),
            real_end(path@, body as int, end as int) == real_end(path@, body as int, e as int),
        decreases end - body,
    {
        let s = last_piece_of(path, body, end);
        let piece = slice_subrange(path, s, end);
        if is_path_part(piece) {
            return end;
        }
        if s > body {
            end = s - 1;
        } else {
            end = body;
        }
    }
    end
}

fn last_piece_of(path: &[char], body: usize, e: usize) -> (r: usize)
    requires
        body <= e <= path@.len(),
    ensures
        r == last_piece(path@, body as int, e as int),
        body <= r <= e,
{
    match rfind_char(path, '/', e) {
        Some(slash) => if slash < body {
            body
        } else {
            slash + 1
        },
        None => body,
    }
}

fn is_path_part(piece: &[char]) -> (r: bool)
    ensures
        r == is_part(piece@),
{
    if piece.len() == 0 {
        return false;
    }
    if piece.len() == 1 && piece[0] == '.' {
        assert(piece@ =~= seq!['.']);
        return false;
    }
    assert(piece@.len() == 1 ==> piece@[0] != '.');
    true
}

/// The path without its last part.
pub fn parent_path(path: &str) -> (r: Option<String>)
    ensures
        collections::optional_text(r) == lexical_parent(path@),
        r matches Some(above) ==> above@.len() < path@.len(),
{
    let chars = chars_of(path);
    let dotted = chars.len() > 0 && chars[0] == '.' && (chars.len() == 1 || chars[1] == '/');
    let body: usize = if chars.len() > 0 && (chars[0] == '/' || dotted) {
        1
    } else {
        0
    };
    let e = real_end_of(chars.as_slice(), body, chars.len());
    if e > body {
        let s = last_piece_of(chars.as_slice(), body, e);
        let next: usize = if s > body {
            s - 1
        } else {
            body
        };
        let end = real_end_of(chars.as_slice(), body, next);
        proof {
            // The last part is not empty, so that something is taken away.
            lemma_part_at_real_end(path@, body as int, path@.len() as int);
        }
        let above = slice_subrange(chars.as_slice(), 0, end);
        assert(above@ =~= path@.take(end as int));
        Some(string_of(above))
    } else if dotted {
        let above = String::new();
        assert(above@ =~= Seq::empty());
        Some(above)
    } else {
        None
    }
}

proof fn lemma_part_at_real_end(path: Seq<char>, body: int, e: int)
    requires
        0 <= body <= e <= path.len(),
        real_end(path, body, e) > body,
    ensures
        last_piece(path, body, real_end(path, body, e)) < real_end(path, body, e),
    decreases e - body,
{
    let s = last_piece(path, body, e);
    text::lemma_rfind(path, '/', e);
    if e <= body || s < body || s > e {
    } else if is_part(path.subrange(s, e)) {
    } else if s == e && s == body {
    } else {
        lemma_part_at_real_end(path, body, before_piece(body, s));
    }
}

/// A path and the paths above it, nearest first.
pub fn path_ancestors(path: &str) -> (r: Vec<String>)
    ensures
        collections::string_texts(r@) == ancestors(path@),
{
    let mut out: Vec<String> = Vec::new();
    let mut current = path.to_owned();
    let ghost goal = ancestors(path@);
    assert(collections::string_texts(out@) + ancestors(current@) =~= goal);
    loop
        invariant_except_break
            collections::string_texts(out@) + ancestors(current@) == goal,
        ensures
            collections::string_texts(out@) == goal,
        decreases current@.len(),
    {
        let ghost before = collections::string_texts(out@);
        let above = parent_path(current.as_str());
        let ghost here = current@;
        push_text(&mut out, current);
        match above {
            Some(next) => {
                assert(before + (seq![here] + ancestors(next@)) =~= before.push(here) + ancestors(
                    next@,
                ));
                current = next;
            },
            None => {
                assert(before + seq![here] =~= before.push(here));
                break;
            },
        }
    }
    out
}

/// A path with a relative path added at its end.
pub fn push_path(base: &str, target: &str) -> (r: String)
    ensures
        r@ == pushed_path(base@, target@),
{
    if is_absolute(target) {
        return target.to_owned();
    }
    let mut out = chars_of(base);
    if out.len() > 0 && out[out.len() - 1] != '/' {
        out.push('/');
        assert(out@ =~= base@ + seq!['/']);
    }
    append_chars(&mut out, chars_of(target).as_slice());
    string_of(out.as_slice())
}

fn part_start_of(path: &[char], i: usize) -> (r: usize)
    requires
        i <= path@.len(),
    ensures
        r == part_start(path@, i as int),
        i <= r <= path@.len(),
{
    let mut k = i;
    while k < path.len()
        invariant
            i <= k <= path@.len(),
            part_start(path@, k as int) == part_start(path@, i as int),
        decreases path@.len() - k,
    {
        let e = find_char(path, '/', k);
        if is_path_part(slice_subrange(path, k, e)) {
            return k;
        }
        if e == path.len() {
            return e;
        }
        k = e + 1;
    }
    k
}

/// What is left of an absolute path below `root`.
pub fn strip_root(path: &str, root: &str) -> (r: Option<String>)
    ensures
        collections::optional_text(r) == relative_path(path@, root@),
{
    if !path_starts_with(path, root) {
        return None;
    }
    let chars = chars_of(path);
    let count = split_path(root).len();
    assert(count == path_parts(root@).len());
    let mut left = count;
    let mut i: usize = 0;
    while left > 0
        invariant
            chars@ == path@,
            i <= chars@.len(),
            behind_parts(path@, i as int, left as nat) == behind_parts(path@, 0, count as nat),
        decreases left,
    {
        let s = part_start_of(chars.as_slice(), i);
        i = find_char(chars.as_slice(), '/', s);
        left -= 1;
    }
    let s = part_start_of(chars.as_slice(), i);
    let e = real_end_of(chars.as_slice(), s, chars.len());
    Some(string_of(slice_subrange(chars.as_slice(), s, e)))
}

} // verus!
