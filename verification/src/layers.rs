//! What a layer's configuration says about the layer.
use crate::checks;
use crate::collections;
use crate::keys;
use crate::numbers;
use crate::paths;
use crate::statements;
use crate::syntax;
use crate::text;
use crate::values;
use crate::collections::TextMap;
use crate::collections::push_distinct;
use crate::collections::push_text;
use crate::keys::contains_reference;
use crate::numbers::parse_i32;
use crate::paths::join_path;
use crate::paths::tidy_path;
use crate::statements::AssignmentStatement;
use crate::statements::AssignmentView;
use crate::statements::Statement;
use crate::statements::StatementView;
use crate::statements::statements;
use crate::text::CharClass;
use crate::text::append_chars;
use crate::text::append_str;
use crate::text::chars_of;
use crate::text::copy_chars;
use crate::text::eq_str;
use crate::text::find_char;
use crate::text::find_str;
use crate::text::same_str;
use crate::text::split_words;
use crate::text::starts_with;
use crate::text::string_of;
use crate::text::trim;
use crate::tree::parse;
use crate::values::begins;
use crate::values::split_pieces;
use vstd::prelude::*;
use vstd::slice::slice_subrange;

verus! {

// ---------------------------------------------------------------------------
// Texts
// ---------------------------------------------------------------------------
/// `t[i..]` with every `p` replaced by `w`, from the left.
pub open spec fn replaced_from(t: Seq<char>, p: Seq<char>, w: Seq<char>, i: int) -> Seq<char>
    decreases t.len() - i,
{
    let k = text::find_seq(t, p, i);
    if p.len() == 0 || i < 0 || k < i || k + p.len() > t.len() {
        t.skip(i)
    } else {
        t.subrange(i, k) + w + replaced_from(t, p, w, k + p.len())
    }
}

/// `t` with every `p` replaced by `w`.
pub open spec fn replaced(t: Seq<char>, p: Seq<char>, w: Seq<char>) -> Seq<char> {
    replaced_from(t, p, w, 0)
}

/// `t` with every `p` replaced by `w`.
pub fn replace_all(t: &[char], p: &str, w: &str) -> (r: Vec<char>)
    requires
        p@.len() > 0,
    ensures
        r@ == replaced(t@, p@, w@),
{
    let pattern = chars_of(p);
    let mut out: Vec<char> = Vec::new();
    let size = t.len();
    let mut i: usize = 0;
    assert(out@ + replaced_from(t@, p@, w@, 0) =~= replaced(t@, p@, w@));
    loop
        invariant
            i <= t@.len(),
            size == t@.len(),
            p@.len() > 0,
            pattern@ == p@,
            out@ + replaced_from(t@, p@, w@, i as int) == replaced(t@, p@, w@),
        decreases t@.len() - i,
    {
        match find_str(t, pattern.as_slice(), i) {
            Some(k) => {
                let ghost before = out@;
                append_chars(&mut out, slice_subrange(t, i, k));
                append_str(&mut out, w);
                proof {
                    let rest = replaced_from(t@, p@, w@, k + p@.len());
                    assert(before + (t@.subrange(i as int, k as int) + w@ + rest) =~= out@ + rest);
                }
                i = k + pattern.len();
            },
            None => {
                let ghost before = out@;
                append_chars(&mut out, slice_subrange(t, i, t.len()));
                assert(t@.subrange(i as int, t@.len() as int) =~= t@.skip(i as int));
                assert(out@ == before + t@.skip(i as int));
                return out;
            },
        }
    }
}

/// A value without its quotes, or without its comment where it has no quotes.
/// The first quote after the opening one closes the value.
pub open spec fn plain_value(value: Seq<char>) -> Option<Seq<char>> {
    let text = text::trimmed(value, CharClass::Whitespace);
    if text.len() > 0 && values::is_quote(text[0]) {
        let close = text::find_from(text, text[0], 1);
        if close < text.len() {
            Some(text.subrange(1, close))
        } else {
            None
        }
    } else {
        Some(text::trimmed(values::first_piece(text, '#'), CharClass::Whitespace))
    }
}

/// A value without its quotes, or without its comment where it has no quotes.
pub fn read_plain_value(value: &[char]) -> (r: Option<Vec<char>>)
    ensures
        match r {
            Some(text) => plain_value(value@) == Some(text@),
            None => plain_value(value@) is None,
        },
{
    let text = trim(value, CharClass::Whitespace);
    if text.len() > 0 && (text[0] == '\'' || text[0] == '"') {
        let close = find_char(text, text[0], 1);
        if close < text.len() {
            Some(copy_chars(slice_subrange(text, 1, close)))
        } else {
            None
        }
    } else {
        let e = find_char(text, '#', 0);
        assert(text@.subrange(0, e as int) =~= text@.take(e as int));
        Some(copy_chars(trim(slice_subrange(text, 0, e), CharClass::Whitespace)))
    }
}

/// The value, or the empty text where there is none.
pub open spec fn value_or_empty(value: Seq<char>) -> Seq<char> {
    match plain_value(value) {
        Some(text) => text,
        None => Seq::empty(),
    }
}

/// The texts of the words `words[k..]` of `t` that hold no `${`.
pub open spec fn literal_from(t: Seq<char>, words: Seq<(int, int)>, k: int) -> Seq<Seq<char>>
    decreases words.len() - k,
{
    if k < 0 || k >= words.len() {
        Seq::empty()
    } else {
        let word = t.subrange(words[k].0, words[k].1);
        if keys::has_reference(word) {
            literal_from(t, words, k + 1)
        } else {
            seq![word] + literal_from(t, words, k + 1)
        }
    }
}

/// The words of a value that hold no variable.
pub open spec fn literal_words(value: Seq<char>) -> Seq<Seq<char>> {
    let text = value_or_empty(value);
    literal_from(text, text::words_of(text, CharClass::Ascii), 0)
}

/// The words of a value that hold no variable.
pub fn read_literal_words(value: &[char]) -> (r: Vec<String>)
    ensures
        collections::string_texts(r@) == literal_words(value@),
{
    let text = match read_plain_value(value) {
        Some(text) => text,
        None => {
            let empty: Vec<char> = Vec::new();
            assert(empty@ =~= Seq::empty());
            empty
        },
    };
    let words = split_words(text.as_slice(), CharClass::Ascii);
    let ghost all = text::words_of(text@, CharClass::Ascii);
    let mut out: Vec<String> = Vec::new();
    let mut k: usize = 0;
    assert(collections::string_texts(out@) =~= Seq::empty());
    assert(Seq::<Seq<char>>::empty() + literal_from(text@, all, 0) =~= literal_words(value@));
    while k < words.len()
        invariant
            k <= words@.len(),
            all == text::words_of(text@, CharClass::Ascii),
            text::ranges_match(words@, all),
            text::ranges_inside(words@, text@.len() as int),
            collections::string_texts(out@) + literal_from(text@, all, k as int) == literal_words(value@),
        decreases words@.len() - k,
    {
        let (a, b) = words[k];
        assert(words@[k as int].0 == all[k as int].0);
        let word = slice_subrange(text.as_slice(), a, b);
        if !contains_reference(word) {
            let ghost before = collections::string_texts(out@);
            push_text(&mut out, string_of(word));
            proof {
                let rest = literal_from(text@, all, k + 1);
                assert(before + (seq![word@] + rest) =~= before.push(word@) + rest);
            }
        }
        k += 1;
    }
    assert(collections::string_texts(out@) + Seq::<Seq<char>>::empty() =~= collections::string_texts(out@));
    out
}

// ---------------------------------------------------------------------------
// Search paths and patterns
// ---------------------------------------------------------------------------
/// The directory that an entry of a search path names in the layer at `root`.
pub open spec fn search_directory(entry: Seq<char>, root: Seq<char>) -> Seq<char> {
    paths::tidy(
        paths::joined_path(
            root,
            replaced(
                replaced(entry, "${LAYERDIR}"@, root),
                "${THISDIR}"@,
                root + "/conf"@,
            ),
        ),
    )
}

/// The directories that the entries `entries[k..]` name.
pub open spec fn directories_from(entries: Seq<Seq<char>>, k: int, root: Seq<char>) -> Seq<
    Seq<char>,
>
    decreases entries.len() - k,
{
    if k < 0 || k >= entries.len() {
        Seq::empty()
    } else {
        let entry = text::trimmed(entries[k], CharClass::Whitespace);
        if entry.len() == 0 {
            directories_from(entries, k + 1, root)
        } else {
            seq![search_directory(entry, root)] + directories_from(entries, k + 1, root)
        }
    }
}

/// The text of a search path without its line continuations.
pub open spec fn search_text(value: Seq<char>) -> Seq<char> {
    replaced(replaced(value_or_empty(value), "\\\r\n"@, ""@), "\\\n"@, ""@)
}

/// The directories of a search path.
pub open spec fn search_directories(value: Seq<char>, root: Seq<char>) -> Seq<Seq<char>> {
    directories_from(values::pieces(search_text(value), ':'), 0, root)
}

fn read_search_directory(entry: &[char], root: &str) -> (r: String)
    ensures
        r@ == search_directory(entry@, root@),
{
    let mut conf = chars_of(root);
    append_str(&mut conf, "/conf");
    proof {
        reveal_strlit("${LAYERDIR}");
        reveal_strlit("${THISDIR}");
    }
    let first = replace_all(entry, "${LAYERDIR}", root);
    let second = replace_all(
        first.as_slice(),
        "${THISDIR}",
        string_of(conf.as_slice()).as_str(),
    );
    let path = join_path(root, string_of(second.as_slice()).as_str());
    tidy_path(path.as_str())
}

/// The directories of a search path.
pub fn parse_bbpath(value: &[char], root: &str) -> (r: Vec<String>)
    ensures
        collections::string_texts(r@) == search_directories(value@, root@),
{
    let text = match read_plain_value(value) {
        Some(text) => text,
        None => {
            let empty: Vec<char> = Vec::new();
            assert(empty@ =~= Seq::empty());
            empty
        },
    };
    proof {
        reveal_strlit("\\\r\n");
        reveal_strlit("\\\n");
    }
    let text = replace_all(text.as_slice(), "\\\r\n", "");
    let text = replace_all(text.as_slice(), "\\\n", "");
    let entries = split_pieces(text.as_slice(), ':');
    let ghost all = values::pieces(text@, ':');
    let mut out: Vec<String> = Vec::new();
    let mut k: usize = 0;
    assert(collections::string_texts(out@) =~= Seq::empty());
    assert(Seq::<Seq<char>>::empty() + directories_from(all, 0, root@) =~= search_directories(
        value@,
        root@,
    ));
    while k < entries.len()
        invariant
            k <= entries@.len(),
            all == values::pieces(text@, ':'),
            text::ranges_match(entries@, values::pieces_of(text@, ':')),
            values::pieces_inside(entries@, text@.len() as int),
            collections::string_texts(out@) + directories_from(all, k as int, root@) == search_directories(
                value@,
                root@,
            ),
        decreases entries@.len() - k,
    {
        let (a, b) = entries[k];
        let entry = slice_subrange(text.as_slice(), a, b);
        assert(all[k as int] == entry@);
        let entry = trim(entry, CharClass::Whitespace);
        if entry.len() > 0 {
            let ghost before = collections::string_texts(out@);
            let directory = read_search_directory(entry, root);
            let ghost added = directory@;
            push_text(&mut out, directory);
            proof {
                let rest = directories_from(all, k + 1, root@);
                assert(before + (seq![added] + rest) =~= before.push(added) + rest);
            }
        }
        k += 1;
    }
    assert(collections::string_texts(out@) + Seq::<Seq<char>>::empty() =~= collections::string_texts(out@));
    out
}

/// Whether `c` begins the part of a pattern that is not literal.
pub open spec fn is_wildcard(c: char) -> bool {
    c == '*' || c == '?' || c == '[' || c == '(' || c == '$'
}

/// The first position from `i` of a character that is not literal.
pub open spec fn literal_end(t: Seq<char>, i: int) -> int
    decreases t.len() - i,
{
    if i < 0 || i >= t.len() {
        t.len() as int
    } else if is_wildcard(t[i]) {
        i
    } else {
        literal_end(t, i + 1)
    }
}

/// The first position from `i` whose character is not `c`.
pub open spec fn run_end(t: Seq<char>, c: char, i: int) -> int
    decreases t.len() - i,
{
    if i < 0 || i >= t.len() {
        t.len() as int
    } else if t[i] == c {
        run_end(t, c, i + 1)
    } else {
        i
    }
}

/// The end of `t[..e]` without the `c` at its end.
pub open spec fn run_start(t: Seq<char>, c: char, e: int) -> int
    decreases e,
{
    if e <= 0 {
        0
    } else if e <= t.len() && t[e - 1] == c {
        run_start(t, c, e - 1)
    } else {
        e
    }
}

/// The literal text that the paths of a pattern begin with.
pub open spec fn pattern_prefix(pattern: Seq<char>, root: Seq<char>) -> Seq<char> {
    let text = text::trimmed(pattern, CharClass::Whitespace);
    let body = replaced(text.skip(run_end(text, '^', 0)), "${LAYERDIR}"@, root);
    body.take(run_start(body, '/', literal_end(body, 0)))
}

/// Whether a pattern of the layer at `root` covers `path`, by its literal
/// beginning.
pub open spec fn pattern_covers(pattern: Seq<char>, path: Seq<char>, root: Seq<char>) -> bool {
    pattern_prefix(pattern, root).len() > 0 && text::has_prefix(path, pattern_prefix(pattern, root))
}

/// Whether a pattern of the layer at `root` covers `path`.
pub fn pattern_matches_path(pattern: &str, path: &str, root: &str) -> (r: bool)
    ensures
        r == pattern_covers(pattern@, path@, root@),
{
    let chars = chars_of(pattern);
    let text = trim(chars.as_slice(), CharClass::Whitespace);
    let mut i: usize = 0;
    while i < text.len() && text[i] == '^'
        invariant
            i <= text@.len(),
            run_end(text@, '^', 0) == run_end(text@, '^', i as int),
        decreases text@.len() - i,
    {
        i += 1;
    }
    let rest = slice_subrange(text, i, text.len());
    assert(rest@ =~= text@.skip(i as int));
    proof {
        reveal_strlit("${LAYERDIR}");
    }
    let body = replace_all(rest, "${LAYERDIR}", root);
    let mut e: usize = 0;
    while e < body.len() && !(body[e] == '*' || body[e] == '?' || body[e] == '[' || body[e] == '('
        || body[e] == '$')
        invariant
            e <= body@.len(),
            literal_end(body@, 0) == literal_end(body@, e as int),
        decreases body@.len() - e,
    {
        e += 1;
    }
    let ghost stop = e as int;
    while e > 0 && body[e - 1] == '/'
        invariant
            e <= body@.len(),
            run_start(body@, '/', stop) == run_start(body@, '/', e as int),
        decreases e,
    {
        e -= 1;
    }
    let prefix = slice_subrange(body.as_slice(), 0, e);
    assert(prefix@ =~= body@.take(e as int));
    let path = chars_of(path);
    prefix.len() > 0 && begins(path.as_slice(), prefix)
}

// ---------------------------------------------------------------------------
// Metadata
// ---------------------------------------------------------------------------
/// What a layer's configuration says.
#[verifier::ext_equal]
pub struct MetadataView {
    pub collections: Seq<Seq<char>>,
    pub patterns: Map<Seq<char>, Seq<char>>,
    pub priorities: Seq<(Seq<char>, int)>,
    pub bbpath: Seq<Seq<char>>,
}

/// What a layer without a configuration says.
pub open spec fn no_metadata() -> MetadataView {
    MetadataView {
        collections: Seq::empty(),
        patterns: Map::empty(),
        priorities: Seq::empty(),
        bbpath: Seq::empty(),
    }
}

/// `items` with the texts `more[k..]` that it does not hold.
pub open spec fn with_texts(items: Seq<Seq<char>>, more: Seq<Seq<char>>, k: int) -> Seq<Seq<char>>
    decreases more.len() - k,
{
    if k < 0 || k >= more.len() {
        items
    } else {
        with_texts(checks::with_name(items, more[k]), more, k + 1)
    }
}

/// The position from `k` at which a list gives `key` a value.
pub open spec fn key_from(pairs: Seq<(Seq<char>, int)>, key: Seq<char>, k: int) -> int
    decreases pairs.len() - k,
{
    if k < 0 || k >= pairs.len() {
        pairs.len() as int
    } else if pairs[k].0 == key {
        k
    } else {
        key_from(pairs, key, k + 1)
    }
}

/// The value that a list gives `key`.
pub open spec fn value_in(pairs: Seq<(Seq<char>, int)>, key: Seq<char>) -> Option<int> {
    let k = key_from(pairs, key, 0);
    if k < pairs.len() {
        Some(pairs[k].1)
    } else {
        None
    }
}

/// A list with the value `value` for `key`.
pub open spec fn with_value(pairs: Seq<(Seq<char>, int)>, key: Seq<char>, value: int) -> Seq<
    (Seq<char>, int),
> {
    let k = key_from(pairs, key, 0);
    if k < pairs.len() {
        pairs.update(k, (key, value))
    } else {
        pairs.push((key, value))
    }
}

/// The 32-bit integer that a value is.
pub open spec fn integer_of(value: Seq<char>) -> Option<int> {
    match plain_value(value) {
        Some(text) => numbers::integer_value(text, true, i32::MIN as int, i32::MAX as int),
        None => None,
    }
}

/// What a layer's configuration says after one more assignment.
pub open spec fn metadata_step(m: MetadataView, a: AssignmentView, root: Seq<char>) -> MetadataView {
    let base = values::first_piece(a.name, ':');
    if base == "BBPATH"@ {
        MetadataView { bbpath: with_texts(m.bbpath, search_directories(a.value, root), 0), ..m }
    } else if base == "BBFILE_COLLECTIONS"@ {
        MetadataView { collections: with_texts(m.collections, literal_words(a.value), 0), ..m }
    } else if text::has_prefix(base, "BBFILE_PATTERN_"@) {
        match plain_value(a.value) {
            Some(pattern) => MetadataView {
                patterns: m.patterns.insert(base.skip("BBFILE_PATTERN_"@.len() as int), pattern),
                ..m
            },
            None => m,
        }
    } else if text::has_prefix(base, "BBFILE_PRIORITY_"@) {
        match integer_of(a.value) {
            Some(priority) => MetadataView {
                priorities: with_value(
                    m.priorities,
                    base.skip("BBFILE_PRIORITY_"@.len() as int),
                    priority,
                ),
                ..m
            },
            None => m,
        }
    } else {
        m
    }
}

/// What the statements `s[k..]` of a layer's configuration add to `m`.
pub open spec fn metadata_from(
    s: Seq<StatementView>,
    k: int,
    m: MetadataView,
    root: Seq<char>,
) -> MetadataView
    decreases s.len() - k,
{
    if k < 0 || k >= s.len() {
        m
    } else {
        match s[k] {
            StatementView::Assignment(a) => metadata_from(s, k + 1, metadata_step(m, a, root), root),
            _ => metadata_from(s, k + 1, m, root),
        }
    }
}

/// What the configuration `source` of the layer at `root` says.
pub open spec fn metadata_of(source: Option<Seq<char>>, root: Seq<char>) -> MetadataView {
    match source {
        Some(text) => match syntax::nodes_of(text) {
            Ok(_) => metadata_from(statements::statements_of(text), 0, no_metadata(), root),
            Err(_) => no_metadata(),
        },
        None => no_metadata(),
    }
}

/// The larger of two priorities.
pub open spec fn larger(a: Option<int>, b: Option<int>) -> Option<int> {
    match (a, b) {
        (Some(x), Some(y)) => Some(
            if x < y {
                y
            } else {
                x
            },
        ),
        (Some(x), None) => Some(x),
        (None, y) => y,
    }
}

/// The largest priority of the collections `collections[..n]`.
pub open spec fn collection_priority(m: MetadataView, n: int) -> Option<int>
    decreases n,
{
    if n <= 0 || n > m.collections.len() {
        None
    } else {
        larger(collection_priority(m, n - 1), value_in(m.priorities, m.collections[n - 1]))
    }
}

/// The largest of the priorities `priorities[..n]`.
pub open spec fn any_priority(m: MetadataView, n: int) -> Option<int>
    decreases n,
{
    if n <= 0 || n > m.priorities.len() {
        None
    } else {
        larger(any_priority(m, n - 1), Some(m.priorities[n - 1].1))
    }
}

/// The priority of a layer: the largest of its collections, else the largest
/// that its configuration names, else zero.
pub open spec fn layer_priority(m: MetadataView) -> int {
    match collection_priority(m, m.collections.len() as int) {
        Some(priority) => priority,
        None => match any_priority(m, m.priorities.len() as int) {
            Some(priority) => priority,
            None => 0,
        },
    }
}

/// The first collection from `k` whose pattern covers `path`.
pub open spec fn covering_from(m: MetadataView, k: int, path: Seq<char>, root: Seq<char>) -> Option<
    Seq<char>,
>
    decreases m.collections.len() - k,
{
    if k < 0 || k >= m.collections.len() {
        None
    } else if m.patterns.dom().contains(m.collections[k]) && pattern_covers(
        m.patterns[m.collections[k]],
        path,
        root,
    ) {
        Some(m.collections[k])
    } else {
        covering_from(m, k + 1, path, root)
    }
}

/// The collection that `path` belongs to: the first whose pattern covers it,
/// else the only one of the layer.
pub open spec fn collection_of(m: MetadataView, path: Seq<char>, root: Seq<char>) -> Option<
    Seq<char>,
> {
    match covering_from(m, 0, path, root) {
        Some(collection) => Some(collection),
        None => if m.collections.len() == 1 {
            Some(m.collections[0])
        } else {
            None
        },
    }
}

/// What a layer's configuration says.
#[derive(Clone, Debug)]
pub struct LayerMetadata {
    collections: Vec<String>,
    patterns: TextMap,
    priorities: Vec<(String, i32)>,
    bbpath: Vec<String>,
}

/// The contents of a list of priorities.
pub open spec fn priority_views(items: Seq<(String, i32)>) -> Seq<(Seq<char>, int)> {
    items.map_values(|p: (String, i32)| (p.0@, p.1 as int))
}

fn key_position(items: &Vec<(String, i32)>, key: &str) -> (r: usize)
    ensures
        r == key_from(priority_views(items@), key@, 0),
        r <= items@.len(),
{
    let ghost all = priority_views(items@);
    let mut k: usize = 0;
    while k < items.len()
        invariant
            k <= items@.len(),
            all == priority_views(items@),
            key_from(all, key@, 0) == key_from(all, key@, k as int),
        decreases items@.len() - k,
    {
        assert(all[k as int].0 == items@[k as int].0@);
        if same_str(items[k].0.as_str(), key) {
            return k;
        }
        k += 1;
    }
    k
}

fn push_texts(items: &mut Vec<String>, more: &Vec<String>)
    ensures
        collections::string_texts(final(items)@) == with_texts(
            collections::string_texts(old(items)@),
            collections::string_texts(more@),
            0,
        ),
{
    let ghost all = collections::string_texts(more@);
    let ghost goal = with_texts(collections::string_texts(items@), all, 0);
    let mut k: usize = 0;
    while k < more.len()
        invariant
            k <= more@.len(),
            all == collections::string_texts(more@),
            with_texts(collections::string_texts(items@), all, k as int) == goal,
        decreases more@.len() - k,
    {
        assert(all[k as int] == more@[k as int]@);
        push_distinct(items, more[k].clone());
        k += 1;
    }
}

impl LayerMetadata {
    pub closed spec fn view(&self) -> MetadataView {
        MetadataView {
            collections: collections::string_texts(self.collections@),
            patterns: self.patterns.map(),
            priorities: priority_views(self.priorities@),
            bbpath: collections::string_texts(self.bbpath@),
        }
    }

    pub closed spec fn wf(&self) -> bool {
        self.patterns.wf()
    }

    fn empty() -> (r: LayerMetadata)
        ensures
            r.wf(),
            r@ == no_metadata(),
    {
        let r = LayerMetadata {
            collections: Vec::new(),
            patterns: TextMap::new(),
            priorities: Vec::new(),
            bbpath: Vec::new(),
        };
        assert(r@ =~= no_metadata());
        r
    }

    fn step(&mut self, a: &AssignmentStatement, root: &str)
        requires
            old(self).wf(),
        ensures
            final(self).wf(),
            final(self)@ == metadata_step(old(self)@, a@, root@),
    {
        let ghost before = self@;
        let end = find_char(a.name.as_slice(), ':', 0);
        let base = slice_subrange(a.name.as_slice(), 0, end);
        assert(base@ =~= values::first_piece(a.name@, ':'));
        proof {
            reveal_strlit("BBFILE_PATTERN_");
            reveal_strlit("BBFILE_PRIORITY_");
        }
        if eq_str(base, "BBPATH") {
            let paths = parse_bbpath(a.value.as_slice(), root);
            push_texts(&mut self.bbpath, &paths);
            assert(self@ =~= metadata_step(before, a@, root@));
        } else if eq_str(base, "BBFILE_COLLECTIONS") {
            let words = read_literal_words(a.value.as_slice());
            push_texts(&mut self.collections, &words);
            assert(self@ =~= metadata_step(before, a@, root@));
        } else if starts_with(base, "BBFILE_PATTERN_") {
            let rest = slice_subrange(base, 15, base.len());
            assert(rest@ =~= base@.skip(15));
            if let Some(pattern) = read_plain_value(a.value.as_slice()) {
                self.patterns.insert(string_of(rest), string_of(pattern.as_slice()));
            }
            assert(self@ =~= metadata_step(before, a@, root@));
        } else if starts_with(base, "BBFILE_PRIORITY_") {
            let rest = slice_subrange(base, 16, base.len());
            assert(rest@ =~= base@.skip(16));
            if let Some(text) = read_plain_value(a.value.as_slice()) {
                if let Some(priority) = parse_i32(text.as_slice()) {
                    let key = string_of(rest);
                    let k = key_position(&self.priorities, key.as_str());
                    let ghost pairs = priority_views(self.priorities@);
                    if k < self.priorities.len() {
                        self.priorities.set(k, (key, priority));
                        assert(priority_views(self.priorities@) =~= pairs.update(
                            k as int,
                            (rest@, priority as int),
                        ));
                    } else {
                        self.priorities.push((key, priority));
                        assert(priority_views(self.priorities@) =~= pairs.push(
                            (rest@, priority as int),
                        ));
                    }
                }
            }
            assert(self@ =~= metadata_step(before, a@, root@));
        }
    }

    /// What the configuration `source` of the layer at `root` says; nothing
    /// where it could not be read or parsed.
    pub fn read(source: Option<&str>, root: &str) -> (r: LayerMetadata)
        requires
            source matches Some(text) ==> text::byte_len(text@) < usize::MAX,
        ensures
            r.wf(),
            r@ == metadata_of(
                match source {
                    Some(text) => Some(text@),
                    None => None,
                },
                root@,
            ),
    {
        let mut out = LayerMetadata::empty();
        let text = match source {
            Some(text) => text,
            None => {
                return out;
            },
        };
        let tree = match parse(text) {
            Ok(tree) => tree,
            Err(_) => {
                return out;
            },
        };
        let statements = statements(&tree);
        let ghost all = statements::statement_views(statements@);
        let mut k: usize = 0;
        while k < statements.len()
            invariant
                k <= statements@.len(),
                all == statements::statement_views(statements@),
                out.wf(),
                metadata_from(all, k as int, out@, root@) == metadata_from(
                    all,
                    0,
                    no_metadata(),
                    root@,
                ),
            decreases statements@.len() - k,
        {
            assert(all[k as int] == statements@[k as int]@);
            if let Statement::Assignment(a) = &statements[k] {
                out.step(a, root);
            }
            k += 1;
        }
        out
    }

    /// The collections of the layer.
    pub fn collections(&self) -> (r: &Vec<String>)
        ensures
            collections::string_texts(r@) == self@.collections,
    {
        &self.collections
    }

    /// The directories that the layer adds to the search path.
    pub fn bbpath(&self) -> (r: &Vec<String>)
        ensures
            collections::string_texts(r@) == self@.bbpath,
    {
        &self.bbpath
    }

    /// The priority of the layer.
    pub fn priority(&self) -> (r: i32)
        ensures
            r == layer_priority(self@),
    {
        let ghost m = self@;
        let mut best: Option<i32> = None;
        let mut k: usize = 0;
        while k < self.collections.len()
            invariant
                k <= self.collections@.len(),
                m == self@,
                match best {
                    Some(n) => collection_priority(m, k as int) == Some(n as int),
                    None => collection_priority(m, k as int) is None,
                },
            decreases self.collections@.len() - k,
        {
            assert(m.collections[k as int] == self.collections@[k as int]@);
            let p = key_position(&self.priorities, self.collections[k].as_str());
            if p < self.priorities.len() {
                assert(m.priorities[p as int].1 == self.priorities@[p as int].1);
                let value = self.priorities[p].1;
                best = match best {
                    Some(n) => if n < value {
                        Some(value)
                    } else {
                        Some(n)
                    },
                    None => Some(value),
                };
            }
            k += 1;
        }
        if let Some(priority) = best {
            return priority;
        }
        let mut any: Option<i32> = None;
        k = 0;
        while k < self.priorities.len()
            invariant
                k <= self.priorities@.len(),
                m == self@,
                match any {
                    Some(n) => any_priority(m, k as int) == Some(n as int),
                    None => any_priority(m, k as int) is None,
                },
            decreases self.priorities@.len() - k,
        {
            assert(m.priorities[k as int].1 == self.priorities@[k as int].1);
            let value = self.priorities[k].1;
            any = match any {
                Some(n) => if n < value {
                    Some(value)
                } else {
                    Some(n)
                },
                None => Some(value),
            };
            k += 1;
        }
        match any {
            Some(priority) => priority,
            None => 0,
        }
    }

    /// The collection that `path` belongs to in the layer at `root`.
    pub fn collection_for(&self, path: &str, root: &str) -> (r: Option<String>)
        requires
            self.wf(),
        ensures
            collections::optional_text(r) == collection_of(self@, path@, root@),
    {
        let ghost m = self@;
        let mut k: usize = 0;
        while k < self.collections.len()
            invariant
                k <= self.collections@.len(),
                m == self@,
                self.wf(),
                covering_from(m, 0, path@, root@) == covering_from(m, k as int, path@, root@),
            decreases self.collections@.len() - k,
        {
            assert(m.collections[k as int] == self.collections@[k as int]@);
            if let Some(pattern) = self.patterns.get(self.collections[k].as_str()) {
                if pattern_matches_path(pattern, path, root) {
                    return Some(self.collections[k].clone());
                }
            }
            k += 1;
        }
        if self.collections.len() == 1 {
            assert(m.collections[0] == self.collections@[0]@);
            Some(self.collections[0].clone())
        } else {
            None
        }
    }
}

/// Whether no key has two values.
pub open spec fn keys_differ(pairs: Seq<(Seq<char>, int)>) -> bool {
    forall|i: int, j: int|
        0 <= i < j < pairs.len() ==> #[trigger] pairs[i].0 != #[trigger] pairs[j].0
}

/// Whether a collection of the layer has the priority `p`.
pub open spec fn collection_has(m: MetadataView, p: int) -> bool {
    exists|k: int| 0 <= k < m.priorities.len() && #[trigger] m.priorities[k].1 == p
        && m.collections.contains(m.priorities[k].0)
}

/// Whether the configuration names the priority `p`, for any collection.
pub open spec fn names_priority(m: MetadataView, p: int) -> bool {
    exists|k: int| 0 <= k < m.priorities.len() && #[trigger] m.priorities[k].1 == p
}

proof fn lemma_key_from(pairs: Seq<(Seq<char>, int)>, key: Seq<char>, k: int)
    requires
        0 <= k <= pairs.len(),
    ensures
        k <= key_from(pairs, key, k) <= pairs.len(),
        key_from(pairs, key, k) < pairs.len() ==> pairs[key_from(pairs, key, k)].0 == key,
        forall|i: int| k <= i < key_from(pairs, key, k) ==> #[trigger] pairs[i].0 != key,
    decreases pairs.len() - k,
{
    if k < pairs.len() && pairs[k].0 != key {
        lemma_key_from(pairs, key, k + 1);
    }
}

proof fn lemma_collection_priority(m: MetadataView, n: int)
    requires
        0 <= n <= m.collections.len(),
        keys_differ(m.priorities),
    ensures
        match collection_priority(m, n) {
            Some(p) => collection_has(m, p) && forall|k: int, i: int|
                0 <= k < m.priorities.len() && 0 <= i < n && (#[trigger] m.priorities[k]).0
                    == #[trigger] m.collections[i] ==> m.priorities[k].1 <= p,
            None => forall|k: int, i: int|
                0 <= k < m.priorities.len() && 0 <= i < n ==> (#[trigger] m.priorities[k]).0
                    != #[trigger] m.collections[i],
        },
    decreases n,
{
    if n > 0 {
        lemma_collection_priority(m, n - 1);
        let c = m.collections[n - 1];
        lemma_key_from(m.priorities, c, 0);
        let at = key_from(m.priorities, c, 0);
        if at < m.priorities.len() {
            assert(m.priorities[at].0 == c);
            assert(m.collections.contains(c));
            assert(collection_has(m, m.priorities[at].1));
        }
    }
}

proof fn lemma_any_priority(m: MetadataView, n: int)
    requires
        0 <= n <= m.priorities.len(),
    ensures
        match any_priority(m, n) {
            Some(p) => names_priority(m, p) && forall|k: int|
                0 <= k < n ==> #[trigger] m.priorities[k].1 <= p,
            None => n == 0,
        },
    decreases n,
{
    if n > 0 {
        lemma_any_priority(m, n - 1);
        assert(names_priority(m, m.priorities[n - 1].1));
    }
}

/// The priority of a layer is one that its configuration names, or zero. Where
/// a collection of the layer has a priority, it is the largest of those, whatever
/// is named for other collections. Where none has, it is the largest that is named;
/// where none is named, it is zero.
pub proof fn law_layer_priority_is_the_largest(m: MetadataView)
    requires
        keys_differ(m.priorities),
    ensures
        (exists|p: int| #[trigger] collection_has(m, p)) ==> collection_has(m, layer_priority(m)),
        forall|p: int| #[trigger] collection_has(m, p) ==> p <= layer_priority(m),
        !(exists|p: int| #[trigger] collection_has(m, p)) && m.priorities.len() > 0
            ==> names_priority(m, layer_priority(m)) && forall|p: int| #[trigger]
            names_priority(m, p) ==> p <= layer_priority(m),
        m.priorities.len() == 0 ==> layer_priority(m) == 0,
{
    let n = m.collections.len() as int;
    lemma_collection_priority(m, n);
    lemma_any_priority(m, m.priorities.len() as int);
    assert forall|p: int| #[trigger] collection_has(m, p) implies p <= layer_priority(m)
        && collection_priority(m, n) is Some by {
        let k = choose|k: int| 0 <= k < m.priorities.len() && #[trigger] m.priorities[k].1 == p
            && m.collections.contains(m.priorities[k].0);
        let i = choose|i: int| 0 <= i < n && m.collections[i] == m.priorities[k].0;
        assert(m.priorities[k].0 == m.collections[i]);
    }
    if m.priorities.len() == 0 {
        if collection_priority(m, n) is Some {
            assert(collection_has(m, collection_priority(m, n)->0));
        }
    }
}

/// Whether `after` gives `key` the value `value` and every other key what
/// `before` gave it.
pub open spec fn revalued(
    before: Seq<(Seq<char>, int)>,
    after: Seq<(Seq<char>, int)>,
    key: Seq<char>,
    value: int,
) -> bool {
    &&& keys_differ(before) ==> keys_differ(after)
    &&& after.contains((key, value))
    &&& forall|k: Seq<char>, v: int|
        k != key ==> (#[trigger] after.contains((k, v)) <==> before.contains((k, v)))
}

proof fn lemma_with_value(pairs: Seq<(Seq<char>, int)>, key: Seq<char>, value: int)
    ensures
        revalued(pairs, with_value(pairs, key, value), key, value),
{
    lemma_key_from(pairs, key, 0);
    let at = key_from(pairs, key, 0);
    let after = with_value(pairs, key, value);
    if at < pairs.len() {
        assert(after[at] == (key, value));
    } else {
        assert(after[pairs.len() as int] == (key, value));
    }
    assert forall|k: Seq<char>, v: int| k != key implies (#[trigger] after.contains((k, v))
        <==> pairs.contains((k, v))) by {
        if pairs.contains((k, v)) {
            let i = choose|i: int| 0 <= i < pairs.len() && pairs[i] == (k, v);
            assert(after[i] == (k, v));
        }
        if after.contains((k, v)) {
            let i = choose|i: int| 0 <= i < after.len() && after[i] == (k, v);
            assert(pairs[i] == (k, v));
        }
    }
}

proof fn lemma_plain_name(t: Seq<char>, c: char)
    requires
        !t.contains(c),
    ensures
        values::first_piece(t, c) == t,
{
    text::lemma_find_unique(t, c, 0, t.len() as int);
    assert(t.take(t.len() as int) =~= t);
}

proof fn lemma_plain_quoted(v: Seq<char>)
    requires
        !v.contains('"'),
    ensures
        plain_value(seq!['"'] + v + seq!['"']) == Some(v),
{
    let q = seq!['"'] + v + seq!['"'];
    let n = q.len() as int;
    text::lemma_lead_unique(q, CharClass::Whitespace, 0, 0);
    text::lemma_tail_unique(q, CharClass::Whitespace, n, n);
    assert(text::trimmed(q, CharClass::Whitespace) =~= q);
    assert forall|i: int| 1 <= i < n - 1 implies q[i] != '"' by {
        assert(q[i] == v[i - 1]);
        assert(v.contains(v[i - 1]));
    }
    text::lemma_find_unique(q, '"', 1, n - 1);
    assert(q.subrange(1, n - 1) =~= v);
}

proof fn lemma_one_more_statement(
    s: Seq<StatementView>,
    x: StatementView,
    k: int,
    m: MetadataView,
    root: Seq<char>,
)
    requires
        0 <= k <= s.len(),
    ensures
        metadata_from(s.push(x), k, m, root) == match x {
            StatementView::Assignment(a) => metadata_step(metadata_from(s, k, m, root), a, root),
            _ => metadata_from(s, k, m, root),
        },
    decreases s.len() - k,
{
    let t = s.push(x);
    if k < s.len() {
        assert(t[k] == s[k]);
        match s[k] {
            StatementView::Assignment(a) => {
                lemma_one_more_statement(s, x, k + 1, metadata_step(m, a, root), root);
            },
            _ => {
                lemma_one_more_statement(s, x, k + 1, m, root);
            },
        }
    } else {
        assert(t[k] == x);
        match x {
            StatementView::Assignment(a) => {
                assert(metadata_from(t, k + 1, metadata_step(m, a, root), root) == metadata_step(
                    m,
                    a,
                    root,
                ));
            },
            _ => {
                assert(metadata_from(t, k + 1, m, root) == m);
            },
        }
    }
}

/// Whether `after` is `before` with those of the texts `more` that it lacks
/// behind it, none of them twice.
pub open spec fn extended(before: Seq<Seq<char>>, after: Seq<Seq<char>>, more: Set<Seq<char>>) -> bool {
    &&& before.len() <= after.len()
    &&& after.take(before.len() as int) == before
    &&& before.no_duplicates() ==> after.no_duplicates()
    &&& forall|t: Seq<char>| #[trigger]
        after.contains(t) <==> before.contains(t) || more.contains(t)
}

proof fn lemma_with_texts(items: Seq<Seq<char>>, more: Seq<Seq<char>>, k: int)
    requires
        0 <= k <= more.len(),
    ensures
        extended(items, with_texts(items, more, k), more.skip(k).to_set()),
    decreases more.len() - k,
{
    let after = with_texts(items, more, k);
    let set = more.skip(k).to_set();
    if k < more.len() {
        let next = checks::with_name(items, more[k]);
        lemma_with_texts(next, more, k + 1);
        let rest = more.skip(k + 1).to_set();
        assert(after.take(items.len() as int) =~= items) by {
            assert(after.take(next.len() as int) == next);
            assert forall|i: int| 0 <= i < items.len() implies after[i] == items[i] by {
                assert(after.take(next.len() as int)[i] == after[i]);
                assert(next[i] == items[i]);
            }
        }
        assert forall|t: Seq<char>| #[trigger] after.contains(t) <==> items.contains(t)
            || set.contains(t) by {
            assert(next.contains(t) <==> items.contains(t) || t == more[k]) by {
                if !items.contains(more[k]) {
                    assert(next[items.len() as int] == more[k]);
                    if items.contains(t) {
                        let i = choose|i: int| 0 <= i < items.len() && items[i] == t;
                        assert(next[i] == t);
                    }
                }
            }
            assert(set.contains(t) <==> t == more[k] || rest.contains(t)) by {
                let a = more.skip(k);
                let b = more.skip(k + 1);
                assert(a[0] == more[k]);
                if b.contains(t) {
                    let i = choose|i: int| 0 <= i < b.len() && b[i] == t;
                    assert(a[i + 1] == t);
                }
                if a.contains(t) {
                    let i = choose|i: int| 0 <= i < a.len() && a[i] == t;
                    if i > 0 {
                        assert(b[i - 1] == t);
                    }
                }
            }
        }
    } else {
        assert(more.skip(k).len() == 0);
        assert(items.take(items.len() as int) =~= items);
    }
}

proof fn lemma_literal_from(t: Seq<char>, words: Seq<(int, int)>, k: int, w: Seq<char>)
    requires
        0 <= k <= words.len(),
    ensures
        literal_from(t, words, k).contains(w) <==> !keys::has_reference(w) && exists|i: int|
            k <= i < words.len() && t.subrange((#[trigger] words[i]).0, words[i].1) == w,
    decreases words.len() - k,
{
    if k < words.len() {
        lemma_literal_from(t, words, k + 1, w);
        let word = t.subrange(words[k].0, words[k].1);
        let rest = literal_from(t, words, k + 1);
        let all = literal_from(t, words, k);
        if !keys::has_reference(word) {
            assert(all[0] == word);
            if rest.contains(w) {
                let i = choose|i: int| 0 <= i < rest.len() && rest[i] == w;
                assert(all[i + 1] == w);
            }
            if all.contains(w) {
                let i = choose|i: int| 0 <= i < all.len() && all[i] == w;
                if i > 0 {
                    assert(rest[i - 1] == w);
                }
            }
        }
    }
}

/// The words of `v` that hold no variable.
pub open spec fn fixed_words(v: Seq<char>) -> Set<Seq<char>> {
    Set::new(
        |w: Seq<char>|
            text::word_texts(v, CharClass::Ascii).contains(w) && !keys::has_reference(w),
    )
}

proof fn lemma_names_differ(x: Seq<char>)
    ensures
        "BBPATH"@ != "BBFILE_COLLECTIONS"@,
        "BBFILE_PRIORITY_"@ + x != "BBPATH"@,
        "BBFILE_PRIORITY_"@ + x != "BBFILE_COLLECTIONS"@,
        !text::has_prefix("BBFILE_PRIORITY_"@ + x, "BBFILE_PATTERN_"@),
        text::has_prefix("BBFILE_PRIORITY_"@ + x, "BBFILE_PRIORITY_"@),
        ("BBFILE_PRIORITY_"@ + x).skip("BBFILE_PRIORITY_"@.len() as int) == x,
        "BBFILE_PATTERN_"@ + x != "BBPATH"@,
        "BBFILE_PATTERN_"@ + x != "BBFILE_COLLECTIONS"@,
        text::has_prefix("BBFILE_PATTERN_"@ + x, "BBFILE_PATTERN_"@),
        ("BBFILE_PATTERN_"@ + x).skip("BBFILE_PATTERN_"@.len() as int) == x,
        !"BBPATH"@.contains(':'),
        !"BBFILE_COLLECTIONS"@.contains(':'),
        !x.contains(':') ==> !("BBFILE_PRIORITY_"@ + x).contains(':') && !("BBFILE_PATTERN_"@
            + x).contains(':'),
{
    reveal_strlit("BBPATH");
    reveal_strlit("BBFILE_COLLECTIONS");
    reveal_strlit("BBFILE_PRIORITY_");
    reveal_strlit("BBFILE_PATTERN_");
    let p = "BBFILE_PRIORITY_"@ + x;
    let q = "BBFILE_PATTERN_"@ + x;
    assert("BBPATH"@.len() != "BBFILE_COLLECTIONS"@.len());
    assert(p[2] == 'F' && q[2] == 'F' && "BBPATH"@[2] == 'P');
    assert(p[7] == 'P' && q[7] == 'P' && "BBFILE_COLLECTIONS"@[7] == 'C');
    if text::has_prefix(p, "BBFILE_PATTERN_"@) {
        assert(p.take("BBFILE_PATTERN_"@.len() as int)[8] == p[8]);
        assert(p[8] == 'R' && "BBFILE_PATTERN_"@[8] == 'A');
    }
    assert(p.take("BBFILE_PRIORITY_"@.len() as int) =~= "BBFILE_PRIORITY_"@);
    assert(q.take("BBFILE_PATTERN_"@.len() as int) =~= "BBFILE_PATTERN_"@);
    assert(p.skip("BBFILE_PRIORITY_"@.len() as int) =~= x);
    assert(q.skip("BBFILE_PATTERN_"@.len() as int) =~= x);
    if !x.contains(':') {
        assert forall|i: int| 0 <= i < p.len() implies p[i] != ':' by {
            if i >= "BBFILE_PRIORITY_"@.len() {
                assert(p[i] == x[i - "BBFILE_PRIORITY_"@.len()]);
                assert(x.contains(x[i - "BBFILE_PRIORITY_"@.len()]));
            }
        }
        assert forall|i: int| 0 <= i < q.len() implies q[i] != ':' by {
            if i >= "BBFILE_PATTERN_"@.len() {
                assert(q[i] == x[i - "BBFILE_PATTERN_"@.len()]);
                assert(x.contains(x[i - "BBFILE_PATTERN_"@.len()]));
            }
        }
    }
}

/// What one more line at the end of a layer's configuration changes, and that it
/// changes nothing else: `BBFILE_PRIORITY_x = "n"` gives the collection `x` the
/// priority `n`, `BBFILE_PATTERN_x = "v"` gives it the pattern `v`,
/// `BBFILE_COLLECTIONS = "v"` adds the words of `v` that hold no variable behind the
/// collections that are there, and `BBPATH = "v"` adds directories behind those that
/// are there.
pub proof fn law_one_more_line_of_a_configuration(
    s: Seq<StatementView>,
    a: AssignmentView,
    x: Seq<char>,
    v: Seq<char>,
    n: int,
    root: Seq<char>,
)
    requires
        !x.contains(':'),
        !v.contains('"'),
        i32::MIN <= n <= i32::MAX,
        a.value == seq!['"'] + v + seq!['"'],
    ensures
        ({
            let before = metadata_from(s, 0, no_metadata(), root);
            let after = metadata_from(
                s.push(StatementView::Assignment(a)),
                0,
                no_metadata(),
                root,
            );
            &&& a.name == "BBFILE_PRIORITY_"@ + x && v == numbers::signed_decimal(n) ==> revalued(
                before.priorities,
                after.priorities,
                x,
                n,
            ) && after.collections == before.collections && after.patterns == before.patterns
                && after.bbpath == before.bbpath
            &&& a.name == "BBFILE_PATTERN_"@ + x ==> after.patterns == before.patterns.insert(x, v)
                && after.collections == before.collections && after.priorities == before.priorities
                && after.bbpath == before.bbpath
            &&& a.name == "BBFILE_COLLECTIONS"@ ==> extended(
                before.collections,
                after.collections,
                fixed_words(v),
            ) && after.patterns == before.patterns && after.priorities == before.priorities
                && after.bbpath == before.bbpath
            &&& a.name == "BBPATH"@ ==> extended(
                before.bbpath,
                after.bbpath,
                search_directories(a.value, root).to_set(),
            ) && after.patterns == before.patterns && after.priorities == before.priorities
                && after.collections == before.collections
        }),
{
    let before = metadata_from(s, 0, no_metadata(), root);
    lemma_one_more_statement(s, StatementView::Assignment(a), 0, no_metadata(), root);
    lemma_names_differ(x);
    if a.name == "BBFILE_PRIORITY_"@ + x || a.name == "BBFILE_PATTERN_"@ + x || a.name
        == "BBFILE_COLLECTIONS"@ || a.name == "BBPATH"@ {
        lemma_plain_name(a.name, ':');
    }
    lemma_plain_quoted(v);
    if a.name == "BBFILE_PRIORITY_"@ + x && v == numbers::signed_decimal(n) {
        numbers::law_numerals_are_read_back(n, i32::MIN as int, i32::MAX as int);
        lemma_with_value(before.priorities, x, n);
    }
    if a.name == "BBFILE_COLLECTIONS"@ {
        let more = literal_words(a.value);
        lemma_with_texts(before.collections, more, 0);
        assert(more.skip(0) =~= more);
        let words = text::words_of(v, CharClass::Ascii);
        let texts = text::word_texts(v, CharClass::Ascii);
        assert(more.to_set() =~= fixed_words(v)) by {
            assert forall|w: Seq<char>| more.to_set().contains(w) <==> fixed_words(v).contains(
                w,
            ) by {
                lemma_literal_from(v, words, 0, w);
                if exists|i: int|
                    0 <= i < words.len() && v.subrange((#[trigger] words[i]).0, words[i].1) == w {
                    let i = choose|i: int|
                        0 <= i < words.len() && v.subrange((#[trigger] words[i]).0, words[i].1)
                            == w;
                    assert(texts[i] == w);
                }
                if texts.contains(w) {
                    let i = choose|i: int| 0 <= i < texts.len() && texts[i] == w;
                    assert(v.subrange(words[i].0, words[i].1) == w);
                }
            }
        }
    }
    if a.name == "BBPATH"@ {
        let more = search_directories(a.value, root);
        lemma_with_texts(before.bbpath, more, 0);
        assert(more.skip(0) =~= more);
    }
}

/// A path belongs to a collection of the layer whose pattern's literal beginning
/// is a beginning of the path, and to the first such; to the only collection of a
/// layer that has one; else to none.
pub proof fn law_collection_of_a_path(m: MetadataView, path: Seq<char>, root: Seq<char>, k: int)
    requires
        0 <= k < m.collections.len(),
    ensures
        m.patterns.dom().contains(m.collections[k]) && pattern_covers(
            m.patterns[m.collections[k]],
            path,
            root,
        ) && (forall|j: int|
            0 <= j < k ==> !(m.patterns.dom().contains(#[trigger] m.collections[j])
                && pattern_covers(m.patterns[m.collections[j]], path, root))) ==> collection_of(
            m,
            path,
            root,
        ) == Some(m.collections[k]),
        m.collections.len() == 1 ==> collection_of(m, path, root) == Some(m.collections[0]),
        m.collections.len() > 1 && (forall|j: int|
            0 <= j < m.collections.len() ==> !(m.patterns.dom().contains(
                #[trigger] m.collections[j],
            ) && pattern_covers(m.patterns[m.collections[j]], path, root))) ==> collection_of(
            m,
            path,
            root,
        ) is None,
{
    lemma_covering(m, 0, path, root);
}

proof fn lemma_covering(m: MetadataView, k: int, path: Seq<char>, root: Seq<char>)
    requires
        0 <= k <= m.collections.len(),
    ensures
        match covering_from(m, k, path, root) {
            Some(c) => exists|i: int|
                k <= i < m.collections.len() && c == #[trigger] m.collections[i]
                    && m.patterns.dom().contains(c) && pattern_covers(m.patterns[c], path, root)
                    && forall|j: int|
                    k <= j < i ==> !(m.patterns.dom().contains(#[trigger] m.collections[j])
                        && pattern_covers(m.patterns[m.collections[j]], path, root)),
            None => forall|j: int|
                k <= j < m.collections.len() ==> !(m.patterns.dom().contains(
                    #[trigger] m.collections[j],
                ) && pattern_covers(m.patterns[m.collections[j]], path, root)),
        },
    decreases m.collections.len() - k,
{
    if k < m.collections.len() {
        let c = m.collections[k];
        if !(m.patterns.dom().contains(c) && pattern_covers(m.patterns[c], path, root)) {
            lemma_covering(m, k + 1, path, root);
        }
    }
}

} // verus!
