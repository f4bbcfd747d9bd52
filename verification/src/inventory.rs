//! Graphs, providers, versions and tasks in the output of BitBake.
use crate::collections;
use crate::layers;
use crate::output;
use crate::text;
use crate::values;
use crate::collections::is_str_less;
use crate::collections::push_text;
use crate::environment::words_as_strings;
use crate::output::split_lines;
use crate::text::CharClass;
use crate::text::chars_of;
use crate::text::find_char;
use crate::text::find_str;
use crate::text::is_whitespace;
use crate::text::same_str;
use crate::text::split_words;
use crate::text::starts_with;
use crate::text::string_of;
use crate::text::trim;
use crate::values::split_pieces;
use vstd::prelude::*;
use vstd::slice::slice_subrange;

verus! {

// ---------------------------------------------------------------------------
// Graphs
// ---------------------------------------------------------------------------
/// A text without the semicolons around it.
pub open spec fn without_semicolons(t: Seq<char>) -> Seq<char> {
    let s = layers::run_end(t, ';', 0);
    let e = layers::run_start(t, ';', t.len() as int);
    if s <= e {
        t.subrange(s, e)
    } else {
        Seq::empty()
    }
}

fn trim_semicolons(t: &[char]) -> (r: String)
    ensures
        r@ == without_semicolons(t@),
{
    let mut s: usize = 0;
    while s < t.len() && t[s] == ';'
        invariant
            s <= t@.len(),
            layers::run_end(t@, ';', 0) == layers::run_end(t@, ';', s as int),
        decreases t@.len() - s,
    {
        s += 1;
    }
    let mut e: usize = t.len();
    while e > 0 && t[e - 1] == ';'
        invariant
            e <= t@.len(),
            layers::run_start(t@, ';', t@.len() as int) == layers::run_start(t@, ';', e as int),
        decreases e,
    {
        e -= 1;
    }
    if s <= e {
        string_of(slice_subrange(t, s, e))
    } else {
        let r = String::new();
        assert(r@ =~= Seq::empty());
        r
    }
}

/// The node that a side of an edge of a graph names: the quoted text, or the
/// first word.
pub open spec fn dot_node(side: Seq<char>) -> Option<Seq<char>> {
    let t = text::trimmed(side, CharClass::Whitespace);
    if t.len() > 0 && t[0] == '"' {
        let end = text::find_from(t, '"', 1);
        if end < t.len() {
            Some(t.subrange(1, end))
        } else {
            None
        }
    } else {
        let words = text::word_texts(t, CharClass::Whitespace);
        if words.len() > 0 {
            Some(without_semicolons(words[0]))
        } else {
            None
        }
    }
}

fn parse_dot_node(side: &[char]) -> (r: Option<String>)
    ensures
        collections::optional_text(r) == dot_node(side@),
{
    let t = trim(side, CharClass::Whitespace);
    if t.len() > 0 && t[0] == '"' {
        let end = find_char(t, '"', 1);
        if end < t.len() {
            Some(string_of(slice_subrange(t, 1, end)))
        } else {
            None
        }
    } else {
        let words = split_words(t, CharClass::Whitespace);
        assert(text::word_texts(t@, CharClass::Whitespace).len() == words@.len());
        if words.len() > 0 {
            let (a, b) = words[0];
            let word = slice_subrange(t, a, b);
            assert(text::word_texts(t@, CharClass::Whitespace)[0] == word@);
            Some(trim_semicolons(word))
        } else {
            None
        }
    }
}

/// The edge that a line of a graph is.
pub open spec fn dot_edge(line: Seq<char>) -> Option<(Seq<char>, Seq<char>)> {
    let arrow = text::find_seq(line, "->"@, 0);
    if arrow < 0 {
        None
    } else {
        match (dot_node(line.take(arrow)), dot_node(line.skip(arrow + 2))) {
            (Some(from), Some(to)) => Some((from, to)),
            _ => None,
        }
    }
}

/// The edges of `lines[k..]`.
pub open spec fn dot_edges_from(lines: Seq<Seq<char>>, k: int) -> Seq<(Seq<char>, Seq<char>)>
    decreases lines.len() - k,
{
    if k < 0 || k >= lines.len() {
        Seq::empty()
    } else {
        match dot_edge(lines[k]) {
            Some(edge) => seq![edge] + dot_edges_from(lines, k + 1),
            None => dot_edges_from(lines, k + 1),
        }
    }
}

/// The edges of a graph.
pub open spec fn dot_edges(raw: Seq<char>) -> Seq<(Seq<char>, Seq<char>)> {
    dot_edges_from(output::text_lines(raw), 0)
}

/// One directed edge emitted by a BitBake dependency graph.
#[derive(Clone, Debug, Eq, PartialEq)]
pub struct SemanticGraphEdge {
    from: String,
    to: String,
}

impl SemanticGraphEdge {
    pub closed spec fn view(&self) -> (Seq<char>, Seq<char>) {
        (self.from@, self.to@)
    }

    /// The node that depends.
    pub fn from(&self) -> (r: &str)
        ensures
            r@ == self@.0,
    {
        self.from.as_str()
    }

    /// The node that it depends on.
    pub fn to(&self) -> (r: &str)
        ensures
            r@ == self@.1,
    {
        self.to.as_str()
    }
}

/// The contents of a list of edges.
pub open spec fn graph_edge_views(items: Seq<SemanticGraphEdge>) -> Seq<(Seq<char>, Seq<char>)> {
    items.map_values(|e: SemanticGraphEdge| e@)
}

fn parse_dot_edge(line: &[char]) -> (r: Option<SemanticGraphEdge>)
    ensures
        match r {
            Some(edge) => dot_edge(line@) == Some(edge@),
            None => dot_edge(line@) is None,
        },
{
    proof {
        reveal_strlit("->");
    }
    let size = line.len();
    let arrow = match find_str(line, chars_of("->").as_slice(), 0) {
        Some(arrow) => arrow,
        None => {
            return None;
        },
    };
    let before = slice_subrange(line, 0, arrow);
    let after = slice_subrange(line, arrow + 2, size);
    assert(before@ =~= line@.take(arrow as int));
    assert(after@ =~= line@.skip(arrow + 2));
    match parse_dot_node(before) {
        Some(from) => match parse_dot_node(after) {
            Some(to) => Some(SemanticGraphEdge { from, to }),
            None => None,
        },
        None => None,
    }
}

/// The edges of a graph.
pub fn parse_dot_edges(raw: &str) -> (r: Vec<SemanticGraphEdge>)
    ensures
        graph_edge_views(r@) == dot_edges(raw@),
{
    let lines = split_lines(chars_of(raw).as_slice());
    let ghost all = collections::char_texts(lines@);
    let mut out: Vec<SemanticGraphEdge> = Vec::new();
    let mut k: usize = 0;
    assert(graph_edge_views(out@) =~= Seq::empty());
    assert(Seq::<(Seq<char>, Seq<char>)>::empty() + dot_edges_from(all, 0) =~= dot_edges(raw@));
    while k < lines.len()
        invariant
            k <= lines@.len(),
            all == collections::char_texts(lines@),
            graph_edge_views(out@) + dot_edges_from(all, k as int) == dot_edges(raw@),
        decreases lines@.len() - k,
    {
        assert(all[k as int] == lines@[k as int]@);
        if let Some(edge) = parse_dot_edge(lines[k].as_slice()) {
            let ghost before = graph_edge_views(out@);
            let ghost added = edge@;
            out.push(edge);
            proof {
                let rest = dot_edges_from(all, k + 1);
                assert(graph_edge_views(out@) =~= before.push(added));
                assert(before + (seq![added] + rest) =~= before.push(added) + rest);
            }
        }
        k += 1;
    }
    assert(graph_edge_views(out@) + Seq::<(Seq<char>, Seq<char>)>::empty() =~= graph_edge_views(
        out@,
    ));
    out
}

// ---------------------------------------------------------------------------
// Lists
// ---------------------------------------------------------------------------
/// Those of `lines[k..]` that are neither blank nor comments, without the
/// blanks around them.
pub open spec fn listed_lines_from(lines: Seq<Seq<char>>, k: int) -> Seq<Seq<char>>
    decreases lines.len() - k,
{
    if k < 0 || k >= lines.len() {
        Seq::empty()
    } else {
        let line = text::trimmed(lines[k], CharClass::Whitespace);
        if line.len() == 0 || line[0] == '#' {
            listed_lines_from(lines, k + 1)
        } else {
            seq![line] + listed_lines_from(lines, k + 1)
        }
    }
}

/// The lines of a text that are neither blank nor comments.
pub open spec fn listed_lines(raw: Seq<char>) -> Seq<Seq<char>> {
    listed_lines_from(output::text_lines(raw), 0)
}

/// The lines of a text that are neither blank nor comments.
pub fn parse_lines(raw: &str) -> (r: Vec<String>)
    ensures
        collections::string_texts(r@) == listed_lines(raw@),
{
    let lines = split_lines(chars_of(raw).as_slice());
    let ghost all = collections::char_texts(lines@);
    let mut out: Vec<String> = Vec::new();
    let mut k: usize = 0;
    assert(collections::string_texts(out@) =~= Seq::empty());
    assert(Seq::<Seq<char>>::empty() + listed_lines_from(all, 0) =~= listed_lines(raw@));
    while k < lines.len()
        invariant
            k <= lines@.len(),
            all == collections::char_texts(lines@),
            collections::string_texts(out@) + listed_lines_from(all, k as int) == listed_lines(raw@),
        decreases lines@.len() - k,
    {
        assert(all[k as int] == lines@[k as int]@);
        let line = trim(lines[k].as_slice(), CharClass::Whitespace);
        if line.len() > 0 && line[0] != '#' {
            let ghost before = collections::string_texts(out@);
            push_text(&mut out, string_of(line));
            proof {
                let rest = listed_lines_from(all, k + 1);
                assert(before + (seq![line@] + rest) =~= before.push(line@) + rest);
            }
        }
        k += 1;
    }
    assert(collections::string_texts(out@) + Seq::<Seq<char>>::empty() =~= collections::string_texts(out@));
    out
}

// ---------------------------------------------------------------------------
// Providers
// ---------------------------------------------------------------------------
/// The recipe of a line of providers, and what it provides.
pub open spec fn provider_line(line: Seq<char>) -> (Seq<char>, Seq<Seq<char>>) {
    let colon = text::find_from(line, ':', 0);
    let words = text::word_texts(line, CharClass::Whitespace);
    if colon < line.len() {
        (
            text::trimmed(line.take(colon), CharClass::Whitespace),
            text::word_texts(line.skip(colon + 1), CharClass::Whitespace),
        )
    } else if words.len() > 0 {
        (words[0], words.skip(1))
    } else {
        (Seq::empty(), Seq::empty())
    }
}

/// The providers `names[k..]` of `recipe`.
pub open spec fn named_providers(recipe: Seq<char>, names: Seq<Seq<char>>, k: int) -> Seq<
    (Seq<char>, Seq<char>),
>
    decreases names.len() - k,
{
    if k < 0 || k >= names.len() {
        Seq::empty()
    } else {
        seq![(names[k], recipe)] + named_providers(recipe, names, k + 1)
    }
}

/// The providers of `lines[k..]`.
pub open spec fn providers_from(lines: Seq<Seq<char>>, k: int) -> Seq<(Seq<char>, Seq<char>)>
    decreases lines.len() - k,
{
    if k < 0 || k >= lines.len() {
        Seq::empty()
    } else {
        let (recipe, names) = provider_line(lines[k]);
        if recipe.len() == 0 {
            providers_from(lines, k + 1)
        } else {
            named_providers(recipe, names, 0) + providers_from(lines, k + 1)
        }
    }
}

/// The providers of a text, as pairs of a name and a recipe.
pub open spec fn providers_of(raw: Seq<char>) -> Seq<(Seq<char>, Seq<char>)> {
    providers_from(listed_lines(raw), 0)
}

/// A provider exposed by the parsed BitBake metadata.
#[derive(Clone, Debug, Eq, PartialEq)]
pub struct SemanticProvider {
    name: String,
    recipe: String,
}

impl SemanticProvider {
    pub closed spec fn view(&self) -> (Seq<char>, Seq<char>) {
        (self.name@, self.recipe@)
    }

    /// What is provided.
    pub fn name(&self) -> (r: &str)
        ensures
            r@ == self@.0,
    {
        self.name.as_str()
    }

    /// The recipe that provides it.
    pub fn recipe(&self) -> (r: &str)
        ensures
            r@ == self@.1,
    {
        self.recipe.as_str()
    }

    /// A copy of the provider.
    pub fn copy(&self) -> (r: SemanticProvider)
        ensures
            r@ == self@,
    {
        SemanticProvider { name: self.name.clone(), recipe: self.recipe.clone() }
    }
}

/// The contents of a list of providers.
pub open spec fn provider_views(items: Seq<SemanticProvider>) -> Seq<(Seq<char>, Seq<char>)> {
    items.map_values(|p: SemanticProvider| p@)
}

fn add_providers(recipe: &[char], names: &Vec<String>, start: usize, out: &mut Vec<SemanticProvider>)
    requires
        start <= names@.len(),
    ensures
        provider_views(final(out)@) == provider_views(old(out)@) + named_providers(
            recipe@,
            collections::string_texts(names@).skip(start as int),
            0,
        ),
{
    let ghost all = collections::string_texts(names@).skip(start as int);
    let ghost goal = provider_views(out@) + named_providers(recipe@, all, 0);
    let mut k: usize = start;
    while k < names.len()
        invariant
            start <= k <= names@.len(),
            all == collections::string_texts(names@).skip(start as int),
            provider_views(out@) + named_providers(recipe@, all, k - start) == goal,
        decreases names@.len() - k,
    {
        assert(all[k - start] == names@[k as int]@);
        let ghost before = provider_views(out@);
        let provider = SemanticProvider { name: names[k].clone(), recipe: string_of(recipe) };
        let ghost added = provider@;
        out.push(provider);
        proof {
            let rest = named_providers(recipe@, all, k - start + 1);
            assert(provider_views(out@) =~= before.push(added));
            assert(before + (seq![added] + rest) =~= before.push(added) + rest);
        }
        k += 1;
    }
    assert(provider_views(out@) + Seq::<(Seq<char>, Seq<char>)>::empty() =~= provider_views(out@));
}

/// The providers of a text.
pub fn parse_providers(raw: &str) -> (r: Vec<SemanticProvider>)
    ensures
        provider_views(r@) == providers_of(raw@),
{
    let lines = parse_lines(raw);
    let ghost all = collections::string_texts(lines@);
    let mut out: Vec<SemanticProvider> = Vec::new();
    let mut k: usize = 0;
    assert(provider_views(out@) =~= Seq::empty());
    assert(Seq::<(Seq<char>, Seq<char>)>::empty() + providers_from(all, 0) =~= providers_of(raw@));
    while k < lines.len()
        invariant
            k <= lines@.len(),
            all == collections::string_texts(lines@),
            provider_views(out@) + providers_from(all, k as int) == providers_of(raw@),
        decreases lines@.len() - k,
    {
        assert(all[k as int] == lines@[k as int]@);
        let ghost before = provider_views(out@);
        let ghost rest = providers_from(all, k + 1);
        let line = chars_of(lines[k].as_str());
        let colon = find_char(line.as_slice(), ':', 0);
        if colon < line.len() {
            let left = slice_subrange(line.as_slice(), 0, colon);
            let right = slice_subrange(line.as_slice(), colon + 1, line.len());
            assert(left@ =~= line@.take(colon as int));
            assert(right@ =~= line@.skip(colon + 1));
            let recipe = trim(left, CharClass::Whitespace);
            let names = words_as_strings(right, CharClass::Whitespace);
            if recipe.len() > 0 {
                add_providers(recipe, &names, 0, &mut out);
                proof {
                    assert(collections::string_texts(names@).skip(0) =~= collections::string_texts(names@));
                    let more = named_providers(recipe@, collections::string_texts(names@), 0);
                    assert(before + (more + rest) =~= (before + more) + rest);
                }
            }
        } else {
            let words = words_as_strings(line.as_slice(), CharClass::Whitespace);
            assert(collections::string_texts(words@).len() == words@.len());
            if words.len() > 0 {
                assert(collections::string_texts(words@)[0] == words@[0]@);
                let recipe = chars_of(words[0].as_str());
                if recipe.len() > 0 {
                    add_providers(recipe.as_slice(), &words, 1, &mut out);
                    proof {
                        let more = named_providers(recipe@, collections::string_texts(words@).skip(1), 0);
                        assert(before + (more + rest) =~= (before + more) + rest);
                    }
                }
            }
        }
        k += 1;
    }
    assert(provider_views(out@) + Seq::<(Seq<char>, Seq<char>)>::empty() =~= provider_views(out@));
    out
}

/// The order of providers: by name, then by recipe.
pub open spec fn provider_before(a: (Seq<char>, Seq<char>), b: (Seq<char>, Seq<char>)) -> bool {
    collections::text_less(a.0, b.0) || (a.0 == b.0 && collections::text_less(a.1, b.1))
}

/// The first position from `k` whose provider does not come before `x`.
pub open spec fn provider_place(
    items: Seq<(Seq<char>, Seq<char>)>,
    x: (Seq<char>, Seq<char>),
    k: int,
) -> int
    decreases items.len() - k,
{
    if k < 0 || k >= items.len() {
        items.len() as int
    } else if provider_before(items[k], x) {
        provider_place(items, x, k + 1)
    } else {
        k
    }
}

/// Sorted providers with `x`.
pub open spec fn with_provider(items: Seq<(Seq<char>, Seq<char>)>, x: (Seq<char>, Seq<char>)) -> Seq<
    (Seq<char>, Seq<char>),
> {
    let p = provider_place(items, x, 0);
    if p < items.len() && items[p] == x {
        items
    } else {
        items.insert(p, x)
    }
}

/// Sorted providers with `more[k..]`, each once.
pub open spec fn with_providers(
    items: Seq<(Seq<char>, Seq<char>)>,
    more: Seq<(Seq<char>, Seq<char>)>,
    k: int,
) -> Seq<(Seq<char>, Seq<char>)>
    decreases more.len() - k,
{
    if k < 0 || k >= more.len() {
        items
    } else {
        with_providers(with_provider(items, more[k]), more, k + 1)
    }
}

fn insert_provider(items: &mut Vec<SemanticProvider>, x: SemanticProvider)
    ensures
        provider_views(final(items)@) == with_provider(provider_views(old(items)@), x@),
{
    let ghost all = provider_views(items@);
    let ghost view = x@;
    let mut k: usize = 0;
    while k < items.len() && (is_str_less(items[k].name(), x.name()) || (same_str(
        items[k].name(),
        x.name(),
    ) && is_str_less(items[k].recipe(), x.recipe())))
        invariant
            k <= items@.len(),
            all == provider_views(items@),
            x@ == view,
            provider_place(all, view, 0) == provider_place(all, view, k as int),
        decreases items@.len() - k,
    {
        assert(all[k as int] == items@[k as int]@);
        k += 1;
    }
    if k < items.len() {
        assert(all[k as int] == items@[k as int]@);
        if same_str(items[k].name(), x.name()) && same_str(items[k].recipe(), x.recipe()) {
            return;
        }
    }
    items.insert(k, x);
    assert(provider_views(items@) =~= all.insert(k as int, view));
}

/// Adds providers to a sorted list, each once.
pub fn insert_providers(items: &mut Vec<SemanticProvider>, more: &Vec<SemanticProvider>)
    ensures
        provider_views(final(items)@) == with_providers(
            provider_views(old(items)@),
            provider_views(more@),
            0,
        ),
{
    let ghost all = provider_views(more@);
    let ghost goal = with_providers(provider_views(items@), all, 0);
    let mut k: usize = 0;
    while k < more.len()
        invariant
            k <= more@.len(),
            all == provider_views(more@),
            with_providers(provider_views(items@), all, k as int) == goal,
        decreases more@.len() - k,
    {
        assert(all[k as int] == more@[k as int]@);
        insert_provider(items, more[k].copy());
        k += 1;
    }
}

// ---------------------------------------------------------------------------
// Versions
// ---------------------------------------------------------------------------
/// A recipe, its version, and its revision.
#[verifier::ext_equal]
pub struct VersionView {
    pub recipe: Seq<char>,
    pub version: Seq<char>,
    pub revision: Option<Seq<char>>,
}

/// Whether a line of versions is no row of the table.
pub open spec fn no_version_row(line: Seq<char>) -> bool {
    ||| text::has_prefix(line, "Recipe Name"@)
    ||| text::has_prefix(line, "NOTE:"@)
    ||| text::has_prefix(line, "WARNING:"@)
    ||| text::has_prefix(line, "DEBUG:"@)
    ||| is_ruler(line)
}

/// Whether a line holds nothing but equals signs and blanks.
pub open spec fn is_ruler(line: Seq<char>) -> bool {
    forall|k: int| 0 <= k < line.len() ==> (#[trigger] line[k]) == '=' || text::is_ws(line[k])
}

/// Whether a text holds a blank.
pub open spec fn has_blank(t: Seq<char>) -> bool {
    exists|k: int| 0 <= k < t.len() && text::is_ws(#[trigger] t[k])
}

/// The fields of a row of versions: between colons, or else words.
pub open spec fn version_fields(line: Seq<char>) -> Seq<Seq<char>> {
    let fields = values::pieces(line, ':').map_values(|f: Seq<char>| text::trimmed(f, CharClass::Whitespace));
    if fields.len() >= 2 && !has_blank(fields[0]) {
        fields
    } else {
        text::word_texts(line, CharClass::Whitespace)
    }
}

/// The field at position `k`, or the empty text.
pub open spec fn field_at(fields: Seq<Seq<char>>, k: int) -> Seq<char> {
    if k < fields.len() {
        fields[k]
    } else {
        Seq::empty()
    }
}

/// The row of versions that a line is.
pub open spec fn version_row(text: Seq<char>) -> Option<VersionView> {
    let line = text::trimmed(text, CharClass::Whitespace);
    let fields = version_fields(line);
    if no_version_row(line) || field_at(fields, 0).len() == 0 || field_at(fields, 1).len() == 0 {
        None
    } else {
        Some(
            VersionView {
                recipe: fields[0],
                version: fields[1],
                revision: if field_at(fields, 2).len() > 0 {
                    Some(fields[2])
                } else {
                    None
                },
            },
        )
    }
}

/// The rows of versions of `lines[k..]`.
pub open spec fn versions_from(lines: Seq<Seq<char>>, k: int) -> Seq<VersionView>
    decreases lines.len() - k,
{
    if k < 0 || k >= lines.len() {
        Seq::empty()
    } else {
        match version_row(lines[k]) {
            Some(row) => seq![row] + versions_from(lines, k + 1),
            None => versions_from(lines, k + 1),
        }
    }
}

/// One recipe/version row from `bitbake --show-versions`.
#[derive(Clone, Debug, Eq, PartialEq)]
pub struct SemanticRecipeVersion {
    recipe: String,
    version: String,
    revision: Option<String>,
}

impl SemanticRecipeVersion {
    pub closed spec fn view(&self) -> VersionView {
        VersionView {
            recipe: self.recipe@,
            version: self.version@,
            revision: collections::optional_text(self.revision),
        }
    }

    /// The recipe.
    pub fn recipe(&self) -> (r: &str)
        ensures
            r@ == self@.recipe,
    {
        self.recipe.as_str()
    }

    /// The version that is preferred.
    pub fn version(&self) -> (r: &str)
        ensures
            r@ == self@.version,
    {
        self.version.as_str()
    }

    /// The revision.
    pub fn revision(&self) -> (r: Option<&str>)
        ensures
            output::optional_view(r) == self@.revision,
    {
        match &self.revision {
            Some(revision) => Some(revision.as_str()),
            None => None,
        }
    }
}

/// The contents of a list of versions.
pub open spec fn version_views(items: Seq<SemanticRecipeVersion>) -> Seq<VersionView> {
    items.map_values(|v: SemanticRecipeVersion| v@)
}

fn is_no_version_row(line: &[char]) -> (r: bool)
    ensures
        r == no_version_row(line@),
{
    starts_with(line, "Recipe Name") || starts_with(line, "NOTE:") || starts_with(line, "WARNING:")
        || starts_with(line, "DEBUG:") || is_ruler_line(line)
}

fn is_ruler_line(line: &[char]) -> (r: bool)
    ensures
        r == is_ruler(line@),
{
    let mut k: usize = 0;
    while k < line.len()
        invariant
            k <= line@.len(),
            forall|j: int| 0 <= j < k ==> (#[trigger] line@[j]) == '=' || text::is_ws(line@[j]),
        decreases line@.len() - k,
    {
        if line[k] != '=' && !is_whitespace(line[k]) {
            assert(!(line@[k as int] == '=' || text::is_ws(line@[k as int])));
            return false;
        }
        k += 1;
    }
    true
}

fn holds_blank(t: &[char]) -> (r: bool)
    ensures
        r == has_blank(t@),
{
    let mut k: usize = 0;
    while k < t.len()
        invariant
            k <= t@.len(),
            forall|j: int| 0 <= j < k ==> !text::is_ws(#[trigger] t@[j]),
        decreases t@.len() - k,
    {
        if is_whitespace(t[k]) {
            assert(text::is_ws(t@[k as int]));
            return true;
        }
        k += 1;
    }
    false
}

fn read_version_fields(line: &[char]) -> (r: Vec<String>)
    ensures
        collections::string_texts(r@) == version_fields(line@),
{
    let ranges = split_pieces(line, ':');
    let ghost fields = values::pieces(line@, ':').map_values(
        |f: Seq<char>| text::trimmed(f, CharClass::Whitespace),
    );
    let mut out: Vec<String> = Vec::new();
    let mut k: usize = 0;
    while k < ranges.len()
        invariant
            k <= ranges@.len(),
            text::ranges_match(ranges@, values::pieces_of(line@, ':')),
            values::pieces_inside(ranges@, line@.len() as int),
            fields == values::pieces(line@, ':').map_values(
                |f: Seq<char>| text::trimmed(f, CharClass::Whitespace),
            ),
            out@.len() == k,
            forall|j: int| 0 <= j < k ==> (#[trigger] out@[j])@ == fields[j],
        decreases ranges@.len() - k,
    {
        let (a, b) = ranges[k];
        let piece = slice_subrange(line, a, b);
        assert(values::pieces(line@, ':')[k as int] == piece@);
        out.push(string_of(trim(piece, CharClass::Whitespace)));
        k += 1;
    }
    assert(collections::string_texts(out@) =~= fields);
    if out.len() >= 2 {
        assert(fields[0] == out@[0]@);
        if !holds_blank(chars_of(out[0].as_str()).as_slice()) {
            return out;
        }
    }
    words_as_strings(line, CharClass::Whitespace)
}

fn parse_version_row(text: &[char]) -> (r: Option<SemanticRecipeVersion>)
    ensures
        match r {
            Some(row) => version_row(text@) == Some(row@),
            None => version_row(text@) is None,
        },
{
    let line = trim(text, CharClass::Whitespace);
    if is_no_version_row(line) {
        return None;
    }
    let fields = read_version_fields(line);
    let ghost all = collections::string_texts(fields@);
    assert(all.len() == fields@.len());
    if fields.len() < 2 {
        return None;
    }
    assert(all[0] == fields@[0]@);
    assert(all[1] == fields@[1]@);
    if chars_of(fields[0].as_str()).len() == 0 || chars_of(fields[1].as_str()).len() == 0 {
        return None;
    }
    let revision = if fields.len() > 2 && chars_of(fields[2].as_str()).len() > 0 {
        assert(all[2] == fields@[2]@);
        Some(fields[2].clone())
    } else {
        None
    };
    Some(
        SemanticRecipeVersion {
            recipe: fields[0].clone(),
            version: fields[1].clone(),
            revision,
        },
    )
}

/// The rows of versions of a text.
pub fn parse_recipe_versions(raw: &str) -> (r: Vec<SemanticRecipeVersion>)
    ensures
        version_views(r@) == versions_from(output::text_lines(raw@), 0),
{
    let lines = split_lines(chars_of(raw).as_slice());
    let ghost all = collections::char_texts(lines@);
    let mut out: Vec<SemanticRecipeVersion> = Vec::new();
    let mut k: usize = 0;
    assert(version_views(out@) =~= Seq::empty());
    assert(Seq::<VersionView>::empty() + versions_from(all, 0) =~= versions_from(all, 0));
    while k < lines.len()
        invariant
            k <= lines@.len(),
            all == collections::char_texts(lines@),
            version_views(out@) + versions_from(all, k as int) == versions_from(all, 0),
        decreases lines@.len() - k,
    {
        assert(all[k as int] == lines@[k as int]@);
        if let Some(row) = parse_version_row(lines[k].as_slice()) {
            let ghost before = version_views(out@);
            let ghost added = row@;
            out.push(row);
            proof {
                let rest = versions_from(all, k + 1);
                assert(version_views(out@) =~= before.push(added));
                assert(before + (seq![added] + rest) =~= before.push(added) + rest);
            }
        }
        k += 1;
    }
    assert(version_views(out@) + Seq::<VersionView>::empty() =~= version_views(out@));
    out
}

// ---------------------------------------------------------------------------
// Tasks
// ---------------------------------------------------------------------------
/// The text of a line after the marker at `k`, or in the brackets of the line.
pub open spec fn task_after(line: Seq<char>, k: int, marker: Seq<char>) -> Option<Seq<char>> {
    let open = text::find_from(line, '(', 0);
    let close = text::find_from(line, ')', open + 1);
    if open < line.len() {
        if close < line.len() {
            Some(line.subrange(open + 1, close))
        } else {
            None
        }
    } else {
        Some(text::trimmed(line.skip(k + marker.len()), CharClass::Whitespace))
    }
}

/// The task that a line of a dry run names.
pub open spec fn dry_run_task(line: Seq<char>) -> Option<Seq<char>> {
    let running = text::find_seq(line, "Running task"@, 0);
    let executing = text::find_seq(line, "Executing task"@, 0);
    if running >= 0 {
        task_after(line, running, "Running task"@)
    } else if executing >= 0 {
        task_after(line, executing, "Executing task"@)
    } else {
        None
    }
}

/// The tasks of `lines[k..]`.
pub open spec fn tasks_from(lines: Seq<Seq<char>>, k: int) -> Seq<Seq<char>>
    decreases lines.len() - k,
{
    if k < 0 || k >= lines.len() {
        Seq::empty()
    } else {
        match dry_run_task(lines[k]) {
            Some(task) => seq![task] + tasks_from(lines, k + 1),
            None => tasks_from(lines, k + 1),
        }
    }
}

/// The tasks that a dry run plans.
pub open spec fn dry_run_tasks(stdout: Seq<char>, stderr: Seq<char>) -> Seq<Seq<char>> {
    tasks_from(output::text_lines(stdout), 0) + tasks_from(output::text_lines(stderr), 0)
}

fn read_task(line: &[char], k: usize, marker: &[char]) -> (r: Option<String>)
    requires
        k + marker@.len() <= line@.len(),
    ensures
        collections::optional_text(r) == task_after(line@, k as int, marker@),
{
    let size = line.len();
    let open = find_char(line, '(', 0);
    if open < size {
        let close = find_char(line, ')', open + 1);
        if close < size {
            Some(string_of(slice_subrange(line, open + 1, close)))
        } else {
            None
        }
    } else {
        let rest = slice_subrange(line, k + marker.len(), size);
        assert(rest@ =~= line@.skip(k + marker@.len()));
        Some(string_of(trim(rest, CharClass::Whitespace)))
    }
}

fn parse_task(line: &[char]) -> (r: Option<String>)
    ensures
        collections::optional_text(r) == dry_run_task(line@),
{
    let running = chars_of("Running task");
    if let Some(k) = find_str(line, running.as_slice(), 0) {
        return read_task(line, k, running.as_slice());
    }
    let executing = chars_of("Executing task");
    if let Some(k) = find_str(line, executing.as_slice(), 0) {
        return read_task(line, k, executing.as_slice());
    }
    None
}

fn add_tasks(text: &str, out: &mut Vec<String>)
    ensures
        collections::string_texts(final(out)@) == collections::string_texts(old(out)@) + tasks_from(output::text_lines(text@), 0),
{
    let lines = split_lines(chars_of(text).as_slice());
    let ghost all = collections::char_texts(lines@);
    let ghost goal = collections::string_texts(out@) + tasks_from(all, 0);
    let mut k: usize = 0;
    while k < lines.len()
        invariant
            k <= lines@.len(),
            all == collections::char_texts(lines@),
            collections::string_texts(out@) + tasks_from(all, k as int) == goal,
        decreases lines@.len() - k,
    {
        assert(all[k as int] == lines@[k as int]@);
        if let Some(task) = parse_task(lines[k].as_slice()) {
            let ghost before = collections::string_texts(out@);
            let ghost added = task@;
            push_text(out, task);
            proof {
                let rest = tasks_from(all, k + 1);
                assert(before + (seq![added] + rest) =~= before.push(added) + rest);
            }
        }
        k += 1;
    }
    assert(collections::string_texts(out@) + Seq::<Seq<char>>::empty() =~= collections::string_texts(out@));
}

/// The tasks that a dry run plans.
pub fn parse_dry_run_tasks(stdout: &str, stderr: &str) -> (r: Vec<String>)
    ensures
        collections::string_texts(r@) == dry_run_tasks(stdout@, stderr@),
{
    let mut out: Vec<String> = Vec::new();
    assert(collections::string_texts(out@) =~= Seq::empty());
    add_tasks(stdout, &mut out);
    add_tasks(stderr, &mut out);
    assert(collections::string_texts(out@) =~= dry_run_tasks(stdout@, stderr@));
    out
}

} // verus!
