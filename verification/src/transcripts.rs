//! What single lines of BitBake's output are read as.
use crate::conditions;
use crate::environment;
use crate::inventory;
use crate::numbers;
use crate::output;
use crate::text;
use crate::values;
use crate::inventory::VersionView;
use crate::output::SemanticDiagnosticPhase;
use crate::output::SemanticDiagnosticStream;
use crate::output::SemanticSeverity;
use crate::output::SemanticView;
use crate::text::CharClass;
use vstd::prelude::*;

verus! {

// ---------------------------------------------------------------------------
// Lines
// ---------------------------------------------------------------------------
/// A text without a line feed, not ended by a carriage return.
pub open spec fn one_line(line: Seq<char>) -> bool {
    (line.len() > 0 ==> line.last() != '\r') && forall|k: int|
        0 <= k < line.len() ==> #[trigger] line[k] != '\n'
}

proof fn lemma_lines_shift(t: Seq<char>, i: int, u: Seq<char>, j: int)
    requires
        0 <= i <= t.len(),
        0 <= j <= u.len(),
        t.skip(i) == u.skip(j),
    ensures
        output::lines_from(t, i) == output::lines_from(u, j),
    decreases t.len() - i,
{
    assert(t.len() - i == t.skip(i).len());
    assert(u.len() - j == u.skip(j).len());
    let d = j - i;
    assert forall|k: int| i <= k < t.len() implies #[trigger] t[k] == u[k + d] by {
        assert(t.skip(i)[k - i] == t[k]);
        assert(u.skip(j)[k - i] == u[k + d]);
    }
    if i < t.len() {
        text::lemma_line_end(t, i);
        let e = text::line_end(t, i);
        assert(e > i);
        assert forall|k: int| j <= k < e + d - 1 implies #[trigger] u[k] != '\n' by {
            assert(t[k - d] == u[k]);
        }
        assert(t[e - 1] == u[e + d - 1]);
        text::lemma_line_end_unique(u, j, e + d);
        assert(t.subrange(i, e) =~= u.subrange(j, e + d));
        assert(t.skip(e) =~= t.skip(i).skip(e - i));
        assert(u.skip(e + d) =~= u.skip(j).skip(e - i));
        lemma_lines_shift(t, e, u, e + d);
    }
}

/// A line in front of a text is its first line.
pub proof fn law_a_line_comes_first(line: Seq<char>, rest: Seq<char>)
    requires
        one_line(line),
    ensures
        output::text_lines(line + seq!['\n'] + rest) == seq![line] + output::text_lines(rest),
{
    let t = line + seq!['\n'] + rest;
    let n = line.len() as int;
    assert(t[n] == '\n');
    assert forall|k: int| 0 <= k < n implies #[trigger] t[k] != '\n' by {
        assert(t[k] == line[k]);
    }
    text::lemma_line_end_unique(t, 0, n + 1);
    let first = t.subrange(0, n + 1);
    assert(first =~= line + seq!['\n']);
    if n > 0 {
        assert(first[n - 1] == line.last());
    }
    assert(text::content_len(first) == n);
    assert(text::line_content(first) =~= line);
    assert(t.skip(n + 1) =~= rest);
    assert(rest.skip(0) =~= rest);
    lemma_lines_shift(t, n + 1, rest, 0);
}

// ---------------------------------------------------------------------------
// Graphs
// ---------------------------------------------------------------------------
proof fn lemma_edges_shift(first: Seq<char>, lines: Seq<Seq<char>>, k: int)
    requires
        0 <= k <= lines.len(),
    ensures
        inventory::dot_edges_from(seq![first] + lines, k + 1) == inventory::dot_edges_from(lines, k),
    decreases lines.len() - k,
{
    if k < lines.len() {
        lemma_edges_shift(first, lines, k + 1);
        assert((seq![first] + lines)[k + 1] == lines[k]);
    }
}

/// A quoted name and what blanks surround it is that name.
proof fn lemma_quoted_node(name: Seq<char>, side: Seq<char>)
    requires
        !name.contains('"'),
        side == seq!['"'] + name + seq!['"', ' '] || side == seq![' ', '"'] + name + seq!['"'],
    ensures
        inventory::dot_node(side) == Some(name),
{
    let t = seq!['"'] + name + seq!['"'];
    let class = CharClass::Whitespace;
    let n = t.len() as int;
    assert(t[0] == '"' && t[n - 1] == '"');
    if side == seq!['"'] + name + seq!['"', ' '] {
        assert(side[0] == '"');
        text::lemma_lead_unique(side, class, 0, 0);
        assert(side.skip(0) =~= side);
        assert(side[n] == ' ' && side[n - 1] == '"');
        text::lemma_tail_unique(side, class, n, n + 1);
        assert(side.take(n) =~= t);
    } else {
        assert(side[0] == ' ' && side[1] == '"');
        text::lemma_lead_unique(side, class, 0, 1);
        let rest = side.skip(1);
        assert(rest =~= t);
        text::lemma_tail_unique(rest, class, n, n);
        assert(rest.take(n) =~= t);
    }
    assert(text::trimmed(side, class) =~= t);
    assert forall|k: int| 1 <= k < n - 1 implies #[trigger] t[k] != '"' by {
        assert(t[k] == name[k - 1]);
    }
    text::lemma_find_unique(t, '"', 1, n - 1);
    assert(t.subrange(1, n - 1) =~= name);
}

/// A line `"a" -> "b"` of a graph is the edge from `a` to `b`, before those of the
/// other lines, and a line without an arrow is none.
pub proof fn law_a_line_of_a_graph_is_an_edge(
    a: Seq<char>,
    b: Seq<char>,
    other: Seq<char>,
    rest: Seq<char>,
)
    requires
        one_line(a),
        one_line(b),
        one_line(other),
        !a.contains('"'),
        !b.contains('"'),
        !a.contains('>'),
        !other.contains('>'),
    ensures
        inventory::dot_edges(
            seq!['"'] + a + seq!['"', ' ', '-', '>', ' ', '"'] + b + seq!['"'] + seq!['\n'] + rest,
        ) == seq![(a, b)] + inventory::dot_edges(rest),
        inventory::dot_edges(other + seq!['\n'] + rest) == inventory::dot_edges(rest),
{
    reveal_strlit("->");
    let arrow = "->"@;
    let line = seq!['"'] + a + seq!['"', ' ', '-', '>', ' ', '"'] + b + seq!['"'];
    let p = a.len() as int + 3;
    assert(line[p] == '-' && line[p + 1] == '>' && line[p + 2] == ' ');
    assert(line.subrange(p, p + 2) =~= arrow);
    assert forall|k: int| 0 <= k < p implies #[trigger] line.subrange(k, k + 2) != arrow by {
        assert(line.subrange(k, k + 2)[1] == line[k + 1]);
        if 1 <= k + 1 < a.len() + 1 {
            assert(line[k + 1] == a[k]);
        }
    }
    conditions::lemma_first_place(line, arrow, 0);
    assert(text::find_seq(line, arrow, 0) == p) by {
        let f = text::find_seq(line, arrow, 0);
        if f < p && f >= 0 {
            assert(line.subrange(f, f + 2) != arrow);
        }
        assert(line.subrange(p, p + arrow.len()) == arrow);
    }
    assert(inventory::dot_node(line.take(p)) == Some(a)) by {
        assert(line.take(p) =~= seq!['"'] + a + seq!['"', ' ']);
        lemma_quoted_node(a, line.take(p));
    }
    assert(inventory::dot_node(line.skip(p + 2)) == Some(b)) by {
        assert(line.skip(p + 2) =~= seq![' ', '"'] + b + seq!['"']);
        lemma_quoted_node(b, line.skip(p + 2));
    }
    assert(one_line(line)) by {
        assert forall|k: int| 0 <= k < line.len() implies #[trigger] line[k] != '\n' by {
            if 1 <= k < a.len() + 1 {
                assert(line[k] == a[k - 1]);
            } else if a.len() + 7 <= k < line.len() - 1 {
                assert(line[k] == b[k - a.len() - 7]);
            }
        }
    }
    law_a_line_comes_first(line, rest);
    law_a_line_comes_first(other, rest);
    let lines = output::text_lines(rest);
    lemma_edges_shift(line, lines, 0);
    lemma_edges_shift(other, lines, 0);
    assert((seq![line] + lines)[0] == line);
    assert((seq![other] + lines)[0] == other);
    conditions::lemma_first_place(other, arrow, 0);
    assert(text::find_seq(other, arrow, 0) < 0) by {
        let f = text::find_seq(other, arrow, 0);
        if f >= 0 {
            assert(other.subrange(f, f + arrow.len())[1] == '>');
            assert(other[f + 1] == '>');
        }
    }
}

// ---------------------------------------------------------------------------
// Versions and tasks
// ---------------------------------------------------------------------------
/// A text without blanks and colons, and not empty.
pub open spec fn plain_field(t: Seq<char>) -> bool {
    t.len() > 0 && forall|k: int| 0 <= k < t.len() ==> !text::is_ws(#[trigger] t[k]) && t[k] != ':'
}

proof fn lemma_field_trimmed(t: Seq<char>)
    requires
        plain_field(t),
    ensures
        text::trimmed(t, CharClass::Whitespace) == t,
        !inventory::has_blank(t),
{
    lemma_trimmed(t);
}

proof fn lemma_trimmed(t: Seq<char>)
    requires
        t.len() > 0,
        !text::is_ws(t[0]),
        !text::is_ws(t.last()),
    ensures
        text::trimmed(t, CharClass::Whitespace) == t,
        text::trimmed_start(t, CharClass::Whitespace) == t,
{
    let class = CharClass::Whitespace;
    text::lemma_lead_unique(t, class, 0, 0);
    assert(t.skip(0) =~= t);
    text::lemma_tail_unique(t, class, t.len() as int, t.len() as int);
    assert(t.take(t.len() as int) =~= t);
}

/// A line `recipe:version:revision` is that row of versions.
pub proof fn law_a_line_of_versions_is_a_row(
    recipe: Seq<char>,
    version: Seq<char>,
    revision: Seq<char>,
)
    requires
        plain_field(recipe),
        plain_field(version),
        plain_field(revision),
        recipe != "NOTE"@,
        recipe != "WARNING"@,
        recipe != "DEBUG"@,
        recipe[0] != '=',
    ensures
        inventory::version_row(recipe + seq![':'] + version + seq![':'] + revision) == Some(
            VersionView { recipe, version, revision: Some(revision) },
        ),
{
    let line = recipe + seq![':'] + version + seq![':'] + revision;
    let (a, b, n) = (
        recipe.len() as int,
        (recipe.len() + 1 + version.len()) as int,
        line.len() as int,
    );
    assert(line[a] == ':' && line[b] == ':');
    assert forall|k: int| 0 <= k < a implies #[trigger] line[k] == recipe[k] by {}
    assert forall|k: int| a < k < b implies #[trigger] line[k] == version[k - a - 1] by {}
    assert forall|k: int| b < k < n implies #[trigger] line[k] == revision[k - b - 1] by {}
    assert(line[0] == recipe[0] && line[n - 1] == revision.last());
    lemma_trimmed(line);
    text::lemma_find_unique(line, ':', 0, a);
    text::lemma_find_unique(line, ':', a + 1, b);
    text::lemma_find_unique(line, ':', b + 1, n);
    assert(values::pieces_from(line, ':', b + 1) =~= seq![(b + 1, n)]);
    assert(values::pieces_from(line, ':', a + 1) =~= seq![(a + 1, b), (b + 1, n)]);
    assert(values::pieces_of(line, ':') =~= seq![(0int, a), (a + 1, b), (b + 1, n)]);
    let pieces = values::pieces(line, ':');
    assert(pieces.len() == 3);
    assert(pieces[0] =~= recipe);
    assert(pieces[1] =~= version);
    assert(pieces[2] =~= revision);
    lemma_field_trimmed(recipe);
    lemma_field_trimmed(version);
    lemma_field_trimmed(revision);
    let fields = inventory::version_fields(line);
    assert(fields.len() == 3 && fields[0] == recipe && fields[1] == version && fields[2]
        == revision);
    assert(!inventory::no_version_row(line)) by {
        lemma_no_heading(line, recipe);
        assert(line[0] != '=' && !text::is_ws(line[0]));
    }
}

proof fn lemma_no_heading(line: Seq<char>, recipe: Seq<char>)
    requires
        plain_field(recipe),
        recipe.len() < line.len(),
        line.take(recipe.len() as int) == recipe,
        line[recipe.len() as int] == ':',
        recipe != "NOTE"@,
        recipe != "WARNING"@,
        recipe != "DEBUG"@,
    ensures
        !text::has_prefix(line, "Recipe Name"@),
        !text::has_prefix(line, "NOTE:"@),
        !text::has_prefix(line, "WARNING:"@),
        !text::has_prefix(line, "DEBUG:"@),
{
    reveal_strlit("Recipe Name");
    reveal_strlit("NOTE:");
    reveal_strlit("WARNING:");
    reveal_strlit("DEBUG:");
    reveal_strlit("NOTE");
    reveal_strlit("WARNING");
    reveal_strlit("DEBUG");
    let a = recipe.len() as int;
    assert forall|k: int| 0 <= k < a implies #[trigger] line[k] == recipe[k] by {
        assert(line.take(a)[k] == recipe[k]);
    }
    if text::has_prefix(line, "Recipe Name"@) {
        let p = "Recipe Name"@;
        assert(line.take(11)[6] == p[6]);
        assert(line[6] == ' ');
        if a <= 6 {
            assert(line.take(11)[a] == p[a]);
            assert(line[a] == ':');
        }
    }
    assert("NOTE:"@ =~= "NOTE"@ + seq![':']);
    assert("WARNING:"@ =~= "WARNING"@ + seq![':']);
    assert("DEBUG:"@ =~= "DEBUG"@ + seq![':']);
    lemma_heading(line, recipe, "NOTE"@, "NOTE:"@);
    lemma_heading(line, recipe, "WARNING"@, "WARNING:"@);
    lemma_heading(line, recipe, "DEBUG"@, "DEBUG:"@);
}

proof fn lemma_heading(line: Seq<char>, recipe: Seq<char>, word: Seq<char>, heading: Seq<char>)
    requires
        plain_field(recipe),
        recipe.len() < line.len(),
        line.take(recipe.len() as int) == recipe,
        line[recipe.len() as int] == ':',
        recipe != word,
        heading == word + seq![':'],
        !word.contains(':'),
    ensures
        !text::has_prefix(line, heading),
{
    let a = recipe.len() as int;
    let n = word.len() as int;
    if text::has_prefix(line, heading) {
        assert(line.take(n + 1)[n] == ':');
        if a < n {
            assert(line.take(n + 1)[a] == heading[a]);
            assert(word[a] == ':');
        } else if n < a {
            assert(line.take(a)[n] == recipe[n]);
            assert(line[n] == ':');
        } else {
            assert(line.take(n) =~= line.take(n + 1).take(n));
            assert(heading.take(n) =~= word);
        }
    }
}

/// A line of a dry run that says `Running task` names the task in its brackets.
pub proof fn law_a_line_of_a_dry_run_names_a_task(
    before: Seq<char>,
    between: Seq<char>,
    task: Seq<char>,
    after: Seq<char>,
)
    requires
        !before.contains('('),
        !between.contains('('),
        !task.contains(')'),
    ensures
        inventory::dry_run_task(
            before + "Running task"@ + between + seq!['('] + task + seq![')'] + after,
        ) == Some(task),
{
    reveal_strlit("Running task");
    let mark = "Running task"@;
    let front = before + mark + between;
    let line = front + seq!['('] + task + seq![')'] + after;
    let m = before.len() as int;
    let n = front.len() as int;
    assert(!mark.contains('('));
    assert forall|k: int| 0 <= k < n implies #[trigger] front[k] != '(' by {
        if k < m {
            assert(front[k] == before[k]);
        } else if k < m + mark.len() {
            assert(front[k] == mark[k - m]);
        } else {
            assert(front[k] == between[k - m - mark.len()]);
        }
    }
    assert(front.subrange(m, m + mark.len()) =~= mark);
    lemma_task(front, m, task, after);
    assert(line =~= before + mark + between + seq!['('] + task + seq![')'] + after);
}

proof fn lemma_task(front: Seq<char>, m: int, task: Seq<char>, after: Seq<char>)
    requires
        0 <= m <= front.len() - "Running task"@.len(),
        front.subrange(m, m + "Running task"@.len()) == "Running task"@,
        forall|k: int| 0 <= k < front.len() ==> #[trigger] front[k] != '(',
        !task.contains(')'),
    ensures
        inventory::dry_run_task(front + seq!['('] + task + seq![')'] + after) == Some(task),
{
    reveal_strlit("Running task");
    let mark = "Running task"@;
    let line = front + seq!['('] + task + seq![')'] + after;
    let o = front.len() as int;
    let c = o + 1 + task.len();
    assert(line[o] == '(' && line[c] == ')');
    assert(line.subrange(m, m + mark.len()) =~= front.subrange(m, m + mark.len()));
    conditions::lemma_first_place(line, mark, 0);
    assert(text::find_seq(line, mark, 0) >= 0);
    assert forall|k: int| 0 <= k < o implies #[trigger] line[k] != '(' by {
        assert(line[k] == front[k]);
    }
    text::lemma_find_unique(line, '(', 0, o);
    assert forall|k: int| o + 1 <= k < c implies #[trigger] line[k] != ')' by {
        assert(line[k] == task[k - o - 1]);
    }
    text::lemma_find_unique(line, ')', o + 1, c);
    assert(line.subrange(o + 1, c) =~= task);
}

// ---------------------------------------------------------------------------
// Environments
// ---------------------------------------------------------------------------
/// A value as it is written inside double quotes.
pub open spec fn encoded(value: Seq<char>) -> Seq<char>
    decreases value.len(),
{
    if value.len() == 0 {
        Seq::empty()
    } else {
        encoded(value.drop_last()) + if value.last() == '\n' {
            seq!['\\', 'n']
        } else if value.last() == '\r' {
            seq!['\\', 'r']
        } else if value.last() == '\t' {
            seq!['\\', 't']
        } else if value.last() == '\\' || value.last() == '"' {
            seq!['\\', value.last()]
        } else {
            seq![value.last()]
        }
    }
}

/// Decoding goes from left to right.
proof fn lemma_decoded_add(t: Seq<char>, u: Seq<char>, i: int, escaped: bool)
    requires
        0 <= i <= t.len(),
        plainly_ends(t, i, escaped),
    ensures
        environment::decoded_from(t + u, i, escaped) == environment::decoded_from(t, i, escaped)
            + environment::decoded_from(u, 0, false),
    decreases t.len() - i,
{
    let w = t + u;
    if i < t.len() {
        assert(w[i] == t[i]);
        let rest = environment::decoded_from(u, 0, false);
        if escaped {
            lemma_decoded_add(t, u, i + 1, false);
            let own = environment::unescaped(t[i]);
            assert(own + (environment::decoded_from(t, i + 1, false) + rest) =~= own
                + environment::decoded_from(t, i + 1, false) + rest);
        } else if t[i] == '\\' {
            lemma_decoded_add(t, u, i + 1, true);
        } else {
            lemma_decoded_add(t, u, i + 1, false);
            let own = seq![t[i]];
            assert(own + (environment::decoded_from(t, i + 1, false) + rest) =~= own
                + environment::decoded_from(t, i + 1, false) + rest);
        }
    } else {
        lemma_decoded_shift(w, i, u, 0);
        assert(environment::decoded_from(t, i, escaped) =~= Seq::empty());
        assert(Seq::<char>::empty() + environment::decoded_from(u, 0, false)
            =~= environment::decoded_from(u, 0, false));
    }
}

proof fn lemma_decoded_shift(w: Seq<char>, i: int, u: Seq<char>, j: int)
    requires
        0 <= j <= u.len(),
        0 <= i,
        w.len() - i == u.len() - j,
        forall|k: int| j <= k < u.len() ==> #[trigger] u[k] == w[k - j + i],
    ensures
        environment::decoded_from(w, i, false) == environment::decoded_from(u, j, false),
        environment::decoded_from(w, i, true) == environment::decoded_from(u, j, true),
    decreases u.len() - j,
{
    if j < u.len() {
        assert(u[j] == w[i]);
        lemma_decoded_shift(w, i + 1, u, j + 1);
    }
}

/// Whether `t` read from `i` on ends outside an escape.
spec fn plainly_ends(t: Seq<char>, i: int, escaped: bool) -> bool
    decreases t.len() - i,
{
    if i < 0 || i >= t.len() {
        !escaped
    } else if escaped {
        plainly_ends(t, i + 1, false)
    } else if t[i] == '\\' {
        plainly_ends(t, i + 1, true)
    } else {
        plainly_ends(t, i + 1, false)
    }
}

proof fn lemma_plainly_add(t: Seq<char>, u: Seq<char>, i: int, escaped: bool)
    requires
        0 <= i <= t.len(),
        plainly_ends(t, i, escaped),
        plainly_ends(u, 0, false),
    ensures
        plainly_ends(t + u, i, escaped),
    decreases t.len() - i,
{
    let w = t + u;
    if i < t.len() {
        assert(w[i] == t[i]);
        if escaped {
            lemma_plainly_add(t, u, i + 1, false);
        } else if t[i] == '\\' {
            lemma_plainly_add(t, u, i + 1, true);
        } else {
            lemma_plainly_add(t, u, i + 1, false);
        }
    } else {
        lemma_plainly_shift(w, i, u, 0);
    }
}

proof fn lemma_plainly_shift(w: Seq<char>, i: int, u: Seq<char>, j: int)
    requires
        0 <= j <= u.len(),
        0 <= i,
        w.len() - i == u.len() - j,
        forall|k: int| j <= k < u.len() ==> #[trigger] u[k] == w[k - j + i],
    ensures
        plainly_ends(w, i, false) == plainly_ends(u, j, false),
        plainly_ends(w, i, true) == plainly_ends(u, j, true),
    decreases u.len() - j,
{
    if j < u.len() {
        assert(u[j] == w[i]);
        lemma_plainly_shift(w, i + 1, u, j + 1);
    }
}

proof fn lemma_encoded(value: Seq<char>)
    ensures
        environment::decoded_from(encoded(value), 0, false) == value,
        plainly_ends(encoded(value), 0, false),
    decreases value.len(),
{
    if value.len() == 0 {
        assert(value =~= Seq::empty());
    } else {
        let front = value.drop_last();
        let c = value.last();
        lemma_encoded(front);
        let own = if c == '\n' {
            seq!['\\', 'n']
        } else if c == '\r' {
            seq!['\\', 'r']
        } else if c == '\t' {
            seq!['\\', 't']
        } else if c == '\\' || c == '"' {
            seq!['\\', c]
        } else {
            seq![c]
        };
        assert(encoded(value) == encoded(front) + own);
        reveal_with_fuel(environment::decoded_from, 4);
        reveal_with_fuel(plainly_ends, 4);
        assert(environment::decoded_from(own, 0, false) =~= seq![c]);
        assert(plainly_ends(own, 0, false));
        lemma_decoded_add(encoded(front), own, 0, false);
        lemma_plainly_add(encoded(front), own, 0, false);
        assert(value =~= front + seq![c]);
    }
}

/// A value written inside double quotes stands for itself, whatever characters
/// it holds.
pub proof fn law_quoted_values_are_decoded(value: Seq<char>)
    ensures
        environment::decoded(seq!['"'] + encoded(value) + seq!['"']) == value,
{
    let t = seq!['"'] + encoded(value) + seq!['"'];
    lemma_encoded(value);
    assert(t[0] == '"' && t.last() == '"');
    assert(t.subrange(1, t.len() - 1) =~= encoded(value));
}

/// A line `NAME="value"` of an environment, with or without `export` in front,
/// assigns what stands between its quotes to the variable.
pub proof fn law_a_line_of_an_environment_assigns(name: Seq<char>, value: Seq<char>)
    requires
        environment::environment_name(name),
    ensures
        environment::environment_assignment(name + seq!['=', '"'] + value + seq!['"']) == Some(
            (name, seq!['"'] + value + seq!['"']),
        ),
        environment::environment_assignment(
            "export "@ + name + seq!['=', '"'] + value + seq!['"'],
        ) == Some((name, seq!['"'] + value + seq!['"'])),
{
    reveal_strlit("export ");
    let export = "export "@;
    let quoted = seq!['"'] + value + seq!['"'];
    lemma_trimmed(quoted);
    let line = name + seq!['=', '"'] + value + seq!['"'];
    let n = name.len() as int;
    assert forall|k: int| 0 <= k < n implies #[trigger] line[k] != '=' by {
        assert(line[k] == name[k]);
        assert(environment::is_environment_char(name[k]));
    }
    text::lemma_find_unique(line, '=', 0, n);
    assert(line.take(n) =~= name);
    assert(line.skip(n + 1) =~= quoted);
    assert(environment::is_environment_char(name[0]));
    assert(environment::is_environment_char(name[n - 1]));
    assert(line[0] == name[0]);
    lemma_trimmed(name);
    assert(!text::has_prefix(name, export)) by {
        if text::has_prefix(name, export) {
            assert(name.take(7)[6] == export[6]);
            assert(environment::is_environment_char(name[6]));
        }
    }
    let other = export + name + seq!['=', '"'] + value + seq!['"'];
    let m = n + 7;
    assert forall|k: int| 0 <= k < m implies #[trigger] other[k] != '=' by {
        if k < 7 {
            assert(other[k] == export[k]);
        } else {
            assert(other[k] == name[k - 7]);
            assert(environment::is_environment_char(name[k - 7]));
        }
    }
    text::lemma_find_unique(other, '=', 0, m);
    let front = export + name;
    assert(other.take(m) =~= front);
    assert(other.skip(m + 1) =~= quoted);
    assert(front[0] == 'e' && front.last() == name.last());
    lemma_trimmed(front);
    assert(front.take(7) =~= export);
    assert(front.skip(7) =~= name);
    assert(other[0] == 'e');
}

// ---------------------------------------------------------------------------
// Diagnostics
// ---------------------------------------------------------------------------
/// The word in front of a diagnostic.
pub open spec fn severity_heading(severity: SemanticSeverity) -> Seq<char> {
    match severity {
        SemanticSeverity::Debug => "DEBUG: "@,
        SemanticSeverity::Note => "NOTE: "@,
        SemanticSeverity::Warning => "WARNING: "@,
        SemanticSeverity::Error => "ERROR: "@,
    }
}

proof fn lemma_severity(severity: SemanticSeverity, message: Seq<char>)
    requires
        message.len() > 0,
        !text::is_ws(message[0]),
    ensures
        ({
            let line = severity_heading(severity) + message;
            let n = severity_heading(severity).len() - 1;
            &&& output::line_severity(line) == Some((severity, n as int))
            &&& text::trimmed_start(line.skip(n as int), CharClass::Whitespace) == message
        }),
{
    reveal_strlit("DEBUG:");
    reveal_strlit("NOTE:");
    reveal_strlit("WARNING:");
    reveal_strlit("ERROR:");
    reveal_strlit("DEBUG: ");
    reveal_strlit("NOTE: ");
    reveal_strlit("WARNING: ");
    reveal_strlit("ERROR: ");
    let heading = severity_heading(severity);
    let line = heading + message;
    let n = heading.len() - 1;
    assert(line[0] == heading[0]);
    assert(line.take(n) =~= heading.take(n));
    match severity {
        SemanticSeverity::Debug => {
            assert(line.take(6) =~= "DEBUG:"@);
        },
        SemanticSeverity::Note => {
            assert(line.take(5) =~= "NOTE:"@);
        },
        SemanticSeverity::Warning => {
            assert(line.take(8) =~= "WARNING:"@);
        },
        SemanticSeverity::Error => {
            assert(line.take(6) =~= "ERROR:"@);
        },
    }
    assert forall|p: Seq<char>| p.len() > 0 && #[trigger] text::has_prefix(line, p) implies line[0]
        == p[0] by {
        assert(line.take(p.len() as int)[0] == p[0]);
    }
    assert("DEBUG:"@[0] == 'D' && "NOTE:"@[0] == 'N' && "WARNING:"@[0] == 'W' && "ERROR:"@[0]
        == 'E');
    let rest = line.skip(n);
    assert(rest[0] == ' ' && rest[1] == message[0]);
    text::lemma_lead_unique(rest, CharClass::Whitespace, 0, 1);
    assert(rest.skip(1) =~= message);
}

/// A line of output that begins with a severity is a diagnostic of it; a message
/// without a colon is told as it stands, at no place.
pub proof fn law_a_line_is_a_diagnostic(
    severity: SemanticSeverity,
    message: Seq<char>,
    phase: SemanticDiagnosticPhase,
    target: Option<Seq<char>>,
    stream: SemanticDiagnosticStream,
)
    requires
        message.len() > 0,
        !text::is_ws(message[0]),
        !text::is_ws(message.last()),
        !message.contains(':'),
    ensures
        output::line_diagnostic(severity_heading(severity) + message, phase, target, stream)
            == Some(
            SemanticView {
                phase,
                target,
                stream,
                severity,
                path: None,
                line: None,
                column: None,
                message,
                raw: severity_heading(severity) + message,
            },
        ),
{
    let line = severity_heading(severity) + message;
    lemma_severity(severity, message);
    assert(line.last() == message.last());
    assert(output::returns_end(line) == line.len());
    assert(line.take(line.len() as int) =~= line);
    lemma_trimmed(message);
    lemma_no_location(message, 0);
}

proof fn lemma_no_location(t: Seq<char>, i: int)
    requires
        0 <= i <= t.len(),
        !t.contains(':'),
    ensures
        output::location_from(t, i) == (output::LocationView {
            path: None,
            line: None,
            column: None,
            message: text::trimmed(t, CharClass::Whitespace),
        }),
    decreases t.len() - i,
{
    if i < t.len() {
        assert(t.contains(t[i]));
        lemma_no_location(t, i + 1);
    }
}

/// A line of output that names a path and a line number is a diagnostic at that
/// place.
pub proof fn law_a_diagnostic_tells_its_place(
    severity: SemanticSeverity,
    path: Seq<char>,
    number: usize,
    message: Seq<char>,
    phase: SemanticDiagnosticPhase,
    target: Option<Seq<char>>,
    stream: SemanticDiagnosticStream,
)
    requires
        plain_field(path),
        path.contains('/'),
        message.len() > 0,
        !text::is_ws(message[0]),
        !text::is_digit(message[0]),
        !text::is_ws(message.last()),
    ensures
        ({
            let line = severity_heading(severity) + (path + seq![':'] + numbers::decimal(
                number as nat,
            ) + seq![':', ' '] + message);
            output::line_diagnostic(line, phase, target, stream) == Some(
                SemanticView {
                    phase,
                    target,
                    stream,
                    severity,
                    path: Some(path),
                    line: Some(number),
                    column: None,
                    message,
                    raw: line,
                },
            )
        }),
{
    reveal_strlit(" at ");
    let digits = numbers::decimal(number as nat);
    let t = path + seq![':'] + digits + seq![':', ' '] + message;
    let line = severity_heading(severity) + t;
    let a = path.len() as int;
    let e = a + 1 + digits.len();
    let n = t.len() as int;
    numbers::law_numerals_are_read_back(number as int, 0, usize::MAX as int);
    numbers::lemma_decimal_digits(number as nat);
    assert(t[0] == path[0]);
    assert(t.last() == message.last());
    lemma_severity(severity, t);
    assert(line.last() == t.last());
    assert(output::returns_end(line) == line.len());
    assert(line.take(line.len() as int) =~= line);
    // The place.
    assert(t[a] == ':' && t[e] == ':' && t[e + 1] == ' ' && t[e + 2] == message[0]);
    assert forall|k: int| 0 <= k < a implies #[trigger] t[k] != ':' by {
        assert(t[k] == path[k]);
    }
    lemma_location_skips(t, 0, a);
    assert forall|k: int| a + 1 <= k < e implies text::is_digit(#[trigger] t[k]) by {
        assert(t[k] == digits[k - a - 1]);
    }
    lemma_digits_end(t, a + 1, e);
    assert(t.take(a) =~= path);
    lemma_field_trimmed(path);
    assert(text::rfind_seq(path, " at "@, path.len() as int) < 0) by {
        lemma_no_at(path, path.len() as int);
    }
    assert(output::place_text(path) == path);
    assert(output::path_like(path));
    assert(t.subrange(a + 1, e) =~= digits);
    assert(text::lead_from(t, CharClass::Ascii, e + 1) == e + 2) by {
        text::lemma_lead_unique(t, CharClass::Ascii, e + 1, e + 2);
    }
    assert(output::digits_end(t, e + 2) == e + 2);
    assert(t.skip(e + 2) =~= message);
    lemma_trimmed(message);
    text::lemma_lead_unique(t, CharClass::Ascii, e + 2, e + 2);
}

proof fn lemma_location_skips(t: Seq<char>, i: int, a: int)
    requires
        0 <= i <= a < t.len(),
        forall|k: int| i <= k < a ==> #[trigger] t[k] != ':',
    ensures
        output::location_from(t, i) == output::location_from(t, a),
    decreases a - i,
{
    if i < a {
        lemma_location_skips(t, i + 1, a);
    }
}

proof fn lemma_digits_end(t: Seq<char>, i: int, e: int)
    requires
        0 <= i <= e < t.len(),
        forall|k: int| i <= k < e ==> text::is_digit(#[trigger] t[k]),
        !text::is_digit(t[e]),
    ensures
        output::digits_end(t, i) == e,
    decreases e - i,
{
    if i < e {
        lemma_digits_end(t, i + 1, e);
    }
}

proof fn lemma_no_at(t: Seq<char>, e: int)
    requires
        e <= t.len(),
        forall|k: int| 0 <= k < t.len() ==> !text::is_ws(#[trigger] t[k]),
    ensures
        text::rfind_seq(t, " at "@, e) < 0,
    decreases e,
{
    reveal_strlit(" at ");
    if e >= 4 {
        if t.subrange(e - 4, e) == " at "@ {
            assert(t.subrange(e - 4, e)[0] == ' ');
            assert(!text::is_ws(t[e - 4]));
        }
        lemma_no_at(t, e - 1);
    }
}

// ---------------------------------------------------------------------------
// Providers
// ---------------------------------------------------------------------------
proof fn lemma_named_providers(
    recipe: Seq<char>,
    names: Seq<Seq<char>>,
    k: int,
    x: (Seq<char>, Seq<char>),
)
    requires
        0 <= k <= names.len(),
    ensures
        inventory::named_providers(recipe, names, k).contains(x) <==> x.1 == recipe && exists|
            i: int,
        |
            k <= i < names.len() && #[trigger] names[i] == x.0,
    decreases names.len() - k,
{
    if k < names.len() {
        lemma_named_providers(recipe, names, k + 1, x);
        let rest = inventory::named_providers(recipe, names, k + 1);
        let all = inventory::named_providers(recipe, names, k);
        assert(all[0] == (names[k], recipe));
        if rest.contains(x) {
            let at = choose|at: int| 0 <= at < rest.len() && rest[at] == x;
            assert(all[at + 1] == x);
        }
        if all.contains(x) {
            let at = choose|at: int| 0 <= at < all.len() && all[at] == x;
            if at > 0 {
                assert(rest[at - 1] == x);
            }
        }
    }
}

/// Whether a line says that `recipe` provides `name`: the recipe stands before
/// the first colon and the name is a word behind it, or, where there is no colon, the
/// recipe is the first word and the name a later one.
pub open spec fn line_provides(line: Seq<char>, name: Seq<char>, recipe: Seq<char>) -> bool {
    &&& recipe.len() > 0
    &&& if line.contains(':') {
        exists|c: int|
            0 <= c < line.len() && #[trigger] line[c] == ':' && !line.take(c).contains(':')
                && recipe == text::trimmed(line.take(c), CharClass::Whitespace) && text::word_texts(
                line.skip(c + 1),
                CharClass::Whitespace,
            ).contains(name)
    } else {
        let words = text::word_texts(line, CharClass::Whitespace);
        words.len() > 0 && recipe == words[0] && exists|i: int|
            1 <= i < words.len() && #[trigger] words[i] == name
    }
}

proof fn lemma_line_provides(line: Seq<char>, name: Seq<char>, recipe: Seq<char>)
    ensures
        line_provides(line, name, recipe) <==> {
            let (r, names) = inventory::provider_line(line);
            r.len() > 0 && r == recipe && names.contains(name)
        },
{
    text::lemma_find(line, ':', 0);
    let colon = text::find_from(line, ':', 0);
    if colon < line.len() {
        assert(line.contains(line[colon]));
        assert(!line.take(colon).contains(':')) by {
            if line.take(colon).contains(':') {
                let j = choose|j: int| 0 <= j < colon && line.take(colon)[j] == ':';
                assert(line[j] == ':');
            }
        }
        assert forall|c: int|
            0 <= c < line.len() && #[trigger] line[c] == ':' && !line.take(c).contains(
                ':',
            ) implies c == colon by {
            if colon < c {
                assert(line.take(c)[colon] == ':');
            }
        }
        assert(line[colon] == ':');
    } else {
        assert(!line.contains(':')) by {
            if line.contains(':') {
                let j = choose|j: int| 0 <= j < line.len() && line[j] == ':';
                assert(line[j] != ':');
            }
        }
        let words = text::word_texts(line, CharClass::Whitespace);
        if words.len() > 0 {
            let rest = words.skip(1);
            if rest.contains(name) {
                let i = choose|i: int| 0 <= i < rest.len() && rest[i] == name;
                assert(words[i + 1] == name);
            }
            if exists|i: int| 1 <= i < words.len() && #[trigger] words[i] == name {
                let i = choose|i: int| 1 <= i < words.len() && #[trigger] words[i] == name;
                assert(rest[i - 1] == name);
            }
        }
    }
}

/// The providers of some lines are what the lines say, each of them.
pub proof fn law_lines_of_providers(
    lines: Seq<Seq<char>>,
    k: int,
    name: Seq<char>,
    recipe: Seq<char>,
)
    requires
        0 <= k <= lines.len(),
    ensures
        inventory::providers_from(lines, k).contains((name, recipe)) <==> exists|i: int|
            k <= i < lines.len() && line_provides(#[trigger] lines[i], name, recipe),
    decreases lines.len() - k,
{
    if k < lines.len() {
        law_lines_of_providers(lines, k + 1, name, recipe);
        lemma_line_provides(lines[k], name, recipe);
        let (r, names) = inventory::provider_line(lines[k]);
        if r.len() > 0 {
            let x = (name, recipe);
            let own = inventory::named_providers(r, names, 0);
            let rest = inventory::providers_from(lines, k + 1);
            let all = own + rest;
            lemma_named_providers(r, names, 0, x);
            assert(own.contains(x) <==> line_provides(lines[k], name, recipe));
            if own.contains(x) {
                let at = choose|at: int| 0 <= at < own.len() && own[at] == x;
                assert(all[at] == x);
            }
            if rest.contains(x) {
                let at = choose|at: int| 0 <= at < rest.len() && rest[at] == x;
                assert(all[own.len() + at] == x);
            }
            if all.contains(x) {
                let at = choose|at: int| 0 <= at < all.len() && all[at] == x;
                if at < own.len() {
                    assert(own[at] == x);
                } else {
                    assert(rest[at - own.len()] == x);
                }
            }
        }
    }
}

/// Merging providers keeps all of them and adds no others.
pub proof fn law_merged_providers(
    items: Seq<(Seq<char>, Seq<char>)>,
    more: Seq<(Seq<char>, Seq<char>)>,
    k: int,
    x: (Seq<char>, Seq<char>),
)
    requires
        0 <= k <= more.len(),
    ensures
        inventory::with_providers(items, more, k).contains(x) <==> items.contains(x) || exists|
            i: int,
        |
            k <= i < more.len() && #[trigger] more[i] == x,
    decreases more.len() - k,
{
    if k < more.len() {
        let y = more[k];
        let next = inventory::with_provider(items, y);
        law_merged_providers(next, more, k + 1, x);
        let p = inventory::provider_place(items, y, 0);
        lemma_provider_place(items, y, 0);
        assert(next.contains(x) <==> items.contains(x) || x == y) by {
            if p < items.len() && items[p] == y {
            } else {
                assert(next[p] == y);
                if items.contains(x) {
                    let i = choose|i: int| 0 <= i < items.len() && items[i] == x;
                    if i < p {
                        assert(next[i] == x);
                    } else {
                        assert(next[i + 1] == x);
                    }
                }
                if next.contains(x) {
                    let i = choose|i: int| 0 <= i < next.len() && next[i] == x;
                    if i < p {
                        assert(items[i] == x);
                    } else if i > p {
                        assert(items[i - 1] == x);
                    }
                }
            }
        }
    }
}

proof fn lemma_provider_place(
    items: Seq<(Seq<char>, Seq<char>)>,
    x: (Seq<char>, Seq<char>),
    k: int,
)
    requires
        0 <= k <= items.len(),
    ensures
        k <= inventory::provider_place(items, x, k) <= items.len(),
    decreases items.len() - k,
{
    if k < items.len() && inventory::provider_before(items[k], x) {
        lemma_provider_place(items, x, k + 1);
    }
}

} // verus!
