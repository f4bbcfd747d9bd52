//! When the rules on a single file speak, said of the statements of the file.
use crate::checks;
use crate::scanner;
use crate::statements;
use crate::syntax;
use crate::text;
use crate::values;
use crate::checks::BodyDiagnostic;
use crate::findings::FindingView;
use crate::operator::AssignmentOperator;
use crate::rules::RULE_AUTOREV;
use crate::rules::RULE_DUPLICATE_ASSIGNMENT;
use crate::rules::RULE_DUPLICATE_FUNCTION;
use crate::rules::RULE_DUPLICATE_INHERIT;
use crate::rules::RULE_EMPTY_DIRECTIVE;
use crate::rules::RULE_FILE_PATHS_IMMEDIATE;
use crate::rules::RULE_FINAL_NEWLINE;
use crate::rules::RULE_GIT_URI_PROTOCOL;
use crate::rules::RULE_SUMMARY_LENGTH;
use crate::rules::RULE_TRAILING_WHITESPACE;
use crate::statements::AssignmentView;
use crate::statements::StatementView;
use crate::syntax::DirectiveKeyword;
use crate::text::CharClass;
use vstd::prelude::*;

verus! {

// ---------------------------------------------------------------------------
// Conditions
// ---------------------------------------------------------------------------
/// Whether there is a finding of a rule at a place.
pub open spec fn found_at(items: Seq<FindingView>, rule: usize, at: int) -> bool {
    exists|i: int| 0 <= i < items.len() && (#[trigger] items[i]).rule == rule && items[i].from == at
}

/// Whether `name` is the variable `base`, or goes on with a colon or an
/// underscore behind it.
pub open spec fn variable_or_variant(name: Seq<char>, base: Seq<char>) -> bool {
    let n = base.len() as int;
    name == base || (n < name.len() && name.take(n) == base && (name[n] == ':' || name[n] == '_'))
}

/// A `SUMMARY` written out on one line in more than 80 characters.
pub open spec fn long_summary(s: StatementView, at: int) -> bool {
    s matches StatementView::Assignment(a) && a.name == "SUMMARY"@ && a.name_at == at && (
    values::quoted_text(a.value) matches Some(t) && t.len() > 80 && forall|k: int|
        0 <= k < t.len() ==> (#[trigger] t[k]) != '$' && t[k] != '\r' && t[k] != '\n')
}

/// A source revision whose value holds `${AUTOREV}` before any comment, the
/// first time at `at`.
pub open spec fn floating_revision(s: StatementView, at: int) -> bool {
    s matches StatementView::Assignment(a) && variable_or_variant(a.name, "SRCREV"@) && {
        let i = at - a.value_at;
        &&& 0 <= i
        &&& i + 10 <= scanner::code_end(a.value)
        &&& a.value.subrange(i, i + 10) == "${AUTOREV}"@
        &&& forall|j: int| 0 <= j < i ==> #[trigger] a.value.subrange(j, j + 10) != "${AUTOREV}"@
    }
}

/// Search paths that are assigned with another operator than `:=`.
pub open spec fn late_paths(s: StatementView, at: int) -> bool {
    s matches StatementView::Assignment(a) && a.operator != AssignmentOperator::Immediate
        && a.operator_at == at && a.name.len() >= 15 && a.name.take(15) == "FILESEXTRAPATHS"@
}

/// A Git address of `SRC_URI`, word `i` of the value, that names no protocol.
pub open spec fn without_protocol(s: StatementView, i: int, at: int) -> bool {
    s matches StatementView::Assignment(a) && variable_or_variant(a.name, "SRC_URI"@) && 0 <= i
        < checks::assigned_words(a).len() && checks::assigned_words(a)[i].0 == at && {
        let uri = checks::assigned_words(a)[i].1;
        &&& uri.len() >= 6
        &&& uri.take(6) == "git://"@
        &&& forall|k: int|
            0 <= k < values::pieces(uri, ';').len() ==> !text::has_prefix(
                #[trigger] values::pieces(uri, ';')[k],
                "protocol="@,
            )
    }
}

/// An assignment to `name` with `=` or `:=`.
pub open spec fn sets(s: StatementView, name: Seq<char>) -> bool {
    s matches StatementView::Assignment(a) && a.name == name && (a.operator
        == AssignmentOperator::Assign || a.operator == AssignmentOperator::Immediate)
}

/// Statement `k` sets at `at` a variable that an earlier one, `j`, sets.
pub open spec fn set_again(s: Seq<StatementView>, j: int, k: int, at: int) -> bool {
    0 <= j < k < s.len() && (s[k] matches StatementView::Assignment(a) && a.name_at == at && sets(
        s[k],
        a.name,
    ) && sets(s[j], a.name))
}

/// A function with the name `name`.
pub open spec fn declares(s: StatementView, name: Seq<char>) -> bool {
    s matches StatementView::Function(f) && f.name == Some(name)
}

/// Statement `k` declares at `at` a function that an earlier one, `j`, declares.
pub open spec fn declared_again(s: Seq<StatementView>, j: int, k: int, at: int) -> bool {
    0 <= j < k < s.len() && (s[k] matches StatementView::Function(f) && f.name_at == at && f.name
        is Some && declares(s[j], f.name->0))
}

/// A directive that names other metadata and names none before its comment.
pub open spec fn without_target(s: StatementView, at: int) -> bool {
    s matches StatementView::Directive(d) && d.at == at && (d.keyword == DirectiveKeyword::Include
        || d.keyword == DirectiveKeyword::IncludeAll || d.keyword == DirectiveKeyword::Require
        || d.keyword == DirectiveKeyword::Inherit || d.keyword == DirectiveKeyword::InheritDefer)
        && forall|k: int|
        0 <= k < scanner::code_end(d.arguments) && k < d.arguments.len() ==> text::is_ws(
            #[trigger] d.arguments[k],
        )
}

/// The classes that a statement inherits, each with its place.
pub open spec fn inherited(s: StatementView) -> Seq<(int, Seq<char>)> {
    match s {
        StatementView::Directive(d) => if d.keyword == DirectiveKeyword::Inherit || d.keyword
            == DirectiveKeyword::InheritDefer {
            checks::argument_words(d, false)
        } else {
            Seq::empty()
        },
        _ => Seq::empty(),
    }
}

/// Word `i` of statement `k` inherits at `at` a class that an earlier word, `j`
/// of statement `h`, inherits.
pub open spec fn inherited_again(
    s: Seq<StatementView>,
    h: int,
    j: int,
    k: int,
    i: int,
    at: int,
) -> bool {
    &&& 0 <= h <= k < s.len()
    &&& 0 <= i < inherited(s[k]).len()
    &&& 0 <= j < inherited(s[h]).len()
    &&& h < k || j < i
    &&& inherited(s[h])[j].1 == inherited(s[k])[i].1
    &&& inherited(s[k])[i].0 == at
}

/// Blanks that start at `at` and end a line.
pub open spec fn blanks_end_line(t: Seq<char>, at: int, e: int) -> bool {
    &&& 0 <= at < e <= t.len()
    &&& forall|k: int| at <= k < e ==> (#[trigger] t[k]) == ' ' || t[k] == '\t'
    &&& at == 0 || (t[at - 1] != ' ' && t[at - 1] != '\t')
    &&& e == t.len() || t[e] == '\n' || (t[e] == '\r' && e + 1 < t.len() && t[e + 1] == '\n')
}

// ---------------------------------------------------------------------------
// Lists of findings
// ---------------------------------------------------------------------------
pub proof fn lemma_found_add(a: Seq<FindingView>, b: Seq<FindingView>, rule: usize, at: int)
    ensures
        found_at(a + b, rule, at) <==> found_at(a, rule, at) || found_at(b, rule, at),
{
    let c = a + b;
    if found_at(a, rule, at) {
        let i = choose|i: int| 0 <= i < a.len() && (#[trigger] a[i]).rule == rule && a[i].from == at;
        assert(c[i] == a[i]);
    }
    if found_at(b, rule, at) {
        let i = choose|i: int| 0 <= i < b.len() && (#[trigger] b[i]).rule == rule && b[i].from == at;
        assert(c[a.len() + i] == b[i]);
    }
    if found_at(c, rule, at) {
        let i = choose|i: int| 0 <= i < c.len() && (#[trigger] c[i]).rule == rule && c[i].from == at;
        if i < a.len() {
            assert(a[i] == c[i]);
        } else {
            assert(b[i - a.len()] == c[i]);
        }
    }
}

pub proof fn lemma_found_one(f: FindingView, rule: usize, at: int)
    ensures
        found_at(seq![f], rule, at) <==> f.rule == rule && f.from == at,
        !found_at(Seq::empty(), rule, at),
{
    if f.rule == rule && f.from == at {
        assert(seq![f][0] == f);
    }
}

pub proof fn lemma_found_none(rule: usize, at: int)
    ensures
        !found_at(Seq::empty(), rule, at),
{
}

pub proof fn lemma_variable(name: Seq<char>, base: Seq<char>)
    ensures
        values::names_variable(name, base) <==> variable_or_variant(name, base),
{
    let n = base.len() as int;
    if n < name.len() {
        let head = name.take(n + 1);
        assert(head.take(n) =~= name.take(n));
        assert((base + seq![':']).take(n) =~= base);
        assert((base + seq!['_']).take(n) =~= base);
        if name.take(n) == base {
            assert(name[n] == ':' ==> head =~= base + seq![':']);
            assert(name[n] == '_' ==> head =~= base + seq!['_']);
        }
        if head == base + seq![':'] || head == base + seq!['_'] {
            assert(head[n] == name[n]);
        }
    }
}

proof fn lemma_summary(a: AssignmentView, rule: usize, at: int)
    ensures
        found_at(checks::summary_findings(a), rule, at) <==> rule == RULE_SUMMARY_LENGTH
            && long_summary(StatementView::Assignment(a), at),
{
    let found = checks::summary_findings(a);
    if found.len() > 0 {
        lemma_found_one(found[0], rule, at);
        assert(found =~= seq![found[0]]);
    }
    if let Some(t) = values::quoted_text(a.value) {
        assert(!t.contains('$') && !t.contains('\r') && !t.contains('\n') <==> forall|k: int|
            0 <= k < t.len() ==> (#[trigger] t[k]) != '$' && t[k] != '\r' && t[k] != '\n') by {
            if !t.contains('$') && !t.contains('\r') && !t.contains('\n') {
                assert forall|k: int| 0 <= k < t.len() implies (#[trigger] t[k]) != '$' && t[k]
                    != '\r' && t[k] != '\n' by {}
            }
        }
    }
}

pub proof fn lemma_first_place(t: Seq<char>, p: Seq<char>, i: int)
    requires
        0 <= i,
        p.len() > 0,
    ensures
        text::find_seq(t, p, i) == -1 || i <= text::find_seq(t, p, i) <= t.len() - p.len(),
        text::find_seq(t, p, i) >= 0 ==> t.subrange(
            text::find_seq(t, p, i),
            text::find_seq(t, p, i) + p.len(),
        ) == p,
        forall|j: int|
            i <= j <= t.len() - p.len() && (text::find_seq(t, p, i) < 0 || j < text::find_seq(
                t,
                p,
                i,
            )) ==> #[trigger] t.subrange(j, j + p.len()) != p,
    decreases t.len() + 1 - i,
{
    if i + p.len() <= t.len() && t.subrange(i, i + p.len()) != p {
        lemma_first_place(t, p, i + 1);
    }
}

proof fn lemma_autorev(a: AssignmentView, rule: usize, at: int)
    ensures
        found_at(checks::autorev_findings(a), rule, at) <==> rule == RULE_AUTOREV
            && floating_revision(StatementView::Assignment(a), at),
{
    reveal_strlit("${AUTOREV}");
    let mark = "${AUTOREV}"@;
    assert(mark.len() == 10);
    let c = scanner::code_end(a.value);
    syntax::lemma_code_end(a.value);
    let code = a.value.take(c);
    let k = text::find_seq(code, mark, 0);
    lemma_first_place(code, mark, 0);
    lemma_variable(a.name, "SRCREV"@);
    assert forall|j: int| 0 <= j <= c - 10 implies #[trigger] a.value.subrange(j, j + 10)
        == code.subrange(j, j + 10) by {
        assert(a.value.subrange(j, j + 10) =~= code.subrange(j, j + 10));
    }
    let found = checks::autorev_findings(a);
    if found.len() > 0 {
        lemma_found_one(found[0], rule, at);
        assert(found =~= seq![found[0]]);
        if at == a.value_at + k {
            assert forall|j: int| 0 <= j < k implies #[trigger] a.value.subrange(j, j + 10) != mark by {
                assert(code.subrange(j, j + 10) != mark);
            }
            assert(a.value.subrange(k, k + 10) == mark);
        }
        if floating_revision(StatementView::Assignment(a), at) {
            let i = at - a.value_at;
            assert(code.subrange(i, i + 10) == mark);
            if i < k {
                assert(false);
            }
            if k < i {
                assert(a.value.subrange(k, k + 10) != mark);
                assert(false);
            }
        }
    } else if floating_revision(StatementView::Assignment(a), at) {
        let i = at - a.value_at;
        assert(code.subrange(i, i + 10) == mark);
        assert(false);
    }
}

proof fn lemma_file_paths(a: AssignmentView, rule: usize, at: int)
    ensures
        found_at(checks::file_path_findings(a), rule, at) <==> rule == RULE_FILE_PATHS_IMMEDIATE
            && late_paths(StatementView::Assignment(a), at),
{
    reveal_strlit("FILESEXTRAPATHS");
    assert("FILESEXTRAPATHS"@.len() == 15);
    let found = checks::file_path_findings(a);
    if found.len() > 0 {
        lemma_found_one(found[0], rule, at);
        assert(found =~= seq![found[0]]);
    }
}

spec fn protocol_missing(words: Seq<(int, Seq<char>)>, i: int, at: int) -> bool {
    0 <= i < words.len() && words[i].0 == at && values::git_uri(words[i].1)
        && !values::names_protocol(words[i].1)
}

proof fn lemma_protocol_from(words: Seq<(int, Seq<char>)>, k: int, rule: usize, at: int)
    requires
        0 <= k <= words.len(),
    ensures
        found_at(checks::protocol_from(words, k), rule, at) <==> rule == RULE_GIT_URI_PROTOCOL && exists|
            i: int,
        |
            k <= i && #[trigger] protocol_missing(words, i, at),
    decreases words.len() - k,
{
    let cond = exists|i: int| k <= i && #[trigger] protocol_missing(words, i, at);
    if k < words.len() {
        lemma_protocol_from(words, k + 1, rule, at);
        let rest = checks::protocol_from(words, k + 1);
        let next = exists|i: int| k + 1 <= i && #[trigger] protocol_missing(words, i, at);
        assert(cond <==> protocol_missing(words, k, at) || next) by {
            if cond {
                let i = choose|i: int| k <= i && #[trigger] protocol_missing(words, i, at);
                if i > k {
                    assert(k + 1 <= i && protocol_missing(words, i, at));
                }
            }
        }
        if checks::protocol_from(words, k) != rest {
            let f = checks::protocol_from(words, k)[0];
            assert(checks::protocol_from(words, k) =~= seq![f] + rest);
            lemma_found_add(seq![f], rest, rule, at);
            lemma_found_one(f, rule, at);
        }
        if values::git_uri(words[k].1) && !values::names_protocol(words[k].1) {
            let f = checks::protocol_from(words, k)[0];
            lemma_found_add(seq![f], rest, rule, at);
            lemma_found_one(f, rule, at);
            assert(checks::protocol_from(words, k) =~= seq![f] + rest);
        }
    } else {
        assert(!cond) by {
            if cond {
                let i = choose|i: int| k <= i && #[trigger] protocol_missing(words, i, at);
            }
        }
    }
}

proof fn lemma_protocol(a: AssignmentView, rule: usize, at: int)
    ensures
        found_at(checks::protocol_findings(a), rule, at) <==> rule == RULE_GIT_URI_PROTOCOL && exists|
            i: int,
        | #[trigger]
            without_protocol(StatementView::Assignment(a), i, at),
{
    reveal_strlit("git://");
    assert("git://"@.len() == 6);
    let s = StatementView::Assignment(a);
    lemma_variable(a.name, "SRC_URI"@);
    let words = checks::assigned_words(a);
    lemma_protocol_from(words, 0, rule, at);
    assert forall|i: int| variable_or_variant(a.name, "SRC_URI"@) implies (#[trigger] protocol_missing(
        words,
        i,
        at,
    ) <==> without_protocol(s, i, at)) by {
        if 0 <= i < words.len() {
            let uri = words[i].1;
            if without_protocol(s, i, at) && values::names_protocol(uri) {
                let k = choose|k: int|
                    0 <= k < values::pieces(uri, ';').len() && text::has_prefix(
                        #[trigger] values::pieces(uri, ';')[k],
                        "protocol="@,
                    );
                assert(!text::has_prefix(values::pieces(uri, ';')[k], "protocol="@));
            }
        }
    }
    if variable_or_variant(a.name, "SRC_URI"@) {
        if exists|i: int| 0 <= i && #[trigger] protocol_missing(words, i, at) {
            let i = choose|i: int| 0 <= i && #[trigger] protocol_missing(words, i, at);
            assert(without_protocol(s, i, at));
        }
        if exists|i: int| #[trigger] without_protocol(s, i, at) {
            let i = choose|i: int| #[trigger] without_protocol(s, i, at);
            assert(protocol_missing(words, i, at));
        }
    }
}

// ---------------------------------------------------------------------------
// Assignments
// ---------------------------------------------------------------------------
/// Whether statement `j` gives a finding of `rule` at `at`, where the names
/// `seen` are set before statement `k`.
spec fn assignment_speaks(
    s: Seq<StatementView>,
    k: int,
    seen: Seq<Seq<char>>,
    j: int,
    rule: usize,
    at: int,
) -> bool {
    k <= j < s.len() && (s[j] matches StatementView::Assignment(a) && {
        ||| found_at(checks::summary_findings(a), rule, at)
        ||| found_at(checks::autorev_findings(a), rule, at)
        ||| found_at(checks::file_path_findings(a), rule, at)
        ||| found_at(checks::protocol_findings(a), rule, at)
        ||| rule == RULE_DUPLICATE_ASSIGNMENT && a.name_at == at && sets(s[j], a.name) && (
        seen.contains(a.name) || set_between(s, k, j, a.name))
    })
}

spec fn set_between(s: Seq<StatementView>, k: int, j: int, name: Seq<char>) -> bool {
    exists|i: int| k <= i < j && sets(#[trigger] s[i], name)
}

proof fn lemma_assignments(
    s: Seq<StatementView>,
    k: int,
    seen: Seq<Seq<char>>,
    rule: usize,
    at: int,
)
    requires
        0 <= k <= s.len(),
    ensures
        found_at(checks::assignments_from(s, k, seen), rule, at) <==> exists|j: int| #[trigger]
            assignment_speaks(s, k, seen, j, rule, at),
    decreases s.len() - k,
{
    let all = checks::assignments_from(s, k, seen);
    if k < s.len() {
        let later = match s[k] {
            StatementView::Assignment(a) => if checks::assigns_directly(a.operator) {
                checks::with_name(seen, a.name)
            } else {
                seen
            },
            _ => seen,
        };
        let rest = checks::assignments_from(s, k + 1, later);
        lemma_assignments(s, k + 1, later, rule, at);
        assert forall|name: Seq<char>| #[trigger] later.contains(name) <==> seen.contains(name) || sets(
            s[k],
            name,
        ) by {
            lemma_with_name(seen, name, s[k]);
        }
        let first = match s[k] {
            StatementView::Assignment(a) => checks::assignment_findings(a, seen),
            _ => Seq::empty(),
        };
        assert(all =~= first + rest);
        lemma_found_add(first, rest, rule, at);
        assert(found_at(first, rule, at) <==> assignment_speaks(s, k, seen, k, rule, at)) by {
            if let StatementView::Assignment(a) = s[k] {
                let (p1, p2, p3, p4, p5) = (
                    checks::summary_findings(a),
                    checks::autorev_findings(a),
                    checks::file_path_findings(a),
                    checks::protocol_findings(a),
                    checks::repeated_findings(a, seen),
                );
                lemma_found_add(p1 + p2 + p3 + p4, p5, rule, at);
                lemma_found_add(p1 + p2 + p3, p4, rule, at);
                lemma_found_add(p1 + p2, p3, rule, at);
                lemma_found_add(p1, p2, rule, at);
                if p5.len() > 0 {
                    lemma_found_one(p5[0], rule, at);
                    assert(p5 =~= seq![p5[0]]);
                }
                assert(!set_between(s, k, k, a.name));
            }
        }
        assert forall|j: int| j != k implies (#[trigger] assignment_speaks(s, k, seen, j, rule, at)
            <==> assignment_speaks(s, k + 1, later, j, rule, at)) by {
            if k < j < s.len() {
                if let StatementView::Assignment(a) = s[j] {
                    assert(set_between(s, k, j, a.name) <==> sets(s[k], a.name) || set_between(
                        s,
                        k + 1,
                        j,
                        a.name,
                    )) by {
                        if set_between(s, k, j, a.name) {
                            let i = choose|i: int| k <= i < j && sets(#[trigger] s[i], a.name);
                            if i > k {
                                assert(k + 1 <= i < j && sets(s[i], a.name));
                            }
                        }
                    }
                    assert(later.contains(a.name) <==> seen.contains(a.name) || sets(s[k], a.name));
                }
            }
        }
        if exists|j: int| #[trigger] assignment_speaks(s, k, seen, j, rule, at) {
            let j = choose|j: int| #[trigger] assignment_speaks(s, k, seen, j, rule, at);
            if j != k {
                assert(assignment_speaks(s, k + 1, later, j, rule, at));
            }
        }
        if exists|j: int| #[trigger] assignment_speaks(s, k + 1, later, j, rule, at) {
            let j = choose|j: int| #[trigger] assignment_speaks(s, k + 1, later, j, rule, at);
            assert(j != k);
            assert(assignment_speaks(s, k, seen, j, rule, at));
        }
    }
}

pub proof fn lemma_with_name(seen: Seq<Seq<char>>, name: Seq<char>, s: StatementView)
    ensures
        ({
            let later = match s {
                StatementView::Assignment(a) => if checks::assigns_directly(a.operator) {
                    checks::with_name(seen, a.name)
                } else {
                    seen
                },
                _ => seen,
            };
            later.contains(name) <==> seen.contains(name) || sets(s, name)
        }),
{
    if let StatementView::Assignment(a) = s {
        lemma_pushed_contains(seen, a.name, name);
    }
}

pub proof fn lemma_pushed_contains(seen: Seq<Seq<char>>, one: Seq<char>, name: Seq<char>)
    ensures
        seen.push(one).contains(name) <==> seen.contains(name) || one == name,
        checks::with_name(seen, one).contains(name) <==> seen.contains(name) || one == name,
{
    let all = seen.push(one);
    if seen.contains(name) {
        let i = choose|i: int| 0 <= i < seen.len() && seen[i] == name;
        assert(all[i] == name);
    }
    if one == name {
        assert(all[seen.len() as int] == name);
    }
    if all.contains(name) && one != name {
        let i = choose|i: int| 0 <= i < all.len() && all[i] == name;
        assert(seen[i] == name);
    }
}

// ---------------------------------------------------------------------------
// Functions and directives
// ---------------------------------------------------------------------------
spec fn function_speaks(
    s: Seq<StatementView>,
    k: int,
    seen: Seq<Seq<char>>,
    j: int,
    rule: usize,
    at: int,
) -> bool {
    rule == RULE_DUPLICATE_FUNCTION && k <= j < s.len() && (s[j] matches StatementView::Function(f)
        && f.name is Some && f.name_at == at && (seen.contains(f.name->0) || declared_between(
        s,
        k,
        j,
        f.name->0,
    )))
}

spec fn declared_between(s: Seq<StatementView>, k: int, j: int, name: Seq<char>) -> bool {
    exists|i: int| k <= i < j && declares(#[trigger] s[i], name)
}

proof fn lemma_functions(
    s: Seq<StatementView>,
    k: int,
    seen: Seq<Seq<char>>,
    rule: usize,
    at: int,
)
    requires
        0 <= k <= s.len(),
    ensures
        found_at(checks::functions_from(s, k, seen), rule, at) <==> exists|j: int| #[trigger]
            function_speaks(s, k, seen, j, rule, at),
    decreases s.len() - k,
{
    let all = checks::functions_from(s, k, seen);
    if k < s.len() {
        let (first, later) = match s[k] {
            StatementView::Function(f) => match f.name {
                Some(name) => if seen.contains(name) {
                    (seq![all[0]], seen)
                } else {
                    (Seq::empty(), seen.push(name))
                },
                None => (Seq::empty(), seen),
            },
            _ => (Seq::empty(), seen),
        };
        let rest = checks::functions_from(s, k + 1, later);
        lemma_functions(s, k + 1, later, rule, at);
        assert(all =~= first + rest);
        lemma_found_add(first, rest, rule, at);
        assert(found_at(first, rule, at) <==> function_speaks(s, k, seen, k, rule, at)) by {
            if first.len() > 0 {
                lemma_found_one(all[0], rule, at);
            }
            if let StatementView::Function(f) = s[k] {
                if f.name is Some {
                    assert(!declared_between(s, k, k, f.name->0));
                }
            }
        }
        assert forall|j: int| j != k implies (#[trigger] function_speaks(s, k, seen, j, rule, at)
            <==> function_speaks(s, k + 1, later, j, rule, at)) by {
            if k < j < s.len() {
                if let StatementView::Function(f) = s[j] {
                    if let Some(name) = f.name {
                        assert(declared_between(s, k, j, name) <==> declares(s[k], name)
                            || declared_between(s, k + 1, j, name)) by {
                            if declared_between(s, k, j, name) {
                                let i = choose|i: int| k <= i < j && declares(#[trigger] s[i], name);
                                if i > k {
                                    assert(k + 1 <= i < j && declares(s[i], name));
                                }
                            }
                        }
                        assert(later.contains(name) || declares(s[k], name) <==> seen.contains(name)
                            || declares(s[k], name)) by {
                            if let StatementView::Function(g) = s[k] {
                                if let Some(own) = g.name {
                                    lemma_pushed_contains(seen, own, name);
                                }
                            }
                        }
                        assert(declares(s[k], name) ==> later.contains(name)) by {
                            lemma_pushed_contains(seen, name, name);
                        }
                    }
                }
            }
        }
        if exists|j: int| #[trigger] function_speaks(s, k, seen, j, rule, at) {
            let j = choose|j: int| #[trigger] function_speaks(s, k, seen, j, rule, at);
            if j != k {
                assert(function_speaks(s, k + 1, later, j, rule, at));
            }
        }
        if exists|j: int| #[trigger] function_speaks(s, k + 1, later, j, rule, at) {
            let j = choose|j: int| #[trigger] function_speaks(s, k + 1, later, j, rule, at);
            assert(j != k);
            assert(function_speaks(s, k, seen, j, rule, at));
        }
    }
}

spec fn empty_speaks(s: Seq<StatementView>, k: int, j: int, at: int) -> bool {
    k <= j < s.len() && without_target(s[j], at)
}

pub proof fn lemma_blank(t: Seq<char>)
    ensures
        text::trimmed(t, CharClass::Whitespace).len() == 0 <==> forall|k: int|
            0 <= k < t.len() ==> text::is_ws(#[trigger] t[k]),
{
    let i = text::lead_from(t, CharClass::Whitespace, 0);
    text::lemma_lead(t, CharClass::Whitespace, 0);
    let rest = t.skip(i);
    text::lemma_tail(rest, CharClass::Whitespace, rest.len() as int);
    if i < t.len() {
        assert(rest[0] == t[i]);
        assert(!text::is_ws(t[i]));
        let e = text::tail_from(rest, CharClass::Whitespace, rest.len() as int);
        if e == 0 {
            assert(text::in_class(CharClass::Whitespace, rest[0]));
        }
    } else {
        assert forall|k: int| 0 <= k < t.len() implies text::is_ws(#[trigger] t[k]) by {
            assert(text::in_class(CharClass::Whitespace, t[k]));
        }
    }
}

proof fn lemma_empty(s: Seq<StatementView>, k: int, rule: usize, at: int)
    requires
        0 <= k <= s.len(),
    ensures
        found_at(checks::empty_from(s, k), rule, at) <==> rule == RULE_EMPTY_DIRECTIVE && exists|
            j: int,
        | #[trigger]
            empty_speaks(s, k, j, at),
    decreases s.len() - k,
{
    let all = checks::empty_from(s, k);
    if k < s.len() {
        let rest = checks::empty_from(s, k + 1);
        lemma_empty(s, k + 1, rule, at);
        if let StatementView::Directive(d) = s[k] {
            let code = checks::argument_code(d);
            syntax::lemma_code_end(d.arguments);
            lemma_blank(code);
            let blank = forall|i: int|
                0 <= i < scanner::code_end(d.arguments) && i < d.arguments.len() ==> text::is_ws(
                    #[trigger] d.arguments[i],
                );
            assert(blank <==> forall|i: int| 0 <= i < code.len() ==> text::is_ws(#[trigger] code[i]))
                by {
                if blank {
                    assert forall|i: int| 0 <= i < code.len() implies text::is_ws(#[trigger] code[i]) by {
                        assert(code[i] == d.arguments[i]);
                    }
                }
                if forall|i: int| 0 <= i < code.len() ==> text::is_ws(#[trigger] code[i]) {
                    assert forall|i: int|
                        0 <= i < scanner::code_end(d.arguments) && i < d.arguments.len()
                            implies text::is_ws(#[trigger] d.arguments[i]) by {
                        assert(code[i] == d.arguments[i]);
                    }
                }
            }
            if checks::names_metadata(d.keyword) && blank {
                assert(all =~= seq![all[0]] + rest);
                lemma_found_add(seq![all[0]], rest, rule, at);
                lemma_found_one(all[0], rule, at);
            }
        }
        assert(found_at(all, rule, at) <==> found_at(rest, rule, at) || (rule
            == RULE_EMPTY_DIRECTIVE && empty_speaks(s, k, k, at)));
        if exists|j: int| #[trigger] empty_speaks(s, k, j, at) {
            let j = choose|j: int| #[trigger] empty_speaks(s, k, j, at);
            if j != k {
                assert(empty_speaks(s, k + 1, j, at));
            }
        }
        if exists|j: int| #[trigger] empty_speaks(s, k + 1, j, at) {
            let j = choose|j: int| #[trigger] empty_speaks(s, k + 1, j, at);
            assert(empty_speaks(s, k, j, at));
        }
    }
}

spec fn class_speaks(
    words: Seq<(int, Seq<char>)>,
    k: int,
    seen: Seq<Seq<char>>,
    i: int,
    at: int,
) -> bool {
    k <= i < words.len() && words[i].0 == at && (seen.contains(words[i].1) || word_between(
        words,
        k,
        i,
        words[i].1,
    ))
}

pub open spec fn word_between(words: Seq<(int, Seq<char>)>, k: int, i: int, word: Seq<char>) -> bool {
    exists|j: int| k <= j < i && (#[trigger] words[j]).1 == word
}

proof fn lemma_classes(
    words: Seq<(int, Seq<char>)>,
    k: int,
    seen: Seq<Seq<char>>,
    rule: usize,
    at: int,
)
    requires
        0 <= k <= words.len(),
    ensures
        found_at(checks::classes_from(words, k, seen), rule, at) <==> rule == RULE_DUPLICATE_INHERIT
            && exists|i: int| #[trigger] class_speaks(words, k, seen, i, at),
    decreases words.len() - k,
{
    let all = checks::classes_from(words, k, seen);
    if k < words.len() {
        let own = words[k].1;
        let again = seen.contains(own);
        let later = if again {
            seen
        } else {
            seen.push(own)
        };
        let rest = checks::classes_from(words, k + 1, later);
        lemma_classes(words, k + 1, later, rule, at);
        if again {
            assert(all =~= seq![all[0]] + rest);
            lemma_found_add(seq![all[0]], rest, rule, at);
            lemma_found_one(all[0], rule, at);
        }
        assert(!word_between(words, k, k, own));
        assert(class_speaks(words, k, seen, k, at) <==> again && words[k].0 == at);
        assert forall|i: int| i != k implies (#[trigger] class_speaks(words, k, seen, i, at)
            <==> class_speaks(words, k + 1, later, i, at)) by {
            if k < i < words.len() {
                let w = words[i].1;
                lemma_pushed_contains(seen, own, w);
                assert(word_between(words, k, i, w) <==> own == w || word_between(
                    words,
                    k + 1,
                    i,
                    w,
                )) by {
                    if word_between(words, k, i, w) {
                        let j = choose|j: int| k <= j < i && (#[trigger] words[j]).1 == w;
                        if j > k {
                            assert(k + 1 <= j < i && words[j].1 == w);
                        }
                    }
                }
            }
        }
        if exists|i: int| #[trigger] class_speaks(words, k, seen, i, at) {
            let i = choose|i: int| #[trigger] class_speaks(words, k, seen, i, at);
            if i != k {
                assert(class_speaks(words, k + 1, later, i, at));
            }
        }
        if exists|i: int| #[trigger] class_speaks(words, k + 1, later, i, at) {
            let i = choose|i: int| #[trigger] class_speaks(words, k + 1, later, i, at);
            assert(i != k);
            assert(class_speaks(words, k, seen, i, at));
        }
    }
}

pub proof fn lemma_with_words(
    seen: Seq<Seq<char>>,
    words: Seq<(int, Seq<char>)>,
    k: int,
    name: Seq<char>,
)
    requires
        0 <= k <= words.len(),
    ensures
        checks::with_words(seen, words, k).contains(name) <==> seen.contains(name) || word_between(
            words,
            k,
            words.len() as int,
            name,
        ),
    decreases words.len() - k,
{
    let n = words.len() as int;
    if k < n {
        lemma_with_words(checks::with_name(seen, words[k].1), words, k + 1, name);
        lemma_pushed_contains(seen, words[k].1, name);
        if word_between(words, k, n, name) {
            let j = choose|j: int| k <= j < n && (#[trigger] words[j]).1 == name;
            if j > k {
                assert(k + 1 <= j < n && words[j].1 == name);
            }
        }
    }
}

spec fn inherits_class(s: StatementView, name: Seq<char>) -> bool {
    word_between(inherited(s), 0, inherited(s).len() as int, name)
}

spec fn inherited_between(s: Seq<StatementView>, k: int, j: int, name: Seq<char>) -> bool {
    exists|h: int| k <= h < j && inherits_class(#[trigger] s[h], name)
}

spec fn inherit_speaks(
    s: Seq<StatementView>,
    k: int,
    seen: Seq<Seq<char>>,
    j: int,
    i: int,
    at: int,
) -> bool {
    k <= j < s.len() && 0 <= i < inherited(s[j]).len() && inherited(s[j])[i].0 == at && (
    seen.contains(inherited(s[j])[i].1) || word_between(
        inherited(s[j]),
        0,
        i,
        inherited(s[j])[i].1,
    ) || inherited_between(s, k, j, inherited(s[j])[i].1))
}

proof fn lemma_inherits(
    s: Seq<StatementView>,
    k: int,
    seen: Seq<Seq<char>>,
    rule: usize,
    at: int,
)
    requires
        0 <= k <= s.len(),
    ensures
        found_at(checks::inherits_from(s, k, seen), rule, at) <==> rule == RULE_DUPLICATE_INHERIT
            && exists|j: int, i: int| #[trigger] inherit_speaks(s, k, seen, j, i, at),
    decreases s.len() - k,
{
    let all = checks::inherits_from(s, k, seen);
    if k < s.len() {
        let words = inherited(s[k]);
        let first = checks::classes_from(words, 0, seen);
        let later = checks::with_words(seen, words, 0);
        let rest = checks::inherits_from(s, k + 1, later);
        assert(all =~= first + rest) by {
            if words.len() == 0 {
                assert(first =~= Seq::empty());
                assert(later == seen);
            }
        }
        lemma_inherits(s, k + 1, later, rule, at);
        lemma_classes(words, 0, seen, rule, at);
        lemma_found_add(first, rest, rule, at);
        assert forall|i: int| #[trigger] inherit_speaks(s, k, seen, k, i, at) <==> class_speaks(
            words,
            0,
            seen,
            i,
            at,
        ) by {
            if 0 <= i < words.len() {
                assert(!inherited_between(s, k, k, words[i].1));
            }
        }
        assert forall|j: int, i: int| j != k implies (#[trigger] inherit_speaks(
            s,
            k,
            seen,
            j,
            i,
            at,
        ) <==> inherit_speaks(s, k + 1, later, j, i, at)) by {
            if k < j < s.len() && 0 <= i < inherited(s[j]).len() {
                let w = inherited(s[j])[i].1;
                lemma_with_words(seen, words, 0, w);
                assert(inherited_between(s, k, j, w) <==> inherits_class(s[k], w)
                    || inherited_between(s, k + 1, j, w)) by {
                    if inherited_between(s, k, j, w) {
                        let h = choose|h: int| k <= h < j && inherits_class(#[trigger] s[h], w);
                        if h > k {
                            assert(k + 1 <= h < j && inherits_class(s[h], w));
                        }
                    }
                }
            }
        }
        if exists|i: int| #[trigger] class_speaks(words, 0, seen, i, at) {
            let i = choose|i: int| #[trigger] class_speaks(words, 0, seen, i, at);
            assert(inherit_speaks(s, k, seen, k, i, at));
        }
        if exists|j: int, i: int| #[trigger] inherit_speaks(s, k, seen, j, i, at) {
            let (j, i) = choose|j: int, i: int| #[trigger] inherit_speaks(s, k, seen, j, i, at);
            if j != k {
                assert(inherit_speaks(s, k + 1, later, j, i, at));
            } else {
                assert(class_speaks(words, 0, seen, i, at));
            }
        }
        if exists|j: int, i: int| #[trigger] inherit_speaks(s, k + 1, later, j, i, at) {
            let (j, i) = choose|j: int, i: int| #[trigger]
                inherit_speaks(s, k + 1, later, j, i, at);
            assert(j != k);
            assert(inherit_speaks(s, k, seen, j, i, at));
        }
    }
}

// ---------------------------------------------------------------------------
// Bodies and lines
// ---------------------------------------------------------------------------
proof fn lemma_body_findings(
    body: Seq<char>,
    from: int,
    items: Seq<BodyDiagnostic>,
    k: int,
    rule: usize,
    at: int,
)
    requires
        0 <= k <= items.len(),
        rule <= RULE_FINAL_NEWLINE || rule == RULE_SUMMARY_LENGTH || rule == RULE_AUTOREV || rule
            == RULE_DUPLICATE_INHERIT || rule == RULE_FILE_PATHS_IMMEDIATE || rule
            == RULE_GIT_URI_PROTOCOL || rule == RULE_DUPLICATE_ASSIGNMENT || rule
            == RULE_DUPLICATE_FUNCTION || rule == RULE_EMPTY_DIRECTIVE,
    ensures
        !found_at(checks::body_findings_from(body, from, items, k), rule, at),
    decreases items.len() - k,
{
    if k < items.len() {
        lemma_body_findings(body, from, items, k + 1, rule, at);
        let f = checks::body_finding(body, from, items[k]);
        lemma_found_one(f, rule, at);
        lemma_found_add(
            seq![f],
            checks::body_findings_from(body, from, items, k + 1),
            rule,
            at,
        );
    }
}

proof fn lemma_bodies(
    source: Seq<char>,
    s: Seq<StatementView>,
    bodies: Seq<Vec<BodyDiagnostic>>,
    k: int,
    rule: usize,
    at: int,
)
    requires
        0 <= k <= s.len(),
        rule <= RULE_FINAL_NEWLINE || rule == RULE_SUMMARY_LENGTH || rule == RULE_AUTOREV || rule
            == RULE_DUPLICATE_INHERIT || rule == RULE_FILE_PATHS_IMMEDIATE || rule
            == RULE_GIT_URI_PROTOCOL || rule == RULE_DUPLICATE_ASSIGNMENT || rule
            == RULE_DUPLICATE_FUNCTION || rule == RULE_EMPTY_DIRECTIVE,
    ensures
        !found_at(checks::bodies_from(source, s, bodies, k), rule, at),
    decreases s.len() - k,
{
    if k < s.len() && k < bodies.len() {
        lemma_bodies(source, s, bodies, k + 1, rule, at);
        if let Some((a, b)) = checks::body_of(s[k]) {
            let body = source.subrange(a, b);
            lemma_body_findings(body, a, bodies[k]@, 0, rule, at);
            lemma_found_add(
                checks::body_findings_from(body, a, bodies[k]@, 0),
                checks::bodies_from(source, s, bodies, k + 1),
                rule,
                at,
            );
        }
    }
}

/// Blanks end the line that starts at `i` from `at` on if and only if they are
/// what the line has behind its last visible character.
proof fn lemma_line_blanks(t: Seq<char>, i: int, at: int)
    requires
        0 <= i < t.len(),
        i == 0 || t[i - 1] == '\n',
        i <= at < text::line_end(t, i),
    ensures
        ({
            let line = t.subrange(i, text::line_end(t, i));
            (exists|e: int| #[trigger] blanks_end_line(t, at, e)) <==> at == i + checks::unblanked(
                line,
            ) && checks::unblanked(line) != text::content_len(line)
        }),
{
    text::lemma_line_end(t, i);
    let end = text::line_end(t, i);
    let line = t.subrange(i, end);
    let n = text::content_len(line);
    let content = text::line_content(line);
    let u = checks::unblanked(line);
    text::lemma_tail(content, CharClass::Indent, n);
    assert forall|k: int| 0 <= k < n implies #[trigger] content[k] == t[i + k] by {}
    assert forall|k: int| i <= k < end - 1 implies #[trigger] t[k] != '\n' by {}
    assert(line[line.len() - 1] == t[end - 1]);
    if line.len() >= 2 {
        assert(line[line.len() - 2] == t[end - 2]);
    }
    if u != n && at == i + u {
        assert(blanks_end_line(t, at, i + n)) by {
            assert forall|k: int| at <= k < i + n implies (#[trigger] t[k]) == ' ' || t[k] == '\t' by {
                assert(content[k - i] == t[k]);
                assert(text::in_class(CharClass::Indent, content[k - i]));
            }
            if u > 0 {
                assert(content[u - 1] == t[at - 1]);
                assert(!text::in_class(CharClass::Indent, content[u - 1]));
            }
            if i + n < t.len() {
                if n == line.len() {
                    assert(t[end - 1] == '\n');
                    assert(false);
                }
                assert(t[i + n] == line[n]);
                if n + 2 == line.len() {
                    assert(t[i + n + 1] == line[n + 1]);
                }
            }
        }
    }
    if exists|e: int| #[trigger] blanks_end_line(t, at, e) {
        let e = choose|e: int| #[trigger] blanks_end_line(t, at, e);
        assert(e <= end) by {
            if e > end {
                assert(t[end - 1] == ' ' || t[end - 1] == '\t');
                assert(t[end - 1] == '\n');
            }
        }
        assert(t[e - 1] == ' ' || t[e - 1] == '\t');
        assert(e == i + n) by {
            if e == end {
                if t[end - 1] == '\n' {
                    assert(false);
                }
            } else if t[e] == '\n' {
                if e < end - 1 {
                    assert(t[e] != '\n');
                }
            } else {
                if e + 1 < end - 1 {
                    assert(t[e + 1] != '\n');
                }
                assert(e + 2 == end);
            }
        }
        assert forall|k: int| at - i <= k < n implies text::in_class(
            CharClass::Indent,
            #[trigger] content[k],
        ) by {
            assert(content[k] == t[i + k]);
        }
        if at > i {
            assert(content[at - i - 1] == t[at - 1]);
        }
        text::lemma_tail_unique(content, CharClass::Indent, at - i, n);
    }
}

proof fn lemma_trailing(t: Seq<char>, i: int, rule: usize, at: int)
    requires
        0 <= i <= t.len(),
        i == 0 || i == t.len() || t[i - 1] == '\n',
    ensures
        found_at(checks::trailing_from(t, i), rule, at) <==> rule == RULE_TRAILING_WHITESPACE && i
            <= at && exists|e: int| #[trigger] blanks_end_line(t, at, e),
    decreases t.len() - i,
{
    text::lemma_line_end(t, i);
    let end = text::line_end(t, i);
    if i < t.len() {
        let line = t.subrange(i, end);
        let rest = checks::trailing_from(t, end);
        lemma_trailing(t, end, rule, at);
        let f = checks::trailing_finding(
            i + checks::unblanked(line),
            i + text::content_len(line),
        );
        lemma_found_one(f, rule, at);
        lemma_found_add(seq![f], rest, rule, at);
        text::lemma_tail(
            text::line_content(line),
            CharClass::Indent,
            text::content_len(line),
        );
        if i <= at < end {
            lemma_line_blanks(t, i, at);
        }
    } else if exists|e: int| #[trigger] blanks_end_line(t, at, e) {
        let e = choose|e: int| #[trigger] blanks_end_line(t, at, e);
        assert(at < t.len());
    }
}

// ---------------------------------------------------------------------------
// The laws
// ---------------------------------------------------------------------------
proof fn lemma_file_parts(
    source: Seq<char>,
    bodies: Seq<Vec<BodyDiagnostic>>,
    rule: usize,
    at: int,
)
    requires
        rule <= RULE_FINAL_NEWLINE || rule == RULE_SUMMARY_LENGTH || rule == RULE_AUTOREV || rule
            == RULE_DUPLICATE_INHERIT || rule == RULE_FILE_PATHS_IMMEDIATE || rule
            == RULE_GIT_URI_PROTOCOL || rule == RULE_DUPLICATE_ASSIGNMENT || rule
            == RULE_DUPLICATE_FUNCTION || rule == RULE_EMPTY_DIRECTIVE,
    ensures
        ({
            let s = statements::statements_of(source);
            found_at(checks::file_findings(source, bodies), rule, at) <==> {
                ||| found_at(checks::trailing_from(source, 0), rule, at)
                ||| found_at(checks::final_newline(source), rule, at)
                ||| found_at(checks::assignments_from(s, 0, Seq::empty()), rule, at)
                ||| found_at(checks::functions_from(s, 0, Seq::empty()), rule, at)
                ||| found_at(checks::empty_from(s, 0), rule, at)
                ||| found_at(checks::inherits_from(s, 0, Seq::empty()), rule, at)
            }
        }),
{
    let s = statements::statements_of(source);
    let p1 = checks::trailing_from(source, 0);
    let p2 = checks::final_newline(source);
    let p3 = checks::assignments_from(s, 0, Seq::empty());
    let p4 = checks::functions_from(s, 0, Seq::empty());
    let p5 = checks::bodies_from(source, s, bodies, 0);
    let p6 = checks::empty_from(s, 0);
    let p7 = checks::inherits_from(s, 0, Seq::empty());
    lemma_bodies(source, s, bodies, 0, rule, at);
    lemma_found_add(p1 + p2 + p3 + p4 + p5 + p6, p7, rule, at);
    lemma_found_add(p1 + p2 + p3 + p4 + p5, p6, rule, at);
    lemma_found_add(p1 + p2 + p3 + p4, p5, rule, at);
    lemma_found_add(p1 + p2 + p3, p4, rule, at);
    lemma_found_add(p1 + p2, p3, rule, at);
    lemma_found_add(p1, p2, rule, at);
}

proof fn lemma_file_found(
    source: Seq<char>,
    bodies: Seq<Vec<BodyDiagnostic>>,
    rule: usize,
    at: int,
)
    requires
        rule <= RULE_FINAL_NEWLINE || rule == RULE_SUMMARY_LENGTH || rule == RULE_AUTOREV || rule
            == RULE_DUPLICATE_INHERIT || rule == RULE_FILE_PATHS_IMMEDIATE || rule
            == RULE_GIT_URI_PROTOCOL || rule == RULE_DUPLICATE_ASSIGNMENT || rule
            == RULE_DUPLICATE_FUNCTION || rule == RULE_EMPTY_DIRECTIVE,
    ensures
        ({
            let s = statements::statements_of(source);
            found_at(checks::file_findings(source, bodies), rule, at) <==> {
                ||| rule == RULE_TRAILING_WHITESPACE && 0 <= at && exists|e: int| #[trigger]
                    blanks_end_line(source, at, e)
                ||| rule == RULE_FINAL_NEWLINE && source.len() > 0 && source.last() != '\n' && at
                    == source.len()
                ||| exists|j: int| #[trigger] assignment_speaks(s, 0, Seq::empty(), j, rule, at)
                ||| exists|j: int| #[trigger] function_speaks(s, 0, Seq::empty(), j, rule, at)
                ||| rule == RULE_EMPTY_DIRECTIVE && exists|j: int| #[trigger]
                    empty_speaks(s, 0, j, at)
                ||| rule == RULE_DUPLICATE_INHERIT && exists|j: int, i: int| #[trigger]
                    inherit_speaks(s, 0, Seq::empty(), j, i, at)
            }
        }),
{
    let s = statements::statements_of(source);
    lemma_file_parts(source, bodies, rule, at);
    lemma_trailing(source, 0, rule, at);
    lemma_assignments(s, 0, Seq::empty(), rule, at);
    lemma_functions(s, 0, Seq::empty(), rule, at);
    lemma_empty(s, 0, rule, at);
    lemma_inherits(s, 0, Seq::empty(), rule, at);
    let newline = checks::final_newline(source);
    if newline.len() > 0 {
        lemma_found_one(newline[0], rule, at);
        assert(newline =~= seq![newline[0]]);
    }
}

/// What an assignment is told, rule by rule.
proof fn lemma_assignment_found(s: Seq<StatementView>, j: int, rule: usize, at: int)
    requires
        0 <= j < s.len(),
        s[j] is Assignment,
    ensures
        assignment_speaks(s, 0, Seq::empty(), j, rule, at) <==> {
            ||| rule == RULE_SUMMARY_LENGTH && long_summary(s[j], at)
            ||| rule == RULE_AUTOREV && floating_revision(s[j], at)
            ||| rule == RULE_FILE_PATHS_IMMEDIATE && late_paths(s[j], at)
            ||| rule == RULE_GIT_URI_PROTOCOL && exists|i: int| #[trigger]
                without_protocol(s[j], i, at)
            ||| rule == RULE_DUPLICATE_ASSIGNMENT && exists|h: int| #[trigger]
                set_again(s, h, j, at)
        },
{
    let a = s[j]->Assignment_0;
    lemma_summary(a, rule, at);
    lemma_autorev(a, rule, at);
    lemma_file_paths(a, rule, at);
    lemma_protocol(a, rule, at);
    assert(sets(s[j], a.name) && set_between(s, 0, j, a.name) && a.name_at == at <==> exists|h: int| #[trigger]
        set_again(s, h, j, at)) by {
        if sets(s[j], a.name) && set_between(s, 0, j, a.name) && a.name_at == at {
            let h = choose|h: int| 0 <= h < j && sets(#[trigger] s[h], a.name);
            assert(set_again(s, h, j, at));
        }
        if exists|h: int| #[trigger] set_again(s, h, j, at) {
            let h = choose|h: int| #[trigger] set_again(s, h, j, at);
            assert(sets(s[h], a.name));
        }
    }
}

/// When the rules on lines speak: the one on trailing white space at every run
/// of blanks that ends a line, and the one on the final newline at the end of a
/// text that is not empty and does not end in a line feed.
pub proof fn law_line_rules(source: Seq<char>, bodies: Seq<Vec<BodyDiagnostic>>, at: int)
    ensures
        ({
            let found = checks::file_findings(source, bodies);
            &&& found_at(found, RULE_TRAILING_WHITESPACE, at) <==> exists|e: int| #[trigger]
                blanks_end_line(source, at, e)
            &&& found_at(found, RULE_FINAL_NEWLINE, at) <==> source.len() > 0 && source.last()
                != '\n' && at == source.len()
        }),
{
    lemma_file_found(source, bodies, RULE_TRAILING_WHITESPACE, at);
    lemma_file_found(source, bodies, RULE_FINAL_NEWLINE, at);
    let s = statements::statements_of(source);
    assert forall|j: int| !(#[trigger] assignment_speaks(
        s,
        0,
        Seq::empty(),
        j,
        RULE_TRAILING_WHITESPACE,
        at,
    )) by {
        if 0 <= j < s.len() && s[j] is Assignment {
            lemma_assignment_found(s, j, RULE_TRAILING_WHITESPACE, at);
        }
    }
    assert forall|j: int| !(#[trigger] assignment_speaks(
        s,
        0,
        Seq::empty(),
        j,
        RULE_FINAL_NEWLINE,
        at,
    )) by {
        if 0 <= j < s.len() && s[j] is Assignment {
            lemma_assignment_found(s, j, RULE_FINAL_NEWLINE, at);
        }
    }
}

/// When the rules on assignments speak: on a `SUMMARY` written out in more than
/// 80 characters, on a `SRCREV` whose value holds `${AUTOREV}`, on search paths
/// that are not assigned with `:=`, and on a Git address without a protocol.
pub proof fn law_assignment_rules(source: Seq<char>, bodies: Seq<Vec<BodyDiagnostic>>, at: int)
    ensures
        ({
            let s = statements::statements_of(source);
            let found = checks::file_findings(source, bodies);
            &&& found_at(found, RULE_SUMMARY_LENGTH, at) <==> exists|k: int|
                0 <= k < s.len() && #[trigger] long_summary(s[k], at)
            &&& found_at(found, RULE_AUTOREV, at) <==> exists|k: int|
                0 <= k < s.len() && #[trigger] floating_revision(s[k], at)
            &&& found_at(found, RULE_FILE_PATHS_IMMEDIATE, at) <==> exists|k: int|
                0 <= k < s.len() && #[trigger] late_paths(s[k], at)
            &&& found_at(found, RULE_GIT_URI_PROTOCOL, at) <==> exists|k: int, i: int|
                0 <= k < s.len() && #[trigger] without_protocol(s[k], i, at)
        }),
{
    let s = statements::statements_of(source);
    let none = Seq::<Seq<char>>::empty();
    lemma_file_found(source, bodies, RULE_SUMMARY_LENGTH, at);
    lemma_file_found(source, bodies, RULE_AUTOREV, at);
    lemma_file_found(source, bodies, RULE_FILE_PATHS_IMMEDIATE, at);
    lemma_file_found(source, bodies, RULE_GIT_URI_PROTOCOL, at);
    assert forall|j: int, rule: usize| 0 <= j < s.len() && s[j] is Assignment implies (
    #[trigger] assignment_speaks(s, 0, none, j, rule, at) <==> {
        ||| rule == RULE_SUMMARY_LENGTH && long_summary(s[j], at)
        ||| rule == RULE_AUTOREV && floating_revision(s[j], at)
        ||| rule == RULE_FILE_PATHS_IMMEDIATE && late_paths(s[j], at)
        ||| rule == RULE_GIT_URI_PROTOCOL && exists|i: int| #[trigger] without_protocol(s[j], i, at)
        ||| rule == RULE_DUPLICATE_ASSIGNMENT && exists|h: int| #[trigger] set_again(s, h, j, at)
    }) by {
        lemma_assignment_found(s, j, rule, at);
    }
    if exists|k: int| 0 <= k < s.len() && #[trigger] long_summary(s[k], at) {
        let k = choose|k: int| 0 <= k < s.len() && #[trigger] long_summary(s[k], at);
        assert(assignment_speaks(s, 0, none, k, RULE_SUMMARY_LENGTH, at));
    }
    if exists|k: int| 0 <= k < s.len() && #[trigger] floating_revision(s[k], at) {
        let k = choose|k: int| 0 <= k < s.len() && #[trigger] floating_revision(s[k], at);
        assert(assignment_speaks(s, 0, none, k, RULE_AUTOREV, at));
    }
    if exists|k: int| 0 <= k < s.len() && #[trigger] late_paths(s[k], at) {
        let k = choose|k: int| 0 <= k < s.len() && #[trigger] late_paths(s[k], at);
        assert(assignment_speaks(s, 0, none, k, RULE_FILE_PATHS_IMMEDIATE, at));
    }
    if exists|k: int, i: int| 0 <= k < s.len() && #[trigger] without_protocol(s[k], i, at) {
        let (k, i) = choose|k: int, i: int|
            0 <= k < s.len() && #[trigger] without_protocol(s[k], i, at);
        assert(assignment_speaks(s, 0, none, k, RULE_GIT_URI_PROTOCOL, at));
    }
}

/// When the rules on repetition and on empty directives speak: on a variable
/// that an earlier `=` or `:=` set and that is set so again, on a function that
/// was declared before, on a class that was inherited before, and on a directive
/// that names nothing before its comment.
pub proof fn law_repetition_rules(source: Seq<char>, bodies: Seq<Vec<BodyDiagnostic>>, at: int)
    ensures
        ({
            let s = statements::statements_of(source);
            let found = checks::file_findings(source, bodies);
            &&& found_at(found, RULE_DUPLICATE_ASSIGNMENT, at) <==> exists|j: int, k: int| #[trigger]
                set_again(s, j, k, at)
            &&& found_at(found, RULE_DUPLICATE_FUNCTION, at) <==> exists|j: int, k: int| #[trigger]
                declared_again(s, j, k, at)
            &&& found_at(found, RULE_EMPTY_DIRECTIVE, at) <==> exists|k: int|
                0 <= k < s.len() && #[trigger] without_target(s[k], at)
            &&& found_at(found, RULE_DUPLICATE_INHERIT, at) <==> exists|
                h: int,
                j: int,
                k: int,
                i: int,
            | #[trigger]
                inherited_again(s, h, j, k, i, at)
        }),
{
    let s = statements::statements_of(source);
    let none = Seq::<Seq<char>>::empty();
    lemma_file_found(source, bodies, RULE_DUPLICATE_ASSIGNMENT, at);
    lemma_file_found(source, bodies, RULE_DUPLICATE_FUNCTION, at);
    lemma_file_found(source, bodies, RULE_EMPTY_DIRECTIVE, at);
    lemma_file_found(source, bodies, RULE_DUPLICATE_INHERIT, at);
    assert forall|j: int, rule: usize| 0 <= j < s.len() && s[j] is Assignment implies (
    #[trigger] assignment_speaks(s, 0, none, j, rule, at) <==> {
        ||| rule == RULE_SUMMARY_LENGTH && long_summary(s[j], at)
        ||| rule == RULE_AUTOREV && floating_revision(s[j], at)
        ||| rule == RULE_FILE_PATHS_IMMEDIATE && late_paths(s[j], at)
        ||| rule == RULE_GIT_URI_PROTOCOL && exists|i: int| #[trigger] without_protocol(s[j], i, at)
        ||| rule == RULE_DUPLICATE_ASSIGNMENT && exists|h: int| #[trigger] set_again(s, h, j, at)
    }) by {
        lemma_assignment_found(s, j, rule, at);
    }
    if exists|j: int, k: int| #[trigger] set_again(s, j, k, at) {
        let (j, k) = choose|j: int, k: int| #[trigger] set_again(s, j, k, at);
        assert(assignment_speaks(s, 0, none, k, RULE_DUPLICATE_ASSIGNMENT, at));
    }
    // Functions.
    if exists|j: int, k: int| #[trigger] declared_again(s, j, k, at) {
        let (j, k) = choose|j: int, k: int| #[trigger] declared_again(s, j, k, at);
        let name = s[k]->Function_0.name->0;
        assert(0 <= j < k && declares(s[j], name));
        assert(declared_between(s, 0, k, name));
        assert(function_speaks(s, 0, none, k, RULE_DUPLICATE_FUNCTION, at));
    }
    if exists|k: int| #[trigger] function_speaks(s, 0, none, k, RULE_DUPLICATE_FUNCTION, at) {
        let k = choose|k: int| #[trigger] function_speaks(s, 0, none, k, RULE_DUPLICATE_FUNCTION, at);
        let name = s[k]->Function_0.name->0;
        let j = choose|j: int| 0 <= j < k && declares(#[trigger] s[j], name);
        assert(declared_again(s, j, k, at));
    }
    // Directives.
    if exists|k: int| 0 <= k < s.len() && #[trigger] without_target(s[k], at) {
        let k = choose|k: int| 0 <= k < s.len() && #[trigger] without_target(s[k], at);
        assert(empty_speaks(s, 0, k, at));
    }
    if exists|k: int| #[trigger] empty_speaks(s, 0, k, at) {
        let k = choose|k: int| #[trigger] empty_speaks(s, 0, k, at);
        assert(without_target(s[k], at));
    }
    // Classes.
    if exists|h: int, j: int, k: int, i: int| #[trigger] inherited_again(s, h, j, k, i, at) {
        let (h, j, k, i) = choose|h: int, j: int, k: int, i: int| #[trigger]
            inherited_again(s, h, j, k, i, at);
        let w = inherited(s[k])[i].1;
        assert(inherited(s[h])[j].1 == w);
        if h < k {
            assert(inherits_class(s[h], w));
            assert(inherited_between(s, 0, k, w));
        } else {
            assert(word_between(inherited(s[k]), 0, i, w));
        }
        assert(inherit_speaks(s, 0, none, k, i, at));
    }
    if exists|k: int, i: int| #[trigger] inherit_speaks(s, 0, none, k, i, at) {
        let (k, i) = choose|k: int, i: int| #[trigger] inherit_speaks(s, 0, none, k, i, at);
        let w = inherited(s[k])[i].1;
        if word_between(inherited(s[k]), 0, i, w) {
            let j = choose|j: int| 0 <= j < i && (#[trigger] inherited(s[k])[j]).1 == w;
            assert(inherited_again(s, k, j, k, i, at));
        } else {
            let h = choose|h: int| 0 <= h < k && inherits_class(#[trigger] s[h], w);
            let j = choose|j: int|
                0 <= j < inherited(s[h]).len() && (#[trigger] inherited(s[h])[j]).1 == w;
            assert(inherited_again(s, h, j, k, i, at));
        }
    }
}

} // verus!
