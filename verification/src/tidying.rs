//! A text whose lines lose the blanks at their ends can still be read.
use crate::checks;
use crate::fixes;
use crate::formatter;
use crate::lint;
use crate::operator;
use crate::reparse;
use crate::rules;
use crate::scanner;
use crate::selection;
use crate::syntax;
use crate::text;
use crate::checks::BodyDiagnostic;
use crate::lint::LintFixErrorView;
use crate::operator::AssignmentOperator;
use crate::text::CharClass;
use vstd::prelude::*;

verus! {

// ---------------------------------------------------------------------------
// Lines
// ---------------------------------------------------------------------------
/// A text without braces and carriage returns.
pub open spec fn simple(t: Seq<char>) -> bool {
    forall|k: int| 0 <= k < t.len() ==> #[trigger] t[k] != '{' && t[k] != '\r'
}

/// A line without the blanks at its end, ended by a newline.
spec fn clean_line(line: Seq<char>) -> Seq<char> {
    line.take(checks::unblanked(line)).push('\n')
}

/// The lines of `t[i..]` without the blanks at their ends, each ended by a
/// newline.
spec fn clean(t: Seq<char>, i: int) -> Seq<char>
    decreases t.len() - i,
{
    let e = text::line_end(t, i);
    if 0 <= i < e <= t.len() {
        clean_line(t.subrange(i, e)) + clean(t, e)
    } else {
        Seq::empty()
    }
}

/// What a line and its clean form have in common.
proof fn lemma_clean_line(line: Seq<char>)
    requires
        line.len() > 0,
        simple(line),
        forall|k: int| 0 <= k < line.len() - 1 ==> #[trigger] line[k] != '\n',
    ensures
        ({
            let u = checks::unblanked(line);
            let c = text::content_len(line);
            let out = clean_line(line);
            &&& 0 <= u <= c <= line.len()
            &&& c == line.len() || c == line.len() - 1 && line.last() == '\n'
            &&& forall|k: int| u <= k < c ==> text::in_class(CharClass::Indent, #[trigger] line[k])
            &&& u > 0 ==> !text::in_class(CharClass::Indent, line[u - 1])
            &&& forall|k: int| 0 <= k < u ==> #[trigger] out[k] == line[k]
            &&& forall|k: int| 0 <= k < u ==> #[trigger] out[k] != '\n'
            &&& out.len() == u + 1
            &&& out[u] == '\n'
            &&& text::content_len(out) == u
            &&& text::line_content(out) == line.take(u)
            &&& text::line_content(line).take(u) == line.take(u)
            &&& simple(out)
        }),
{
    let u = checks::unblanked(line);
    let c = text::content_len(line);
    let content = text::line_content(line);
    text::lemma_tail(content, CharClass::Indent, c);
    let out = clean_line(line);
    assert forall|k: int| u <= k < c implies text::in_class(
        CharClass::Indent,
        #[trigger] line[k],
    ) by {
        assert(content[k] == line[k]);
    }
    if u > 0 {
        assert(content[u - 1] == line[u - 1]);
        assert(out[u - 1] == line[u - 1]);
    }
    assert forall|k: int| 0 <= k < u implies #[trigger] out[k] != '\n' by {
        assert(out[k] == line[k]);
        if k == line.len() - 1 {
            assert(c == line.len());
        }
    }
    assert(text::content_len(out) == u);
    assert(text::line_content(out) =~= line.take(u));
    assert(content.take(u) =~= line.take(u));
    assert forall|k: int| 0 <= k < out.len() implies #[trigger] out[k] != '{' && out[k] != '\r' by {
        if k < u {
            assert(out[k] == line[k]);
        }
    }
}

/// The first line of `t[i..]`, in the text and in its clean form.
proof fn lemma_clean_at(t: Seq<char>, i: int, out: Seq<char>, n: int)
    requires
        0 <= i < t.len(),
        simple(t),
        0 <= n <= out.len(),
        out.skip(n) == clean(t, i),
    ensures
        ({
            let e = text::line_end(t, i);
            let line = t.subrange(i, e);
            let m = n + clean_line(line).len();
            &&& i < e <= t.len()
            &&& e < t.len() ==> t[e - 1] == '\n'
            &&& line.len() > 0
            &&& simple(line)
            &&& forall|k: int| 0 <= k < line.len() - 1 ==> #[trigger] line[k] != '\n'
            &&& n < m <= out.len()
            &&& out.subrange(n, m) == clean_line(line)
            &&& text::line_end(out, n) == m
            &&& out.skip(m) == clean(t, e)
            &&& e == t.len() ==> m == out.len()
        }),
{
    text::lemma_line_end(t, i);
    let e = text::line_end(t, i);
    let line = t.subrange(i, e);
    assert forall|k: int| 0 <= k < line.len() implies #[trigger] line[k] != '{' && line[k] != '\r' by {
        assert(line[k] == t[i + k]);
    }
    assert forall|k: int| 0 <= k < line.len() - 1 implies #[trigger] line[k] != '\n' by {
        assert(line[k] == t[i + k]);
    }
    lemma_clean_line(line);
    let tidy = clean_line(line);
    let m = n + tidy.len();
    let rest = out.skip(n);
    assert(rest == tidy + clean(t, e));
    assert(rest.len() == out.len() - n);
    assert forall|k: int| 0 <= k < tidy.len() implies #[trigger] tidy[k] == out[n + k] by {
        assert(rest[k] == out[n + k]);
    }
    assert(out.subrange(n, m) =~= tidy);
    assert(out.skip(m) =~= clean(t, e)) by {
        assert(out.skip(m) =~= rest.skip(tidy.len() as int));
        assert((tidy + clean(t, e)).skip(tidy.len() as int) =~= clean(t, e));
    }
    assert(out[m - 1] == tidy[tidy.len() - 1]);
    assert forall|k: int| n <= k < m - 1 implies #[trigger] out[k] != '\n' by {
        assert(tidy[k - n] == out[k]);
    }
    text::lemma_line_end_unique(out, n, m);
    if e == t.len() {
        assert(clean(t, e) =~= Seq::empty());
        assert(out.skip(m).len() == 0);
    }
}

// ---------------------------------------------------------------------------
// Scans of a line
// ---------------------------------------------------------------------------
/// Blanks at the end of a line hold no comment.
proof fn lemma_comment_prefix(t: Seq<char>, u: int, i: int, quote: Option<char>, escaped: bool)
    requires
        0 <= i <= u <= t.len(),
        forall|k: int| u <= k < t.len() ==> text::in_class(CharClass::Indent, #[trigger] t[k]),
    ensures
        ({
            let k = scanner::comment_from(t, i, quote, escaped);
            let p = scanner::comment_from(t.take(u), i, quote, escaped);
            (k < u && p == k) || (k == t.len() && p == u)
        }),
    decreases u - i,
{
    if i < u {
        assert(t.take(u)[i] == t[i]);
        lemma_comment_prefix(t, u, i + 1, quote, false);
        lemma_comment_prefix(t, u, i + 1, quote, true);
        lemma_comment_prefix(t, u, i + 1, None, false);
        lemma_comment_prefix(t, u, i + 1, Some(t[i]), false);
    } else {
        lemma_comment_blank(t, u, quote, escaped);
    }
}

proof fn lemma_comment_blank(t: Seq<char>, i: int, quote: Option<char>, escaped: bool)
    requires
        0 <= i <= t.len(),
        forall|k: int| i <= k < t.len() ==> text::in_class(CharClass::Indent, #[trigger] t[k]),
    ensures
        scanner::comment_from(t, i, quote, escaped) == t.len(),
    decreases t.len() - i,
{
    if i < t.len() {
        assert(text::in_class(CharClass::Indent, t[i]));
        lemma_comment_blank(t, i + 1, quote, false);
        lemma_comment_blank(t, i + 1, None, false);
    }
}

/// Blanks at the end of a line hold no operator.
proof fn lemma_operator_prefix(t: Seq<char>, u: int, i: int, quote: Option<char>, escaped: bool)
    requires
        0 <= i <= u <= t.len(),
        forall|k: int| u <= k < t.len() ==> text::in_class(CharClass::Indent, #[trigger] t[k]),
    ensures
        scanner::operator_from(t, i, quote, escaped) == scanner::operator_from(
            t.take(u),
            i,
            quote,
            escaped,
        ),
    decreases u - i,
{
    if i < u {
        let p = t.take(u);
        assert(p[i] == t[i]);
        if i + 1 < u {
            assert(p[i + 1] == t[i + 1]);
        } else if i + 1 < t.len() {
            assert(text::in_class(CharClass::Indent, t[i + 1]));
        }
        if i + 2 < u {
            assert(p[i + 2] == t[i + 2]);
        } else if i + 2 < t.len() {
            assert(text::in_class(CharClass::Indent, t[i + 2]));
        }
        assert(operator::operator_at(p, i) == operator::operator_at(t, i));
        lemma_operator_prefix(t, u, i + 1, quote, false);
        lemma_operator_prefix(t, u, i + 1, quote, true);
        lemma_operator_prefix(t, u, i + 1, None, false);
        lemma_operator_prefix(t, u, i + 1, Some(t[i]), false);
    } else {
        lemma_operator_blank(t, u, quote, escaped);
    }
}

proof fn lemma_operator_blank(t: Seq<char>, i: int, quote: Option<char>, escaped: bool)
    requires
        0 <= i <= t.len(),
        forall|k: int| i <= k < t.len() ==> text::in_class(CharClass::Indent, #[trigger] t[k]),
    ensures
        scanner::operator_from(t, i, quote, escaped) is None,
    decreases t.len() - i,
{
    if i < t.len() {
        assert(text::in_class(CharClass::Indent, t[i]));
        lemma_operator_blank(t, i + 1, quote, false);
        lemma_operator_blank(t, i + 1, None, false);
    }
}

/// A line opens no function, starts a definition and is continued as its clean
/// form does.
#[verifier::spinoff_prover]
#[verifier::rlimit(60)]
proof fn lemma_line_kept(line: Seq<char>)
    requires
        line.len() > 0,
        simple(line),
        forall|k: int| 0 <= k < line.len() - 1 ==> #[trigger] line[k] != '\n',
    ensures
        scanner::function_head(line) is None,
        scanner::function_head(clean_line(line)) is None,
        scanner::python_def_start(clean_line(line)) == scanner::python_def_start(line),
        scanner::continued_line(clean_line(line)) == scanner::continued_line(line),
{
    lemma_clean_line(line);
    let out = clean_line(line);
    let u = checks::unblanked(line);
    let c = text::content_len(line);
    let content = text::line_content(line);
    let short = text::line_content(out);
    lemma_no_function(line);
    lemma_no_function(out);
    // The code.
    assert forall|k: int| u <= k < content.len() implies text::in_class(
        CharClass::Indent,
        #[trigger] content[k],
    ) by {
        assert(content[k] == line[k]);
    }
    lemma_comment_prefix(content, u, 0, None, false);
    lemma_comment_bound(content, 0, None, false);
    assert(short == content.take(u));
    assert(scanner::code_of(line) == scanner::code_of(out)) by {
        let k = scanner::code_end(content);
        if k < u {
            assert(content.take(k) =~= short.take(k));
        } else {
            assert(content.take(k) =~= content);
            assert(short.take(u) =~= short);
            lemma_trimmed_prefix(content, u);
        }
    }
    reveal(scanner::python_def_start);
    // The end.
    assert forall|k: int| u <= k < c implies text::in_class(
        CharClass::LineBlank,
        #[trigger] line[k],
    ) by {
        assert(text::in_class(CharClass::Indent, line[k]));
    }
    if u > 0 {
        assert(line[u - 1] != '\r');
    }
    text::lemma_tail_unique(line, CharClass::LineBlank, u, c);
    if u > 0 {
        assert(out[u - 1] == line[u - 1]);
    }
    text::lemma_tail_unique(out, CharClass::LineBlank, u, u);
    lemma_same_backslashes(line, out, u);
}

proof fn lemma_no_function(line: Seq<char>)
    requires
        simple(line),
    ensures
        scanner::function_head(line) is None,
{
    reveal(scanner::function_head);
    let content = text::line_content(line);
    let end = scanner::code_end(content);
    lemma_comment_bound(content, 0, None, false);
    text::lemma_tail(line, CharClass::Whitespace, end);
    let brace = scanner::head_brace(line);
    if brace >= 0 {
        assert(line[brace] != '{');
    }
}

proof fn lemma_comment_bound(t: Seq<char>, i: int, quote: Option<char>, escaped: bool)
    requires
        0 <= i <= t.len(),
    ensures
        i <= scanner::comment_from(t, i, quote, escaped) <= t.len(),
    decreases t.len() - i,
{
    if i < t.len() {
        lemma_comment_bound(t, i + 1, quote, false);
        lemma_comment_bound(t, i + 1, quote, true);
        lemma_comment_bound(t, i + 1, None, false);
        lemma_comment_bound(t, i + 1, Some(t[i]), false);
    }
}

/// A text is trimmed as it is without the blanks at its end.
proof fn lemma_trimmed_prefix(t: Seq<char>, u: int)
    requires
        0 <= u <= t.len(),
        forall|k: int| u <= k < t.len() ==> text::in_class(CharClass::Indent, #[trigger] t[k]),
    ensures
        text::trimmed_end(t, CharClass::Whitespace) == text::trimmed_end(
            t.take(u),
            CharClass::Whitespace,
        ),
{
    let p = t.take(u);
    text::lemma_tail(p, CharClass::Whitespace, u);
    let s = text::tail_from(p, CharClass::Whitespace, u);
    assert forall|k: int| s <= k < t.len() implies text::in_class(
        CharClass::Whitespace,
        #[trigger] t[k],
    ) by {
        if k < u {
            assert(p[k] == t[k]);
        } else {
            assert(text::in_class(CharClass::Indent, t[k]));
        }
    }
    if s > 0 {
        assert(p[s - 1] == t[s - 1]);
    }
    text::lemma_tail_unique(t, CharClass::Whitespace, s, t.len() as int);
    assert(t.take(s) =~= p.take(s));
}

proof fn lemma_same_backslashes(a: Seq<char>, b: Seq<char>, e: int)
    requires
        0 <= e <= a.len(),
        e <= b.len(),
        forall|k: int| 0 <= k < e ==> a[k] == #[trigger] b[k],
    ensures
        scanner::backslashes_before(a, e) == scanner::backslashes_before(b, e),
    decreases e,
{
    if e > 0 {
        assert(a[e - 1] == b[e - 1]);
        lemma_same_backslashes(a, b, e - 1);
    }
}

// ---------------------------------------------------------------------------
// Quotes
// ---------------------------------------------------------------------------
/// A newline at the end of a text opens and closes no quote.
proof fn lemma_balanced_newline(t: Seq<char>, i: int, quote: Option<char>, escaped: bool)
    requires
        0 <= i <= t.len(),
        quote matches Some(q) ==> scanner::is_quote(q),
    ensures
        scanner::balanced_from(t.push('\n'), i, quote, escaped) == scanner::balanced_from(
            t,
            i,
            quote,
            escaped,
        ),
    decreases t.len() - i,
{
    let u = t.push('\n');
    if i < t.len() {
        assert(u[i] == t[i]);
        lemma_balanced_newline(t, i + 1, quote, false);
        lemma_balanced_newline(t, i + 1, quote, true);
        lemma_balanced_newline(t, i + 1, None, false);
        if scanner::is_quote(t[i]) {
            lemma_balanced_newline(t, i + 1, Some(t[i]), false);
        }
    } else {
        assert(u[i] == '\n');
        assert(scanner::balanced_from(u, i + 1, quote, false) == (quote is None));
    }
}

/// Blanks open and close no quote.
proof fn lemma_balanced_blank(t: Seq<char>, i: int, c: int, quote: Option<char>, escaped: bool)
    requires
        0 <= i <= c <= t.len(),
        quote matches Some(q) ==> scanner::is_quote(q),
        forall|k: int| i <= k < c ==> text::in_class(CharClass::Indent, #[trigger] t[k]),
    ensures
        scanner::balanced_from(t, i, quote, escaped) == scanner::balanced_from(
            t,
            c,
            quote,
            escaped && i == c,
        ),
    decreases c - i,
{
    if i < c {
        assert(text::in_class(CharClass::Indent, t[i]));
        lemma_balanced_blank(t, i + 1, c, quote, false);
    }
}

/// A newline opens and closes no quote, and ends an escape.
proof fn lemma_balanced_line(t: Seq<char>, i: int, quote: Option<char>, escaped: bool)
    requires
        0 <= i < t.len(),
        t[i] == '\n',
        quote matches Some(q) ==> scanner::is_quote(q),
    ensures
        scanner::balanced_from(t, i, quote, escaped) == scanner::balanced_from(
            t,
            i + 1,
            quote,
            false,
        ),
{
}

/// The quotes of a text and of its clean form, from the character `p` of a line
/// on.
proof fn lemma_balanced_clean(
    t: Seq<char>,
    i: int,
    out: Seq<char>,
    n: int,
    p: int,
    quote: Option<char>,
    escaped: bool,
)
    requires
        0 <= i < t.len(),
        simple(t),
        0 <= n <= out.len(),
        out.skip(n) == clean(t, i),
        i <= p <= i + checks::unblanked(t.subrange(i, text::line_end(t, i))),
        quote matches Some(q) ==> scanner::is_quote(q),
    ensures
        scanner::balanced_from(t, p, quote, escaped) == scanner::balanced_from(
            out,
            n + p - i,
            quote,
            escaped,
        ),
    decreases t.len() - p,
{
    lemma_clean_at(t, i, out, n);
    let e = text::line_end(t, i);
    let line = t.subrange(i, e);
    lemma_clean_line(line);
    let u = checks::unblanked(line);
    let c = text::content_len(line);
    let tidy = clean_line(line);
    let m = n + tidy.len();
    let o = n + p - i;
    if p < i + u {
        assert(t[p] == line[p - i]);
        assert(out[o] == out.subrange(n, m)[p - i]);
        assert(out[o] == t[p]);
        lemma_balanced_clean(t, i, out, n, p + 1, quote, false);
        lemma_balanced_clean(t, i, out, n, p + 1, quote, true);
        lemma_balanced_clean(t, i, out, n, p + 1, None, false);
        if scanner::is_quote(t[p]) {
            lemma_balanced_clean(t, i, out, n, p + 1, Some(t[p]), false);
        }
    } else {
        assert(out[o] == out.subrange(n, m)[u]);
        lemma_balanced_line(out, o, quote, escaped);
        assert forall|k: int| p <= k < i + c implies text::in_class(
            CharClass::Indent,
            #[trigger] t[k],
        ) by {
            assert(line[k - i] == t[k]);
        }
        lemma_balanced_blank(t, p, i + c, quote, escaped);
        if c < line.len() {
            assert(t[i + c] == line[c]);
            lemma_balanced_line(t, i + c, quote, escaped && p == i + c);
        }
        if e < t.len() {
            assert(line.last() == t[e - 1]);
            text::lemma_line_end(t, e);
            let next = t.subrange(e, text::line_end(t, e));
            lemma_clean_at(t, e, out, m);
            lemma_clean_line(next);
            lemma_balanced_clean(t, e, out, m, e, quote, false);
        }
    }
}

// ---------------------------------------------------------------------------
// Statements
// ---------------------------------------------------------------------------
/// A statement whose quotes are closed has them closed in its clean form.
#[verifier::spinoff_prover]
#[verifier::rlimit(60)]
proof fn lemma_statement_clean(t: Seq<char>, continued: bool)
    requires
        t.len() > 0,
        simple(t),
        syntax::statement_kind(t, continued) is Ok,
    ensures
        syntax::statement_kind(clean(t, 0), continued) is Ok,
{
    let out = clean(t, 0);
    assert(out.skip(0) =~= out);
    lemma_clean_at(t, 0, out, 0);
    let e = text::line_end(t, 0);
    let line = t.subrange(0, e);
    lemma_clean_line(line);
    assert(syntax::first_line(t) =~= line);
    let tidy = clean_line(line);
    assert(syntax::first_line(out) =~= tidy) by {
        assert(out.take(tidy.len() as int) =~= out.subrange(0, tidy.len() as int));
    }
    let u = checks::unblanked(line);
    let content = text::line_content(line);
    let short = text::line_content(tidy);
    reveal(syntax::statement_kind);
    if syntax::statement_kind(out, continued) is Err {
        let b = syntax::assignment_parts(out, continued)->0;
        assert(u > 0);
        assert(short[0] == content[0]);
        assert(short[0] == tidy[0] && content[0] == line[0]);
        assert forall|k: int| u <= k < content.len() implies text::in_class(
            CharClass::Indent,
            #[trigger] content[k],
        ) by {
            assert(content[k] == line[k]);
        }
        lemma_operator_prefix(content, u, 0, None, false);
        assert(short == content.take(u));
        formatter::lemma_operator_from(short, 0, None, false);
        assert(!text::is_ws(content[0]));
        assert(text::lead_from(content, CharClass::Indent, 0) == 0);
        assert(text::lead_from(short, CharClass::Indent, 0) == 0);
        assert(!text::blank_line(line)) by {
            if text::blank_line(line) {
                assert(text::in_class(CharClass::LineBlank, line[0]));
            }
        }
        let a = syntax::assignment_parts(t, continued)->0;
        assert(syntax::assignment_parts(t, continued) is Some && a.operator == b.operator
            && a.operator_at == b.operator_at) by {
            reveal(syntax::assignment_parts);
            let (k, operator) = scanner::operator_from(short, 0, None, false)->0;
            assert(short.take(k) =~= content.take(k));
        }
        let v = syntax::value_start(a);
        assert(v <= u && v > 0 && a.value_end == text::content_len(t) && b.value_end
            == text::content_len(out)) by {
            reveal(syntax::assignment_parts);
            lemma_operator_width(a.operator);
        }
        lemma_value_balanced(t, v);
        lemma_balanced_clean(t, 0, out, 0, v, None, false);
        lemma_clean_end(t, 0);
        lemma_value_balanced(out, v);
    }
}

proof fn lemma_operator_width(operator: AssignmentOperator)
    ensures
        operator::operator_chars(operator).len() > 0,
{
}

/// A clean text ends with a newline and holds no carriage return.
proof fn lemma_clean_end(t: Seq<char>, i: int)
    requires
        0 <= i < t.len(),
        simple(t),
    ensures
        clean(t, i).len() > 0,
        clean(t, i).last() == '\n',
        simple(clean(t, i)),
    decreases t.len() - i,
{
    let out = clean(t, i);
    assert(out.skip(0) =~= out);
    lemma_clean_at(t, i, out, 0);
    let e = text::line_end(t, i);
    let tidy = clean_line(t.subrange(i, e));
    lemma_clean_line(t.subrange(i, e));
    assert(out == tidy + clean(t, e));
    if e < t.len() {
        lemma_clean_end(t, e);
        assert(out.last() == clean(t, e).last());
    } else {
        assert(clean(t, e) =~= Seq::empty());
        assert(out =~= tidy);
    }
}

/// The quotes of a value, read in the text that holds it.
proof fn lemma_value_balanced(t: Seq<char>, v: int)
    requires
        simple(t),
        0 <= v <= text::content_len(t),
    ensures
        scanner::balanced_from(t.subrange(v, text::content_len(t)), 0, None, false)
            == scanner::balanced_from(t, v, None, false),
{
    let c = text::content_len(t);
    let value = t.subrange(v, c);
    let front = t.take(c);
    assert(reparse::same_tail(value, 0, front, v));
    reparse::lemma_balanced_shift(value, 0, front, v, None, false);
    if c < t.len() {
        assert(t =~= front.push('\n'));
        lemma_balanced_newline(front, v, None, false);
    } else {
        assert(front =~= t);
    }
}

// ---------------------------------------------------------------------------
// Nodes
// ---------------------------------------------------------------------------
/// The end of a definition in a text and in its clean form.
proof fn lemma_definition_clean(t: Seq<char>, i: int, out: Seq<char>, n: int) -> (m: int)
    requires
        0 <= i <= t.len(),
        simple(t),
        0 <= n <= out.len(),
        out.skip(n) == clean(t, i),
    ensures
        n <= m <= out.len(),
        i <= scanner::python_def_end(t, i) <= t.len(),
        scanner::python_def_end(out, n) == m,
        out.skip(m) == clean(t, scanner::python_def_end(t, i)),
    decreases t.len() - i,
{
    if i == t.len() {
        assert(clean(t, i) =~= Seq::empty());
        assert(out.skip(n).len() == 0);
        n
    } else {
        lemma_clean_at(t, i, out, n);
        let e = text::line_end(t, i);
        let line = t.subrange(i, e);
        lemma_clean_line(line);
        let k = n + clean_line(line).len();
        assert(out[n] == out.subrange(n, k)[0]);
        assert(line[0] == t[i]);
        let m = lemma_definition_clean(t, e, out, k);
        if !text::is_ws(t[i]) {
            n
        } else {
            m
        }
    }
}

/// The end of a continued statement in a text and in its clean form.
proof fn lemma_continuation_clean(t: Seq<char>, i: int, out: Seq<char>, n: int) -> (m: int)
    requires
        0 <= i < t.len(),
        simple(t),
        0 <= n <= out.len(),
        out.skip(n) == clean(t, i),
        scanner::continuation_end(t, i) is Some,
    ensures
        n < m <= out.len(),
        i < scanner::continuation_end(t, i)->0 <= t.len(),
        scanner::continuation_end(t, i)->0 == t.len() || t[scanner::continuation_end(t, i)->0 - 1]
            == '\n',
        scanner::continuation_end(out, n) == Some(m),
        out.skip(m) == clean(t, scanner::continuation_end(t, i)->0),
        scanner::continuation_end(t, i)->0 == t.len() ==> m == out.len(),
    decreases t.len() - i,
{
    lemma_clean_at(t, i, out, n);
    let e = text::line_end(t, i);
    let line = t.subrange(i, e);
    lemma_line_kept(line);
    let k = n + clean_line(line).len();
    if !scanner::continued_line(line) {
        k
    } else {
        lemma_clean_end(t, e);
        assert(out.skip(k).len() == clean(t, e).len());
        lemma_continuation_clean(t, e, out, k)
    }
}

/// The clean form of the lines before `end` starts the clean form of the text.
proof fn lemma_clean_split(t: Seq<char>, i: int, end: int)
    requires
        0 <= i <= end <= t.len(),
        simple(t),
        end == t.len() || end == i || t[end - 1] == '\n',
    ensures
        clean(t, i) == clean(t.take(end), i) + clean(t, end),
    decreases end - i,
{
    let front = t.take(end);
    if i == end {
        assert(clean(front, i) =~= Seq::empty());
        assert(clean(t, i) =~= Seq::<char>::empty() + clean(t, end));
    } else {
        text::lemma_line_end(t, i);
        let e = text::line_end(t, i);
        assert(e <= end) by {
            if e > end {
                assert(t[end - 1] != '\n');
            }
        }
        assert forall|k: int| i <= k < e - 1 implies #[trigger] front[k] != '\n' by {
            assert(front[k] == t[k]);
        }
        assert(front[e - 1] == t[e - 1]);
        text::lemma_line_end_unique(front, i, e);
        assert(front.subrange(i, e) =~= t.subrange(i, e));
        lemma_clean_split(t, e, end);
        assert(clean(t, i) =~= clean(front, i) + clean(t, end));
    }
}

/// The first node of a text is read in its clean form too, and what follows it
/// is the clean form of what followed it.
#[verifier::spinoff_prover]
#[verifier::rlimit(60)]
proof fn lemma_node_clean(t: Seq<char>) -> (m: int)
    requires
        t.len() > 0,
        simple(t),
        syntax::next_node(t) is Ok,
    ensures
        0 < m <= clean(t, 0).len(),
        syntax::next_node(clean(t, 0)) is Ok,
        syntax::next_node(clean(t, 0))->Ok_0.0 == m,
        clean(t, 0).skip(m) == clean(t, syntax::next_node(t)->Ok_0.0),
{
    let out = clean(t, 0);
    assert(out.skip(0) =~= out);
    lemma_clean_at(t, 0, out, 0);
    let e = text::line_end(t, 0);
    let line = t.subrange(0, e);
    let tidy = clean_line(line);
    let k = tidy.len() as int;
    assert(syntax::first_line(t) =~= line);
    assert(syntax::first_line(out) =~= tidy) by {
        assert(out.take(k) =~= out.subrange(0, k));
    }
    lemma_line_kept(line);
    reveal(syntax::next_node);
    if scanner::python_def_start(line) {
        lemma_definition_clean(t, e, out, k)
    } else if scanner::continued_line(line) {
        let m = lemma_continuation_clean(t, 0, out, 0);
        let end = scanner::continuation_end(t, 0)->0;
        let front = t.take(end);
        lemma_clean_split(t, 0, end);
        assert(out.take(m) =~= clean(front, 0)) by {
            assert(out.len() == clean(front, 0).len() + clean(t, end).len());
            assert(out.skip(m).len() == clean(t, end).len());
        }
        lemma_simple_take(t, end);
        lemma_statement_clean(front, true);
        m
    } else {
        assert(line =~= t.take(e));
        lemma_clean_split(t, 0, e);
        assert(tidy =~= clean(line, 0)) by {
            assert(clean(t, 0) == tidy + clean(t, e));
            assert(clean(t, 0).take(k) =~= tidy);
            assert(clean(line, 0).len() == k);
            assert(clean(t, 0).take(k) =~= clean(line, 0));
        }
        lemma_statement_clean(line, false);
        k
    }
}

proof fn lemma_simple_take(t: Seq<char>, n: int)
    requires
        simple(t),
        0 <= n <= t.len(),
    ensures
        simple(t.take(n)),
        simple(t.skip(n)),
{
    assert forall|k: int| 0 <= k < n implies #[trigger] t.take(n)[k] != '{' && t.take(n)[k]
        != '\r' by {
        assert(t.take(n)[k] == t[k]);
    }
    assert forall|k: int| 0 <= k < t.len() - n implies #[trigger] t.skip(n)[k] != '{' && t.skip(
        n,
    )[k] != '\r' by {
        assert(t.skip(n)[k] == t[n + k]);
    }
}

/// The clean form from a line on is that of the text from the line on.
proof fn lemma_clean_skip(t: Seq<char>, n: int, i: int)
    requires
        0 <= n,
        0 <= i,
        n + i <= t.len(),
    ensures
        clean(t.skip(n), i) == clean(t, n + i),
    decreases t.len() - i,
{
    let u = t.skip(n);
    if n + i < t.len() {
        text::lemma_line_end(t, n + i);
        let e = text::line_end(t, n + i);
        assert forall|k: int| i <= k < e - n - 1 implies #[trigger] u[k] != '\n' by {
            assert(u[k] == t[n + k]);
        }
        assert(u[e - n - 1] == t[e - 1]);
        text::lemma_line_end_unique(u, i, e - n);
        assert(u.subrange(i, e - n) =~= t.subrange(n + i, e));
        lemma_clean_skip(t, n, e - n);
    }
}

/// The clean form of a text that can be read can be read.
proof fn lemma_nodes_clean(t: Seq<char>, i: int, out: Seq<char>, n: int)
    requires
        0 <= i <= t.len(),
        simple(t),
        syntax::nodes_from(t, i) is Ok,
        0 <= n <= out.len(),
        out.skip(n) == clean(t, i),
    ensures
        syntax::nodes_from(out, n) is Ok,
    decreases t.len() - i,
{
    if i == t.len() {
        assert(clean(t, i) =~= Seq::empty());
        assert(out.skip(n).len() == 0);
    } else {
        let rest = t.skip(i);
        lemma_simple_take(t, i);
        syntax::lemma_next_node(rest);
        let len = syntax::next_node(rest)->Ok_0.0;
        lemma_clean_skip(t, i, 0);
        let m = lemma_node_clean(rest);
        lemma_clean_skip(t, i, len);
        assert(out.skip(n + m) =~= out.skip(n).skip(m));
        lemma_nodes_clean(t, i + len, out, n + m);
    }
}

/// A text as the safe edits leave it is its clean form.
proof fn lemma_tidied_is_clean(t: Seq<char>, i: int)
    requires
        0 <= i <= t.len(),
        simple(t),
        i < t.len() || t.len() == 0 || t.last() == '\n',
    ensures
        fixes::tidied_from(t, i, true, true) == clean(t, i),
    decreases t.len() - i,
{
    reveal_strlit("\n");
    if i < t.len() {
        let out = clean(t, i);
        assert(out.skip(0) =~= out);
        lemma_clean_at(t, i, out, 0);
        let e = text::line_end(t, i);
        let line = t.subrange(i, e);
        lemma_clean_line(line);
        assert(line.last() == t[e - 1]);
        if line.last() == '\n' {
            lemma_tidied_is_clean(t, e);
            assert(text::line_ending(line) =~= seq!['\n']);
            assert(fixes::tidy_line(line) =~= clean_line(line));
        } else {
            assert(text::line_ending(line) =~= Seq::empty());
            assert(text::line_end(t, e) == e);
            assert(fixes::tidied_from(t, e, true, true) == "\n"@);
            assert(clean(t, e) =~= Seq::empty());
            assert("\n"@ =~= seq!['\n']);
            assert(fixes::tidy_line(line) + "\n"@ =~= clean_line(line) + clean(t, e));
        }
    } else {
        assert(text::line_end(t, i) == t.len());
    }
}

/// The lines of a text without carriage returns hide no blanks.
proof fn lemma_hides_nothing(t: Seq<char>, i: int)
    requires
        0 <= i <= t.len(),
        simple(t),
    ensures
        !fixes::hides_blanks(t, i),
    decreases t.len() - i,
{
    if i < t.len() {
        text::lemma_line_end(t, i);
        let e = text::line_end(t, i);
        let line = t.subrange(i, e);
        text::lemma_tail(text::line_content(line), CharClass::Indent, text::content_len(line));
        let body = line.take(checks::unblanked(line));
        if body.len() > 0 {
            assert(body.last() == t[i + body.len() - 1]);
        }
        lemma_hides_nothing(t, e);
    }
}

/// What the safe edits of a lint run leave: where a text without braces and
/// carriage returns can be linted, its edits apply, the text that they leave
/// can be linted again, and no finding of the two rules on lines is left. The
/// edits removed no more than the spaces and tabs at the ends of lines, and
/// appended no more than a final newline to a text that is not empty.
pub proof fn law_fixed_texts_are_linted_again(source: Seq<char>, bodies: Seq<Vec<BodyDiagnostic>>)
    requires
        syntax::nodes_of(source) is Ok,
        simple(source),
    ensures
        ({
            let fixed = fixes::tidied_from(source, 0, true, true);
            let options = rules::default_options();
            &&& lint::applied(source, lint::file_diagnostics(source, bodies, options)) == Ok::<
                Seq<char>,
                LintFixErrorView,
            >(fixed)
            &&& syntax::nodes_of(fixed) is Ok
            &&& forall|again: Seq<Vec<BodyDiagnostic>>, j: int|
                0 <= j < lint::file_diagnostics(fixed, again, options).len() ==> (
                #[trigger] lint::file_diagnostics(fixed, again, options)[j]).rule_id != "BBT001"@
                    && lint::file_diagnostics(fixed, again, options)[j].rule_id != "BBT002"@
        }),
{
    let fixed = fixes::tidied_from(source, 0, true, true);
    let options = rules::default_options();
    fixes::lemma_file_tidies(source, bodies, options);
    lemma_tidied_is_clean(source, 0);
    assert(fixed.skip(0) =~= fixed);
    lemma_nodes_clean(source, 0, fixed, 0);
    lemma_hides_nothing(source, 0);
    fixes::law_fixed_texts_are_tidy(source);
    assert forall|again: Seq<Vec<BodyDiagnostic>>, j: int|
        0 <= j < lint::file_diagnostics(fixed, again, options).len() implies (
    #[trigger] lint::file_diagnostics(fixed, again, options)[j]).rule_id != "BBT001"@
        && lint::file_diagnostics(fixed, again, options)[j].rule_id != "BBT002"@ by {
        selection::lemma_tidy_report(fixed, again, options, j);
    }
}

} // verus!
