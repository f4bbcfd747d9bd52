//! A statement whose head is rewritten is read as the same kind of statement.
use crate::operator;
use crate::scanner;
use crate::syntax;
use crate::text;
use crate::scanner::FunctionKind;
use crate::syntax::NodeKind;
use crate::syntax::ParseFault;
use crate::text::CharClass;
use vstd::prelude::*;

verus! {

// ---------------------------------------------------------------------------
// Scans of equal tails
// ---------------------------------------------------------------------------
/// Whether `a` from `i` on is `b` from `j` on.
pub open spec fn same_tail(a: Seq<char>, i: int, b: Seq<char>, j: int) -> bool {
    &&& 0 <= i <= a.len()
    &&& 0 <= j <= b.len()
    &&& a.len() - i == b.len() - j
    &&& forall|d: int| 0 <= d < a.len() - i ==> #[trigger] a[i + d] == b[j + d]
}

pub proof fn lemma_same_tail_step(a: Seq<char>, i: int, b: Seq<char>, j: int, n: int)
    requires
        same_tail(a, i, b, j),
        0 <= n <= a.len() - i,
    ensures
        same_tail(a, i + n, b, j + n),
        n < a.len() - i ==> a[i + n] == b[j + n],
{
    assert forall|d: int| 0 <= d < a.len() - i - n implies #[trigger] a[i + n + d] == b[j + n
        + d] by {
        assert(a[i + (n + d)] == b[j + (n + d)]);
    }
    if n < a.len() - i {
        assert(a[i + n] == b[j + n]);
    }
}

pub proof fn lemma_comment_shift(
    a: Seq<char>,
    i: int,
    b: Seq<char>,
    j: int,
    quote: Option<char>,
    escaped: bool,
)
    requires
        same_tail(a, i, b, j),
    ensures
        scanner::comment_from(a, i, quote, escaped) - i == scanner::comment_from(b, j, quote, escaped) - j,
    decreases a.len() - i,
{
    if i < a.len() {
        lemma_same_tail_step(a, i, b, j, 0);
        lemma_same_tail_step(a, i, b, j, 1);
        lemma_comment_shift(a, i + 1, b, j + 1, quote, false);
        lemma_comment_shift(a, i + 1, b, j + 1, quote, true);
        lemma_comment_shift(a, i + 1, b, j + 1, None, false);
        lemma_comment_shift(a, i + 1, b, j + 1, Some(a[i]), false);
    }
}

pub proof fn lemma_balanced_shift(
    a: Seq<char>,
    i: int,
    b: Seq<char>,
    j: int,
    quote: Option<char>,
    escaped: bool,
)
    requires
        same_tail(a, i, b, j),
    ensures
        scanner::balanced_from(a, i, quote, escaped) == scanner::balanced_from(b, j, quote, escaped),
    decreases a.len() - i,
{
    if i < a.len() {
        lemma_same_tail_step(a, i, b, j, 0);
        lemma_same_tail_step(a, i, b, j, 1);
        lemma_balanced_shift(a, i + 1, b, j + 1, quote, false);
        lemma_balanced_shift(a, i + 1, b, j + 1, quote, true);
        lemma_balanced_shift(a, i + 1, b, j + 1, None, false);
        lemma_balanced_shift(a, i + 1, b, j + 1, Some(a[i]), false);
    }
}

proof fn lemma_operator_at_shift(a: Seq<char>, i: int, b: Seq<char>, j: int)
    requires
        same_tail(a, i, b, j),
    ensures
        operator::operator_at(a, i) == operator::operator_at(b, j),
{
    if i < a.len() {
        lemma_same_tail_step(a, i, b, j, 0);
    }
    if i + 1 < a.len() {
        lemma_same_tail_step(a, i, b, j, 1);
    }
    if i + 2 < a.len() {
        lemma_same_tail_step(a, i, b, j, 2);
    }
}

pub proof fn lemma_operator_shift(
    a: Seq<char>,
    i: int,
    b: Seq<char>,
    j: int,
    quote: Option<char>,
    escaped: bool,
)
    requires
        same_tail(a, i, b, j),
    ensures
        match scanner::operator_from(a, i, quote, escaped) {
            Some((k, operator)) => scanner::operator_from(b, j, quote, escaped) == Some(
                (k - i + j, operator),
            ),
            None => scanner::operator_from(b, j, quote, escaped) is None,
        },
    decreases a.len() - i,
{
    if i < a.len() {
        lemma_same_tail_step(a, i, b, j, 0);
        lemma_same_tail_step(a, i, b, j, 1);
        lemma_operator_at_shift(a, i, b, j);
        lemma_operator_shift(a, i + 1, b, j + 1, quote, false);
        lemma_operator_shift(a, i + 1, b, j + 1, quote, true);
        lemma_operator_shift(a, i + 1, b, j + 1, None, false);
        lemma_operator_shift(a, i + 1, b, j + 1, Some(a[i]), false);
    }
}

pub proof fn lemma_line_end_shift(a: Seq<char>, i: int, b: Seq<char>, j: int)
    requires
        same_tail(a, i, b, j),
    ensures
        text::line_end(a, i) - i == text::line_end(b, j) - j,
    decreases a.len() - i,
{
    if i < a.len() {
        lemma_same_tail_step(a, i, b, j, 0);
        lemma_same_tail_step(a, i, b, j, 1);
        lemma_line_end_shift(a, i + 1, b, j + 1);
    }
}

pub proof fn lemma_continuation_shift(a: Seq<char>, i: int, b: Seq<char>, j: int)
    requires
        same_tail(a, i, b, j),
    ensures
        match scanner::continuation_end(a, i) {
            Some(e) => scanner::continuation_end(b, j) == Some(e - i + j),
            None => scanner::continuation_end(b, j) is None,
        },
    decreases a.len() - i,
{
    lemma_line_end_shift(a, i, b, j);
    text::lemma_line_end(a, i);
    text::lemma_line_end(b, j);
    let n = text::line_end(a, i) - i;
    assert(a.subrange(i, i + n) =~= b.subrange(j, j + n)) by {
        assert forall|d: int| 0 <= d < n implies #[trigger] a.subrange(i, i + n)[d] == b.subrange(
            j,
            j + n,
        )[d] by {
            assert(a[i + d] == b[j + d]);
        }
    }
    if scanner::continued_line(a.subrange(i, i + n)) && i + n < a.len() {
        lemma_same_tail_step(a, i, b, j, n);
        lemma_continuation_shift(a, i + n, b, j + n);
    }
}

/// Characters that mean nothing to the scans for comments, quotes and operators.
pub open spec fn is_plain(c: char) -> bool {
    c != '\\' && c != '#' && !scanner::is_quote(c)
}

pub proof fn lemma_comment_plain(t: Seq<char>, a: int, b: int)
    requires
        0 <= a <= b <= t.len(),
        forall|k: int| a <= k < b ==> is_plain(#[trigger] t[k]),
    ensures
        scanner::comment_from(t, a, None, false) == scanner::comment_from(t, b, None, false),
    decreases b - a,
{
    if a < b {
        assert(is_plain(t[a]));
        lemma_comment_plain(t, a + 1, b);
    }
}

pub proof fn lemma_balanced_plain(t: Seq<char>, a: int, b: int)
    requires
        0 <= a <= b <= t.len(),
        forall|k: int| a <= k < b ==> is_plain(#[trigger] t[k]),
    ensures
        scanner::balanced_from(t, a, None, false) == scanner::balanced_from(t, b, None, false),
    decreases b - a,
{
    if a < b {
        assert(is_plain(t[a]));
        lemma_balanced_plain(t, a + 1, b);
    }
}

/// Characters with which no operator starts.
pub open spec fn starts_no_operator(c: char) -> bool {
    c != '=' && c != ':' && c != '?' && c != '+' && c != '.'
}

pub proof fn lemma_operator_plain(t: Seq<char>, a: int, b: int)
    requires
        0 <= a <= b <= t.len(),
        forall|k: int| a <= k < b ==> is_plain(#[trigger] t[k]) && starts_no_operator(t[k]),
    ensures
        scanner::operator_from(t, a, None, false) == scanner::operator_from(t, b, None, false),
    decreases b - a,
{
    if a < b {
        assert(is_plain(t[a]) && starts_no_operator(t[a]));
        lemma_operator_plain(t, a + 1, b);
    }
}

// ---------------------------------------------------------------------------
// Statements with a rewritten head
// ---------------------------------------------------------------------------
/// The statement `text` with its first `j` characters replaced by `head`.
pub open spec fn rewritten(text: Seq<char>, head: Seq<char>, j: int) -> Seq<char> {
    head + text.skip(j)
}

/// `head` can replace the first `j` characters of the first line of `text`:
/// both end in the same visible character, but for white space, and it is
/// neither a brace, a parenthesis nor a backslash.
pub open spec fn replaceable(text: Seq<char>, head: Seq<char>, j: int) -> bool {
    let line = syntax::first_line(text);
    let a = text::tail_from(line, CharClass::Whitespace, j);
    let h = text::tail_from(head, CharClass::Whitespace, head.len() as int);
    &&& text.len() > 0
    &&& 0 < a <= j <= text::content_len(line)
    &&& 0 < h <= head.len()
    &&& line[a - 1] == head[h - 1]
    &&& line[a - 1] != '{' && line[a - 1] != '(' && line[a - 1] != ')' && line[a - 1] != '\\'
    &&& head.last() != '\r'
    &&& forall|k: int| 0 <= k < head.len() ==> #[trigger] head[k] != '\n'
}

/// The lines of a rewritten statement.
pub proof fn lemma_rewritten_lines(text: Seq<char>, head: Seq<char>, j: int)
    requires
        replaceable(text, head, j),
    ensures
        ({
            let out = rewritten(text, head, j);
            let n = head.len();
            &&& same_tail(text, j, out, n as int)
            &&& text::line_end(out, 0) == n + text::line_end(text, 0) - j
            &&& syntax::first_line(out) == head + syntax::first_line(text).skip(j)
            &&& text::content_len(syntax::first_line(out)) == n + text::content_len(syntax::first_line(text)) - j
            &&& text::content_len(out) == n + text::content_len(text) - j
            &&& text::line_content(syntax::first_line(out)) == head + text::line_content(syntax::first_line(text)).skip(j)
            &&& text::line_ending(out) == text::line_ending(text)
            &&& out.len() == n + text.len() - j
            &&& j <= text::content_len(syntax::first_line(text)) <= text::content_len(text)
        }),
{
    let out = rewritten(text, head, j);
    let n = head.len() as int;
    let line = syntax::first_line(text);
    text::lemma_line_end(text, 0);
    let e = text::line_end(text, 0);
    assert(same_tail(text, j, out, n));
    lemma_line_end_shift(text, j, out, n);
    assert(text::line_end(text, j) == e) by {
        text::lemma_line_end(text, j);
        assert forall|k: int| j <= k < e - 1 implies #[trigger] text[k] != '\n' by {}
        text::lemma_line_end_unique(text, j, e);
    }
    assert(text::line_end(out, 0) == n + e - j) by {
        text::lemma_line_end(out, n);
        let f = n + e - j;
        assert forall|k: int| 0 <= k < f - 1 implies #[trigger] out[k] != '\n' by {
            if k < n {
                assert(head[k] != '\n');
            } else {
                assert(out[k] == text[k - n + j]);
            }
        }
        if f < out.len() {
            assert(text[e - 1] == '\n');
            assert(f > n) by {
                if e == j {
                    assert(text::content_len(line) < line.len());
                }
            }
            assert(out[f - 1] == text[e - 1]);
        }
        text::lemma_line_end_unique(out, 0, f);
    }
    assert(syntax::first_line(out) =~= head + line.skip(j));
    if e < text.len() {
        assert(text[e - 1] == '\n');
    } else {
        assert(line =~= text);
    }
    let fo = syntax::first_line(out);
    assert(fo.len() == n + line.len() - j);
    assert forall|k: int| 0 <= k < line.len() - j implies fo[n + k] == #[trigger] line[j + k] by {}
    if line.len() > j {
        assert(fo[fo.len() - 1] == line[line.len() - 1]);
        if line.len() > j + 1 {
            assert(fo[fo.len() - 2] == line[line.len() - 2]);
        } else {
            assert(fo[fo.len() - 2] == head.last());
        }
    } else {
        assert(fo =~= head);
    }
    assert(text::content_len(fo) == n + text::content_len(line) - j);
    assert(text::line_content(fo) =~= head + text::line_content(line).skip(j));
    if text.len() > j {
        assert(out[out.len() - 1] == text[text.len() - 1]);
        if text.len() > j + 1 {
            assert(out[out.len() - 2] == text[text.len() - 2]);
        } else {
            assert(out[out.len() - 2] == head.last());
        }
    } else {
        assert(out =~= head);
    }
    assert(text::content_len(out) == n + text::content_len(text) - j);
    assert(text::line_ending(out) =~= text::line_ending(text));
}

/// A rewritten first line is continued if the original one is.
pub proof fn lemma_rewritten_continued(text: Seq<char>, head: Seq<char>, j: int)
    requires
        replaceable(text, head, j),
    ensures
        scanner::continued_line(syntax::first_line(rewritten(text, head, j))) == scanner::continued_line(syntax::first_line(text)),
{
    lemma_rewritten_lines(text, head, j);
    let line = syntax::first_line(text);
    let out = syntax::first_line(rewritten(text, head, j));
    let n = head.len() as int;
    let c = text::content_len(line);
    let a = text::tail_from(line, CharClass::Whitespace, j);
    let h = text::tail_from(head, CharClass::Whitespace, n);
    text::lemma_tail(line, CharClass::Whitespace, j);
    text::lemma_tail(head, CharClass::Whitespace, n);
    text::lemma_tail(line, CharClass::LineBlank, c);
    let e = text::tail_from(line, CharClass::LineBlank, c);
    if e > j {
        assert forall|k: int| e - j + n <= k < c - j + n implies text::in_class(
            CharClass::LineBlank,
            #[trigger] out[k],
        ) by {
            assert(out[k] == line[k - n + j]);
        }
        assert(out[e - j + n - 1] == line[e - 1]);
        text::lemma_tail_unique(out, CharClass::LineBlank, e - j + n, c - j + n);
        lemma_run_shift(line, out, j, n, e);
    } else {
        assert(e >= a) by {
            if e < a {
                assert(text::in_class(CharClass::LineBlank, line[a - 1]));
            }
        }
        assert(line[e - 1] != '\\') by {
            if e > a {
                assert(text::is_ws(line[e - 1]));
            }
        }
        assert(scanner::backslashes_before(line, e) == 0);
        text::lemma_tail(out, CharClass::LineBlank, c - j + n);
        let f = text::tail_from(out, CharClass::LineBlank, c - j + n);
        assert(f <= n) by {
            if f > n {
                assert(out[f - 1] == line[f - 1 - n + j]);
                assert(text::in_class(CharClass::LineBlank, line[f - 1 - n + j]));
            }
        }
        assert(out[h - 1] == head[h - 1]);
        assert(f >= h) by {
            if f < h {
                assert(text::in_class(CharClass::LineBlank, out[h - 1]));
            }
        }
        assert(out[f - 1] == head[f - 1]);
        assert(out[f - 1] != '\\') by {
            if f > h {
                assert(text::is_ws(head[f - 1]));
            }
        }
        assert(scanner::backslashes_before(out, f) == 0);
    }
}

/// Runs of backslashes after the head are the same.
proof fn lemma_run_shift(line: Seq<char>, out: Seq<char>, j: int, n: int, e: int)
    requires
        0 < j <= e <= line.len(),
        0 < n,
        out.len() == line.len() - j + n,
        forall|k: int| 0 <= k < line.len() - j ==> out[n + k] == #[trigger] line[j + k],
        line[j - 1] != '\\',
        out[n - 1] != '\\',
    ensures
        scanner::backslashes_before(out, e - j + n) == scanner::backslashes_before(line, e),
    decreases e - j,
{
    if e > j {
        assert(out[n + (e - 1 - j)] == line[j + (e - 1 - j)]);
        lemma_run_shift(line, out, j, n, e - 1);
    }
}

/// A declaration that names a function.
#[verifier::opaque]
pub open spec fn valid_declaration(words: Seq<char>) -> bool {
    let (name, kind) = scanner::strip_modifiers(words, FunctionKind::Shell);
    !(name.len() == 0 && kind != FunctionKind::Python) && scanner::function_name(name)
}

/// Where a rewritten line opens a function body and the original does not, the
/// two differ in whether the words before the parentheses are a declaration.
pub proof fn lemma_rewritten_function(text: Seq<char>, head: Seq<char>, j: int)
    requires
        replaceable(text, head, j),
        scanner::function_head(syntax::first_line(text)) is None,
        scanner::code_end(text::line_content(syntax::first_line(rewritten(text, head, j)))) - head.len() == scanner::code_end(
            text::line_content(syntax::first_line(text)),
        ) - j,
        scanner::code_end(text::line_content(syntax::first_line(text))) >= j,
        scanner::function_head(syntax::first_line(rewritten(text, head, j))) is Some,
    ensures
        ({
            let g = scanner::head_paren(syntax::first_line(rewritten(text, head, j))) - head.len();
            &&& 0 <= g < text::content_len(syntax::first_line(text)) - j
            &&& valid_declaration(
                text::trimmed(rewritten(text, head, j).take(head.len() + g), CharClass::Whitespace),
            )
            &&& !valid_declaration(text::trimmed(text.take(j + g), CharClass::Whitespace))
        }),
{
    reveal(valid_declaration);
    reveal(scanner::function_head);
    let line = syntax::first_line(text);
    let whole = rewritten(text, head, j);
    let out = syntax::first_line(whole);
    let n = head.len() as int;
    lemma_rewritten_lines(text, head, j);
    syntax::lemma_function_head(out);
    text::lemma_line_end(text, 0);
    let a = text::tail_from(line, CharClass::Whitespace, j);
    let h = text::tail_from(head, CharClass::Whitespace, n);
    text::lemma_tail(line, CharClass::Whitespace, j);
    text::lemma_tail(head, CharClass::Whitespace, n);
    let code = scanner::code_end(text::line_content(line));
    let code_out = scanner::code_end(text::line_content(out));
    syntax::lemma_code_end(text::line_content(line));
    syntax::lemma_code_end(text::line_content(out));
    assert forall|k: int| 0 <= k < line.len() - j implies out[n + k] == #[trigger] line[j + k] by {}
    assert forall|k: int| 0 <= k < n implies #[trigger] out[k] == head[k] by {}
    // The brace.
    let brace = scanner::head_brace(out);
    text::lemma_tail(out, CharClass::Whitespace, code_out);
    assert(brace >= n) by {
        if brace < n {
            assert(out[h - 1] == head[h - 1]);
            if brace + 1 < h {
                assert(text::is_ws(out[h - 1]));
            } else if brace + 1 > h {
                assert(text::is_ws(head[brace]));
            }
        }
    }
    assert(scanner::head_brace(line) == brace - n + j) by {
        assert forall|k: int| brace - n + j + 1 <= k < code implies text::in_class(
            CharClass::Whitespace,
            #[trigger] line[k],
        ) by {
            assert(out[n + (k - j)] == line[j + (k - j)]);
        }
        assert(out[n + (brace - n)] == line[j + (brace - n)]);
        text::lemma_tail_unique(line, CharClass::Whitespace, brace - n + j + 1, code);
    }
    // The closing parenthesis.
    let close = scanner::head_close(out);
    text::lemma_tail(out, CharClass::Whitespace, brace);
    assert(close >= n) by {
        if close < n {
            assert(out[h - 1] == head[h - 1]);
            if close + 1 < h {
                assert(text::is_ws(out[h - 1]));
            } else if close + 1 > h {
                assert(text::is_ws(head[close]));
            }
        }
    }
    assert(scanner::head_close(line) == close - n + j) by {
        assert forall|k: int| close - n + j + 1 <= k < brace - n + j implies text::in_class(
            CharClass::Whitespace,
            #[trigger] line[k],
        ) by {
            assert(out[n + (k - j)] == line[j + (k - j)]);
        }
        assert(out[n + (close - n)] == line[j + (close - n)]);
        text::lemma_tail_unique(line, CharClass::Whitespace, close - n + j + 1, brace - n + j);
    }
    // The opening parenthesis.
    let paren = scanner::head_paren(out);
    text::lemma_rfind(out, '(', close);
    assert(paren >= n) by {
        if paren < n {
            assert(out[h - 1] == head[h - 1]);
            if paren < h - 1 {
                assert(!text::is_ws(out[h - 1]));
            } else if paren > h - 1 {
                assert(text::is_ws(head[paren]));
            }
        }
    }
    assert(out[n + (paren - n)] == line[j + (paren - n)]);
    assert(scanner::head_paren(line) == paren - n + j) by {
        assert forall|k: int| paren - n + j < k < close - n + j implies #[trigger] line[k]
            != '(' by {
            assert(out[n + (k - j)] == line[j + (k - j)]);
        }
        text::lemma_rfind_unique(line, '(', paren - n + j, close - n + j);
    }
    assert forall|k: int| paren - n + j < k < close - n + j implies text::is_ws(#[trigger] line[k]) by {
        assert(out[n + (k - j)] == line[j + (k - j)]);
        assert(text::is_ws(out[k - j + n]));
    }
    let g = paren - n;
    assert(out.take(paren) =~= whole.take(n + g));
    assert(line.take(paren - n + j) =~= text.take(j + g));
}

/// What a rewritten statement is, where its first line opens neither a function
/// body nor a definition.
pub proof fn lemma_rewritten_node(text: Seq<char>, head: Seq<char>, j: int, kind: NodeKind)
    requires
        replaceable(text, head, j),
        syntax::next_node(text) is Ok,
        syntax::next_node(text)->Ok_0.0 == text.len(),
        scanner::function_head(syntax::first_line(text)) is None,
        !scanner::python_def_start(syntax::first_line(text)),
        scanner::function_head(syntax::first_line(rewritten(text, head, j))) is None,
        !scanner::python_def_start(syntax::first_line(rewritten(text, head, j))),
        syntax::statement_kind(rewritten(text, head, j), scanner::continued_line(syntax::first_line(text))) == Ok::<
            NodeKind,
            ParseFault,
        >(kind),
    ensures
        syntax::next_node(rewritten(text, head, j)) == Ok::<(int, NodeKind), ParseFault>(
            (rewritten(text, head, j).len() as int, kind),
        ),
{
    let out = rewritten(text, head, j);
    let n = head.len() as int;
    lemma_rewritten_lines(text, head, j);
    lemma_rewritten_continued(text, head, j);
    reveal(syntax::next_node);
    let e = text::line_end(text, 0);
    text::lemma_line_end(text, 0);
    text::lemma_line_end(out, 0);
    if scanner::continued_line(syntax::first_line(text)) {
        assert(text.subrange(0, e) =~= syntax::first_line(text));
        assert(out.subrange(0, text::line_end(out, 0)) =~= syntax::first_line(out));
        assert(scanner::continuation_end(text, 0) == Some(text.len() as int));
        if e < text.len() {
            lemma_same_tail_step(text, j, out, n, e - j);
            lemma_continuation_shift(text, e, out, n + e - j);
        }
        assert(scanner::continuation_end(out, 0) == Some(out.len() as int));
        assert(out.take(out.len() as int) =~= out);
    } else {
        assert(syntax::first_line(text) =~= text);
        assert(syntax::first_line(out) =~= out);
    }
}

} // verus!
