//! Formatting a formatted text changes nothing.
use crate::formatter;
use crate::listing;
use crate::locality;
use crate::operator;
use crate::reparse;
use crate::scanner;
use crate::syntax;
use crate::text;
use crate::formatter::FormatOptions;
use crate::formatter::ListView;
use crate::formatter::MetadataListLayout;
use crate::operator::AssignmentOperator;
use crate::scanner::FunctionKind;
use crate::syntax::AssignmentParts;
use crate::syntax::DirectiveKeyword;
use crate::syntax::DirectiveParts;
use crate::syntax::NodeKind;
use crate::syntax::NodeView;
use crate::syntax::ParseFault;
use crate::text::CharClass;
use vstd::prelude::*;

verus! {

// ---------------------------------------------------------------------------
// Variable names
// ---------------------------------------------------------------------------
/// A variable name holds no ASCII white space and does not end in a backslash.
proof fn lemma_name_clean(t: Seq<char>, i: int, filled: bool)
    requires
        0 <= i <= t.len(),
        scanner::name_from(t, i, filled),
    ensures
        forall|k: int| i <= k < t.len() ==> !text::is_ascii_ws(#[trigger] t[k]),
        i < t.len() ==> t[t.len() - 1] != '\\',
    decreases t.len() - i,
{
    if i < t.len() {
        if scanner::is_name_char(t[i]) {
            lemma_name_clean(t, i + 1, true);
        } else if t[i] == '$' {
            let e = scanner::reference_end(t, i)->0;
            text::lemma_find(t, '}', i + 2);
            lemma_name_clean(t, e, true);
            assert(t[e - 1] == '}');
            assert forall|k: int| i <= k < t.len() implies !text::is_ascii_ws(#[trigger] t[k]) by {
                if i + 2 <= k < e - 1 {
                    assert(!text::is_ascii_ws(t[k]));
                }
            }
        } else if t[i] == ':' {
            lemma_name_clean(t, i + 1, false);
        } else {
            let flag = t.skip(i);
            assert forall|k: int| i <= k < t.len() implies !text::is_ascii_ws(#[trigger] t[k]) by {
                assert(t[k] == flag[k - i]);
            }
            assert(t[t.len() - 1] == flag[flag.len() - 1]);
        }
    }
}

/// Name characters at the start of a name are passed one by one.
proof fn lemma_name_prefix(t: Seq<char>, i: int, n: int, filled: bool)
    requires
        0 <= i <= n <= t.len(),
        forall|k: int| i <= k < n ==> scanner::is_name_char(#[trigger] t[k]),
        scanner::name_from(t, i, filled),
    ensures
        scanner::name_from(t, n, filled || i < n),
    decreases n - i,
{
    if i < n {
        assert(scanner::is_name_char(t[i]));
        lemma_name_prefix(t, i + 1, n, true);
    }
}

/// A word of name characters is a variable name.
proof fn lemma_word_is_name(t: Seq<char>, i: int)
    requires
        0 <= i <= t.len(),
        forall|k: int| 0 <= k < t.len() ==> scanner::is_name_char(#[trigger] t[k]),
    ensures
        scanner::name_from(t, i, true),
        i < t.len() ==> scanner::name_from(t, i, false),
    decreases t.len() - i,
{
    if i < t.len() {
        lemma_word_is_name(t, i + 1);
        assert(scanner::is_name_char(t[i]));
    }
}

// ---------------------------------------------------------------------------
// Assignments
// ---------------------------------------------------------------------------
/// What precedes the value in a formatted assignment.
pub open spec fn assignment_head(text: Seq<char>, a: AssignmentParts) -> Seq<char> {
    formatter::left_of(text, a) + seq![' '] + operator::operator_chars(a.operator) + if formatter::value_body(text, a).len() == 0 {
        Seq::<char>::empty()
    } else {
        seq![' ']
    }
}

/// Where the value starts, without leading blanks.
pub open spec fn value_at(text: Seq<char>, a: AssignmentParts) -> int {
    syntax::value_start(a) + text::lead_from(syntax::value_of(text, a), CharClass::Indent, 0)
}

/// The facts about an assignment that its node gives.
#[verifier::spinoff_prover]
#[verifier::rlimit(60)]
pub proof fn lemma_assignment_facts(text: Seq<char>, a: AssignmentParts)
    requires
        text.len() > 0,
        syntax::next_node(text) == Ok::<(int, NodeKind), ParseFault>(
            (text.len() as int, NodeKind::Assignment(a)),
        ),
    ensures
        ({
            let line = syntax::first_line(text);
            let content = text::line_content(line);
            let left = formatter::left_of(text, a);
            &&& scanner::function_head(line) is None
            &&& !scanner::python_def_start(line)
            &&& syntax::assignment_parts(text, scanner::continued_line(line)) == Some(a)
            &&& a.continued == scanner::continued_line(line)
            &&& scanner::balanced_from(syntax::value_of(text, a), 0, None, false)
            &&& scanner::operator_from(content, 0, None, false) == Some((a.operator_at, a.operator))
            &&& left == text::trimmed_end(content.take(a.operator_at), CharClass::Whitespace)
            &&& scanner::assignment_left(left)
            &&& 0 < left.len() <= a.operator_at
            &&& left == content.take(left.len() as int)
            &&& !text::is_ws(left[0]) && left[0] != '#'
            &&& !text::is_ws(left.last()) && left.last() != '\\'
            &&& forall|k: int|
                left.len() <= k < a.operator_at ==> text::is_ws(#[trigger] content[k])
            &&& operator::operator_at(content, a.operator_at) == Some(a.operator)
            &&& syntax::value_start(a) <= content.len()
            &&& content.len() == text::content_len(line)
            &&& syntax::value_start(a) <= a.value_end
            &&& a.value_end == text::content_len(text)
            &&& forall|k: int| 0 <= k < content.len() ==> #[trigger] content[k] == text[k]
            &&& forall|k: int| 0 <= k < content.len() ==> #[trigger] content[k] != '\n'
            &&& content.len() <= text.len()
            &&& !scanner::continued_line(line) ==> line == text
        }),
{
    reveal(syntax::statement_kind);
    reveal(syntax::assignment_parts);
    reveal(syntax::next_node);
    syntax::lemma_next_node(text);
    let line = syntax::first_line(text);
    let content = text::line_content(line);
    text::lemma_line_end(text, 0);
    let e = text::line_end(text, 0);
    if scanner::continued_line(line) {
        assert(text.take(text.len() as int) =~= text);
    } else {
        assert(line =~= text);
    }
    let c = scanner::continued_line(line);
    assert(syntax::statement_kind(text, c) == Ok::<NodeKind, ParseFault>(NodeKind::Assignment(a)));
    assert(syntax::assignment_parts(text, c) == Some(a));
    formatter::lemma_operator_from(content, 0, None, false);
    let i = a.operator_at;
    assert(content.take(i) =~= text.take(i));
    text::lemma_tail(content.take(i), CharClass::Whitespace, i);
    let left = formatter::left_of(text, a);
    let name = left.skip(scanner::name_start(left));
    if scanner::is_exported(left) {
        text::lemma_lead(left, CharClass::Whitespace, 6);
    }
    lemma_name_clean(name, 0, false);
    assert(left.last() == name.last());
    assert(left =~= content.take(left.len() as int));
    assert(!text::is_ws(left.last())) by {
        assert(left.last() == content.take(i)[left.len() - 1]);
    }
    assert forall|k: int| left.len() <= k < i implies text::is_ws(#[trigger] content[k]) by {
        assert(content.take(i)[k] == content[k]);
    }
    assert(left[0] == content[0]);
    assert(text::lead_from(content, CharClass::Indent, 0) == 0);
    if e < text.len() {
        assert(text[e - 1] == '\n');
    }
    assert forall|k: int| 0 <= k < content.len() implies #[trigger] content[k] != '\n' by {
        assert(content[k] == text[k]);
    }
}

/// In a quote the scan for operators passes white space and finds none at `i`.
proof fn lemma_quote_hides(t: Seq<char>, k: int, i: int, q: char, operator: AssignmentOperator)
    requires
        0 <= k <= i < t.len(),
        forall|m: int| k <= m < i ==> text::is_ws(#[trigger] t[m]),
        scanner::is_quote(q),
    ensures
        scanner::operator_from(t, k, Some(q), false) != Some((i, operator)),
    decreases i - k,
{
    if k < i {
        assert(text::is_ws(t[k]));
        lemma_quote_hides(t, k + 1, i, q, operator);
    } else {
        formatter::lemma_operator_from(t, i + 1, Some(q), false);
        formatter::lemma_operator_from(t, i + 1, None, false);
        formatter::lemma_operator_from(t, i + 1, Some(q), true);
    }
}

/// The scans of a left-hand side do not depend on the space that follows it.
proof fn lemma_left_sync(
    t: Seq<char>,
    u: Seq<char>,
    n: int,
    i: int,
    operator: AssignmentOperator,
    k: int,
    quote: Option<char>,
    escaped: bool,
)
    requires
        0 <= k <= n <= i < t.len(),
        0 < n < u.len(),
        forall|m: int| 0 <= m < n ==> #[trigger] t[m] == u[m],
        u[n] == ' ',
        forall|m: int| n <= m < i ==> text::is_ws(#[trigger] t[m]),
        t[n - 1] != '\\',
        escaped ==> k > 0 && t[k - 1] == '\\',
        quote matches Some(q) ==> scanner::is_quote(q),
        scanner::operator_from(t, k, quote, escaped) == Some((i, operator)),
    ensures
        scanner::operator_from(u, k, quote, escaped) == scanner::operator_from(u, n, None, false),
        scanner::comment_from(u, k, quote, escaped) == scanner::comment_from(u, n, None, false),
        scanner::comment_from(t, k, quote, escaped) == scanner::comment_from(t, n, None, false),
    decreases n - k,
{
    if k == n {
        assert(!escaped);
        if quote is Some {
            lemma_quote_hides(t, n, i, quote->0, operator);
        }
    } else {
        assert(t[k] == u[k]);
        if escaped {
            lemma_left_sync(t, u, n, i, operator, k + 1, quote, false);
        } else if t[k] == '\\' {
            lemma_left_sync(t, u, n, i, operator, k + 1, quote, true);
        } else if quote is Some {
            let next = if quote == Some(t[k]) {
                None
            } else {
                quote
            };
            lemma_left_sync(t, u, n, i, operator, k + 1, next, false);
        } else if scanner::is_quote(t[k]) {
            lemma_left_sync(t, u, n, i, operator, k + 1, Some(t[k]), false);
        } else {
            assert(operator::operator_at(t, k) is None) by {
                formatter::lemma_operator_from(t, k, quote, false);
            }
            if k + 1 < n {
                assert(t[k + 1] == u[k + 1]);
                if k + 2 < n {
                    assert(t[k + 2] == u[k + 2]);
                }
            }
            assert(operator::operator_at(u, k) is None);
            lemma_left_sync(t, u, n, i, operator, k + 1, quote, false);
        }
    }
}

/// The operator of a formatted assignment is found where it was put.
pub proof fn lemma_operator_again(u: Seq<char>, k: int, operator: AssignmentOperator)
    requires
        0 <= k,
        k + operator::operator_chars(operator).len() <= u.len(),
        u.subrange(k, k + operator::operator_chars(operator).len()) == operator::operator_chars(operator),
        k + operator::operator_chars(operator).len() == u.len() || u[k + operator::operator_chars(operator).len()]
            == ' ',
    ensures
        operator::operator_at(u, k) == Some(operator),
{
    let chars = operator::operator_chars(operator);
    assert(u[k] == u.subrange(k, k + chars.len())[0]);
    if chars.len() > 1 {
        assert(u[k + 1] == u.subrange(k, k + chars.len())[1]);
    }
    if chars.len() > 2 {
        assert(u[k + 2] == u.subrange(k, k + chars.len())[2]);
    }
}

/// The characters of an operator are no white space and mean nothing to the
/// scans for comments and quotes.
pub proof fn lemma_operator_chars(operator: AssignmentOperator)
    ensures
        forall|k: int|
            0 <= k < operator::operator_chars(operator).len() ==> reparse::is_plain(
                #[trigger] operator::operator_chars(operator)[k],
            ) && !text::is_ws(operator::operator_chars(operator)[k]) && operator::operator_chars(operator)[k] != '{'
                && operator::operator_chars(operator)[k] != '(' && operator::operator_chars(operator)[k] != ')'
                && operator::operator_chars(operator)[k] != 'p' && operator::operator_chars(operator)[k] != 'f',
        1 <= operator::operator_chars(operator).len() <= 3,
{
}

/// The text of an operator that is found.
pub proof fn lemma_operator_text(t: Seq<char>, i: int, operator: AssignmentOperator)
    requires
        0 <= i,
        operator::operator_at(t, i) == Some(operator),
    ensures
        i + operator::operator_chars(operator).len() <= t.len(),
        t.subrange(i, i + operator::operator_chars(operator).len()) == operator::operator_chars(operator),
{
    assert(t.subrange(i, i + operator::operator_chars(operator).len()) =~= operator::operator_chars(operator));
}

/// A formatted assignment is its text with another head.
#[verifier::spinoff_prover]
#[verifier::rlimit(60)]
pub proof fn lemma_assignment_rewritten(text: Seq<char>, a: AssignmentParts)
    requires
        text.len() > 0,
        syntax::next_node(text) == Ok::<(int, NodeKind), ParseFault>(
            (text.len() as int, NodeKind::Assignment(a)),
        ),
    ensures
        reparse::replaceable(text, assignment_head(text, a), value_at(text, a)),
        formatter::assignment_output(text, a) == reparse::rewritten(
            text,
            assignment_head(text, a),
            value_at(text, a),
        ),
        syntax::value_start(a) <= value_at(text, a) <= a.value_end,
        formatter::value_body(text, a).len() == a.value_end - value_at(text, a),
        text::tail_from(syntax::first_line(text), CharClass::Whitespace, value_at(text, a)) == syntax::value_start(a),
{
    lemma_assignment_facts(text, a);
    let line = syntax::first_line(text);
    let content = text::line_content(line);
    let left = formatter::left_of(text, a);
    let op = operator::operator_chars(a.operator);
    let head = assignment_head(text, a);
    let v = syntax::value_of(text, a);
    let j = value_at(text, a);
    let s = syntax::value_start(a);
    lemma_operator_chars(a.operator);
    lemma_operator_text(content, a.operator_at, a.operator);
    text::lemma_line_end(text, 0);
    text::lemma_lead(v, CharClass::Indent, 0);
    assert(formatter::value_body(text, a) =~= text.subrange(j, a.value_end));
    assert(formatter::assignment_output(text, a) =~= reparse::rewritten(text, head, j)) by {
        assert(text.skip(j) =~= text.subrange(j, a.value_end) + text::line_ending(text));
    }
    assert(line[s - 1] == op[op.len() - 1]) by {
        assert(content[s - 1] == content.subrange(a.operator_at, s)[op.len() - 1]);
    }
    // The value starts on the first line.
    assert(j <= text::content_len(line)) by {
        if scanner::continued_line(line) {
            let e = text::tail_from(line, CharClass::LineBlank, text::content_len(line));
            text::lemma_tail(line, CharClass::LineBlank, text::content_len(line));
            assert(e > 0 && line[e - 1] == '\\');
            if s > e {
                assert(text::in_class(CharClass::LineBlank, line[s - 1]));
            }
            assert(s < e);
            if j > e - 1 {
                assert(text::in_class(CharClass::Indent, v[e - 1 - s]));
                assert(v[e - 1 - s] == text[e - 1]);
                assert(line[e - 1] == text[e - 1]);
            }
        }
    }
    assert forall|k: int| s <= k < j implies text::in_class(CharClass::Whitespace, #[trigger] line[k]) by {
        assert(text::in_class(CharClass::Indent, v[k - s]));
        assert(v[k - s] == text[k]);
        assert(line[k] == text[k]);
    }
    text::lemma_tail_unique(line, CharClass::Whitespace, s, j);
    let h = (left.len() + 1 + op.len()) as int;
    assert(head[h - 1] == op[op.len() - 1]);
    assert forall|k: int| h <= k < head.len() implies text::in_class(
        CharClass::Whitespace,
        #[trigger] head[k],
    ) by {}
    text::lemma_tail_unique(head, CharClass::Whitespace, h, head.len() as int);
    assert forall|k: int| 0 <= k < head.len() implies #[trigger] head[k] != '\n' by {
        if k < left.len() {
            assert(head[k] == content[k]);
        } else if left.len() < k < h {
            assert(head[k] == op[k - left.len() - 1]);
        }
    }
}

/// The scans of a formatted assignment find what they found before.
#[verifier::spinoff_prover]
#[verifier::rlimit(60)]
proof fn lemma_assignment_scans(text: Seq<char>, a: AssignmentParts)
    requires
        text.len() > 0,
        syntax::next_node(text) == Ok::<(int, NodeKind), ParseFault>(
            (text.len() as int, NodeKind::Assignment(a)),
        ),
    ensures
        ({
            let content = text::line_content(syntax::first_line(text));
            let head = assignment_head(text, a);
            let j = value_at(text, a);
            let out = text::line_content(syntax::first_line(reparse::rewritten(text, head, j)));
            &&& scanner::operator_from(out, 0, None, false) == Some(
                (formatter::left_of(text, a).len() as int + 1, a.operator),
            )
            &&& scanner::code_end(out) - head.len() == scanner::code_end(content) - j
            &&& scanner::code_end(content) >= j
            &&& out == head + content.skip(j)
        }),
{
    lemma_assignment_facts(text, a);
    lemma_assignment_rewritten(text, a);
    let content = text::line_content(syntax::first_line(text));
    let left = formatter::left_of(text, a);
    let op = operator::operator_chars(a.operator);
    let head = assignment_head(text, a);
    let j = value_at(text, a);
    let i = a.operator_at;
    let s = syntax::value_start(a);
    reparse::lemma_rewritten_lines(text, head, j);
    let out = text::line_content(syntax::first_line(reparse::rewritten(text, head, j)));
    lemma_operator_chars(a.operator);
    lemma_operator_text(content, i, a.operator);
    let n = left.len() as int;
    assert(out.len() >= head.len());
    assert forall|m: int| 0 <= m < n implies #[trigger] content[m] == out[m] by {
        assert(left[m] == content[m]);
    }
    assert(out[n] == ' ');
    assert(content[n - 1] == left.last());
    lemma_left_sync(content, out, n, i, a.operator, 0, None, false);
    // The operator.
    let p = n + 1;
    assert(out.subrange(p, p + op.len()) =~= op);
    assert(p + op.len() == out.len() || out[p + op.len()] == ' ') by {
        if formatter::value_body(text, a).len() == 0 {
            assert(a.value_end == j);
            assert(content.skip(j).len() == 0) by {
                reparse::lemma_rewritten_lines(text, head, j);
            }
        }
    }
    lemma_operator_again(out, p, a.operator);
    assert(reparse::is_plain(out[n]) && reparse::starts_no_operator(out[n]));
    assert(operator::operator_at(out, n) is None);
    assert(scanner::operator_from(out, n, None, false) == scanner::operator_from(out, p, None, false));
    assert(out[p] == op[0]);
    assert(reparse::is_plain(out[p]));
    assert(scanner::operator_from(out, p, None, false) == Some((p, a.operator)));
    // The comment.
    assert forall|k: int| n <= k < j implies reparse::is_plain(#[trigger] content[k]) by {
        if k < i {
            assert(text::is_ws(content[k]));
        } else if k < s {
            assert(content[k] == content.subrange(i, s)[k - i]);
        } else {
            text::lemma_lead(syntax::value_of(text, a), CharClass::Indent, 0);
            assert(text::in_class(CharClass::Indent, syntax::value_of(text, a)[k - s]));
            assert(syntax::value_of(text, a)[k - s] == text[k]);
        }
    }
    reparse::lemma_comment_plain(content, n, j);
    let h = head.len() as int;
    assert forall|k: int| n <= k < h implies reparse::is_plain(#[trigger] out[k]) by {
        if p <= k < p + op.len() {
            assert(out[k] == op[k - p]);
        }
    }
    reparse::lemma_comment_plain(out, n, h);
    assert(reparse::same_tail(content, j, out, h));
    reparse::lemma_comment_shift(content, j, out, h, None, false);
    syntax::lemma_comment_from(content, j, None, false);
}

/// The rest of a declaration after a modifier.
proof fn lemma_after_modifier(words: Seq<char>, keyword: Seq<char>, n: int)
    requires
        keyword == scanner::python_word() || keyword == scanner::fakeroot_word(),
        keyword.len() == n,
        n < words.len(),
        words.take(n) == keyword,
    ensures
        text::is_ws(words[n]) ==> scanner::after_keyword(words, keyword) == Some(
            words.skip(text::lead_from(words, CharClass::Whitespace, n)),
        ),
        !text::is_ws(words[n]) ==> scanner::after_keyword(words, keyword) is None,
{
    let rest = words.skip(n);
    assert(rest[0] == words[n]);
    text::lemma_lead(words, CharClass::Whitespace, n);
    let e = text::lead_from(words, CharClass::Whitespace, n);
    assert forall|k: int| 0 <= k < e - n implies text::in_class(
        CharClass::Whitespace,
        #[trigger] rest[k],
    ) by {
        assert(rest[k] == words[n + k]);
    }
    if e < words.len() {
        assert(rest[e - n] == words[e]);
    }
    text::lemma_lead_unique(rest, CharClass::Whitespace, 0, e - n);
    assert(rest.skip(e - n) =~= words.skip(e));
}

/// Words that start with neither modifier are taken as they are.
proof fn lemma_no_modifier(words: Seq<char>, kind: FunctionKind)
    requires
        words.len() > 0,
        words[0] != 'p',
        words[0] != 'f',
    ensures
        scanner::strip_modifiers(words, kind) == (words, kind),
{
    assert(scanner::after_keyword(words, scanner::python_word()) is None) by {
        if text::has_prefix(words, scanner::python_word()) {
            assert(words.take(6)[0] == 'p');
        }
    }
    assert(scanner::after_keyword(words, scanner::fakeroot_word()) is None) by {
        if text::has_prefix(words, scanner::fakeroot_word()) {
            assert(words.take(8)[0] == 'f');
        }
    }
}

/// A declaration that starts with a left-hand side, a space and an operator
/// names a function only if the left-hand side is a modifier and nothing
/// follows the operator.
proof fn lemma_spaced_declaration(words: Seq<char>, left: Seq<char>, op: Seq<char>)
    requires
        scanner::assignment_left(left),
        left.len() > 0,
        exists|o: AssignmentOperator| op == #[trigger] operator::operator_chars(o),
        left.len() + 1 + op.len() <= words.len(),
        words.take(left.len() as int) == left,
        words[left.len() as int] == ' ',
        words.subrange(left.len() as int + 1, left.len() as int + 1 + op.len()) == op,
        words.len() > left.len() + 1 + op.len() ==> words[left.len() as int + 1 + op.len()] == ' ',
        reparse::valid_declaration(words),
    ensures
        left == scanner::python_word() || left == scanner::fakeroot_word(),
        words.len() == left.len() + 1 + op.len(),
{
    reveal(reparse::valid_declaration);
    let n = left.len() as int;
    let o = choose|o: AssignmentOperator| op == #[trigger] operator::operator_chars(o);
    lemma_operator_chars(o);
    assert(words[n + 1] == op[0]) by {
        assert(words.subrange(n + 1, n + 1 + op.len())[0] == op[0]);
    }
    assert forall|keyword: Seq<char>|
        (keyword == scanner::python_word() || keyword == scanner::fakeroot_word()) && text::has_prefix(
            words,
            keyword,
        ) && scanner::after_keyword(words, keyword) is Some implies left == keyword by {
        let m = keyword.len() as int;
        if n < m {
            assert(words.take(m)[n] == ' ');
            assert(false);
        } else if n > m {
            assert(words[m] == left[m]) by {
                assert(words.take(n)[m] == left[m]);
            }
            assert(words.skip(m)[0] == words[m]);
            assert(text::is_ws(left[m]));
            assert(left[0] == keyword[0]) by {
                assert(words.take(n)[0] == left[0]);
                assert(words.take(m)[0] == keyword[0]);
            }
            if scanner::is_exported(left) {
                assert(left.take(6)[0] == 'e');
            }
            assert(left.skip(0) =~= left);
            assert forall|k: int| 0 <= k < m implies scanner::is_name_char(#[trigger] left[k]) by {
                assert(words.take(m)[k] == keyword[k]);
                assert(words.take(n)[k] == left[k]);
            }
            lemma_name_prefix(left, 0, m, false);
            assert(false);
        } else {
            assert(left =~= keyword);
        }
    }
    if scanner::after_keyword(words, scanner::python_word()) is None && scanner::after_keyword(words, scanner::fakeroot_word()) is None {
        assert(scanner::strip_modifiers(words, FunctionKind::Shell) == (words, FunctionKind::Shell));
        assert(text::is_ascii_ws(words[n]));
        assert(false);
    }
    let keyword = if scanner::after_keyword(words, scanner::python_word()) is Some {
        scanner::python_word()
    } else {
        scanner::fakeroot_word()
    };
    assert(text::has_prefix(words, keyword));
    assert(left == keyword);
    lemma_after_modifier(words, keyword, n);
    assert(text::in_class(CharClass::Whitespace, words[n]));
    assert(!text::in_class(CharClass::Whitespace, words[n + 1]));
    text::lemma_lead_unique(words, CharClass::Whitespace, n, n + 1);
    let rest = words.skip(n + 1);
    assert(rest[0] == op[0]);
    let kind = if keyword == scanner::python_word() {
        FunctionKind::Python
    } else {
        FunctionKind::Shell
    };
    lemma_no_modifier(rest, kind);
    assert(scanner::strip_modifiers(words, FunctionKind::Shell) == (rest, kind)) by {
        if scanner::after_keyword(words, scanner::python_word()) is Some {
            assert(scanner::strip_modifiers(words, FunctionKind::Shell) == scanner::strip_modifiers(
                rest,
                FunctionKind::Python,
            ));
            lemma_no_modifier(rest, FunctionKind::Python);
            assert(scanner::python_word()[0] == 'p');
        } else {
            assert(scanner::strip_modifiers(words, FunctionKind::Shell) == scanner::strip_modifiers(
                rest,
                FunctionKind::Shell,
            ));
            lemma_no_modifier(rest, FunctionKind::Shell);
            assert(scanner::fakeroot_word()[0] == 'f');
            assert(scanner::python_word()[0] == 'p');
        }
    }
    if words.len() > n + 1 + op.len() {
        assert(rest[op.len() as int] == words[n + 1 + op.len()]);
        assert(text::is_ascii_ws(rest[op.len() as int]));
    }
}

/// A modifier, white space or none, and an operator name a function.
proof fn lemma_loose_declaration(words: Seq<char>, left: Seq<char>, i: int, op: Seq<char>)
    requires
        left == scanner::python_word() || left == scanner::fakeroot_word(),
        exists|o: AssignmentOperator| op == #[trigger] operator::operator_chars(o),
        left.len() <= i,
        words.len() == i + op.len(),
        words.take(left.len() as int) == left,
        forall|k: int| left.len() <= k < i ==> text::is_ws(#[trigger] words[k]),
        words.skip(i) == op,
    ensures
        reparse::valid_declaration(words),
{
    reveal(reparse::valid_declaration);
    let n = left.len() as int;
    let o = choose|o: AssignmentOperator| op == #[trigger] operator::operator_chars(o);
    lemma_operator_chars(o);
    assert(words[i] == words.skip(i)[0]);
    lemma_after_modifier(words, left, n);
    if i == n {
        assert(!text::is_ws(words[n]));
        let other = if left == scanner::python_word() {
            scanner::fakeroot_word()
        } else {
            scanner::python_word()
        };
        assert(words[0] == left[0]) by {
            assert(words.take(n)[0] == left[0]);
        }
        assert(scanner::after_keyword(words, other) is None) by {
            if text::has_prefix(words, other) {
                assert(words.take(other.len() as int)[0] == other[0]);
            }
        }
        assert(scanner::strip_modifiers(words, FunctionKind::Shell) == (words, FunctionKind::Shell));
        assert forall|k: int| 0 <= k < words.len() implies !text::is_ascii_ws(#[trigger] words[k])
            && words[k] != '(' && words[k] != ')' && words[k] != '#' by {
            if k < n {
                assert(words.take(n)[k] == left[k]);
            } else {
                assert(words.skip(i)[k - i] == words[k]);
            }
        }
    } else {
        assert(text::is_ws(words[n]));
        assert(!text::in_class(CharClass::Whitespace, words[i]));
        text::lemma_lead_unique(words, CharClass::Whitespace, n, i);
        let rest = words.skip(i);
        assert(words[0] == left[0]) by {
            assert(words.take(n)[0] == left[0]);
        }
        if left == scanner::fakeroot_word() {
            assert(scanner::after_keyword(words, scanner::python_word()) is None) by {
                if text::has_prefix(words, scanner::python_word()) {
                    assert(words.take(6)[0] == 'p');
                }
            }
        }
        lemma_no_modifier(rest, FunctionKind::Shell);
        lemma_no_modifier(rest, FunctionKind::Python);
        assert(scanner::function_name(rest)) by {
            assert forall|k: int| 0 <= k < rest.len() implies !text::is_ascii_ws(#[trigger] rest[k])
                && rest[k] != '(' && rest[k] != ')' && rest[k] != '#' by {
                assert(rest[k] == op[k]);
            }
        }
    }
}

/// The words before the parentheses of a formatted assignment name a function
/// only where the left-hand side is a modifier and the value is empty so far.
#[verifier::spinoff_prover]
#[verifier::rlimit(60)]
proof fn lemma_formatted_words(text: Seq<char>, a: AssignmentParts, g: int)
    requires
        text.len() > 0,
        syntax::next_node(text) == Ok::<(int, NodeKind), ParseFault>(
            (text.len() as int, NodeKind::Assignment(a)),
        ),
        0 <= g < text::content_len(syntax::first_line(text)) - value_at(text, a),
        reparse::valid_declaration(
            text::trimmed(
                reparse::rewritten(text, assignment_head(text, a), value_at(text, a)).take(
                    assignment_head(text, a).len() + g,
                ),
                CharClass::Whitespace,
            ),
        ),
    ensures
        formatter::left_of(text, a) == scanner::python_word() || formatter::left_of(text, a) == scanner::fakeroot_word(),
        forall|k: int|
            value_at(text, a) <= k < value_at(text, a) + g ==> text::is_ws(#[trigger] text[k]),
{
    lemma_assignment_facts(text, a);
    lemma_assignment_rewritten(text, a);
    let head = assignment_head(text, a);
    let j = value_at(text, a);
    let whole = reparse::rewritten(text, head, j);
    let left = formatter::left_of(text, a);
    let op = operator::operator_chars(a.operator);
    let n = left.len() as int;
    let h = head.len() as int;
    reparse::lemma_rewritten_lines(text, head, j);
    lemma_operator_chars(a.operator);
    let words = whole.take(h + g);
    assert(words[0] == left[0]);
    assert(text::lead_from(words, CharClass::Whitespace, 0) == 0);
    assert(words.skip(0) =~= words);
    let e = text::tail_from(words, CharClass::Whitespace, h + g);
    text::lemma_tail(words, CharClass::Whitespace, h + g);
    let d = words.take(e);
    assert(text::trimmed(words, CharClass::Whitespace) == d);
    let p = n + 1 + op.len();
    assert(words[p - 1] == op[op.len() - 1]);
    assert(e >= p) by {
        if e < p {
            assert(text::is_ws(words[p - 1]));
        }
    }
    assert(d.take(n) =~= left);
    assert(d[n] == ' ');
    assert(d.subrange(n + 1, p) =~= op);
    assert(h == p + 1) by {
        if formatter::value_body(text, a).len() == 0 {
            assert(a.value_end == j);
        }
    }
    if d.len() > p {
        assert(d[p] == head[p]);
    }
    lemma_spaced_declaration(d, left, op);
    assert forall|k: int| j <= k < j + g implies text::is_ws(#[trigger] text[k]) by {
        assert(words[k - j + h] == text[k]);
        assert(text::is_ws(words[k - j + h]));
    }
}

/// The same words as they stood in the original text name a function too.
#[verifier::spinoff_prover]
#[verifier::rlimit(60)]
proof fn lemma_original_words(text: Seq<char>, a: AssignmentParts, g: int)
    requires
        text.len() > 0,
        syntax::next_node(text) == Ok::<(int, NodeKind), ParseFault>(
            (text.len() as int, NodeKind::Assignment(a)),
        ),
        0 <= g < text::content_len(syntax::first_line(text)) - value_at(text, a),
        formatter::left_of(text, a) == scanner::python_word() || formatter::left_of(text, a) == scanner::fakeroot_word(),
        forall|k: int|
            value_at(text, a) <= k < value_at(text, a) + g ==> text::is_ws(#[trigger] text[k]),
    ensures
        reparse::valid_declaration(text::trimmed(text.take(value_at(text, a) + g), CharClass::Whitespace)),
{
    lemma_assignment_facts(text, a);
    lemma_assignment_rewritten(text, a);
    let content = text::line_content(syntax::first_line(text));
    let j = value_at(text, a);
    let left = formatter::left_of(text, a);
    let op = operator::operator_chars(a.operator);
    let n = left.len() as int;
    let s = syntax::value_start(a);
    lemma_operator_chars(a.operator);
    lemma_operator_text(content, a.operator_at, a.operator);
    let words = text.take(j + g);
    assert(words[0] == left[0]);
    assert(text::lead_from(words, CharClass::Whitespace, 0) == 0);
    assert(words.skip(0) =~= words);
    text::lemma_lead(syntax::value_of(text, a), CharClass::Indent, 0);
    assert forall|k: int| s <= k < j + g implies text::in_class(
        CharClass::Whitespace,
        #[trigger] words[k],
    ) by {
        if k < j {
            assert(text::in_class(CharClass::Indent, syntax::value_of(text, a)[k - s]));
            assert(syntax::value_of(text, a)[k - s] == text[k]);
        } else {
            assert(text::is_ws(text[k]));
        }
    }
    assert(words[s - 1] == op[op.len() - 1]) by {
        assert(content[s - 1] == content.subrange(a.operator_at, s)[op.len() - 1]);
    }
    text::lemma_tail_unique(words, CharClass::Whitespace, s, j + g);
    let w = words.take(s);
    assert(text::trimmed(words, CharClass::Whitespace) == w);
    assert(w.take(n) =~= left);
    assert forall|k: int| n <= k < a.operator_at implies text::is_ws(#[trigger] w[k]) by {
        assert(w[k] == content[k]);
    }
    assert(w.skip(a.operator_at) =~= op) by {
        assert forall|k: int| 0 <= k < op.len() implies w.skip(a.operator_at)[k]
            == #[trigger] op[k] by {
            assert(content[a.operator_at + k] == content.subrange(a.operator_at, s)[k]);
        }
    }
    lemma_loose_declaration(w, left, a.operator_at, op);
}

/// A formatted assignment opens no function body.
proof fn lemma_assignment_no_function(text: Seq<char>, a: AssignmentParts)
    requires
        text.len() > 0,
        syntax::next_node(text) == Ok::<(int, NodeKind), ParseFault>(
            (text.len() as int, NodeKind::Assignment(a)),
        ),
    ensures
        scanner::function_head(syntax::first_line(formatter::assignment_output(text, a))) is None,
{
    lemma_assignment_facts(text, a);
    lemma_assignment_rewritten(text, a);
    lemma_assignment_scans(text, a);
    let head = assignment_head(text, a);
    let j = value_at(text, a);
    let whole = reparse::rewritten(text, head, j);
    if scanner::function_head(syntax::first_line(whole)) is Some {
        reparse::lemma_rewritten_function(text, head, j);
        let g = scanner::head_paren(syntax::first_line(whole)) - head.len();
        lemma_formatted_words(text, a, g);
        lemma_original_words(text, a, g);
    }
}

/// The parts of a formatted assignment.
spec fn assignment_again(text: Seq<char>, a: AssignmentParts) -> AssignmentParts {
    AssignmentParts {
        operator_at: formatter::left_of(text, a).len() as int + 1,
        value_end: text::content_len(formatter::assignment_output(text, a)),
        ..a
    }
}

/// A formatted assignment is the same assignment, and formatting it again
/// changes nothing.
#[verifier::spinoff_prover]
#[verifier::rlimit(60)]
proof fn lemma_assignment_again(text: Seq<char>, a: AssignmentParts)
    requires
        text.len() > 0,
        syntax::next_node(text) == Ok::<(int, NodeKind), ParseFault>(
            (text.len() as int, NodeKind::Assignment(a)),
        ),
        !scanner::python_def_start(syntax::first_line(formatter::assignment_output(text, a))),
    ensures
        syntax::next_node(formatter::assignment_output(text, a)) == Ok::<(int, NodeKind), ParseFault>(
            (
                formatter::assignment_output(text, a).len() as int,
                NodeKind::Assignment(assignment_again(text, a)),
            ),
        ),
        formatter::assignment_output(formatter::assignment_output(text, a), assignment_again(text, a))
            == formatter::assignment_output(text, a),
        formatter::value_body(formatter::assignment_output(text, a), assignment_again(text, a)) == formatter::value_body(text, a),
        assignment_again(text, a).value_end == assignment_head(text, a).len() + formatter::value_body(
            text,
            a,
        ).len(),
{
    lemma_assignment_facts(text, a);
    lemma_assignment_rewritten(text, a);
    lemma_assignment_scans(text, a);
    lemma_assignment_no_function(text, a);
    let head = assignment_head(text, a);
    let j = value_at(text, a);
    let out = formatter::assignment_output(text, a);
    let left = formatter::left_of(text, a);
    let op = operator::operator_chars(a.operator);
    let n = left.len() as int;
    let h = head.len() as int;
    let b = assignment_again(text, a);
    reparse::lemma_rewritten_lines(text, head, j);
    lemma_operator_chars(a.operator);
    let line = syntax::first_line(out);
    let content = text::line_content(line);
    let p = n + 1;
    let before = content.take(p);
    assert(before[n] == ' ');
    assert(before[n - 1] == left.last());
    assert forall|k: int| n <= k < p implies text::in_class(CharClass::Whitespace, #[trigger] before[k]) by {}
    text::lemma_tail_unique(before, CharClass::Whitespace, n, p);
    assert(before.take(n) =~= left);
    let c = scanner::continued_line(syntax::first_line(text));
    assert(syntax::assignment_parts(out, c) == Some(b)) by {
        reveal(syntax::assignment_parts);
    }
    // The value.
    let v = syntax::value_of(out, b);
    let w = formatter::value_body(text, a);
    assert(syntax::value_start(b) == p + op.len());
    assert(out.subrange(h, b.value_end) =~= w) by {
        assert(text.subrange(j, a.value_end) =~= w);
    }
    if w.len() == 0 {
        assert(v =~= Seq::empty());
        assert(formatter::value_body(out, b) =~= w);
        assert(scanner::balanced_from(v, 0, None, false));
    } else {
        assert(h == p + op.len() + 1);
        assert(v =~= seq![' '] + w);
        let old = syntax::value_of(text, a);
        let l = text::lead_from(old, CharClass::Indent, 0);
        text::lemma_lead(old, CharClass::Indent, 0);
        assert(w =~= old.skip(l));
        assert(w[0] == old[l]);
        assert(v[0] == ' ' && v[1] == w[0]);
        text::lemma_lead_unique(v, CharClass::Indent, 0, 1);
        assert(formatter::value_body(out, b) =~= w);
        assert forall|k: int| 0 <= k < l implies reparse::is_plain(#[trigger] old[k]) by {
            assert(text::in_class(CharClass::Indent, old[k]));
        }
        reparse::lemma_balanced_plain(old, 0, l);
        assert(reparse::is_plain(v[0]));
        reparse::lemma_balanced_plain(v, 0, 1);
        assert(reparse::same_tail(old, l, v, 1));
        reparse::lemma_balanced_shift(old, l, v, 1, None, false);
    }
    // The statement.
    assert(content[0] == left[0]);
    assert(text::lead_from(content, CharClass::Indent, 0) == 0);
    assert(!text::blank_line(line)) by {
        assert(line[0] == left[0]);
        assert(!text::in_class(CharClass::LineBlank, line[0]));
    }
    assert(syntax::statement_kind(out, c) == Ok::<NodeKind, ParseFault>(NodeKind::Assignment(b))) by {
        reveal(syntax::statement_kind);
    }
    reparse::lemma_rewritten_node(text, head, j, NodeKind::Assignment(b));
    assert(formatter::left_of(out, b) =~= left) by {
        assert(out.take(p) =~= before);
    }
}

// ---------------------------------------------------------------------------
// Lists
// ---------------------------------------------------------------------------
/// An assignment holds the same list once it is formatted.
#[verifier::spinoff_prover]
#[verifier::rlimit(40)]
proof fn lemma_list_kept(text: Seq<char>, a: AssignmentParts)
    requires
        text.len() > 0,
        syntax::next_node(text) == Ok::<(int, NodeKind), ParseFault>(
            (text.len() as int, NodeKind::Assignment(a)),
        ),
        !scanner::python_def_start(syntax::first_line(formatter::assignment_output(text, a))),
    ensures
        formatter::static_list(formatter::assignment_output(text, a), assignment_again(text, a))
            == formatter::static_list(text, a),
{
    lemma_assignment_facts(text, a);
    lemma_assignment_rewritten(text, a);
    lemma_assignment_again(text, a);
    let out = formatter::assignment_output(text, a);
    let b = assignment_again(text, a);
    listing::lemma_rewritten_endings(text, assignment_head(text, a), value_at(text, a), None);
    let left = formatter::left_of(text, a);
    lemma_name_bounds(text, a);
    assert(out.subrange(a.name, a.name_end) =~= left.subrange(a.name, a.name_end));
    assert(text.subrange(a.name, a.name_end) =~= left.subrange(a.name, a.name_end));
    reveal(formatter::static_list);
}

/// The name of an assignment lies in its left-hand side.
pub proof fn lemma_name_bounds(text: Seq<char>, a: AssignmentParts)
    requires
        text.len() > 0,
        syntax::next_node(text) == Ok::<(int, NodeKind), ParseFault>(
            (text.len() as int, NodeKind::Assignment(a)),
        ),
    ensures
        0 <= a.name <= a.name_end,
        a.name_end == formatter::left_of(text, a).len(),
        a.name == scanner::name_start(formatter::left_of(text, a)),
        a.exported == scanner::is_exported(formatter::left_of(text, a)),
{
    lemma_assignment_facts(text, a);
    reveal(syntax::assignment_parts);
    let left = formatter::left_of(text, a);
    if scanner::is_exported(left) {
        text::lemma_lead(left, CharClass::Whitespace, 6);
    }
}

/// The end of a text from a visible character on is the end of the text.
proof fn lemma_suffix_ending(t: Seq<char>, o: int, m: int)
    requires
        0 <= o <= m < t.len(),
        t[m] != '\r' && t[m] != '\n',
    ensures
        text::line_ending(t.skip(o)) == text::line_ending(t),
        text::content_len(t.skip(o)) == text::content_len(t) - o,
        text::content_len(t) > m,
{
    let s = t.skip(o);
    assert(s[s.len() - 1] == t[t.len() - 1]);
    if s.len() >= 2 {
        assert(s[s.len() - 2] == t[t.len() - 2]);
    }
    assert(text::line_ending(s) =~= text::line_ending(t));
}

/// Where the closing quote of the list of an assignment stands.
pub open spec fn closing_at(text: Seq<char>, a: AssignmentParts) -> int {
    let value = formatter::value_body(text, a);
    value_at(text, a) + formatter::closing_quote(value, 1, value[0], false)->0
}

/// What the list of an assignment says of its text.
#[verifier::spinoff_prover]
#[verifier::rlimit(60)]
pub proof fn lemma_list_facts(text: Seq<char>, a: AssignmentParts)
    requires
        text.len() > 0,
        syntax::next_node(text) == Ok::<(int, NodeKind), ParseFault>(
            (text.len() as int, NodeKind::Assignment(a)),
        ),
        formatter::static_list(text, a) is Some,
    ensures
        ({
            let list = formatter::static_list(text, a)->0;
            let value = formatter::value_body(text, a);
            let j = value_at(text, a);
            let c = closing_at(text, a);
            &&& scanner::is_quote(list.quote)
            &&& listing::is_ending(list.ending)
            &&& formatter::common_ending(text, 0, None) == Some(list.ending)
            &&& formatter::known_list(text.subrange(a.name, a.name_end))
            &&& list.items.len() >= 2
            &&& forall|k: int|
                0 <= k < list.items.len() ==> formatter::static_item(
                    #[trigger] list.items[k],
                    list.quote,
                )
            &&& value.len() > 0
            &&& value == text.subrange(j, a.value_end)
            &&& 0 <= j < c < a.value_end <= text.len()
            &&& text[j] == list.quote
            &&& text[c] == list.quote
            &&& list.closing_tail == text.subrange(c + 1, a.value_end)
            &&& formatter::comment_or_blank(list.closing_tail)
            &&& scanner::balanced_from(value, c - j + 1, None, false)
        }),
{
    lemma_assignment_facts(text, a);
    lemma_assignment_rewritten(text, a);
    reveal(formatter::static_list);
    let list = formatter::static_list(text, a)->0;
    let value = formatter::value_body(text, a);
    let j = value_at(text, a);
    let quote = value[0];
    let close = formatter::closing_quote(value, 1, quote, false)->0;
    let c = j + close;
    let old = syntax::value_of(text, a);
    let l = text::lead_from(old, CharClass::Indent, 0);
    text::lemma_lead(old, CharClass::Indent, 0);
    assert(value =~= old.skip(l));
    assert(value =~= text.subrange(j, a.value_end));
    listing::lemma_closing_quote(value, 1, quote, false);
    listing::lemma_common_ending(text);
    let contents = value.subrange(1, close);
    assert(list.closing_tail =~= text.subrange(c + 1, a.value_end));
    if a.continued {
        listing::lemma_items_unquoted(contents, 0, quote, list.ending);
    } else {
        listing::lemma_words_unquoted(contents, quote);
    }
    // The quotes.
    assert forall|k: int| 1 <= k < close implies #[trigger] value[k] != quote by {
        assert(contents[k - 1] == value[k]);
    }
    listing::lemma_balanced_quoted(value, 1, close, quote, false);
    assert(scanner::balanced_from(value, 0, None, false) == scanner::balanced_from(
        value,
        1,
        Some(quote),
        false,
    ));
    assert forall|k: int| 0 <= k < l implies reparse::is_plain(#[trigger] old[k]) by {
        assert(text::in_class(CharClass::Indent, old[k]));
    }
    reparse::lemma_balanced_plain(old, 0, l);
    assert(reparse::same_tail(old, l, value, 0));
    reparse::lemma_balanced_shift(old, l, value, 0, None, false);
}

/// What precedes the list in its assignment.
pub open spec fn list_head(text: Seq<char>, a: AssignmentParts) -> Seq<char> {
    formatter::left_of(text, a) + seq![' '] + operator::operator_chars(a.operator) + seq![' ']
}

/// The quoted list, with what follows it.
pub open spec fn list_value(list: ListView) -> Seq<char> {
    seq![list.quote] + listing::listed(list.items, list.ending) + seq![list.quote]
        + list.closing_tail
}

/// The first line of a list that is laid out.
pub open spec fn list_opening(text: Seq<char>, a: AssignmentParts, list: ListView) -> Seq<char> {
    list_head(text, a) + seq![list.quote, ' ', '\\'] + list.ending
}

/// The last line of a list that is laid out, and what follows it.
pub open spec fn list_closing(text: Seq<char>, list: ListView) -> Seq<char> {
    seq![' ', ' ', ' ', ' ', list.quote] + list.closing_tail + text::line_ending(text)
}

/// The lines of a list that is laid out.
pub proof fn lemma_list_lines(text: Seq<char>, a: AssignmentParts, list: ListView)
    ensures
        formatter::list_output(text, a, list) == list_opening(text, a, list) + (
        formatter::items_output(list.items, list.ending) + list_closing(text, list)),
        formatter::list_output(text, a, list) == list_head(text, a) + list_value(list)
            + text::line_ending(text),
{
    assert(formatter::list_output(text, a, list) =~= list_opening(text, a, list) + (
    formatter::items_output(list.items, list.ending) + list_closing(text, list)));
    assert(formatter::list_output(text, a, list) =~= list_head(text, a) + list_value(list)
        + text::line_ending(text));
}

/// The first line of a list that is laid out opens no block and is continued;
/// its operator is found where it was put.
#[verifier::spinoff_prover]
#[verifier::rlimit(60)]
proof fn lemma_list_opening(text: Seq<char>, a: AssignmentParts)
    requires
        text.len() > 0,
        syntax::next_node(text) == Ok::<(int, NodeKind), ParseFault>(
            (text.len() as int, NodeKind::Assignment(a)),
        ),
        formatter::static_list(text, a) is Some,
    ensures
        ({
            let line = list_opening(text, a, formatter::static_list(text, a)->0);
            let content = text::line_content(line);
            &&& line.last() == '\n'
            &&& forall|k: int| 0 <= k < line.len() - 1 ==> #[trigger] line[k] != '\n'
            &&& text::line_ending(line) == formatter::static_list(text, a)->0.ending
            &&& scanner::function_head(line) is None
            &&& !scanner::python_def_start(line)
            &&& scanner::continued_line(line)
            &&& scanner::operator_from(content, 0, None, false) == Some(
                (formatter::left_of(text, a).len() as int + 1, a.operator),
            )
            &&& content.len() >= list_head(text, a).len()
            &&& content.take(list_head(text, a).len() as int) == list_head(text, a)
        }),
{
    lemma_assignment_facts(text, a);
    lemma_list_facts(text, a);
    let list = formatter::static_list(text, a)->0;
    let line = list_opening(text, a, list);
    let head = list_head(text, a);
    let left = formatter::left_of(text, a);
    let op = operator::operator_chars(a.operator);
    let old = text::line_content(syntax::first_line(text));
    let n = left.len() as int;
    let p = n + 1;
    let h = head.len() as int;
    lemma_operator_chars(a.operator);
    assert(h == p + op.len() + 1);
    assert(line.len() == h + 3 + list.ending.len());
    assert(line[h] == list.quote && line[h + 1] == ' ' && line[h + 2] == '\\');
    assert(text::content_len(line) == h + 3);
    assert(text::line_ending(line) =~= list.ending);
    let content = text::line_content(line);
    assert forall|k: int| 0 <= k < h implies #[trigger] content[k] == head[k] by {}
    assert(content.take(h) =~= head);
    assert(content[h] == list.quote && content[h + 1] == ' ' && content[h + 2] == '\\');
    assert forall|m: int| 0 <= m < n implies #[trigger] old[m] == content[m] by {
        assert(left[m] == old[m]);
        assert(head[m] == left[m]);
    }
    assert(content[n] == ' ');
    assert(old[n - 1] == left.last());
    lemma_left_sync(old, content, n, a.operator_at, a.operator, 0, None, false);
    assert(content.subrange(p, p + op.len()) =~= op);
    assert(content[p + op.len()] == ' ');
    lemma_operator_again(content, p, a.operator);
    assert(operator::operator_at(content, n) is None);
    assert(scanner::operator_from(content, n, None, false) == scanner::operator_from(
        content,
        p,
        None,
        false,
    ));
    assert(content[p] == op[0]);
    assert(reparse::is_plain(content[p]));
    // The comment.
    assert forall|k: int| n <= k < h implies reparse::is_plain(#[trigger] content[k]) by {
        if p <= k < p + op.len() {
            assert(content[k] == op[k - p]);
        }
    }
    reparse::lemma_comment_plain(content, n, h);
    assert(scanner::comment_from(content, h, None, false) == scanner::comment_from(
        content,
        h + 1,
        Some(list.quote),
        false,
    ));
    assert(scanner::comment_from(content, h + 1, Some(list.quote), false)
        == scanner::comment_from(content, h + 2, Some(list.quote), false));
    assert(scanner::comment_from(content, h + 2, Some(list.quote), false)
        == scanner::comment_from(content, h + 3, Some(list.quote), true));
    assert(scanner::code_end(content) == h + 3);
    // The last character.
    text::lemma_tail_unique(line, CharClass::Whitespace, h + 3, h + 3);
    assert(scanner::function_head(line) is None) by {
        reveal(scanner::function_head);
    }
    assert(!scanner::python_def_start(line)) by {
        reveal(scanner::python_def_start);
        assert(content.take(h + 3) =~= content);
        text::lemma_tail_unique(content, CharClass::Whitespace, h + 3, h + 3);
        assert(scanner::code_of(line) =~= content);
    }
    text::lemma_tail_unique(line, CharClass::LineBlank, h + 3, h + 3);
    assert(scanner::backslashes_before(line, h + 2) == 0);
    assert(scanner::backslashes_before(line, h + 3) == 1);
    assert forall|k: int| 0 <= k < line.len() - 1 implies #[trigger] line[k] != '\n' by {
        if k < n {
            assert(line[k] == old[k]);
        } else if p <= k < p + op.len() {
            assert(line[k] == op[k - p]);
        }
    }
}

/// What follows the items of a list ends the statement, with the same line
/// endings, as it did before.
#[verifier::spinoff_prover]
#[verifier::rlimit(60)]
proof fn lemma_list_closing(text: Seq<char>, a: AssignmentParts)
    requires
        text.len() > 0,
        syntax::next_node(text) == Ok::<(int, NodeKind), ParseFault>(
            (text.len() as int, NodeKind::Assignment(a)),
        ),
        formatter::static_list(text, a) is Some,
    ensures
        ({
            let list = formatter::static_list(text, a)->0;
            let last = list_closing(text, list);
            &&& scanner::continuation_end(last, 0) == Some(last.len() as int)
            &&& formatter::common_ending(last, 0, Some(list.ending)) == Some(list.ending)
            &&& text::line_ending(last) == text::line_ending(text)
        }),
{
    lemma_assignment_facts(text, a);
    lemma_list_facts(text, a);
    let list = formatter::static_list(text, a)->0;
    let last = list_closing(text, list);
    let j = value_at(text, a);
    let c = closing_at(text, a);
    // The line of the closing quote.
    text::lemma_rfind(text, '\n', c);
    let o = text::rfind_before(text, '\n', c) + 1;
    let rest = text.skip(o);
    let head = seq![' ', ' ', ' ', ' ', list.quote];
    let k = c - o + 1;
    assert(rest[k - 1] == list.quote);
    let line = syntax::first_line(rest);
    text::lemma_line_end(rest, 0);
    assert(text::line_end(rest, 0) >= k) by {
        let e = text::line_end(rest, 0);
        if e < k {
            assert(rest[e - 1] == '\n');
            assert(text[o + e - 1] == '\n');
        }
    }
    assert(line[k - 1] == list.quote);
    assert(text::content_len(line) >= k);
    text::lemma_tail_unique(line, CharClass::Whitespace, k, k);
    text::lemma_tail_unique(head, CharClass::Whitespace, 5, 5);
    assert(reparse::replaceable(rest, head, k));
    lemma_suffix_ending(text, o, c);
    assert(reparse::rewritten(rest, head, k) =~= last) by {
        assert(rest.skip(k) =~= text.skip(c + 1));
        assert(text.skip(c + 1) =~= list.closing_tail + text::line_ending(text));
    }
    reparse::lemma_rewritten_lines(rest, head, k);
    // The statement.
    assert(scanner::continuation_end(text, 0) == Some(text.len() as int)) by {
        reveal(syntax::next_node);
        assert(text.subrange(0, text::line_end(text, 0)) =~= syntax::first_line(text));
    }
    listing::lemma_continued_later(text, 0, o);
    assert(reparse::same_tail(text, o, rest, 0));
    reparse::lemma_continuation_shift(text, o, rest, 0);
    listing::lemma_rewritten_end(rest, head, k);
    // The line endings.
    listing::lemma_ending_later(text, 0, o, None, list.ending);
    listing::lemma_ending_shift(text, o, rest, 0, Some(list.ending));
    listing::lemma_rewritten_endings(rest, head, k, Some(list.ending));
}

/// The parts of an assignment whose list is laid out.
spec fn list_again(text: Seq<char>, a: AssignmentParts) -> AssignmentParts {
    AssignmentParts {
        operator_at: formatter::left_of(text, a).len() as int + 1,
        value_end: text::content_len(
            formatter::list_output(text, a, formatter::static_list(text, a)->0),
        ),
        continued: true,
        ..a
    }
}

/// A list that is laid out is one statement with one line ending.
#[verifier::spinoff_prover]
#[verifier::rlimit(60)]
proof fn lemma_list_statement(text: Seq<char>, a: AssignmentParts)
    requires
        text.len() > 0,
        syntax::next_node(text) == Ok::<(int, NodeKind), ParseFault>(
            (text.len() as int, NodeKind::Assignment(a)),
        ),
        formatter::static_list(text, a) is Some,
    ensures
        ({
            let list = formatter::static_list(text, a)->0;
            let out = formatter::list_output(text, a, list);
            &&& syntax::first_line(out) == list_opening(text, a, list)
            &&& text::line_end(out, 0) == list_opening(text, a, list).len()
            &&& scanner::continuation_end(out, 0) == Some(out.len() as int)
            &&& formatter::common_ending(out, 0, None) == Some(list.ending)
            &&& text::line_ending(out) == text::line_ending(text)
            &&& text::content_len(out) == out.len() - text::line_ending(text).len()
        }),
{
    lemma_list_facts(text, a);
    lemma_list_opening(text, a);
    lemma_list_closing(text, a);
    let list = formatter::static_list(text, a)->0;
    let out = formatter::list_output(text, a, list);
    let first = list_opening(text, a, list);
    let last = list_closing(text, list);
    let mid = formatter::items_output(list.items, list.ending);
    lemma_list_lines(text, a, list);
    let e = first.len() as int;
    assert(out.skip(0) =~= first + (mid + last));
    listing::lemma_line_first(out, 0, first, mid + last);
    assert(syntax::first_line(out) =~= first) by {
        assert(out.take(e) =~= out.subrange(0, e));
    }
    listing::lemma_items_run(out, e, list.items, last, list.quote, list.ending);
    let p = e + mid.len();
    assert(reparse::same_tail(last, 0, out, p)) by {
        assert forall|d: int| 0 <= d < last.len() implies #[trigger] last[0 + d] == out[p + d] by {
            assert(out.skip(p)[d] == out[p + d]);
        }
    }
    reparse::lemma_continuation_shift(last, 0, out, p);
    listing::lemma_ending_shift(last, 0, out, p, Some(list.ending));
    assert(out.subrange(0, e) == first);
    assert(out.skip(p) == last);
    assert(last[4] == list.quote);
    assert(out[p + 4] == out.skip(p)[4]);
    lemma_suffix_ending(out, p, p + 4);
}

/// The quotes of a list that is laid out.
proof fn lemma_list_closes(list: ListView)
    requires
        scanner::is_quote(list.quote),
        listing::is_ending(list.ending),
        formatter::comment_or_blank(list.closing_tail),
        forall|k: int|
            0 <= k < list.items.len() ==> formatter::static_item(#[trigger] list.items[k], list.quote),
    ensures
        ({
            let close = listing::listed(list.items, list.ending).len() as int + 1;
            &&& formatter::closing_quote(list_value(list), 1, list.quote, false) == Some(close)
            &&& scanner::balanced_from(list_value(list), 1, Some(list.quote), false)
                == scanner::balanced_from(list_value(list), close + 1, None, false)
        }),
{
    let value = list_value(list);
    let contents = listing::listed(list.items, list.ending);
    let close = contents.len() as int + 1;
    listing::lemma_listed(list.items, list.quote, list.ending);
    assert forall|k: int| 1 <= k < close implies #[trigger] value[k] != list.quote by {
        assert(value[k] == contents[k - 1]);
    }
    assert(value[close] == list.quote);
    assert(value[close - 1] == contents[contents.len() - 1]);
    assert(value.skip(close + 1) =~= list.closing_tail);
    listing::lemma_closing_found(value, 1, close, list.quote, false);
    listing::lemma_balanced_quoted(value, 1, close, list.quote, false);
}

/// The value of a list that is laid out holds the list.
#[verifier::spinoff_prover]
#[verifier::rlimit(60)]
proof fn lemma_list_value(text: Seq<char>, a: AssignmentParts)
    requires
        text.len() > 0,
        syntax::next_node(text) == Ok::<(int, NodeKind), ParseFault>(
            (text.len() as int, NodeKind::Assignment(a)),
        ),
        formatter::static_list(text, a) is Some,
    ensures
        ({
            let list = formatter::static_list(text, a)->0;
            let out = formatter::list_output(text, a, list);
            let b = list_again(text, a);
            &&& formatter::value_body(out, b) == list_value(list)
            &&& scanner::balanced_from(syntax::value_of(out, b), 0, None, false)
            &&& formatter::closing_quote(list_value(list), 1, list.quote, false) == Some(
                listing::listed(list.items, list.ending).len() as int + 1,
            )
        }),
{
    lemma_list_facts(text, a);
    lemma_list_statement(text, a);
    let list = formatter::static_list(text, a)->0;
    let out = formatter::list_output(text, a, list);
    let b = list_again(text, a);
    let head = list_head(text, a);
    let value = list_value(list);
    let contents = listing::listed(list.items, list.ending);
    let close = contents.len() as int + 1;
    lemma_list_lines(text, a, list);
    let h = head.len() as int;
    lemma_operator_chars(a.operator);
    assert(syntax::value_start(b) == h - 1);
    let v = syntax::value_of(out, b);
    assert(v =~= seq![' '] + value) by {
        assert(out.subrange(h, b.value_end) =~= value);
        assert(out[h - 1] == head[h - 1]);
    }
    assert(v[0] == ' ' && v[1] == list.quote);
    text::lemma_lead_unique(v, CharClass::Indent, 0, 1);
    assert(formatter::value_body(out, b) =~= value);
    lemma_list_closes(list);
    assert(value[0] == list.quote);
    assert(value.skip(close + 1) =~= list.closing_tail);
    let old = formatter::value_body(text, a);
    let c = closing_at(text, a) - value_at(text, a);
    assert(reparse::same_tail(old, c + 1, value, close + 1)) by {
        assert forall|d: int| 0 <= d < old.len() - (c + 1) implies #[trigger] old[c + 1 + d]
            == value[close + 1 + d] by {
            assert(value.skip(close + 1)[d] == value[close + 1 + d]);
            assert(list.closing_tail[d] == text[closing_at(text, a) + 1 + d]);
        }
    }
    reparse::lemma_balanced_shift(old, c + 1, value, close + 1, None, false);
    assert(scanner::balanced_from(value, 0, None, false) == scanner::balanced_from(
        value,
        1,
        Some(list.quote),
        false,
    ));
    assert(reparse::is_plain(v[0]));
    reparse::lemma_balanced_plain(v, 0, 1);
    assert(reparse::same_tail(value, 0, v, 1));
    reparse::lemma_balanced_shift(value, 0, v, 1, None, false);
}

/// An assignment whose value is a list that is laid out holds that list.
proof fn lemma_list_read(out: Seq<char>, b: AssignmentParts, list: ListView)
    requires
        b.continued,
        scanner::is_quote(list.quote),
        listing::is_ending(list.ending),
        list.items.len() >= 2,
        forall|k: int|
            0 <= k < list.items.len() ==> formatter::static_item(#[trigger] list.items[k], list.quote),
        formatter::value_body(out, b) == list_value(list),
        formatter::common_ending(out, 0, None) == Some(list.ending),
        formatter::known_list(out.subrange(b.name, b.name_end)),
        formatter::closing_quote(list_value(list), 1, list.quote, false) == Some(
            listing::listed(list.items, list.ending).len() as int + 1,
        ),
    ensures
        formatter::static_list(out, b) == Some(list),
{
    let value = list_value(list);
    let contents = listing::listed(list.items, list.ending);
    assert(value[0] == list.quote);
    assert(value.subrange(1, contents.len() as int + 1) =~= contents);
    assert(value.skip(contents.len() as int + 2) =~= list.closing_tail);
    listing::lemma_listed(list.items, list.quote, list.ending);
    reveal(formatter::static_list);
}

/// An assignment whose list is laid out is the same assignment with the same
/// list, and formatting it again changes nothing.
#[verifier::spinoff_prover]
#[verifier::rlimit(60)]
proof fn lemma_list_again(text: Seq<char>, a: AssignmentParts)
    requires
        text.len() > 0,
        syntax::next_node(text) == Ok::<(int, NodeKind), ParseFault>(
            (text.len() as int, NodeKind::Assignment(a)),
        ),
        formatter::static_list(text, a) is Some,
    ensures
        ({
            let list = formatter::static_list(text, a)->0;
            let out = formatter::list_output(text, a, list);
            let b = list_again(text, a);
            &&& syntax::next_node(out) == Ok::<(int, NodeKind), ParseFault>(
                (out.len() as int, NodeKind::Assignment(b)),
            )
            &&& formatter::static_list(out, b) == Some(list)
            &&& formatter::list_output(out, b, list) == out
        }),
{
    lemma_assignment_facts(text, a);
    lemma_name_bounds(text, a);
    lemma_list_facts(text, a);
    lemma_list_opening(text, a);
    lemma_list_statement(text, a);
    lemma_list_value(text, a);
    let list = formatter::static_list(text, a)->0;
    let out = formatter::list_output(text, a, list);
    let b = list_again(text, a);
    let head = list_head(text, a);
    let left = formatter::left_of(text, a);
    let n = left.len() as int;
    let line = list_opening(text, a, list);
    let content = text::line_content(line);
    // The left-hand side.
    let before = content.take(n + 1);
    assert(before =~= head.take(n + 1)) by {
        assert(content.take(head.len() as int).take(n + 1) =~= content.take(n + 1));
    }
    assert(before[n] == ' ');
    assert(before[n - 1] == left.last());
    assert forall|k: int| n <= k < n + 1 implies text::in_class(
        CharClass::Whitespace,
        #[trigger] before[k],
    ) by {}
    text::lemma_tail_unique(before, CharClass::Whitespace, n, n + 1);
    assert(before.take(n) =~= left);
    assert(syntax::assignment_parts(out, true) == Some(b)) by {
        reveal(syntax::assignment_parts);
    }
    // The statement.
    assert(content[0] == left[0]) by {
        assert(before[0] == content[0]);
        assert(before.take(n)[0] == before[0]);
    }
    assert(line[0] == content[0]);
    assert(text::lead_from(content, CharClass::Indent, 0) == 0);
    assert(!text::blank_line(line)) by {
        assert(!text::in_class(CharClass::LineBlank, line[0]));
    }
    assert(syntax::statement_kind(out, true) == Ok::<NodeKind, ParseFault>(NodeKind::Assignment(b))) by {
        reveal(syntax::statement_kind);
    }
    assert(out.take(out.len() as int) =~= out);
    assert(syntax::next_node(out) == Ok::<(int, NodeKind), ParseFault>(
        (out.len() as int, NodeKind::Assignment(b)),
    )) by {
        reveal(syntax::next_node);
    }
    // The list.
    lemma_list_lines(text, a, list);
    assert(out.take(n + 1) =~= before) by {
        assert(out.take(line.len() as int) == line);
        assert forall|k: int| 0 <= k < n + 1 implies out.take(n + 1)[k] == #[trigger] before[k] by {
            assert(line[k] == content[k]);
            assert(out.take(line.len() as int)[k] == out[k]);
        }
    }
    assert(formatter::left_of(out, b) =~= left);
    assert(out.subrange(b.name, b.name_end) =~= left.subrange(b.name, b.name_end)) by {
        assert forall|k: int| b.name <= k < b.name_end implies #[trigger] out[k] == left[k] by {
            assert(out.take(n + 1)[k] == before[k]);
            assert(before.take(n)[k] == before[k]);
        }
    }
    assert(text.subrange(a.name, a.name_end) =~= left.subrange(a.name, a.name_end)) by {
        assert forall|k: int| a.name <= k < a.name_end implies #[trigger] text[k] == left[k] by {
            let old = text::line_content(syntax::first_line(text));
            assert(old.take(n)[k] == old[k]);
        }
    }
    lemma_list_read(out, b, list);
    assert(formatter::list_output(out, b, list) =~= out);
}

// ---------------------------------------------------------------------------
// Directives
// ---------------------------------------------------------------------------
/// Keywords are words of name characters, and none starts like `def`, a
/// function modifier or, but for itself, the word `export`.
proof fn lemma_keyword_facts(keyword: DirectiveKeyword)
    ensures
        syntax::keyword_chars(keyword).len() >= 5,
        forall|k: int|
            0 <= k < syntax::keyword_chars(keyword).len() ==> {
                let c = #[trigger] syntax::keyword_chars(keyword)[k];
                &&& text::is_alnum(c) || c == '_'
                &&& reparse::is_plain(c) && reparse::starts_no_operator(c) && !text::is_ws(c)
                &&& c != '{' && c != '(' && c != ')' && c != '\\' && c != '\n'
            },
        syntax::keyword_chars(keyword)[0] != 'p',
        syntax::keyword_chars(keyword)[0] != 'f',
        syntax::keyword_chars(keyword)[0] != 'd' || syntax::keyword_chars(keyword)[2] != 'f',
        keyword != DirectiveKeyword::Export ==> syntax::keyword_chars(keyword)[0] != 'e',
        syntax::keyword_chars(DirectiveKeyword::Export) == scanner::export_word(),
{
    reveal_strlit("include");
    assert("include"@ =~= seq!['i', 'n', 'c', 'l', 'u', 'd', 'e']);
    reveal_strlit("include_all");
    assert("include_all"@ =~= seq!['i', 'n', 'c', 'l', 'u', 'd', 'e', '_', 'a', 'l', 'l']);
    reveal_strlit("require");
    assert("require"@ =~= seq!['r', 'e', 'q', 'u', 'i', 'r', 'e']);
    reveal_strlit("inherit");
    assert("inherit"@ =~= seq!['i', 'n', 'h', 'e', 'r', 'i', 't']);
    reveal_strlit("inherit_defer");
    assert("inherit_defer"@ =~= seq!['i', 'n', 'h', 'e', 'r', 'i', 't', '_', 'd', 'e', 'f', 'e', 'r']);
    reveal_strlit("addfragments");
    assert("addfragments"@ =~= seq!['a', 'd', 'd', 'f', 'r', 'a', 'g', 'm', 'e', 'n', 't', 's']);
    reveal_strlit("addpylib");
    assert("addpylib"@ =~= seq!['a', 'd', 'd', 'p', 'y', 'l', 'i', 'b']);
    reveal_strlit("addhandler");
    assert("addhandler"@ =~= seq!['a', 'd', 'd', 'h', 'a', 'n', 'd', 'l', 'e', 'r']);
    reveal_strlit("addtask");
    assert("addtask"@ =~= seq!['a', 'd', 'd', 't', 'a', 's', 'k']);
    reveal_strlit("deltask");
    assert("deltask"@ =~= seq!['d', 'e', 'l', 't', 'a', 's', 'k']);
    reveal_strlit("EXPORT_FUNCTIONS");
    assert("EXPORT_FUNCTIONS"@ =~= seq!['E', 'X', 'P', 'O', 'R', 'T', '_', 'F', 'U', 'N', 'C', 'T', 'I', 'O', 'N', 'S']);
    reveal_strlit("export");
    assert("export"@ =~= seq!['e', 'x', 'p', 'o', 'r', 't']);
    reveal_strlit("unset");
    assert("unset"@ =~= seq!['u', 'n', 's', 'e', 't']);
}

/// What precedes the arguments in a formatted directive.
pub open spec fn directive_head(text: Seq<char>, d: DirectiveParts) -> Seq<char> {
    syntax::keyword_chars(d.keyword) + if d.arguments == d.arguments_end {
        Seq::<char>::empty()
    } else {
        seq![' ']
    }
}

/// The facts about a directive that its node gives.
#[verifier::spinoff_prover]
#[verifier::rlimit(60)]
pub proof fn lemma_directive_facts(text: Seq<char>, d: DirectiveParts)
    requires
        text.len() > 0,
        syntax::next_node(text) == Ok::<(int, NodeKind), ParseFault>(
            (text.len() as int, NodeKind::Directive(d)),
        ),
    ensures
        ({
            let line = syntax::first_line(text);
            let content = text::line_content(line);
            let word = syntax::keyword_chars(d.keyword);
            &&& scanner::function_head(line) is None
            &&& !scanner::python_def_start(line)
            &&& syntax::assignment_parts(text, scanner::continued_line(line)) is None
            &&& d.continued == scanner::continued_line(line)
            &&& word.len() <= d.arguments <= content.len()
            &&& content.take(word.len() as int) == word
            &&& content.len() == text::content_len(line) <= text::content_len(text)
            &&& d.arguments_end == text::content_len(text)
            &&& forall|k: int| word.len() <= k < d.arguments ==> text::is_ws(#[trigger] content[k])
            &&& d.arguments < d.arguments_end ==> !text::is_ws(text[d.arguments]) && word.len()
                < d.arguments && d.arguments < content.len()
            &&& forall|k: int| 0 <= k < content.len() ==> #[trigger] content[k] == text[k]
            &&& forall|k: int| 0 <= k < content.len() ==> #[trigger] content[k] != '\n'
            &&& content.len() <= text.len()
        }),
{
    reveal(syntax::next_node);
    reveal(syntax::statement_kind);
    syntax::lemma_next_node(text);
    let line = syntax::first_line(text);
    let content = text::line_content(line);
    let whole = text::line_content(text);
    text::lemma_line_end(text, 0);
    let e = text::line_end(text, 0);
    let c = scanner::continued_line(line);
    if c {
        assert(text.take(text.len() as int) =~= text);
    } else {
        assert(line =~= text);
    }
    assert(syntax::statement_kind(text, c) == Ok::<NodeKind, ParseFault>(NodeKind::Directive(d)));
    let w = text::until_from(whole, CharClass::Whitespace, 0);
    text::lemma_until(whole, CharClass::Whitespace, 0);
    text::lemma_lead(whole, CharClass::Whitespace, w);
    let word = syntax::keyword_chars(d.keyword);
    assert(word == whole.take(w));
    lemma_keyword_facts(d.keyword);
    if e < text.len() {
        assert(text[e - 1] == '\n');
    }
    assert(text::content_len(line) <= text::content_len(text));
    assert(w <= text::content_len(line)) by {
        if w > text::content_len(line) {
            let k = text::content_len(line);
            assert(whole.take(w)[k] == text[k]);
            assert(text::is_ws(text[k]));
        }
    }
    assert(content.take(w) =~= word) by {
        assert forall|k: int| 0 <= k < w implies content.take(w)[k] == #[trigger] word[k] by {
            assert(whole.take(w)[k] == word[k]);
        }
    }
    let j = d.arguments;
    assert(j <= text::content_len(line)) by {
        if c {
            let t = text::tail_from(line, CharClass::LineBlank, text::content_len(line));
            text::lemma_tail(line, CharClass::LineBlank, text::content_len(line));
            assert(t > 0 && line[t - 1] == '\\');
            assert(line[t - 1] == text[t - 1]);
            assert(t - 1 >= w) by {
                if t - 1 < w {
                    assert(whole.take(w)[t - 1] == word[t - 1]);
                }
            }
            if j > t - 1 {
                assert(text::in_class(CharClass::Whitespace, whole[t - 1]));
            }
        }
    }
    assert forall|k: int| w <= k < j implies text::is_ws(#[trigger] content[k]) by {
        assert(text::in_class(CharClass::Whitespace, whole[k]));
    }
    if j < d.arguments_end {
        assert(!text::in_class(CharClass::Whitespace, whole[j]));
        assert(text::in_class(CharClass::Whitespace, whole[w])) by {
            if w >= whole.len() {
                assert(j == w);
            }
        }
        assert(j < text::content_len(line)) by {
            if c {
                let t = text::tail_from(line, CharClass::LineBlank, text::content_len(line));
                text::lemma_tail(line, CharClass::LineBlank, text::content_len(line));
                assert(t > 0 && line[t - 1] == '\\');
                assert(line[t - 1] == text[t - 1]);
                if j > t - 1 {
                    assert(t - 1 >= w) by {
                        if t - 1 < w {
                            assert(whole.take(w)[t - 1] == word[t - 1]);
                        }
                    }
                    assert(text::in_class(CharClass::Whitespace, whole[t - 1]));
                }
            }
        }
    }
    assert forall|k: int| 0 <= k < content.len() implies #[trigger] content[k] != '\n' by {
        assert(content[k] == text[k]);
    }
}

/// A formatted directive is its text with another head.
#[verifier::spinoff_prover]
#[verifier::rlimit(60)]
pub proof fn lemma_directive_rewritten(text: Seq<char>, d: DirectiveParts)
    requires
        text.len() > 0,
        syntax::next_node(text) == Ok::<(int, NodeKind), ParseFault>(
            (text.len() as int, NodeKind::Directive(d)),
        ),
    ensures
        reparse::replaceable(text, directive_head(text, d), d.arguments),
        formatter::directive_output(text, d) == reparse::rewritten(text, directive_head(text, d), d.arguments),
{
    lemma_directive_facts(text, d);
    let line = syntax::first_line(text);
    let content = text::line_content(line);
    let word = syntax::keyword_chars(d.keyword);
    let head = directive_head(text, d);
    let j = d.arguments;
    let n = word.len() as int;
    lemma_keyword_facts(d.keyword);
    text::lemma_line_end(text, 0);
    assert(formatter::directive_output(text, d) =~= reparse::rewritten(text, head, j)) by {
        assert(text.skip(j) =~= text.subrange(j, d.arguments_end) + text::line_ending(text));
    }
    assert(line[n - 1] == word[n - 1]) by {
        assert(content.take(n)[n - 1] == word[n - 1]);
    }
    assert forall|k: int| n <= k < j implies text::in_class(CharClass::Whitespace, #[trigger] line[k]) by {
        assert(text::is_ws(content[k]));
    }
    text::lemma_tail_unique(line, CharClass::Whitespace, n, j);
    assert(head[n - 1] == word[n - 1]);
    assert forall|k: int| n <= k < head.len() implies text::in_class(
        CharClass::Whitespace,
        #[trigger] head[k],
    ) by {}
    text::lemma_tail_unique(head, CharClass::Whitespace, n, head.len() as int);
    assert forall|k: int| 0 <= k < head.len() implies #[trigger] head[k] != '\n' by {
        if k < n {
            assert(head[k] == word[k]);
        }
    }
}

/// The scans of a formatted directive find what they found before.
#[verifier::spinoff_prover]
#[verifier::rlimit(60)]
proof fn lemma_directive_scans(text: Seq<char>, d: DirectiveParts)
    requires
        text.len() > 0,
        syntax::next_node(text) == Ok::<(int, NodeKind), ParseFault>(
            (text.len() as int, NodeKind::Directive(d)),
        ),
    ensures
        ({
            let content = text::line_content(syntax::first_line(text));
            let head = directive_head(text, d);
            let j = d.arguments;
            let out = text::line_content(syntax::first_line(reparse::rewritten(text, head, j)));
            &&& scanner::code_end(out) - head.len() == scanner::code_end(content) - j
            &&& scanner::code_end(content) >= j
            &&& out == head + content.skip(j)
            &&& scanner::operator_from(content, 0, None, false) == scanner::operator_from(content, j, None, false)
            &&& scanner::operator_from(out, 0, None, false) == scanner::operator_from(
                out,
                head.len() as int,
                None,
                false,
            )
            &&& reparse::same_tail(content, j, out, head.len() as int)
        }),
{
    lemma_directive_facts(text, d);
    lemma_directive_rewritten(text, d);
    let content = text::line_content(syntax::first_line(text));
    let head = directive_head(text, d);
    let word = syntax::keyword_chars(d.keyword);
    let j = d.arguments;
    let n = word.len() as int;
    let h = head.len() as int;
    reparse::lemma_rewritten_lines(text, head, j);
    lemma_keyword_facts(d.keyword);
    let out = text::line_content(syntax::first_line(reparse::rewritten(text, head, j)));
    assert forall|k: int| 0 <= k < j implies reparse::is_plain(#[trigger] content[k])
        && reparse::starts_no_operator(content[k]) by {
        if k < n {
            assert(content.take(n)[k] == word[k]);
        } else {
            assert(text::is_ws(content[k]));
        }
    }
    reparse::lemma_comment_plain(content, 0, j);
    reparse::lemma_operator_plain(content, 0, j);
    assert forall|k: int| 0 <= k < h implies reparse::is_plain(#[trigger] out[k]) && reparse::starts_no_operator(
        out[k],
    ) by {
        assert(out[k] == head[k]);
        if k < n {
            assert(head[k] == word[k]);
        }
    }
    reparse::lemma_comment_plain(out, 0, h);
    reparse::lemma_operator_plain(out, 0, h);
    assert(reparse::same_tail(content, j, out, h));
    reparse::lemma_comment_shift(content, j, out, h, None, false);
    syntax::lemma_comment_from(content, j, None, false);
}

/// A formatted directive opens neither a function body nor a definition.
#[verifier::spinoff_prover]
#[verifier::rlimit(60)]
proof fn lemma_directive_no_block(text: Seq<char>, d: DirectiveParts)
    requires
        text.len() > 0,
        syntax::next_node(text) == Ok::<(int, NodeKind), ParseFault>(
            (text.len() as int, NodeKind::Directive(d)),
        ),
    ensures
        scanner::function_head(syntax::first_line(formatter::directive_output(text, d))) is None,
        !scanner::python_def_start(syntax::first_line(formatter::directive_output(text, d))),
{
    lemma_directive_facts(text, d);
    lemma_directive_rewritten(text, d);
    lemma_directive_scans(text, d);
    let head = directive_head(text, d);
    let word = syntax::keyword_chars(d.keyword);
    let j = d.arguments;
    let n = word.len() as int;
    let h = head.len() as int;
    let whole = reparse::rewritten(text, head, j);
    let content = text::line_content(syntax::first_line(text));
    reparse::lemma_rewritten_lines(text, head, j);
    lemma_keyword_facts(d.keyword);
    if scanner::function_head(syntax::first_line(whole)) is Some {
        reparse::lemma_rewritten_function(text, head, j);
        let g = scanner::head_paren(syntax::first_line(whole)) - h;
        let words = whole.take(h + g);
        assert(j < d.arguments_end);
        assert(words[0] == word[0]);
        assert(text::lead_from(words, CharClass::Whitespace, 0) == 0);
        assert(words.skip(0) =~= words);
        let e = text::tail_from(words, CharClass::Whitespace, h + g);
        text::lemma_tail(words, CharClass::Whitespace, h + g);
        assert(words[n - 1] == word[n - 1]);
        if g == 0 {
            assert forall|k: int| n <= k < h implies text::in_class(
                CharClass::Whitespace,
                #[trigger] words[k],
            ) by {
                assert(words[k] == head[k]);
            }
            text::lemma_tail_unique(words, CharClass::Whitespace, n, h);
            assert(words.take(n) =~= word);
            let old = text.take(j);
            assert(old[0] == content.take(n)[0]);
            assert(text::lead_from(old, CharClass::Whitespace, 0) == 0);
            assert(old.skip(0) =~= old);
            assert forall|k: int| n <= k < j implies text::in_class(
                CharClass::Whitespace,
                #[trigger] old[k],
            ) by {
                assert(text::is_ws(content[k]));
            }
            assert(old[n - 1] == content.take(n)[n - 1]);
            text::lemma_tail_unique(old, CharClass::Whitespace, n, j);
            assert(old.take(n) =~= word) by {
                assert(old.take(n) =~= content.take(n));
            }
        } else {
            assert(words[h] == text[j]);
            assert(e > h) by {
                if e <= h {
                    assert(text::is_ws(words[h]));
                }
            }
            let decl = words.take(e);
            assert(decl[0] == word[0]);
            lemma_no_modifier(decl, FunctionKind::Shell);
            assert(decl[n] == ' ') by {
                assert(words[n] == head[n]);
            }
            assert(text::is_ascii_ws(decl[n]));
            assert(!reparse::valid_declaration(decl)) by {
                reveal(reparse::valid_declaration);
            }
        }
    }
    let line = syntax::first_line(whole);
    if scanner::python_def_start(line) {
        reveal(scanner::python_def_start);
        let code = scanner::code_of(line);
        syntax::lemma_code_end(text::line_content(line));
        text::lemma_tail(
            text::line_content(line).take(scanner::code_end(text::line_content(line))),
            CharClass::Whitespace,
            scanner::code_end(text::line_content(line)),
        );
        assert(code.take(4)[0] == 'd' && code.take(4)[2] == 'f');
        assert(line[0] == head[0] && line[2] == head[2]);
        assert(head[0] == word[0] && head[2] == word[2]);
    }
}

/// A formatted directive is no assignment.
#[verifier::spinoff_prover]
#[verifier::rlimit(60)]
proof fn lemma_directive_no_assignment(text: Seq<char>, d: DirectiveParts)
    requires
        text.len() > 0,
        syntax::next_node(text) == Ok::<(int, NodeKind), ParseFault>(
            (text.len() as int, NodeKind::Directive(d)),
        ),
    ensures
        syntax::assignment_parts(formatter::directive_output(text, d), d.continued) is None,
{
    lemma_directive_facts(text, d);
    lemma_directive_rewritten(text, d);
    lemma_directive_scans(text, d);
    let head = directive_head(text, d);
    let word = syntax::keyword_chars(d.keyword);
    let j = d.arguments;
    let n = word.len() as int;
    let h = head.len() as int;
    let content = text::line_content(syntax::first_line(text));
    reparse::lemma_rewritten_lines(text, head, j);
    let out = text::line_content(syntax::first_line(reparse::rewritten(text, head, j)));
    lemma_keyword_facts(d.keyword);
    reparse::lemma_operator_shift(content, j, out, h, None, false);
    reveal(syntax::assignment_parts);
    if let Some((i, operator)) = scanner::operator_from(content, 0, None, false) {
        formatter::lemma_operator_from(content, j, None, false);
        let p = i - j + h;
        let before = content.take(i);
        let e = text::tail_from(before, CharClass::Whitespace, i);
        text::lemma_tail(before, CharClass::Whitespace, i);
        let left = text::trimmed_end(before, CharClass::Whitespace);
        assert(!scanner::assignment_left(left));
        if i == j {
            assert forall|k: int| n <= k < j implies text::in_class(
                CharClass::Whitespace,
                #[trigger] before[k],
            ) by {
                assert(text::is_ws(content[k]));
            }
            assert(before[n - 1] == content.take(n)[n - 1]);
            text::lemma_tail_unique(before, CharClass::Whitespace, n, j);
            assert(left =~= word) by {
                assert(left =~= content.take(n));
            }
            assert(!scanner::is_exported(word)) by {
                if scanner::is_exported(word) {
                    assert(word.take(6)[0] == 'e');
                }
            }
            assert(word.skip(0) =~= word);
            assert forall|k: int| 0 <= k < word.len() implies scanner::is_name_char(#[trigger] word[k]) by {}
            lemma_word_is_name(word, 0);
            assert(scanner::assignment_left(word));
        } else {
            assert(j < d.arguments_end);
            assert(before[j] == text[j]);
            assert(e > j) by {
                if e <= j {
                    assert(text::is_ws(before[j]));
                }
            }
            let shifted = out.take(p);
            let f = e - j + h;
            assert forall|k: int| f <= k < p implies text::in_class(
                CharClass::Whitespace,
                #[trigger] shifted[k],
            ) by {
                assert(shifted[k] == before[k - h + j]);
            }
            assert(shifted[f - 1] == before[e - 1]);
            text::lemma_tail_unique(shifted, CharClass::Whitespace, f, p);
            let again = text::trimmed_end(shifted, CharClass::Whitespace);
            assert(again =~= out.take(f));
            assert(again[n] == ' ') by {
                assert(out[n] == head[n]);
            }
            assert(again[0] == word[0]);
            if scanner::assignment_left(again) {
                if d.keyword == DirectiveKeyword::Export {
                    assert(again.take(6) =~= scanner::export_word()) by {
                        assert forall|k: int| 0 <= k < 6 implies again.take(6)[k]
                            == #[trigger] scanner::export_word()[k] by {
                            assert(head[k] == word[k]);
                        }
                    }
                    assert(left.take(6) =~= scanner::export_word()) by {
                        assert forall|k: int| 0 <= k < 6 implies left.take(6)[k]
                            == #[trigger] scanner::export_word()[k] by {
                            assert(content.take(n)[k] == word[k]);
                        }
                    }
                    assert(again[7] == text[j]);
                    assert(text::in_class(CharClass::Whitespace, again[6]));
                    text::lemma_lead_unique(again, CharClass::Whitespace, 6, 7);
                    assert forall|k: int| 6 <= k < j implies text::in_class(
                        CharClass::Whitespace,
                        #[trigger] left[k],
                    ) by {
                        assert(text::is_ws(content[k]));
                    }
                    assert(left[j] == text[j]);
                    text::lemma_lead_unique(left, CharClass::Whitespace, 6, j);
                    assert(text::is_ws(left[6])) by {
                        assert(text::in_class(CharClass::Whitespace, left[6]));
                    }
                    assert(again.skip(7) =~= left.skip(j)) by {
                        assert forall|k: int| 0 <= k < e - j implies #[trigger] again.skip(7)[k]
                            == left.skip(j)[k] by {
                            assert(out[7 + k] == content[j + k]);
                        }
                    }
                    assert(false);
                } else {
                    if scanner::is_exported(again) {
                        assert(again.take(6)[0] == 'e');
                    }
                    assert(again.skip(0) =~= again);
                    lemma_name_clean(again, 0, false);
                    assert(text::is_ascii_ws(again[n]));
                    assert(false);
                }
            }
        }
    }
}

/// The parts of a formatted directive.
spec fn directive_again(text: Seq<char>, d: DirectiveParts) -> DirectiveParts {
    DirectiveParts {
        arguments: directive_head(text, d).len() as int,
        arguments_end: text::content_len(formatter::directive_output(text, d)),
        ..d
    }
}

/// A formatted directive is the same directive, and formatting it again changes
/// nothing.
#[verifier::spinoff_prover]
#[verifier::rlimit(60)]
proof fn lemma_directive_again(text: Seq<char>, d: DirectiveParts)
    requires
        text.len() > 0,
        syntax::next_node(text) == Ok::<(int, NodeKind), ParseFault>(
            (text.len() as int, NodeKind::Directive(d)),
        ),
    ensures
        syntax::next_node(formatter::directive_output(text, d)) == Ok::<(int, NodeKind), ParseFault>(
            (
                formatter::directive_output(text, d).len() as int,
                NodeKind::Directive(directive_again(text, d)),
            ),
        ),
        formatter::directive_output(formatter::directive_output(text, d), directive_again(text, d)) == formatter::directive_output(
            text,
            d,
        ),
{
    lemma_directive_facts(text, d);
    lemma_directive_rewritten(text, d);
    lemma_directive_no_block(text, d);
    lemma_directive_no_assignment(text, d);
    let head = directive_head(text, d);
    let word = syntax::keyword_chars(d.keyword);
    let j = d.arguments;
    let n = word.len() as int;
    let h = head.len() as int;
    let out = formatter::directive_output(text, d);
    let b = directive_again(text, d);
    reparse::lemma_rewritten_lines(text, head, j);
    lemma_keyword_facts(d.keyword);
    let whole = text::line_content(out);
    assert forall|k: int| 0 <= k < n implies !text::in_class(
        CharClass::Whitespace,
        #[trigger] whole[k],
    ) by {
        assert(whole[k] == word[k]);
    }
    if j < d.arguments_end {
        assert(whole[n] == ' ');
        assert(whole[h] == text[j]);
    } else {
        assert(whole.len() == n);
    }
    text::lemma_until_unique(whole, CharClass::Whitespace, 0, n);
    text::lemma_lead_unique(whole, CharClass::Whitespace, n, h);
    assert(whole.take(n) =~= word);
    assert(syntax::directive_parts(out, d.continued) == Some(b)) by {
        assert(syntax::keyword_chars(d.keyword) == whole.take(n));
        syntax::lemma_keywords_distinct(d.keyword, syntax::directive_parts(out, d.continued)->0.keyword);
    }
    let line = syntax::first_line(out);
    let content = text::line_content(line);
    assert(content[0] == word[0]);
    assert(text::lead_from(content, CharClass::Indent, 0) == 0);
    assert(!text::blank_line(line)) by {
        assert(line[0] == word[0]);
        assert(!text::in_class(CharClass::LineBlank, line[0]));
    }
    assert(syntax::statement_kind(out, d.continued) == Ok::<NodeKind, ParseFault>(NodeKind::Directive(b)))
        by {
        reveal(syntax::statement_kind);
    }
    reparse::lemma_rewritten_node(text, head, j, NodeKind::Directive(b));
    assert(out.subrange(h, b.arguments_end) =~= text.subrange(j, d.arguments_end));
    assert(formatter::directive_output(out, b) =~= out);
}

// ---------------------------------------------------------------------------
// Classes
// ---------------------------------------------------------------------------
/// A directive names the same classes once it is formatted.
proof fn lemma_classes_kept(text: Seq<char>, d: DirectiveParts)
    requires
        text.len() > 0,
        syntax::next_node(text) == Ok::<(int, NodeKind), ParseFault>(
            (text.len() as int, NodeKind::Directive(d)),
        ),
    ensures
        formatter::static_classes(formatter::directive_output(text, d), directive_again(text, d))
            == formatter::static_classes(text, d),
{
    lemma_directive_facts(text, d);
    lemma_directive_rewritten(text, d);
    let out = formatter::directive_output(text, d);
    let b = directive_again(text, d);
    let head = directive_head(text, d);
    reparse::lemma_rewritten_lines(text, head, d.arguments);
    assert(out.subrange(b.arguments, b.arguments_end) =~= text.subrange(d.arguments, d.arguments_end))
        by {
        assert forall|k: int| 0 <= k < d.arguments_end - d.arguments implies #[trigger] text[d.arguments
            + k] == out[head.len() + k] by {}
    }
}

/// The first line of a directive whose classes are laid out.
spec fn classes_opening(keyword: DirectiveKeyword, ending: Seq<char>) -> Seq<char> {
    syntax::keyword_chars(keyword) + seq![' ', '\\'] + ending
}

/// The last line of a directive whose classes are laid out.
spec fn classes_closing(classes: Seq<Seq<char>>, ending: Seq<char>) -> Seq<char> {
    seq![' ', ' ', ' ', ' '] + classes.last() + ending
}

/// The parts of a directive whose classes are laid out.
spec fn classes_again(text: Seq<char>, d: DirectiveParts) -> DirectiveParts {
    let ending = text::line_ending(text);
    let out = formatter::classes_output(d.keyword, formatter::static_classes(text, d)->0, ending);
    DirectiveParts {
        keyword: d.keyword,
        arguments: syntax::keyword_chars(d.keyword).len() as int + 1,
        arguments_end: out.len() - ending.len(),
        continued: true,
    }
}

/// The first line of a directive whose classes are laid out opens no block and
/// is continued.
#[verifier::spinoff_prover]
#[verifier::rlimit(60)]
proof fn lemma_classes_opening(keyword: DirectiveKeyword, ending: Seq<char>)
    requires
        keyword == DirectiveKeyword::Inherit || keyword == DirectiveKeyword::InheritDefer,
        listing::is_ending(ending),
    ensures
        ({
            let line = classes_opening(keyword, ending);
            let content = text::line_content(line);
            let n = syntax::keyword_chars(keyword).len() as int;
            &&& line.last() == '\n'
            &&& forall|k: int| 0 <= k < line.len() - 1 ==> #[trigger] line[k] != '\n'
            &&& text::line_ending(line) == ending
            &&& scanner::function_head(line) is None
            &&& !scanner::python_def_start(line)
            &&& scanner::continued_line(line)
            &&& scanner::operator_from(content, 0, None, false) is None
            &&& content == syntax::keyword_chars(keyword) + seq![' ', '\\']
        }),
{
    lemma_keyword_facts(keyword);
    let word = syntax::keyword_chars(keyword);
    let n = word.len() as int;
    let line = classes_opening(keyword, ending);
    assert(line.len() == n + 2 + ending.len());
    assert(line[n] == ' ' && line[n + 1] == '\\');
    assert(text::content_len(line) == n + 2);
    assert(text::line_ending(line) =~= ending);
    let content = text::line_content(line);
    assert(content =~= word + seq![' ', '\\']);
    assert forall|k: int| 0 <= k < n + 1 implies reparse::is_plain(#[trigger] content[k])
        && reparse::starts_no_operator(content[k]) by {
        if k < n {
            assert(content[k] == word[k]);
        }
    }
    reparse::lemma_comment_plain(content, 0, n + 1);
    assert(scanner::comment_from(content, n + 1, None, false) == scanner::comment_from(
        content,
        n + 2,
        None,
        true,
    ));
    assert(scanner::code_end(content) == n + 2);
    reparse::lemma_operator_plain(content, 0, n + 1);
    assert(operator::operator_at(content, n + 1) is None);
    assert(scanner::operator_from(content, n + 1, None, false) is None) by {
        assert(scanner::operator_from(content, n + 2, None, true) is None);
        assert(scanner::operator_from(content, n + 2, None, false) is None);
    }
    text::lemma_tail_unique(line, CharClass::Whitespace, n + 2, n + 2);
    assert(scanner::function_head(line) is None) by {
        reveal(scanner::function_head);
    }
    assert(!scanner::python_def_start(line)) by {
        reveal(scanner::python_def_start);
        assert(content.take(n + 2) =~= content);
        text::lemma_tail_unique(content, CharClass::Whitespace, n + 2, n + 2);
        assert(scanner::code_of(line) =~= content);
    }
    text::lemma_tail_unique(line, CharClass::LineBlank, n + 2, n + 2);
    assert(scanner::backslashes_before(line, n + 1) == 0);
    assert(scanner::backslashes_before(line, n + 2) == 1);
    assert forall|k: int| 0 <= k < line.len() - 1 implies #[trigger] line[k] != '\n' by {
        if k < n {
            assert(line[k] == word[k]);
        }
    }
}

/// The last line of a directive whose classes are laid out ends it.
#[verifier::spinoff_prover]
#[verifier::rlimit(60)]
proof fn lemma_classes_closing(classes: Seq<Seq<char>>, ending: Seq<char>)
    requires
        classes.len() > 0,
        formatter::static_class(classes.last()),
        listing::is_ending(ending),
    ensures
        ({
            let last = classes_closing(classes, ending);
            &&& scanner::continuation_end(last, 0) == Some(last.len() as int)
            &&& text::line_ending(last) == ending
            &&& text::content_len(last) == last.len() - ending.len()
        }),
{
    let word = classes.last();
    let last = classes_closing(classes, ending);
    let n = 4 + word.len() as int;
    assert(last.len() == n + ending.len());
    assert(last[n - 1] == word[word.len() - 1]);
    assert(formatter::static_char(word[word.len() - 1], '"'));
    assert(last[n] == ending[0]);
    assert(last[last.len() - 1] == ending[ending.len() - 1]);
    assert(text::content_len(last) == n);
    assert(text::line_ending(last) =~= ending);
    assert forall|k: int| 0 <= k < last.len() - 1 implies #[trigger] last[k] != '\n' by {
        if 4 <= k < n {
            assert(last[k] == word[k - 4]);
            assert(formatter::static_char(word[k - 4], '"'));
        }
    }
    text::lemma_line_end_unique(last, 0, last.len() as int);
    assert(last.subrange(0, last.len() as int) =~= last);
    text::lemma_tail_unique(last, CharClass::LineBlank, n, n);
    assert(scanner::backslashes_before(last, n) == 0);
}

/// A directive whose classes are laid out is one statement.
#[verifier::spinoff_prover]
#[verifier::rlimit(60)]
proof fn lemma_classes_statement(
    keyword: DirectiveKeyword,
    classes: Seq<Seq<char>>,
    ending: Seq<char>,
)
    requires
        keyword == DirectiveKeyword::Inherit || keyword == DirectiveKeyword::InheritDefer,
        classes.len() > 0,
        forall|k: int| 0 <= k < classes.len() ==> formatter::static_class(#[trigger] classes[k]),
        listing::is_ending(ending),
    ensures
        ({
            let out = formatter::classes_output(keyword, classes, ending);
            let first = classes_opening(keyword, ending);
            &&& syntax::first_line(out) == first
            &&& out.len() > first.len() + ending.len()
            &&& out.take(first.len() as int) == first
            &&& scanner::continuation_end(out, 0) == Some(out.len() as int)
            &&& text::line_ending(out) == ending
            &&& text::content_len(out) == out.len() - ending.len()
            &&& out.last() == '\n'
        }),
{
    let out = formatter::classes_output(keyword, classes, ending);
    let first = classes_opening(keyword, ending);
    let last = classes_closing(classes, ending);
    let shown = classes.drop_last();
    let mid = formatter::items_output(shown, ending);
    lemma_classes_opening(keyword, ending);
    assert(formatter::static_class(classes[classes.len() - 1]));
    lemma_classes_closing(classes, ending);
    assert forall|j: int| 0 <= j < shown.len() implies formatter::static_item(
        #[trigger] shown[j],
        '"',
    ) by {
        assert(shown[j] == classes[j]);
        assert(formatter::static_class(classes[j]));
    }
    let e = first.len() as int;
    assert(out =~= first + (mid + last));
    assert(out.skip(0) =~= first + (mid + last));
    listing::lemma_line_first(out, 0, first, mid + last);
    assert(out.skip(e) =~= mid + last);
    assert(syntax::first_line(out) =~= first) by {
        assert(out.take(e) =~= out.subrange(0, e));
    }
    listing::lemma_items_run(out, e, shown, last, '"', ending);
    let p = e + mid.len();
    assert(reparse::same_tail(last, 0, out, p)) by {
        assert forall|k: int| 0 <= k < last.len() implies #[trigger] last[0 + k] == out[p + k] by {
            assert(out.skip(p)[k] == out[p + k]);
        }
    }
    reparse::lemma_continuation_shift(last, 0, out, p);
    assert(out.subrange(0, e) == first);
    let w = classes.last();
    assert(last[4] == w[0]);
    assert(formatter::static_char(w[0], '"'));
    assert(out[p + 4] == out.skip(p)[4]);
    lemma_suffix_ending(out, p, p + 4);
    assert(out.skip(p).last() == last.last());
}

/// A directive whose classes are laid out is the same directive, and formatting
/// it again changes nothing.
#[verifier::spinoff_prover]
#[verifier::rlimit(60)]
proof fn lemma_classes_again(text: Seq<char>, d: DirectiveParts)
    requires
        formatter::static_classes(text, d) is Some,
    ensures
        ({
            let out = formatter::classes_output(
                d.keyword,
                formatter::static_classes(text, d)->0,
                text::line_ending(text),
            );
            let b = classes_again(text, d);
            &&& out.len() > 0
            &&& syntax::next_node(out) == Ok::<(int, NodeKind), ParseFault>(
                (out.len() as int, NodeKind::Directive(b)),
            )
            &&& formatter::static_classes(out, b) is None
            &&& formatter::directive_output(out, b) == out
            &&& out.last() == '\n'
        }),
{
    let classes = formatter::static_classes(text, d)->0;
    let ending = text::line_ending(text);
    let out = formatter::classes_output(d.keyword, classes, ending);
    let b = classes_again(text, d);
    let word = syntax::keyword_chars(d.keyword);
    let n = word.len() as int;
    let first = classes_opening(d.keyword, ending);
    let content = text::line_content(first);
    listing::lemma_line_ending(text);
    lemma_keyword_facts(d.keyword);
    lemma_classes_opening(d.keyword, ending);
    lemma_classes_statement(d.keyword, classes, ending);
    let whole = text::line_content(out);
    assert forall|k: int| 0 <= k < n + 2 implies #[trigger] whole[k] == content[k] by {
        assert(out.take(first.len() as int)[k] == first[k]);
    }
    assert forall|k: int| 0 <= k < n implies #[trigger] whole[k] == word[k] by {
        assert(whole[k] == content[k]);
    }
    assert(whole[n] == content[n] && whole[n + 1] == content[n + 1]);
    text::lemma_until_unique(whole, CharClass::Whitespace, 0, n);
    text::lemma_lead_unique(whole, CharClass::Whitespace, n, n + 1);
    assert(whole.take(n) =~= word);
    assert(syntax::directive_parts(out, true) == Some(b)) by {
        assert(syntax::keyword_chars(d.keyword) == whole.take(n));
        syntax::lemma_keywords_distinct(d.keyword, syntax::directive_parts(out, true)->0.keyword);
    }
    assert(syntax::assignment_parts(out, true) is None) by {
        reveal(syntax::assignment_parts);
    }
    assert(content[0] == word[0]);
    assert(text::lead_from(content, CharClass::Indent, 0) == 0);
    assert(!text::blank_line(first)) by {
        assert(first[0] == word[0]);
        assert(!text::in_class(CharClass::LineBlank, first[0]));
    }
    assert(syntax::statement_kind(out, true) == Ok::<NodeKind, ParseFault>(NodeKind::Directive(b)))
        by {
        reveal(syntax::statement_kind);
    }
    assert(out.take(out.len() as int) =~= out);
    assert(syntax::next_node(out) == Ok::<(int, NodeKind), ParseFault>(
        (out.len() as int, NodeKind::Directive(b)),
    )) by {
        reveal(syntax::next_node);
    }
    assert(out[n] == ' ');
    assert(formatter::directive_output(out, b) =~= out) by {
        assert(out.take(n) =~= word);
    }
}

// ---------------------------------------------------------------------------
// Blank lines
// ---------------------------------------------------------------------------
/// A line ending alone is a blank line.
proof fn lemma_ending_is_blank(text: Seq<char>)
    requires
        text::line_ending(text).len() > 0,
    ensures
        syntax::next_node(text::line_ending(text)) == Ok::<(int, NodeKind), ParseFault>(
            (text::line_ending(text).len() as int, NodeKind::Blank),
        ),
        text::line_ending(text::line_ending(text)) == text::line_ending(text),
{
    let out = text::line_ending(text);
    let n = out.len() as int;
    assert(out[n - 1] == '\n');
    assert(n == 1 || (n == 2 && out[0] == '\r'));
    text::lemma_line_end_unique(out, 0, n);
    assert(syntax::first_line(out) =~= out);
    let content = text::line_content(out);
    assert(text::content_len(out) == 0);
    assert(content =~= Seq::empty());
    assert(scanner::code_end(content) == 0);
    assert(scanner::function_head(out) is None) by {
        reveal(scanner::function_head);
    }
    assert(!scanner::python_def_start(out)) by {
        reveal(scanner::python_def_start);
        text::lemma_tail(content.take(0), CharClass::Whitespace, 0);
    }
    assert(text::tail_from(out, CharClass::LineBlank, 0) == 0);
    assert(!scanner::continued_line(out));
    assert(syntax::statement_kind(out, false) == Ok::<NodeKind, ParseFault>(NodeKind::Blank)) by {
        reveal(syntax::statement_kind);
    }
    reveal(syntax::next_node);
    assert(text::line_ending(out) =~= out);
}

// ---------------------------------------------------------------------------
// Whole texts
// ---------------------------------------------------------------------------
/// The formatted text of `nodes`, appended to `output`.
spec fn fold_output(
    source: Seq<char>,
    nodes: Seq<NodeView>,
    output: Seq<char>,
    options: FormatOptions,
) -> Seq<char>
    decreases nodes.len(),
{
    if nodes.len() == 0 {
        output
    } else {
        let node = nodes[0];
        fold_output(
            source,
            nodes.drop_first(),
            output + formatter::node_output(
                output,
                source.subrange(node.start, node.end),
                node.kind,
                options,
            ),
            options,
        )
    }
}

proof fn lemma_fold_output(
    source: Seq<char>,
    nodes: Seq<NodeView>,
    k: int,
    options: FormatOptions,
)
    requires
        0 <= k <= nodes.len(),
    ensures
        fold_output(
            source,
            nodes.skip(k),
            formatter::nodes_output(source, nodes.take(k), options),
            options,
        ) == formatter::nodes_output(source, nodes, options),
    decreases nodes.len() - k,
{
    if k == nodes.len() {
        assert(nodes.take(k) =~= nodes);
    } else {
        lemma_fold_output(source, nodes, k + 1, options);
        assert(nodes.skip(k).drop_first() =~= nodes.skip(k + 1));
        assert(nodes.take(k + 1).drop_last() =~= nodes.take(k));
    }
}

/// What a node says, whatever the white space around it.
#[verifier::ext_equal]
pub enum Meaning {
    /// An assignment: its value is taken without leading blanks.
    Assignment {
        name: Seq<char>,
        operator: AssignmentOperator,
        value: Seq<char>,
        exported: bool,
        continued: bool,
    },
    /// A directive.
    Directive { keyword: DirectiveKeyword, arguments: Seq<char>, continued: bool },
    /// Any other node, by its text.
    Other { kind: NodeKind, text: Seq<char> },
}

/// What the node `text` of kind `kind` says.
pub open spec fn meaning(text: Seq<char>, kind: NodeKind) -> Meaning {
    match kind {
        NodeKind::Assignment(a) => Meaning::Assignment {
            name: text.subrange(a.name, a.name_end),
            operator: a.operator,
            value: formatter::value_body(text, a),
            exported: a.exported,
            continued: a.continued,
        },
        NodeKind::Directive(d) => Meaning::Directive {
            keyword: d.keyword,
            arguments: text.subrange(d.arguments, d.arguments_end),
            continued: d.continued,
        },
        _ => Meaning::Other { kind, text },
    }
}

/// What the nodes of a text say, but for blank lines.
pub open spec fn meanings(source: Seq<char>, nodes: Seq<NodeView>) -> Seq<Meaning>
    decreases nodes.len(),
{
    if nodes.len() == 0 {
        Seq::empty()
    } else {
        let node = nodes[0];
        let rest = meanings(source, nodes.drop_first());
        if node.kind is Blank {
            rest
        } else {
            seq![meaning(source.subrange(node.start, node.end), node.kind)] + rest
        }
    }
}

/// A formatted assignment says what it said.
proof fn lemma_assignment_meaning(text: Seq<char>, a: AssignmentParts)
    requires
        text.len() > 0,
        syntax::next_node(text) == Ok::<(int, NodeKind), ParseFault>(
            (text.len() as int, NodeKind::Assignment(a)),
        ),
        !scanner::python_def_start(syntax::first_line(formatter::assignment_output(text, a))),
    ensures
        meaning(
            formatter::assignment_output(text, a),
            NodeKind::Assignment(assignment_again(text, a)),
        ) == meaning(text, NodeKind::Assignment(a)),
{
    lemma_assignment_facts(text, a);
    lemma_assignment_again(text, a);
    lemma_name_bounds(text, a);
    let out = formatter::assignment_output(text, a);
    let left = formatter::left_of(text, a);
    assert(out.subrange(a.name, a.name_end) =~= left.subrange(a.name, a.name_end));
    assert(text.subrange(a.name, a.name_end) =~= left.subrange(a.name, a.name_end));
}

/// A formatted directive says what it said.
proof fn lemma_directive_meaning(text: Seq<char>, d: DirectiveParts)
    requires
        text.len() > 0,
        syntax::next_node(text) == Ok::<(int, NodeKind), ParseFault>(
            (text.len() as int, NodeKind::Directive(d)),
        ),
    ensures
        meaning(
            formatter::directive_output(text, d),
            NodeKind::Directive(directive_again(text, d)),
        ) == meaning(text, NodeKind::Directive(d)),
{
    lemma_directive_facts(text, d);
    lemma_directive_rewritten(text, d);
    let out = formatter::directive_output(text, d);
    let b = directive_again(text, d);
    let head = directive_head(text, d);
    reparse::lemma_rewritten_lines(text, head, d.arguments);
    assert(out.subrange(b.arguments, b.arguments_end) =~= text.subrange(d.arguments, d.arguments_end))
        by {
        assert forall|k: int| 0 <= k < d.arguments_end - d.arguments implies #[trigger] text[d.arguments
            + k] == out[head.len() + k] by {}
    }
}

/// An assignment with one space before its operator and, unless its value is
/// empty, one space behind it.
pub open spec fn spaced_assignment(text: Seq<char>, a: AssignmentParts) -> bool {
    let op = operator::operator_chars(a.operator);
    let p = a.operator_at;
    let s = p + op.len();
    &&& 2 <= p
    &&& !text::is_ws(text[p - 2])
    &&& text[p - 1] == ' '
    &&& s <= a.value_end <= text.len()
    &&& text.subrange(p, s) == op
    &&& a.value_end == s || (s + 1 < a.value_end && text[s] == ' ' && text[s + 1] != ' ' && text[s
        + 1] != '\t')
}

/// The text of an assignment with one space around its operator.
pub open spec fn spaced_text(text: Seq<char>, a: AssignmentParts) -> Seq<char> {
    let op = operator::operator_chars(a.operator);
    let left = text::trimmed_end(text.take(a.operator_at), CharClass::Whitespace);
    let value = text::trimmed_start(
        text.subrange(a.operator_at + op.len(), a.value_end),
        CharClass::Indent,
    );
    let ending = text.skip(a.value_end);
    if value.len() == 0 {
        left + seq![' '] + op + ending
    } else {
        left + seq![' '] + op + seq![' '] + value + ending
    }
}

/// An assignment to `def` that one space around its operator would turn into
/// the head of a Python definition.
pub open spec fn definition_once_spaced(text: Seq<char>, a: AssignmentParts) -> bool {
    &&& text::trimmed_end(text.take(a.operator_at), CharClass::Whitespace) == seq!['d', 'e', 'f']
    &&& scanner::python_def_start(syntax::first_line(spaced_text(text, a)))
}

/// A directive whose keyword is followed by one space and its arguments, or by
/// nothing.
pub open spec fn spaced_directive(text: Seq<char>, d: DirectiveParts) -> bool {
    let word = syntax::keyword_chars(d.keyword);
    let n = word.len() as int;
    &&& n <= d.arguments_end <= text.len()
    &&& text.take(n) == word
    &&& d.arguments_end == n || (d.arguments == n + 1 && n + 1 < d.arguments_end && text[n] == ' '
        && !text::is_ws(text[n + 1]))
}

/// How a node of a formatted text is written: assignments and directives have
/// single spaces, and a blank line holds nothing but its ending.
pub open spec fn spaced_node(text: Seq<char>, kind: NodeKind) -> bool {
    match kind {
        NodeKind::Assignment(a) => spaced_assignment(text, a) || definition_once_spaced(text, a),
        NodeKind::Directive(d) => spaced_directive(text, d),
        NodeKind::Blank => text == seq!['\n'] || text == seq!['\r', '\n'] || text.len() == 0,
        _ => true,
    }
}

/// A blank line holds nothing but its ending, and fewer than the allowed blank
/// lines stand right before it.
pub open spec fn blanks_bounded(
    source: Seq<char>,
    nodes: Seq<NodeView>,
    options: FormatOptions,
) -> bool {
    forall|k: int|
        0 <= k < nodes.len() && (#[trigger] nodes[k]).kind is Blank ==> 0 <= nodes[k].start
            < nodes[k].end <= source.len() && formatter::trailing_blanks(
            source.take(nodes[k].start),
        ) < options.max_top_level_blank_lines && text::content_len(
            source.subrange(nodes[k].start, nodes[k].end),
        ) == 0
}

/// Every node is written with single spaces.
pub open spec fn spaced_nodes(source: Seq<char>, nodes: Seq<NodeView>) -> bool {
    forall|k: int|
        0 <= k < nodes.len() ==> spaced_node(
            source.subrange((#[trigger] nodes[k]).start, nodes[k].end),
            nodes[k].kind,
        )
}

/// An assignment is formatted by putting one space around its operator.
proof fn lemma_assignment_text(text: Seq<char>, a: AssignmentParts)
    requires
        text.len() > 0,
        syntax::next_node(text) == Ok::<(int, NodeKind), ParseFault>(
            (text.len() as int, NodeKind::Assignment(a)),
        ),
    ensures
        formatter::assignment_output(text, a) == spaced_text(text, a),
{
    lemma_assignment_facts(text, a);
    let left = formatter::left_of(text, a);
    let op = operator::operator_chars(a.operator);
    let value = formatter::value_body(text, a);
    let ending = text::line_ending(text);
    if value.len() == 0 {
        assert(left + seq![' '] + op + Seq::<char>::empty() + ending =~= left + seq![' '] + op + ending);
    } else {
        assert(left + seq![' '] + op + (seq![' '] + value) + ending =~= left + seq![' '] + op + seq![' ']
            + value + ending);
    }
}

/// An assignment that reads as a definition once it is formatted assigns to `def`.
proof fn lemma_definition_left(text: Seq<char>, a: AssignmentParts)
    requires
        text.len() > 0,
        syntax::next_node(text) == Ok::<(int, NodeKind), ParseFault>(
            (text.len() as int, NodeKind::Assignment(a)),
        ),
        scanner::python_def_start(syntax::first_line(formatter::assignment_output(text, a))),
    ensures
        definition_once_spaced(text, a),
{
    reveal(scanner::python_def_start);
    lemma_assignment_facts(text, a);
    lemma_assignment_text(text, a);
    let out = formatter::assignment_output(text, a);
    let line = syntax::first_line(out);
    let content = text::line_content(line);
    let code = scanner::code_of(line);
    let left = formatter::left_of(text, a);
    let n = left.len() as int;
    text::lemma_line_end(out, 0);
    syntax::lemma_code_end(content);
    let end = scanner::code_end(content);
    text::lemma_tail(content.take(end), CharClass::Whitespace, end);
    assert forall|k: int| 0 <= k < 4 implies #[trigger] out[k] == scanner::def_word()[k] by {
        assert(code.take(4)[k] == scanner::def_word()[k]);
        assert(code[k] == content.take(end)[k]);
        assert(content[k] == line[k]);
    }
    assert(out[n] == ' ');
    assert forall|k: int| 0 <= k < n implies #[trigger] out[k] == left[k] by {}
    assert(n >= 3) by {
        if n < 3 {
            assert(out[n] == scanner::def_word()[n]);
        }
    }
    if n > 3 {
        assert(left[3] == ' ');
        assert(!scanner::is_exported(left)) by {
            if scanner::is_exported(left) {
                assert(left.take(6)[0] == 'e');
                assert(left[0] == out[0]);
            }
        }
        assert(left.skip(0) =~= left);
        lemma_name_clean(left, 0, false);
        assert(text::is_ascii_ws(left[3]));
    }
    assert(left =~= seq!['d', 'e', 'f']) by {
        assert(left[0] == out[0] && left[1] == out[1] && left[2] == out[2]);
    }
}

/// A formatted assignment has one space around its operator.
proof fn lemma_assignment_spaced(text: Seq<char>, a: AssignmentParts)
    requires
        text.len() > 0,
        syntax::next_node(text) == Ok::<(int, NodeKind), ParseFault>(
            (text.len() as int, NodeKind::Assignment(a)),
        ),
        !scanner::python_def_start(syntax::first_line(formatter::assignment_output(text, a))),
    ensures
        spaced_assignment(formatter::assignment_output(text, a), assignment_again(text, a)),
{
    lemma_assignment_facts(text, a);
    lemma_assignment_again(text, a);
    let out = formatter::assignment_output(text, a);
    let b = assignment_again(text, a);
    let left = formatter::left_of(text, a);
    let op = operator::operator_chars(a.operator);
    lemma_operator_chars(a.operator);
    let n = left.len() as int;
    let p = n + 1;
    let s = p + op.len();
    let value = formatter::value_body(text, a);
    let old = syntax::value_of(text, a);
    assert(out[n - 1] == left.last());
    assert(out[n] == ' ');
    assert(out.subrange(p, s) =~= op);
    if value.len() > 0 {
        text::lemma_lead(old, CharClass::Indent, 0);
        assert(out[s] == ' ');
        assert(out[s + 1] == value[0]);
        assert(value[0] == old[text::lead_from(old, CharClass::Indent, 0)]);
        assert(!text::in_class(CharClass::Indent, value[0]));
    }
}

/// A formatted directive has one space behind its keyword.
proof fn lemma_directive_spaced(text: Seq<char>, d: DirectiveParts)
    requires
        text.len() > 0,
        syntax::next_node(text) == Ok::<(int, NodeKind), ParseFault>(
            (text.len() as int, NodeKind::Directive(d)),
        ),
    ensures
        spaced_directive(formatter::directive_output(text, d), directive_again(text, d)),
{
    lemma_directive_facts(text, d);
    lemma_directive_again(text, d);
    lemma_keyword_facts(d.keyword);
    let out = formatter::directive_output(text, d);
    let b = directive_again(text, d);
    lemma_directive_facts(out, b);
    let word = syntax::keyword_chars(d.keyword);
    let n = word.len() as int;
    let arguments = text.subrange(d.arguments, d.arguments_end);
    assert(out.take(n) =~= word);
    if arguments.len() == 0 {
        if b.arguments_end > n {
            assert(out[n] == text::line_ending(text)[0]);
            assert(b.arguments < b.arguments_end);
            assert(false);
        }
    } else {
        assert(out[n] == ' ');
        assert(out[n + 1] == arguments[0]);
        assert(arguments[0] == text[d.arguments]);
        assert(b.arguments == n + 1);
        assert(b.arguments_end >= n + 2) by {
            assert(out.len() >= n + 2 + text::line_ending(text).len());
        }
    }
}

/// A node that starts with a visible character keeps it when it is formatted.
proof fn lemma_first_char(
    output: Seq<char>,
    text: Seq<char>,
    kind: NodeKind,
    options: FormatOptions,
)
    requires
        text.len() > 0,
        syntax::next_node(text) == Ok::<(int, NodeKind), ParseFault>((text.len() as int, kind)),
        !text::is_ws(text[0]),
    ensures
        formatter::node_output(output, text, kind, options).len() > 0,
        formatter::node_output(output, text, kind, options)[0] == text[0],
{
    match kind {
        NodeKind::Blank => {
            lemma_blank_start(text);
        },
        NodeKind::Assignment(a) => {
            lemma_assignment_facts(text, a);
            let left = formatter::left_of(text, a);
            assert(left[0] == text::line_content(syntax::first_line(text))[0]);
        },
        NodeKind::Directive(d) => {
            lemma_directive_facts(text, d);
            lemma_keyword_facts(d.keyword);
            let word = syntax::keyword_chars(d.keyword);
            let content = text::line_content(syntax::first_line(text));
            assert(content.take(word.len() as int)[0] == word[0]);
            assert(formatter::node_output(output, text, kind, options)[0] == word[0]);
        },
        _ => {},
    }
}

/// A blank node starts with white space.
proof fn lemma_blank_start(text: Seq<char>)
    requires
        text.len() > 0,
        syntax::next_node(text) == Ok::<(int, NodeKind), ParseFault>(
            (text.len() as int, NodeKind::Blank),
        ),
    ensures
        text::is_ws(text[0]),
{
    reveal(syntax::next_node);
    reveal(syntax::statement_kind);
    text::lemma_line_end(text, 0);
    let line = syntax::first_line(text);
    if scanner::continued_line(line) {
        assert(text.take(text.len() as int) =~= text);
    } else {
        assert(syntax::first_line(line) =~= line) by {
            assert(line =~= text);
        }
    }
    assert(text::blank_line(line));
    if text::content_len(line) > 0 {
        assert(text::in_class(CharClass::LineBlank, line[0]));
    }
}

/// What a node adds to the output is a node that adds itself.
proof fn lemma_node_again(
    output: Seq<char>,
    text: Seq<char>,
    kind: NodeKind,
    options: FormatOptions,
) -> (again: NodeKind)
    requires
        text.len() > 0,
        syntax::next_node(text) == Ok::<(int, NodeKind), ParseFault>((text.len() as int, kind)),
        formatter::node_output(output, text, kind, options).len() > 0,
    ensures
        syntax::next_node(formatter::node_output(output, text, kind, options)) == Ok::<(int, NodeKind), ParseFault>(
            (formatter::node_output(output, text, kind, options).len() as int, again),
        ),
        formatter::node_output(output, formatter::node_output(output, text, kind, options), again, options)
            == formatter::node_output(output, text, kind, options),
        text.last() == '\n' ==> formatter::node_output(output, text, kind, options).last() == '\n',
        again is PythonDefinition == kind is PythonDefinition,
        again is Blank == kind is Blank,
        options.metadata_list_layout == MetadataListLayout::Preserve && !(kind is Blank) ==> meaning(
            formatter::node_output(output, text, kind, options),
            again,
        ) == meaning(text, kind),
        options.metadata_list_layout == MetadataListLayout::Preserve ==> spaced_node(
            formatter::node_output(output, text, kind, options),
            again,
        ),
{
    if text.last() == '\n' {
        assert(text::line_ending(text).len() > 0 && text::line_ending(text).last() == '\n');
    }
    match kind {
        NodeKind::Blank => {
            lemma_ending_is_blank(text);
            assert(text::line_ending(text) =~= seq!['\n'] || text::line_ending(text) =~= seq!['\r', '\n']
                || text::line_ending(text).len() == 0);
            kind
        },
        NodeKind::Assignment(a) => {
            if options.metadata_list_layout == MetadataListLayout::OnePerLine
                && formatter::static_list(text, a) is Some {
                lemma_list_again(text, a);
                NodeKind::Assignment(list_again(text, a))
            } else if formatter::reads_as_definition(text, a) {
                lemma_definition_left(text, a);
                kind
            } else {
                lemma_assignment_again(text, a);
                lemma_assignment_spaced(text, a);
                lemma_list_kept(text, a);
                lemma_assignment_meaning(text, a);
                assert(!formatter::reads_as_definition(
                    formatter::assignment_output(text, a),
                    assignment_again(text, a),
                ));
                NodeKind::Assignment(assignment_again(text, a))
            }
        },
        NodeKind::Directive(d) => {
            if options.metadata_list_layout == MetadataListLayout::OnePerLine
                && formatter::static_classes(text, d) is Some {
                lemma_classes_again(text, d);
                NodeKind::Directive(classes_again(text, d))
            } else {
                lemma_directive_again(text, d);
                lemma_directive_spaced(text, d);
                lemma_classes_kept(text, d);
                lemma_directive_meaning(text, d);
                NodeKind::Directive(directive_again(text, d))
            }
        },
        _ => kind,
    }
}

/// A Python definition is followed by a line that starts with a visible character.
proof fn lemma_after_definition(t: Seq<char>)
    requires
        t.len() > 0,
        syntax::next_node(t) matches Ok((_, kind)) && kind is PythonDefinition,
    ensures
        syntax::next_node(t)->Ok_0.0 < t.len() ==> !text::is_ws(t[syntax::next_node(t)->Ok_0.0]),
{
    syntax::lemma_next_node(t);
    reveal(syntax::next_node);
    reveal(syntax::statement_kind);
    text::lemma_line_end(t, 0);
    syntax::lemma_python_def_end(t, text::line_end(t, 0));
}

/// A formatted node followed by the formatted rest is read as that node again.
proof fn lemma_piece_again(
    piece: Seq<char>,
    output: Seq<char>,
    whole: Seq<char>,
    again: NodeKind,
    options: FormatOptions,
)
    requires
        piece.len() > 0,
        syntax::next_node(piece) == Ok::<(int, NodeKind), ParseFault>((piece.len() as int, again)),
        formatter::node_output(output, piece, again, options) == piece,
        (output + piece).len() <= whole.len(),
        whole.take((output + piece).len() as int) == output + piece,
        whole.len() == (output + piece).len() || piece.last() == '\n',
        again is PythonDefinition && (output + piece).len() < whole.len() ==> !text::is_ws(
            whole[(output + piece).len() as int],
        ),
        syntax::nodes_from(whole, (output + piece).len() as int) is Ok,
        fold_output(
            whole,
            syntax::nodes_from(whole, (output + piece).len() as int)->Ok_0,
            output + piece,
            options,
        ) == whole,
    ensures
        syntax::nodes_from(whole, output.len() as int) is Ok,
        fold_output(whole, syntax::nodes_from(whole, output.len() as int)->Ok_0, output, options) == whole,
        meanings(whole, syntax::nodes_from(whole, output.len() as int)->Ok_0) == if again is Blank {
            meanings(whole, syntax::nodes_from(whole, (output + piece).len() as int)->Ok_0)
        } else {
            seq![meaning(piece, again)] + meanings(
                whole,
                syntax::nodes_from(whole, (output + piece).len() as int)->Ok_0,
            )
        },
        spaced_node(piece, again) && spaced_nodes(
            whole,
            syntax::nodes_from(whole, (output + piece).len() as int)->Ok_0,
        ) ==> spaced_nodes(whole, syntax::nodes_from(whole, output.len() as int)->Ok_0),
        blanks_bounded(
            whole,
            syntax::nodes_from(whole, (output + piece).len() as int)->Ok_0,
            options,
        ) ==> blanks_bounded(whole, syntax::nodes_from(whole, output.len() as int)->Ok_0, options),
{
    let n = output.len() as int;
    let p = piece.len() as int;
    let next = output + piece;
    let tail = whole.skip(n);
    assert(locality::agree(piece, tail, p)) by {
        assert forall|k: int| 0 <= k < p implies #[trigger] piece[k] == tail[k] by {
            assert(whole.take(n + p)[n + k] == next[n + k]);
        }
    }
    if p < tail.len() {
        assert(tail[p] == whole[n + p]);
    }
    locality::lemma_next_node_local(piece, tail, p, again);
    let m = syntax::nodes_from(whole, n + p)->Ok_0;
    let first = NodeView { start: n, end: n + p, kind: again };
    assert(syntax::nodes_from(whole, n)->Ok_0 == seq![first] + m);
    assert((seq![first] + m).drop_first() =~= m);
    assert(whole.subrange(n, n + p) =~= piece) by {
        assert forall|k: int| 0 <= k < p implies whole.subrange(n, n + p)[k] == #[trigger] piece[k] by {
            assert(whole.take(n + p)[n + k] == next[n + k]);
        }
    }
    if blanks_bounded(whole, m, options) {
        let all = seq![first] + m;
        assert(whole.take(n) =~= output) by {
            assert forall|k: int| 0 <= k < n implies #[trigger] whole[k] == output[k] by {
                assert(whole.take(n + p)[k] == next[k]);
            }
        }
        assert forall|k: int| 0 <= k < all.len() && (#[trigger] all[k]).kind is Blank implies 0
            <= all[k].start < all[k].end <= whole.len() && formatter::trailing_blanks(
            whole.take(all[k].start),
        ) < options.max_top_level_blank_lines && text::content_len(
            whole.subrange(all[k].start, all[k].end),
        ) == 0 by {
            if k > 0 {
                assert(all[k] == m[k - 1]);
            } else {
                assert(piece.skip(text::content_len(piece)).len() == p);
            }
        }
    }
    if spaced_node(piece, again) && spaced_nodes(whole, m) {
        let all = seq![first] + m;
        assert forall|k: int| 0 <= k < all.len() implies spaced_node(
            whole.subrange((#[trigger] all[k]).start, all[k].end),
            all[k].kind,
        ) by {
            if k > 0 {
                assert(all[k] == m[k - 1]);
            }
        }
    }
}

/// The node at `i` of a text, what it adds and what follows.
pub open spec fn node_at(source: Seq<char>, i: int) -> (int, NodeKind) {
    syntax::next_node(source.skip(i))->Ok_0
}

/// The first node, read by itself.
pub proof fn lemma_node_at(source: Seq<char>, i: int)
    requires
        0 <= i < source.len(),
        syntax::nodes_from(source, i) is Ok,
    ensures
        ({
            let (len, kind) = node_at(source, i);
            let text = source.subrange(i, i + len);
            let nodes = syntax::nodes_from(source, i)->Ok_0;
            let rest = syntax::nodes_from(source, i + len)->Ok_0;
            &&& 0 < len <= source.len() - i
            &&& syntax::nodes_from(source, i + len) is Ok
            &&& nodes == seq![NodeView { start: i, end: i + len, kind }] + rest
            &&& nodes[0] == NodeView { start: i, end: i + len, kind }
            &&& nodes.drop_first() == rest
            &&& text.len() == len
            &&& text[0] == source[i]
            &&& syntax::next_node(text) == Ok::<(int, NodeKind), ParseFault>((len, kind))
            &&& i + len < source.len() ==> text.last() == '\n'
            &&& i + len < source.len() && kind is PythonDefinition ==> !text::is_ws(source[i + len])
        }),
{
    let t = source.skip(i);
    syntax::lemma_next_node(t);
    let (len, kind) = syntax::next_node(t)->Ok_0;
    let rest = syntax::nodes_from(source, i + len)->Ok_0;
    let node = NodeView { start: i, end: i + len, kind };
    assert((seq![node] + rest).drop_first() =~= rest);
    let text = source.subrange(i, i + len);
    assert(text =~= t.take(len));
    assert(t.skip(len) =~= source.skip(i + len));
    if len < t.len() {
        assert(syntax::next_node(source.skip(i + len)) is Ok);
        assert(t[len - 1] == '\n');
        assert(source[i + len] == t[len]);
        if kind is PythonDefinition {
            lemma_after_definition(t);
        }
    }
    locality::lemma_next_node_local(t, text, len, kind);
}

/// Only a blank line adds nothing.
proof fn lemma_empty_piece(
    output: Seq<char>,
    text: Seq<char>,
    kind: NodeKind,
    options: FormatOptions,
)
    requires
        text.len() > 0,
        formatter::node_output(output, text, kind, options).len() == 0,
        syntax::next_node(text) == Ok::<(int, NodeKind), ParseFault>((text.len() as int, kind)),
    ensures
        kind is Blank,
{
    match kind {
        NodeKind::Directive(d) => {
            lemma_keyword_facts(d.keyword);
        },
        _ => {},
    }
}

/// The text that formatting appends, read again, is appended again.
#[verifier::spinoff_prover]
#[verifier::rlimit(60)]
proof fn lemma_rest_again(
    source: Seq<char>,
    i: int,
    output: Seq<char>,
    whole: Seq<char>,
    options: FormatOptions,
)
    requires
        0 <= i <= source.len(),
        syntax::nodes_from(source, i) is Ok,
        whole == fold_output(source, syntax::nodes_from(source, i)->Ok_0, output, options),
    ensures
        output.len() <= whole.len(),
        whole.take(output.len() as int) == output,
        syntax::nodes_from(whole, output.len() as int) is Ok,
        fold_output(whole, syntax::nodes_from(whole, output.len() as int)->Ok_0, output, options) == whole,
        options.metadata_list_layout == MetadataListLayout::Preserve ==> meanings(
            whole,
            syntax::nodes_from(whole, output.len() as int)->Ok_0,
        ) == meanings(source, syntax::nodes_from(source, i)->Ok_0),
        options.metadata_list_layout == MetadataListLayout::Preserve ==> spaced_nodes(
            whole,
            syntax::nodes_from(whole, output.len() as int)->Ok_0,
        ),
        blanks_bounded(whole, syntax::nodes_from(whole, output.len() as int)->Ok_0, options),
        i == source.len() ==> whole == output,
        i < source.len() && !text::is_ws(source[i]) ==> output.len() < whole.len()
            && whole[output.len() as int] == source[i],
    decreases source.len() - i,
{
    if i == source.len() {
        assert(whole.take(output.len() as int) =~= output);
    } else {
        lemma_node_at(source, i);
        let (len, kind) = node_at(source, i);
        let text = source.subrange(i, i + len);
        let piece = formatter::node_output(output, text, kind, options);
        let next = output + piece;
        lemma_rest_again(source, i + len, next, whole, options);
        if piece.len() == 0 {
            lemma_empty_piece(output, text, kind, options);
        }
        let n = output.len() as int;
        assert(whole.take(n) =~= output) by {
            assert(whole.take(next.len() as int).take(n) =~= next.take(n));
            assert(next.take(n) =~= output);
            assert(whole.take(next.len() as int).take(n) =~= whole.take(n));
        }
        if !text::is_ws(source[i]) {
            lemma_first_char(output, text, kind, options);
            assert(whole[n] == whole.take(next.len() as int)[n]);
            assert(whole[n] == piece[0]);
        }
        if piece.len() == 0 {
            assert(next =~= output);
        } else {
            let again = lemma_node_again(output, text, kind, options);
            lemma_piece_again(piece, output, whole, again, options);
        }
    }
}

/// Formatting is idempotent: the formatted text of a text is well formed, and
/// formatting it again changes nothing.
pub proof fn law_formatting_is_idempotent(source: Seq<char>, options: FormatOptions)
    requires
        syntax::nodes_of(source) is Ok,
    ensures
        syntax::nodes_of(formatter::formatted(source, options)) is Ok,
        formatter::formatted(formatter::formatted(source, options), options) == formatter::formatted(source, options),
{
    let nodes = syntax::nodes_of(source)->Ok_0;
    let whole = formatter::formatted(source, options);
    lemma_fold_output(source, nodes, 0, options);
    assert(nodes.skip(0) =~= nodes);
    assert(nodes.take(0) =~= Seq::empty());
    lemma_rest_again(source, 0, Seq::empty(), whole, options);
    let again = syntax::nodes_of(whole)->Ok_0;
    lemma_fold_output(whole, again, 0, options);
    assert(again.skip(0) =~= again);
    assert(again.take(0) =~= Seq::empty());
}

/// Formatting keeps what a text says: the formatted text is well formed, and but
/// for blank lines it has the same nodes in the same order. An assignment has
/// the same name, operator and value, the value without leading blanks, and is
/// exported or continued where it was; a directive has the same keyword and
/// arguments and is continued where it was; any other node has the same text.
pub proof fn law_formatting_keeps_the_meaning(source: Seq<char>, options: FormatOptions)
    requires
        syntax::nodes_of(source) is Ok,
        options.metadata_list_layout == MetadataListLayout::Preserve,
    ensures
        syntax::nodes_of(formatter::formatted(source, options)) is Ok,
        meanings(
            formatter::formatted(source, options),
            syntax::nodes_of(formatter::formatted(source, options))->Ok_0,
        ) == meanings(source, syntax::nodes_of(source)->Ok_0),
{
    let nodes = syntax::nodes_of(source)->Ok_0;
    let whole = formatter::formatted(source, options);
    lemma_fold_output(source, nodes, 0, options);
    assert(nodes.skip(0) =~= nodes);
    assert(nodes.take(0) =~= Seq::empty());
    lemma_rest_again(source, 0, Seq::empty(), whole, options);
}

/// In a formatted text, read again, no assignment has anything but one space
/// before its operator, and anything but one space behind it unless its value is
/// empty; the one exception is an assignment to `def` that this would turn into
/// the head of a Python definition. A directive has one space between its keyword
/// and its arguments, and a blank line holds nothing.
pub proof fn law_formatted_texts_have_single_spaces(source: Seq<char>, options: FormatOptions)
    requires
        syntax::nodes_of(source) is Ok,
        options.metadata_list_layout == MetadataListLayout::Preserve,
    ensures
        syntax::nodes_of(formatter::formatted(source, options)) is Ok,
        spaced_nodes(
            formatter::formatted(source, options),
            syntax::nodes_of(formatter::formatted(source, options))->Ok_0,
        ),
{
    let nodes = syntax::nodes_of(source)->Ok_0;
    let whole = formatter::formatted(source, options);
    lemma_fold_output(source, nodes, 0, options);
    assert(nodes.skip(0) =~= nodes);
    assert(nodes.take(0) =~= Seq::empty());
    lemma_rest_again(source, 0, Seq::empty(), whole, options);
}

/// A line feed behind whole lines is one more blank line.
proof fn lemma_blank_added(t: Seq<char>, e: Seq<char>)
    requires
        t.len() == 0 || t.last() == '\n',
        e == seq!['\n'] || e == seq!['\r', '\n'],
    ensures
        formatter::trailing_blanks(t + e) == 1 + formatter::trailing_blanks(t),
{
    let u = t + e;
    let n = t.len() as int;
    assert forall|k: int| n <= k < u.len() - 1 implies #[trigger] u[k] != '\n' by {
        assert(u[k] == e[k - n]);
    }
    text::lemma_rfind_unique(u, '\n', n - 1, u.len() - 1);
    assert(u.skip(n) =~= e);
    assert(u.take(n) =~= t);
    assert(text::blank_line(e)) by {
        assert(text::content_len(e) == 0);
    }
}

/// A formatted text has no more blank lines in a row than the options allow.
pub proof fn law_blank_lines_are_limited(source: Seq<char>, options: FormatOptions, i: int)
    requires
        syntax::nodes_of(source) is Ok,
        0 <= i,
        i + options.max_top_level_blank_lines < syntax::nodes_of(
            formatter::formatted(source, options),
        )->Ok_0.len(),
    ensures
        exists|j: int|
            i <= j <= i + options.max_top_level_blank_lines && !((#[trigger] syntax::nodes_of(
                formatter::formatted(source, options),
            )->Ok_0[j]).kind is Blank),
{
    let nodes = syntax::nodes_of(source)->Ok_0;
    let whole = formatter::formatted(source, options);
    lemma_fold_output(source, nodes, 0, options);
    assert(nodes.skip(0) =~= nodes);
    assert(nodes.take(0) =~= Seq::empty());
    lemma_rest_again(source, 0, Seq::empty(), whole, options);
    let again = syntax::nodes_of(whole)->Ok_0;
    let max = options.max_top_level_blank_lines as int;
    if forall|j: int| i <= j <= i + max ==> (#[trigger] again[j]).kind is Blank {
        lemma_blank_run(whole, options, i, max);
        assert(again[i + max].kind is Blank);
    }
}

/// After `m` blank lines at least `m` blank lines end the text.
proof fn lemma_blank_run(whole: Seq<char>, options: FormatOptions, i: int, m: int)
    requires
        syntax::nodes_of(whole) is Ok,
        0 <= m,
        0 <= i,
        i + m < syntax::nodes_of(whole)->Ok_0.len(),
        blanks_bounded(whole, syntax::nodes_of(whole)->Ok_0, options),
        forall|j: int| i <= j <= i + m ==> (#[trigger] syntax::nodes_of(whole)->Ok_0[j]).kind is Blank,
    ensures
        formatter::trailing_blanks(whole.take(syntax::nodes_of(whole)->Ok_0[i + m].start)) >= m,
    decreases m,
{
    let nodes = syntax::nodes_of(whole)->Ok_0;
    if m == 0 {
        formatter::lemma_trailing_blanks(whole.take(nodes[i].start));
    } else {
        lemma_blank_run(whole, options, i, m - 1);
        lemma_blank_step(whole, options, i + m - 1);
    }
}

/// A blank line that another node follows is one more blank line at the end of
/// what stands before that node.
proof fn lemma_blank_step(whole: Seq<char>, options: FormatOptions, j: int)
    requires
        syntax::nodes_of(whole) is Ok,
        0 <= j,
        j + 1 < syntax::nodes_of(whole)->Ok_0.len(),
        blanks_bounded(whole, syntax::nodes_of(whole)->Ok_0, options),
        syntax::nodes_of(whole)->Ok_0[j].kind is Blank,
    ensures
        formatter::trailing_blanks(whole.take(syntax::nodes_of(whole)->Ok_0[j + 1].start)) == 1
            + formatter::trailing_blanks(whole.take(syntax::nodes_of(whole)->Ok_0[j].start)),
{
    let nodes = syntax::nodes_of(whole)->Ok_0;
    let a = nodes[j].start;
    let b = nodes[j].end;
    lemma_adjacent(whole, 0, j);
    lemma_line_starts(whole, 0, j);
    lemma_line_starts(whole, 0, j + 1);
    assert(0 <= a < b <= whole.len());
    let piece = whole.subrange(a, b);
    assert(text::content_len(piece) == 0);
    assert(piece.len() == b - a);
    assert(piece[piece.len() - 1] == whole[b - 1]);
    assert(whole[b - 1] == '\n');
    assert(piece =~= seq!['\n'] || piece =~= seq!['\r', '\n']);
    assert(whole.take(b) =~= whole.take(a) + piece);
    if a > 0 {
        assert(whole.take(a)[a - 1] == whole[a - 1]);
    }
    lemma_blank_added(whole.take(a), piece);
}

/// A node starts where the one before it ends.
proof fn lemma_adjacent(source: Seq<char>, i: int, k: int)
    requires
        0 <= i <= source.len(),
        syntax::nodes_from(source, i) is Ok,
        0 <= k,
        k + 1 < syntax::nodes_from(source, i)->Ok_0.len(),
    ensures
        syntax::nodes_from(source, i)->Ok_0[k].end == syntax::nodes_from(source, i)->Ok_0[k + 1].start,
    decreases source.len() - i,
{
    lemma_node_at(source, i);
    let (len, kind) = node_at(source, i);
    let nodes = syntax::nodes_from(source, i)->Ok_0;
    let rest = syntax::nodes_from(source, i + len)->Ok_0;
    assert(nodes[k + 1] == rest[k]);
    if k > 0 {
        assert(nodes[k] == rest[k - 1]);
        lemma_adjacent(source, i + len, k - 1);
    } else {
        lemma_node_at(source, i + len);
    }
}

/// A node starts a line.
proof fn lemma_line_starts(source: Seq<char>, i: int, k: int)
    requires
        0 <= i <= source.len(),
        syntax::nodes_from(source, i) is Ok,
        i == 0 || source[i - 1] == '\n',
        0 <= k < syntax::nodes_from(source, i)->Ok_0.len(),
    ensures
        ({
            let start = syntax::nodes_from(source, i)->Ok_0[k].start;
            start == 0 || source[start - 1] == '\n'
        }),
    decreases source.len() - i,
{
    lemma_node_at(source, i);
    let (len, kind) = node_at(source, i);
    if k > 0 {
        assert(syntax::nodes_from(source, i)->Ok_0[k] == syntax::nodes_from(source, i + len)->Ok_0[k
            - 1]);
        if i + len < source.len() {
            assert(source.subrange(i, i + len).last() == source[i + len - 1]);
        }
        lemma_line_starts(source, i + len, k - 1);
    }
}

/// A blank line is kept where fewer blank lines than the options allow stand
/// right before it: where what is written so far ends in a visible character, a
/// line feed and `j` more line feeds.
pub proof fn law_blank_lines_are_kept(source: Seq<char>, k: int, j: int, options: FormatOptions)
    requires
        syntax::nodes_of(source) is Ok,
        0 <= k < syntax::nodes_of(source)->Ok_0.len(),
        syntax::nodes_of(source)->Ok_0[k].kind is Blank,
        0 <= j < options.max_top_level_blank_lines,
        ({
            let before = formatter::nodes_output(
                source,
                syntax::nodes_of(source)->Ok_0.take(k),
                options,
            );
            &&& before.len() >= j + 2
            &&& !text::is_ws(before[before.len() - j - 2])
            &&& forall|i: int| before.len() - j - 1 <= i < before.len() ==> #[trigger] before[i] == '\n'
        }),
    ensures
        ({
            let nodes = syntax::nodes_of(source)->Ok_0;
            formatter::nodes_output(source, nodes.take(k + 1), options) == formatter::nodes_output(
                source,
                nodes.take(k),
                options,
            ) + text::line_ending(source.subrange(nodes[k].start, nodes[k].end))
        }),
{
    let nodes = syntax::nodes_of(source)->Ok_0;
    let before = formatter::nodes_output(source, nodes.take(k), options);
    assert(nodes.take(k + 1).drop_last() =~= nodes.take(k));
    assert(nodes.take(k + 1).last() == nodes[k]);
    lemma_blanks_behind(before, j);
}

proof fn lemma_blanks_behind(t: Seq<char>, j: int)
    requires
        0 <= j,
        t.len() >= j + 2,
        !text::is_ws(t[t.len() - j - 2]),
        forall|i: int| t.len() - j - 1 <= i < t.len() ==> #[trigger] t[i] == '\n',
    ensures
        formatter::trailing_blanks(t) == j,
    decreases j,
{
    if j > 0 {
        let front = t.drop_last();
        lemma_blanks_behind(front, j - 1);
        assert(t =~= front + seq!['\n']);
        lemma_blank_added(front, seq!['\n']);
    } else {
        let s = formatter::last_line_start(t);
        text::lemma_rfind(t, '\n', t.len() - 1);
        let n = t.len() as int;
        let line = t.skip(s);
        if 0 <= s < n {
            assert(t[n - 2] != '\n');
            assert(s <= n - 2) by {
                if s == n - 1 {
                    assert(t[s - 1] == '\n');
                }
            }
            assert(line[n - 2 - s] == t[n - 2]);
            assert(line.last() == '\n');
            assert(text::content_len(line) == n - 1 - s) by {
                if line.len() >= 2 {
                    assert(line[line.len() - 2] == t[n - 2]);
                }
            }
            if text::blank_line(line) {
                assert(text::in_class(CharClass::LineBlank, line[n - 2 - s]));
            }
        }
    }
}

/// What formatting writes for an assignment: its left-hand side without trailing
/// white space, one space, the operator, one space and the value without leading
/// blanks unless the value is empty, and the line ending. Only an assignment to
/// `def` that this would turn into the head of a Python definition is kept as it
/// stands.
pub proof fn law_assignments_are_written_with_single_spaces(
    source: Seq<char>,
    k: int,
    options: FormatOptions,
)
    requires
        syntax::nodes_of(source) is Ok,
        options.metadata_list_layout == MetadataListLayout::Preserve,
        0 <= k < syntax::nodes_of(source)->Ok_0.len(),
        syntax::nodes_of(source)->Ok_0[k].kind is Assignment,
    ensures
        ({
            let nodes = syntax::nodes_of(source)->Ok_0;
            let text = source.subrange(nodes[k].start, nodes[k].end);
            let a = nodes[k].kind->Assignment_0;
            let before = formatter::nodes_output(source, nodes.take(k), options);
            let through = formatter::nodes_output(source, nodes.take(k + 1), options);
            let out = formatter::formatted(source, options);
            &&& through == before + (if definition_once_spaced(text, a) {
                text
            } else {
                spaced_text(text, a)
            })
            &&& through.len() <= out.len()
            &&& out.take(through.len() as int) == through
        }),
{
    let nodes = syntax::nodes_of(source)->Ok_0;
    let text = source.subrange(nodes[k].start, nodes[k].end);
    let a = nodes[k].kind->Assignment_0;
    assert(nodes.take(k + 1).drop_last() =~= nodes.take(k));
    assert(nodes.take(k + 1).last() == nodes[k]);
    lemma_nth_node(source, 0, k);
    lemma_assignment_text(text, a);
    if formatter::reads_as_definition(text, a) {
        lemma_definition_left(text, a);
    }
    lemma_fold_output(source, nodes, k + 1, options);
    lemma_fold_prefix(
        source,
        nodes.skip(k + 1),
        formatter::nodes_output(source, nodes.take(k + 1), options),
        options,
    );
}

/// A node of a text, read by itself.
pub proof fn lemma_nth_node(source: Seq<char>, i: int, k: int)
    requires
        0 <= i <= source.len(),
        syntax::nodes_from(source, i) is Ok,
        0 <= k < syntax::nodes_from(source, i)->Ok_0.len(),
    ensures
        ({
            let node = syntax::nodes_from(source, i)->Ok_0[k];
            let text = source.subrange(node.start, node.end);
            &&& 0 <= node.start < node.end <= source.len()
            &&& text.len() > 0
            &&& syntax::next_node(text) == Ok::<(int, NodeKind), ParseFault>(
                (text.len() as int, node.kind),
            )
        }),
    decreases source.len() - i,
{
    lemma_node_at(source, i);
    let (len, kind) = node_at(source, i);
    if k > 0 {
        assert(syntax::nodes_from(source, i)->Ok_0[k] == syntax::nodes_from(source, i + len)->Ok_0[k
            - 1]);
        lemma_nth_node(source, i + len, k - 1);
    }
}

/// What is written stays in front of what follows.
proof fn lemma_fold_prefix(
    source: Seq<char>,
    nodes: Seq<NodeView>,
    output: Seq<char>,
    options: FormatOptions,
)
    ensures
        output.len() <= fold_output(source, nodes, output, options).len(),
        fold_output(source, nodes, output, options).take(output.len() as int) == output,
    decreases nodes.len(),
{
    if nodes.len() == 0 {
        assert(output.take(output.len() as int) =~= output);
    } else {
        let node = nodes[0];
        let next = output + formatter::node_output(
            output,
            source.subrange(node.start, node.end),
            node.kind,
            options,
        );
        lemma_fold_prefix(source, nodes.drop_first(), next, options);
        let whole = fold_output(source, nodes, output, options);
        assert(whole.take(output.len() as int) =~= whole.take(next.len() as int).take(
            output.len() as int,
        ));
        assert(next.take(output.len() as int) =~= output);
    }
}

} // verus!
