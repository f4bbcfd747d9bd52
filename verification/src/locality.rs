//! The extent of a node depends on the text of the node alone.
use crate::braces;
use crate::operator;
use crate::scanner;
use crate::syntax;
use crate::text;
use crate::braces::BraceState;
use crate::braces::BraceStep;
use crate::braces::FunctionQuote;
use crate::braces::HereDocView;
use crate::braces::SubstState;
use crate::scanner::FunctionKind;
use crate::syntax::NodeKind;
use crate::syntax::ParseFault;
use crate::text::CharClass;
use vstd::prelude::*;

verus! {

/// Whether two texts agree before index `n`.
pub open spec fn agree(t: Seq<char>, u: Seq<char>, n: int) -> bool {
    &&& 0 <= n <= t.len()
    &&& n <= u.len()
    &&& forall|k: int| 0 <= k < n ==> #[trigger] t[k] == u[k]
}

proof fn lemma_agree_range(t: Seq<char>, u: Seq<char>, n: int, a: int, b: int)
    requires
        agree(t, u, n),
        0 <= a <= b <= n,
    ensures
        t.subrange(a, b) == u.subrange(a, b),
{
    assert(t.subrange(a, b) =~= u.subrange(a, b));
}

/// A line that ends before `n`, or at the end of both texts, ends there in both.
pub proof fn lemma_line_end_local(t: Seq<char>, u: Seq<char>, n: int, i: int)
    requires
        agree(t, u, n),
        0 <= i <= n,
        text::line_end(t, i) <= n,
        n == u.len() || (n > 0 && t[n - 1] == '\n'),
        i < n || n == u.len(),
    ensures
        text::line_end(u, i) == text::line_end(t, i),
{
    text::lemma_line_end(t, i);
    let e = text::line_end(t, i);
    if e == n && n == u.len() {
        assert forall|k: int| i <= k < e - 1 implies #[trigger] u[k] != '\n' by {
            assert(t[k] == u[k]);
        }
        text::lemma_line_end_unique(u, i, e);
    } else {
        assert(i < e);
        if e < t.len() {
            assert(t[e - 1] == '\n');
        } else {
            assert(e == n);
        }
        assert(u[e - 1] == t[e - 1]);
        assert forall|k: int| i <= k < e - 1 implies #[trigger] u[k] != '\n' by {
            assert(t[k] == u[k]);
        }
        text::lemma_line_end_unique(u, i, e);
    }
}

proof fn lemma_find_local(t: Seq<char>, u: Seq<char>, n: int, c: char, i: int)
    requires
        agree(t, u, n),
        0 <= i <= t.len(),
        text::find_from(t, c, i) < n,
    ensures
        text::find_from(u, c, i) == text::find_from(t, c, i),
{
    text::lemma_find(t, c, i);
    let e = text::find_from(t, c, i);
    assert forall|k: int| i <= k < e implies #[trigger] u[k] != c by {
        assert(t[k] == u[k]);
    }
    assert(u[e] == t[e]);
    text::lemma_find_unique(u, c, i, e);
}

proof fn lemma_doc_end_local(t: Seq<char>, u: Seq<char>, n: int, offset: int, doc: HereDocView)
    requires
        agree(t, u, n),
        0 <= offset <= n,
        n < t.len(),
        braces::doc_end(t, offset, doc) matches Some(e) && e <= n,
    ensures
        braces::doc_end(u, offset, doc) == braces::doc_end(t, offset, doc),
    decreases t.len() - offset,
{
    text::lemma_find(t, '\n', offset);
    let e = text::find_from(t, '\n', offset);
    braces::lemma_doc_end(t, offset, doc);
    if e >= t.len() {
        assert(false);
    }
    if braces::doc_line(t, offset, e, doc.strip_tabs) != doc.delimiter {
        braces::lemma_doc_end(t, e + 1, doc);
    }
    lemma_find_local(t, u, n, '\n', offset);
    let end = if offset < e && t[e - 1] == '\r' {
        e - 1
    } else {
        e
    };
    lemma_agree_range(t, u, n, offset, end);
    if braces::doc_line(t, offset, e, doc.strip_tabs) != doc.delimiter {
        lemma_doc_end_local(t, u, n, e + 1, doc);
    }
}

proof fn lemma_docs_end_local(
    t: Seq<char>,
    u: Seq<char>,
    n: int,
    offset: int,
    docs: Seq<HereDocView>,
)
    requires
        agree(t, u, n),
        0 <= offset <= n,
        n < t.len(),
        braces::docs_end(t, offset, docs) matches Some(e) && e <= n,
    ensures
        braces::docs_end(u, offset, docs) == braces::docs_end(t, offset, docs),
    decreases docs.len(),
{
    if docs.len() > 0 {
        braces::lemma_doc_end(t, offset, docs[0]);
        let next = braces::doc_end(t, offset, docs[0])->0;
        braces::lemma_docs_end(t, next, docs.drop_first());
        lemma_doc_end_local(t, u, n, offset, docs[0]);
        lemma_docs_end_local(t, u, n, next, docs.drop_first());
    }
}

proof fn lemma_subst_local(t: Seq<char>, u: Seq<char>, n: int, i: int, s: SubstState)
    requires
        agree(t, u, n),
        0 <= i,
        braces::subst_from(t, i, s) matches Some(e) && e <= n,
    ensures
        braces::subst_from(u, i, s) == braces::subst_from(t, i, s),
    decreases t.len() - i,
{
    braces::lemma_subst_from(t, i, s);
    assert(t[i] == u[i]);
    if i > 0 {
        assert(t[i - 1] == u[i - 1]);
    }
    assert(braces::subst_step(t, i, s) == braces::subst_step(u, i, s));
    if braces::subst_step(t, i, s).depth != 0 {
        lemma_subst_local(t, u, n, i + 1, braces::subst_step(t, i, s));
    }
}

proof fn lemma_word_local(t: Seq<char>, u: Seq<char>, n: int, i: int, word: Seq<char>)
    requires
        agree(t, u, n),
        0 <= i <= n,
        braces::shell_word(t, i, word) matches Some((_, e)) && e < n,
    ensures
        braces::shell_word(u, i, word) == braces::shell_word(t, i, word),
    decreases t.len() - i,
{
    braces::lemma_shell_word(t, i, word);
    assert(i < n);
    assert(t[i] == u[i]);
    if !text::is_ascii_ws(t[i]) && !braces::is_operator_char(t[i]) {
        if t[i] == '\\' {
            braces::lemma_shell_word(t, i + 2, word.push(t[i + 1]));
            assert(t[i + 1] == u[i + 1]);
            lemma_word_local(t, u, n, i + 2, word.push(t[i + 1]));
        } else {
            braces::lemma_shell_word(t, i + 1, word.push(t[i]));
            lemma_word_local(t, u, n, i + 1, word.push(t[i]));
        }
    }
}

/// No shell word that starts up to index `n` runs into a backslash that ends the text.
pub open spec fn words_end(t: Seq<char>, n: int) -> bool {
    forall|k: int, w: Seq<char>| 0 <= k <= n ==> #[trigger] braces::shell_word(t, k, w) is Some
}

/// Inside a quote that is never closed no brace closes the body.
proof fn lemma_open_quote(t: Seq<char>, i: int, kind: FunctionKind, s: BraceState, q: char)
    requires
        0 <= i <= t.len(),
        s.quote == Some(FunctionQuote::Single(q)),
        !s.comment,
        forall|k: int| i <= k < t.len() ==> #[trigger] t[k] != q,
    ensures
        braces::brace_from(t, i, kind, s) is None,
    decreases t.len() - i,
{
    if i < t.len() {
        braces::lemma_brace_step(t, i, kind, s);
        assert(t[i] != q);
        match braces::brace_step(t, i, kind, s) {
            BraceStep::Next(j, next) => {
                lemma_open_quote(t, j, kind, next, q);
            },
            _ => {},
        }
    }
}

/// The scan passes blanks, `<` and `-` up to `k` one by one where they announce
/// no here document.
proof fn lemma_plain_run(t: Seq<char>, i: int, k: int, s: BraceState)
    requires
        0 <= i <= k < t.len(),
        !s.comment,
        !s.escaped,
        s.quote is None,
        s.arithmetic == 0,
        forall|m: int| i <= m < k ==> (#[trigger] t[m] == ' ' || t[m] == '\t' || t[m] == '-'),
    ensures
        braces::brace_from(t, i, FunctionKind::Shell, s) == braces::brace_from(t, k, FunctionKind::Shell, s),
    decreases k - i,
{
    if i < k {
        assert(t[i] == ' ' || t[i] == '\t' || t[i] == '-');
        assert(braces::here_document(t, i) is None);
        assert(braces::brace_step(t, i, FunctionKind::Shell, s) == BraceStep::Next(i + 1, s));
    assert(braces::brace_from(t, i, FunctionKind::Shell, s) == braces::brace_from(t, i + 1, FunctionKind::Shell, s));
        lemma_plain_run(t, i + 1, k, s);
    }
}

/// A here document whose quoted delimiter is never closed leaves the body open.
proof fn lemma_open_delimiter(t: Seq<char>, i: int, s: BraceState)
    requires
        0 <= i,
        !s.comment,
        !s.escaped,
        s.quote is None,
        s.arithmetic == 0,
        operator::pair_at(t, i, '<', '<'),
        !operator::at(t, i + 2, '<'),
        braces::delimiter_start(t, i) < t.len(),
        scanner::is_quote(t[braces::delimiter_start(t, i)]),
        text::find_from(t, t[braces::delimiter_start(t, i)], braces::delimiter_start(t, i) + 1) >= t.len(),
    ensures
        braces::brace_from(t, i, FunctionKind::Shell, s) is None,
{
    let from = if operator::at(t, i + 2, '-') {
        i + 3
    } else {
        i + 2
    };
    let k = braces::delimiter_start(t, i);
    text::lemma_lead(t, CharClass::Indent, from);
    text::lemma_find(t, t[k], k + 1);
    assert(braces::here_document(t, i) is None);
    assert(braces::brace_step(t, i, FunctionKind::Shell, s) == BraceStep::Next(i + 1, s));
    assert(braces::brace_from(t, i, FunctionKind::Shell, s) == braces::brace_from(t, i + 1, FunctionKind::Shell, s));
    assert(!operator::pair_at(t, i + 1, '<', '<'));
    assert(braces::brace_step(t, i + 1, FunctionKind::Shell, s) == BraceStep::Next(i + 2, s));
    assert(braces::brace_from(t, i + 1, FunctionKind::Shell, s) == braces::brace_from(t, i + 2, FunctionKind::Shell, s));
    assert forall|m: int| i + 2 <= m < k implies (#[trigger] t[m] == ' ' || t[m] == '\t' || t[m]
        == '-') by {
        if m >= from {
            assert(text::in_class(CharClass::Indent, t[m]));
        }
    }
    lemma_plain_run(t, i + 2, k, s);
    let next = BraceState { quote: Some(FunctionQuote::Single(t[k])), ..s };
    assert(braces::brace_step(t, k, FunctionKind::Shell, s) == BraceStep::Next(k + 1, next));
    assert(braces::brace_from(t, k, FunctionKind::Shell, s) == braces::brace_from(t, k + 1, FunctionKind::Shell, next));
    lemma_open_quote(t, k + 1, FunctionKind::Shell, next, t[k]);
}

/// Whether a here document is announced at `i`, and which, is local where the
/// body is closed at `c`.
proof fn lemma_here_document_local(t: Seq<char>, u: Seq<char>, c: int, i: int, s: BraceState)
    requires
        agree(t, u, c + 1),
        0 <= i <= c < t.len(),
        t[c] == '}',
        !s.comment,
        !s.escaped,
        s.quote is None,
        s.arithmetic == 0,
        words_end(t, c),
        braces::brace_from(t, i, FunctionKind::Shell, s) == Some(c),
        braces::here_document(t, i) matches Some((_, e)) ==> e <= c,
    ensures
        braces::here_document(u, i) == braces::here_document(t, i),
{
    assert(t[i] == u[i]);
    if i < c {
        assert(t[i + 1] == u[i + 1]);
    }
    assert(u[c] == '}');
    if operator::pair_at(t, i, '<', '<') {
        assert(i + 1 < c);
        assert(t[i + 2] == u[i + 2]);
        if !operator::at(t, i + 2, '<') {
            let from = if operator::at(t, i + 2, '-') {
                i + 3
            } else {
                i + 2
            };
            assert(from <= c);
            text::lemma_lead(t, CharClass::Indent, from);
            let k = braces::delimiter_start(t, i);
            if c < k {
                assert(text::in_class(CharClass::Indent, t[c]));
            }
            assert(t[k] == u[k]);
            assert forall|m: int| from <= m < k implies text::in_class(
                CharClass::Indent,
                #[trigger] u[m],
            ) by {
                assert(t[m] == u[m]);
            }
            text::lemma_lead_unique(u, CharClass::Indent, from, k);
            if scanner::is_quote(t[k]) {
                assert(k < c);
                text::lemma_find(t, t[k], k + 1);
                let e = text::find_from(t, t[k], k + 1);
                if e >= t.len() {
                    lemma_open_delimiter(t, i, s);
                    assert(false);
                }
                if e <= c {
                    lemma_find_local(t, u, c + 1, t[k], k + 1);
                    lemma_agree_range(t, u, c + 1, k + 1, e);
                } else {
                    assert(e == k + 1);
                    assert(t[k + 1] == t[c]);
                }
            } else if t[k] == '\\' {
                assert(k < c);
                assert(t[k + 1] == u[k + 1]);
                if k + 2 <= c {
                    let w = seq![t[k + 1]];
                    assert(braces::shell_word(t, k + 2, w) is Some);
                    braces::lemma_shell_word(t, k + 2, w);
                    let (_, e) = braces::shell_word(t, k + 2, w)->0;
                    lemma_shell_word_keeps(t, k + 2, w);
                    assert(braces::here_document(t, i) is Some);
                    lemma_word_local(t, u, c + 1, k + 2, w);
                } else {
                    assert(k + 1 == c);
                    let w = seq![t[k + 1]];
                    braces::lemma_shell_word(t, k + 2, w);
                    if braces::shell_word(t, k + 2, w) is Some {
                        let (word, e) = braces::shell_word(t, k + 2, w)->0;
                        lemma_shell_word_keeps(t, k + 2, w);
                        assert(braces::here_document(t, i) is Some);
                        assert(false);
                    }
                    lemma_step_escape_hides(t, i, k, c, s);
                }
            } else {
                let w = Seq::<char>::empty();
                assert(braces::shell_word(t, k, w) is Some);
                braces::lemma_shell_word(t, k, w);
                let (word, e) = braces::shell_word(t, k, w)->0;
                if word.len() > 0 {
                    lemma_word_local(t, u, c + 1, k, w);
                } else {
                    lemma_shell_word_keeps(t, k, w);
                    assert(text::is_ascii_ws(t[k]) || braces::is_operator_char(t[k]));
                }
            }
        }
    }
}

/// A shell word only grows.
proof fn lemma_shell_word_keeps(t: Seq<char>, i: int, word: Seq<char>)
    requires
        0 <= i <= t.len(),
    ensures
        braces::shell_word(t, i, word) matches Some((w, _)) ==> w.len() >= word.len(),
        braces::shell_word(t, i, word) matches Some((w, _)) ==> w.len() == word.len() ==> i >= t.len()
            || text::is_ascii_ws(t[i]) || braces::is_operator_char(t[i]),
    decreases t.len() - i,
{
    if i < t.len() && !text::is_ascii_ws(t[i]) && !braces::is_operator_char(t[i]) {
        if t[i] == '\\' {
            if i + 1 < t.len() {
                lemma_shell_word_keeps(t, i + 2, word.push(t[i + 1]));
            }
        } else {
            lemma_shell_word_keeps(t, i + 1, word.push(t[i]));
        }
    }
}

/// A brace right after the backslash that starts a delimiter is escaped, so it
/// closes nothing.
proof fn lemma_step_escape_hides(t: Seq<char>, i: int, k: int, c: int, s: BraceState)
    requires
        0 <= i,
        !s.comment,
        !s.escaped,
        s.quote is None,
        s.arithmetic == 0,
        operator::pair_at(t, i, '<', '<'),
        !operator::at(t, i + 2, '<'),
        k == braces::delimiter_start(t, i),
        k < t.len(),
        t[k] == '\\',
        c == k + 1,
        c < t.len(),
        braces::here_document(t, i) is None,
    ensures
        braces::brace_from(t, i, FunctionKind::Shell, s) != Some(c),
{
    let from = if operator::at(t, i + 2, '-') {
        i + 3
    } else {
        i + 2
    };
    text::lemma_lead(t, CharClass::Indent, from);
    assert(braces::brace_step(t, i, FunctionKind::Shell, s) == BraceStep::Next(i + 1, s));
    assert(braces::brace_from(t, i, FunctionKind::Shell, s) == braces::brace_from(t, i + 1, FunctionKind::Shell, s));
    assert(!operator::pair_at(t, i + 1, '<', '<'));
    assert(braces::brace_step(t, i + 1, FunctionKind::Shell, s) == BraceStep::Next(i + 2, s));
    assert(braces::brace_from(t, i + 1, FunctionKind::Shell, s) == braces::brace_from(t, i + 2, FunctionKind::Shell, s));
    assert forall|m: int| i + 2 <= m < k implies (#[trigger] t[m] == ' ' || t[m] == '\t' || t[m]
        == '-') by {
        if m >= from {
            assert(text::in_class(CharClass::Indent, t[m]));
        }
    }
    lemma_plain_run(t, i + 2, k, s);
    let escaped = BraceState { escaped: true, ..s };
    assert(braces::brace_step(t, k, FunctionKind::Shell, s) == BraceStep::Next(k + 1, escaped));
    assert(braces::brace_from(t, k, FunctionKind::Shell, s) == braces::brace_from(t, k + 1, FunctionKind::Shell, escaped));
    let after = BraceState { escaped: false, ..escaped };
    assert(braces::brace_step(t, c, FunctionKind::Shell, escaped) == BraceStep::Next(c + 1, after));
    assert(braces::brace_from(t, c, FunctionKind::Shell, escaped) == braces::brace_from(t, c + 1, FunctionKind::Shell, after));
    braces::lemma_brace_from(t, c + 1, FunctionKind::Shell, after);
}

/// The brace that closes a body is found from the text up to it.
pub proof fn lemma_brace_local(
    t: Seq<char>,
    u: Seq<char>,
    i: int,
    kind: FunctionKind,
    s: BraceState,
    c: int,
)
    requires
        0 <= i,
        braces::brace_from(t, i, kind, s) == Some(c),
        c < t.len(),
        agree(t, u, c + 1),
        words_end(t, c),
        s.quote matches Some(FunctionQuote::Triple(d)) ==> scanner::is_quote(d),
    ensures
        braces::brace_from(u, i, kind, s) == Some(c),
    decreases t.len() - i,
{
    braces::lemma_brace_from(t, i, kind, s);
    braces::lemma_brace_step(t, i, kind, s);
    assert(t[i] == u[i]);
    if i > 0 {
        assert(t[i - 1] == u[i - 1]);
    }
    if i < c {
        assert(t[i + 1] == u[i + 1]);
        if i + 1 < c {
            assert(t[i + 2] == u[i + 2]);
        }
    }
    assert(u[c] == '}');
    let step = braces::brace_step(t, i, kind, s);
    match step {
        BraceStep::Next(j, next) => {
            braces::lemma_brace_from(t, j, kind, next);
            assert(j <= c);
            if let Some(e) = braces::docs_end(t, i + 1, s.docs) {
                if e <= c {
                    lemma_docs_end_local(t, u, c, i + 1, s.docs);
                }
            }
            if operator::pair_at(t, i, '$', '(') {
                if let Some(e) = braces::subst_end(t, i + 2) {
                    if e <= c {
                        lemma_subst_local(t, u, c, i + 2, braces::subst_start());
                    }
                }
            }
            if kind == FunctionKind::Shell && !s.comment && !s.escaped && s.quote is None
                && s.arithmetic == 0 && t[i] == '<' {
                braces::lemma_here_document(t, i);
                lemma_here_document_local(t, u, c, i, s);
            }
            assert(braces::brace_step(u, i, kind, s) == step);
            lemma_brace_local(t, u, j, kind, next, c);
        },
        _ => {
            assert(braces::brace_step(u, i, kind, s) == step);
        },
    }
}

// ---------------------------------------------------------------------------
// Words that run to the end of the text
// ---------------------------------------------------------------------------
/// A word that runs to a final backslash passes every line feed on the way.
proof fn lemma_word_crosses(t: Seq<char>, k: int, w: Seq<char>, n: int)
    requires
        braces::shell_word(t, k, w) is None,
        0 <= k < n <= t.len(),
        t[n - 1] == '\n',
    ensures
        exists|v: Seq<char>| #[trigger] braces::shell_word(t, n, v) is None,
    decreases n - k,
{
    if t[k] == '\\' {
        if k + 2 == n {
            assert(braces::shell_word(t, n, w.push(t[k + 1])) is None);
        } else {
            assert(k + 1 < n);
            lemma_word_crosses(t, k + 2, w.push(t[k + 1]), n);
        }
    } else {
        assert(k + 1 < n);
        lemma_word_crosses(t, k + 1, w.push(t[k]), n);
    }
}

proof fn lemma_word_suffix(t: Seq<char>, n: int, k: int, w: Seq<char>)
    requires
        0 <= n <= t.len(),
        0 <= k,
    ensures
        braces::shell_word(t, n + k, w) is None <==> braces::shell_word(t.skip(n), k, w) is None,
    decreases t.len() - n - k,
{
    if n + k < t.len() {
        let r = t.skip(n);
        assert(r[k] == t[n + k]);
        if n + k + 1 < t.len() {
            assert(r[k + 1] == t[n + k + 1]);
            lemma_word_suffix(t, n, k + 2, w.push(t[n + k + 1]));
        }
        lemma_word_suffix(t, n, k + 1, w.push(t[n + k]));
    }
}

/// A separator inside a word that runs to a final backslash is escaped.
proof fn lemma_word_escapes(t: Seq<char>, k: int, w: Seq<char>, p: int)
    requires
        braces::shell_word(t, k, w) is None,
        0 <= k <= p < t.len(),
        text::is_ascii_ws(t[p]) || braces::is_operator_char(t[p]),
    ensures
        k < p,
        t[p - 1] == '\\',
    decreases p - k,
{
    if t[k] == '\\' {
        if k + 1 != p {
            lemma_word_escapes(t, k + 2, w.push(t[k + 1]), p);
        }
    } else {
        lemma_word_escapes(t, k + 1, w.push(t[k]), p);
    }
}

/// The backslashes before the end of a line of such a word are odd in number.
proof fn lemma_word_parity(t: Seq<char>, i: int, e: int, c: int, k: int, w: Seq<char>)
    requires
        braces::shell_word(t, k, w) is None,
        0 <= i <= k <= c <= e <= t.len(),
        (c == e - 1 && t[c] == '\n') || (c == e && e == t.len()),
        forall|m: int| i <= m < c ==> #[trigger] t[m] != '\n',
        scanner::backslashes_before(t.subrange(i, e), k - i) % 2 == 0,
    ensures
        scanner::backslashes_before(t.subrange(i, e), c - i) % 2 == 1,
    decreases c - k,
{
    let line = t.subrange(i, e);
    assert(k < c);
    assert(line[k - i] == t[k]);
    if t[k] == '\\' {
        assert(scanner::backslashes_before(line, k - i + 1) == 1 + scanner::backslashes_before(line, k - i));
        if k + 1 < c {
            assert(line[k - i + 1] == t[k + 1]);
            if t[k + 1] == '\\' {
                assert(scanner::backslashes_before(line, k - i + 2) == 1 + scanner::backslashes_before(
                    line,
                    k - i + 1,
                ));
            } else {
                assert(scanner::backslashes_before(line, k - i + 2) == 0);
            }
            lemma_word_parity(t, i, e, c, k + 2, w.push(t[k + 1]));
        }
    } else {
        assert(scanner::backslashes_before(line, k - i + 1) == 0);
        lemma_word_parity(t, i, e, c, k + 1, w.push(t[k]));
    }
}

/// A word that runs to a final backslash is an unterminated continuation.
proof fn lemma_word_continues(t: Seq<char>, i: int, w: Seq<char>)
    requires
        braces::shell_word(t, i, w) is None,
        0 <= i < t.len(),
    ensures
        scanner::continuation_end(t, i) is None,
        scanner::continued_line(t.subrange(i, text::line_end(t, i))),
    decreases t.len() - i,
{
    text::lemma_line_end(t, i);
    let e = text::line_end(t, i);
    let line = t.subrange(i, e);
    let c = if t[e - 1] == '\n' {
        e - 1
    } else {
        e
    };
    assert(scanner::backslashes_before(line, 0) == 0);
    lemma_word_parity(t, i, e, c, i, w);
    assert(c - i > 0);
    assert(line[c - i - 1] == '\\');
    if c < e {
        assert(line[e - i - 1] == '\n');
    }
    assert(text::content_len(line) == c - i);
    assert(text::tail_from(line, CharClass::LineBlank, c - i) == c - i);
    if c < e {
        lemma_word_crosses(t, i, w, e);
        let v = choose|v: Seq<char>| #[trigger] braces::shell_word(t, e, v) is None;
        assert(braces::shell_word(t, e, v) is None);
        lemma_word_continues(t, e, v);
    }
}

/// A text that is a word up to a final backslash has no first node.
proof fn lemma_word_fails(t: Seq<char>, w: Seq<char>)
    requires
        t.len() > 0,
        braces::shell_word(t, 0, w) is None,
    ensures
        syntax::next_node(t) is Err,
{
    reveal(scanner::function_head);
    reveal(scanner::python_def_start);
    let line = syntax::first_line(t);
    text::lemma_line_end(t, 0);
    lemma_word_continues(t, 0, w);
    assert(t.subrange(0, text::line_end(t, 0)) =~= line);
    if scanner::function_head(line) is Some {
        syntax::lemma_function_head(line);
        let close = scanner::head_close(line);
        let paren = scanner::head_paren(line);
        syntax::lemma_code_end(text::line_content(line));
        text::lemma_tail(line, CharClass::Whitespace, scanner::code_end(text::line_content(line)));
        text::lemma_tail(line, CharClass::Whitespace, scanner::head_brace(line));
        text::lemma_rfind(line, '(', close);
        assert(t[close] == line[close]);
        lemma_word_escapes(t, 0, w, close);
        assert(line[close - 1] == '\\');
        assert(line[paren] == '(');
        assert(!text::is_ws(line[close - 1]));
    }
    if scanner::python_def_start(line) {
        let code = scanner::code_of(line);
        syntax::lemma_code_end(text::line_content(line));
        text::lemma_tail(
            text::line_content(line).take(scanner::code_end(text::line_content(line))),
            CharClass::Whitespace,
            scanner::code_end(text::line_content(line)),
        );
        assert(code.take(4)[2] == 'f');
        assert(code.take(4)[3] == ' ');
        assert(t[2] == 'f' && t[3] == ' ');
        lemma_word_escapes(t, 0, w, 3);
    }
    reveal(syntax::next_node);
}

// ---------------------------------------------------------------------------
// Nodes
// ---------------------------------------------------------------------------
proof fn lemma_python_def_end_local(t: Seq<char>, u: Seq<char>, n: int, i: int)
    requires
        agree(t, u, n),
        0 <= i <= n,
        scanner::python_def_end(t, i) == n,
        n == u.len() || (n > 0 && t[n - 1] == '\n' && !text::is_ws(u[n])),
    ensures
        scanner::python_def_end(u, i) == n,
    decreases n - i,
{
    if i < n {
        assert(t[i] == u[i]);
        text::lemma_line_end(t, i);
        let e = text::line_end(t, i);
        if e > n {
            assert(n < t.len());
            if e < t.len() {
                lemma_python_def_end_bound(t, e);
            } else {
                assert(scanner::python_def_end(t, e) == t.len());
            }
        }
        lemma_line_end_local(t, u, n, i);
        lemma_python_def_end_local(t, u, n, e);
    }
}

proof fn lemma_python_def_end_bound(t: Seq<char>, i: int)
    requires
        0 <= i <= t.len(),
    ensures
        i <= scanner::python_def_end(t, i) <= t.len(),
    decreases t.len() - i,
{
    text::lemma_line_end(t, i);
    if i < t.len() && text::is_ws(t[i]) {
        lemma_python_def_end_bound(t, text::line_end(t, i));
    }
}

proof fn lemma_continuation_end_local(t: Seq<char>, u: Seq<char>, n: int, i: int)
    requires
        agree(t, u, n),
        0 <= i < n,
        scanner::continuation_end(t, i) == Some(n),
        n == u.len() || t[n - 1] == '\n',
    ensures
        scanner::continuation_end(u, i) == Some(n),
    decreases n - i,
{
    text::lemma_line_end(t, i);
    let e = text::line_end(t, i);
    syntax::lemma_continuation_end(t, i);
    lemma_line_end_local(t, u, n, i);
    lemma_agree_range(t, u, n, i, e);
    if scanner::continued_line(t.subrange(i, e)) {
        syntax::lemma_continuation_end(t, e);
        text::lemma_line_end(t, e);
        assert(e < n);
        lemma_continuation_end_local(t, u, n, e);
    }
}

/// The first node of a text is the first node of every text that starts with
/// it and goes on with another line.
///
/// A Python definition must not be followed by an indented or a blank line.
pub proof fn lemma_next_node_local(t: Seq<char>, u: Seq<char>, len: int, kind: NodeKind)
    requires
        t.len() > 0,
        syntax::next_node(t) == Ok::<(int, NodeKind), ParseFault>((len, kind)),
        agree(t, u, len),
        len == u.len() || t[len - 1] == '\n',
        kind is PythonDefinition ==> len == u.len() || !text::is_ws(u[len]),
        len < t.len() ==> syntax::next_node(t.skip(len)) is Ok,
    ensures
        syntax::next_node(u) == Ok::<(int, NodeKind), ParseFault>((len, kind)),
{
    syntax::lemma_next_node(t);
    reveal(syntax::next_node);
    text::lemma_line_end(t, 0);
    lemma_line_end_local(t, u, len, 0);
    let line = syntax::first_line(t);
    let after = text::line_end(t, 0);
    assert(syntax::first_line(u) =~= line);
    if scanner::function_head(line) is Some {
        let fk = scanner::function_head(line)->0;
        syntax::lemma_function_head(line);
        let open = scanner::head_brace(line);
        braces::lemma_brace_from(t, open, fk, braces::brace_start());
        let c = braces::closing_brace(t, open, fk)->0;
        text::lemma_line_end(t, c);
        if len == u.len() && len == t.len() {
            assert(t =~= u);
        } else {
            assert(t[len - 1] == '\n') by {
                if len == u.len() && len < t.len() {
                    assert(t[text::line_end(t, c) - 1] == '\n');
                }
            }
            assert forall|k: int, w: Seq<char>| 0 <= k <= c implies #[trigger] braces::shell_word(
                t,
                k,
                w,
            ) is Some by {
                if braces::shell_word(t, k, w) is None {
                    lemma_word_crosses(t, k, w, len);
                    let v = choose|v: Seq<char>| #[trigger] braces::shell_word(t, len, v) is None;
                    assert(braces::shell_word(t, len, v) is None);
                    assert(len < t.len());
                    lemma_word_suffix(t, len, 0, v);
                    lemma_word_fails(t.skip(len), v);
                }
            }
            lemma_brace_local(t, u, open, fk, braces::brace_start(), c);
            lemma_line_end_local(t, u, len, c);
        }
    } else if scanner::python_def_start(line) {
        lemma_python_def_end_local(t, u, len, after);
    } else if scanner::continued_line(line) {
        lemma_continuation_end_local(t, u, len, 0);
        assert(t.take(len) =~= u.take(len));
    }
}

} // verus!
