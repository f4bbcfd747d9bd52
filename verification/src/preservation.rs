//! Formatting keeps all that is visible in a text.
use crate::formatter;
use crate::idempotence;
use crate::listing;
use crate::locality;
use crate::operator;
use crate::reparse;
use crate::scanner;
use crate::syntax;
use crate::text;
use crate::formatter::FormatOptions;
use crate::formatter::ListLine;
use crate::formatter::MetadataListLayout;
use crate::syntax::AssignmentParts;
use crate::syntax::DirectiveParts;
use crate::syntax::NodeKind;
use crate::syntax::NodeView;
use crate::syntax::ParseFault;
use crate::text::CharClass;
use vstd::prelude::*;

verus! {

/// What is no white space and, where `bare` holds, no backslash.
pub open spec fn is_kept(bare: bool) -> spec_fn(char) -> bool {
    |c: char| !text::is_ws(c) && (bare ==> c != '\\')
}

/// A text without its white space and, where `bare` holds, without its
/// backslashes.
pub open spec fn kept(t: Seq<char>, bare: bool) -> Seq<char> {
    t.filter(is_kept(bare))
}

/// Of two texts joined, what is kept of each is kept.
proof fn lemma_kept_joined(a: Seq<char>, b: Seq<char>, bare: bool)
    ensures
        kept(a + b, bare) == kept(a, bare) + kept(b, bare),
{
    Seq::filter_distributes_over_add(a, b, is_kept(bare));
}

/// Of a text split at `k`, what is kept of each part is kept.
proof fn lemma_kept_split(t: Seq<char>, k: int, bare: bool)
    requires
        0 <= k <= t.len(),
    ensures
        kept(t, bare) == kept(t.take(k), bare) + kept(t.skip(k), bare),
{
    assert(t.take(k) + t.skip(k) =~= t);
    lemma_kept_joined(t.take(k), t.skip(k), bare);
}

/// Nothing is kept of white space.
proof fn lemma_nothing_kept(t: Seq<char>, bare: bool)
    requires
        forall|k: int|
            0 <= k < t.len() ==> text::is_ws(#[trigger] t[k]) || (bare && t[k] == '\\'),
    ensures
        kept(t, bare) == Seq::<char>::empty(),
    decreases t.len(),
{
    reveal(Seq::filter);
    if t.len() > 0 {
        let rest = t.drop_last();
        assert(text::is_ws(t[t.len() - 1]) || (bare && t[t.len() - 1] == '\\'));
        assert forall|k: int| 0 <= k < rest.len() implies text::is_ws(#[trigger] rest[k]) || (bare
            && rest[k] == '\\') by {
            assert(rest[k] == t[k]);
        }
        lemma_nothing_kept(rest, bare);
    }
    assert(kept(t, bare) =~= Seq::empty());
}

/// White space inside a text is not kept.
proof fn lemma_gap(t: Seq<char>, a: int, b: int, bare: bool)
    requires
        0 <= a <= b <= t.len(),
        forall|k: int|
            a <= k < b ==> text::is_ws(#[trigger] t[k]) || (bare && t[k] == '\\'),
    ensures
        kept(t.skip(a), bare) == kept(t.skip(b), bare),
{
    let gap = t.subrange(a, b);
    assert forall|k: int| 0 <= k < gap.len() implies text::is_ws(#[trigger] gap[k]) || (bare
        && gap[k] == '\\') by {
        assert(gap[k] == t[a + k]);
    }
    lemma_nothing_kept(gap, bare);
    assert(gap + t.skip(b) =~= t.skip(a));
    lemma_kept_joined(gap, t.skip(b), bare);
    assert(Seq::<char>::empty() + kept(t.skip(b), bare) =~= kept(t.skip(b), bare));
}

/// What is kept of a text from `a` on starts with what is kept up to `b`.
proof fn lemma_part(t: Seq<char>, a: int, b: int, bare: bool)
    requires
        0 <= a <= b <= t.len(),
    ensures
        kept(t.skip(a), bare) == kept(t.subrange(a, b), bare) + kept(t.skip(b), bare),
{
    assert(t.subrange(a, b) + t.skip(b) =~= t.skip(a));
    lemma_kept_joined(t.subrange(a, b), t.skip(b), bare);
}

// ---------------------------------------------------------------------------
// Nodes
// ---------------------------------------------------------------------------
/// What is kept of an assignment: its left-hand side, its operator, its value
/// and what ends it.
#[verifier::rlimit(40)]
proof fn lemma_assignment_kept(text: Seq<char>, a: AssignmentParts, bare: bool)
    requires
        text.len() > 0,
        syntax::next_node(text) == Ok::<(int, NodeKind), ParseFault>(
            (text.len() as int, NodeKind::Assignment(a)),
        ),
    ensures
        kept(text, bare) == kept(formatter::left_of(text, a), bare) + (kept(
            operator::operator_chars(a.operator),
            bare,
        ) + kept(text.skip(idempotence::value_at(text, a)), bare)),
{
    idempotence::lemma_assignment_facts(text, a);
    idempotence::lemma_assignment_rewritten(text, a);
    let content = text::line_content(syntax::first_line(text));
    let left = formatter::left_of(text, a);
    let n = left.len() as int;
    let s = syntax::value_start(a);
    let j = idempotence::value_at(text, a);
    let op = operator::operator_chars(a.operator);
    assert(text.take(n) =~= left);
    lemma_kept_split(text, n, bare);
    assert forall|k: int| n <= k < a.operator_at implies text::is_ws(#[trigger] text[k]) || (bare
        && text[k] == '\\') by {
        assert(content[k] == text[k]);
    }
    lemma_gap(text, n, a.operator_at, bare);
    idempotence::lemma_operator_text(content, a.operator_at, a.operator);
    assert(text.subrange(a.operator_at, s) =~= op) by {
        assert(content.subrange(a.operator_at, s) =~= text.subrange(a.operator_at, s));
    }
    lemma_part(text, a.operator_at, s, bare);
    let v = syntax::value_of(text, a);
    text::lemma_lead(v, CharClass::Indent, 0);
    assert forall|k: int| s <= k < j implies text::is_ws(#[trigger] text[k]) || (bare && text[k]
        == '\\') by {
        assert(text::in_class(CharClass::Indent, v[k - s]));
        assert(v[k - s] == text[k]);
    }
    lemma_gap(text, s, j, bare);
}

/// A single space is not kept.
proof fn lemma_space(bare: bool)
    ensures
        kept(seq![' '], bare) == Seq::<char>::empty(),
{
    lemma_nothing_kept(seq![' '], bare);
}

/// What is kept of an assignment that is laid out again: its left-hand side,
/// its operator and what follows the head.
proof fn lemma_head_kept(left: Seq<char>, op: Seq<char>, rest: Seq<char>, bare: bool)
    ensures
        kept(left + seq![' '] + op + seq![' '] + rest, bare) == kept(left, bare) + (kept(op, bare)
            + kept(rest, bare)),
        kept(left + seq![' '] + op + rest, bare) == kept(left, bare) + (kept(op, bare) + kept(
            rest,
            bare,
        )),
{
    lemma_space(bare);
    lemma_kept_joined(left, seq![' '], bare);
    lemma_kept_joined(left + seq![' '], op, bare);
    lemma_kept_joined(left + seq![' '] + op, seq![' '], bare);
    lemma_kept_joined(left + seq![' '] + op + seq![' '], rest, bare);
    lemma_kept_joined(left + seq![' '] + op, rest, bare);
    let e = Seq::<char>::empty();
    assert(kept(left, bare) + e + kept(op, bare) + e + kept(rest, bare) =~= kept(left, bare) + (
    kept(op, bare) + kept(rest, bare)));
    assert(kept(left, bare) + e + kept(op, bare) + kept(rest, bare) =~= kept(left, bare) + (kept(
        op,
        bare,
    ) + kept(rest, bare)));
}

/// A formatted assignment keeps what is visible.
proof fn lemma_assignment_output_kept(text: Seq<char>, a: AssignmentParts, bare: bool)
    requires
        text.len() > 0,
        syntax::next_node(text) == Ok::<(int, NodeKind), ParseFault>(
            (text.len() as int, NodeKind::Assignment(a)),
        ),
    ensures
        kept(formatter::assignment_output(text, a), bare) == kept(text, bare),
{
    lemma_assignment_kept(text, a, bare);
    idempotence::lemma_assignment_rewritten(text, a);
    let left = formatter::left_of(text, a);
    let op = operator::operator_chars(a.operator);
    let rest = text.skip(idempotence::value_at(text, a));
    lemma_head_kept(left, op, rest, bare);
    if formatter::value_body(text, a).len() == 0 {
        assert(formatter::assignment_output(text, a) =~= left + seq![' '] + op + rest);
    } else {
        assert(formatter::assignment_output(text, a) =~= left + seq![' '] + op + seq![' '] + rest);
    }
}

/// The visible characters of items.
spec fn items_kept(items: Seq<Seq<char>>) -> Seq<char>
    decreases items.len(),
{
    if items.len() == 0 {
        Seq::empty()
    } else {
        kept(items[0], true) + items_kept(items.drop_first())
    }
}

/// What is kept of a line of a list is kept of its item.
proof fn lemma_line_kept(line: Seq<char>, is_first: bool, quote: char, ending: Seq<char>)
    requires
        !(formatter::list_line(line, is_first, quote, ending) is Reject),
    ensures
        kept(line, true) == (match formatter::list_line(line, is_first, quote, ending) {
            ListLine::Item(item) => kept(item, true),
            _ => Seq::empty(),
        }),
{
    let content = text::line_content(line);
    let n = content.len() as int;
    let l = text::lead_from(content, CharClass::Indent, 0);
    text::lemma_lead(content, CharClass::Indent, 0);
    let body = text::trimmed_start(content, CharClass::Indent);
    assert(body =~= line.subrange(l, n));
    assert(line.skip(0) =~= line);
    assert forall|k: int| 0 <= k < l implies text::is_ws(#[trigger] line[k]) || line[k] == '\\' by {
        assert(text::in_class(CharClass::Indent, content[k]));
        assert(content[k] == line[k]);
    }
    lemma_gap(line, 0, l, true);
    let e = text::line_ending(line);
    listing::lemma_line_ending(line);
    assert forall|k: int| n <= k < line.len() implies text::is_ws(#[trigger] line[k]) || line[k]
        == '\\' by {
        assert(e[k - n] == line[k]);
    }
    lemma_gap(line, n, line.len() as int, true);
    assert(line.skip(line.len() as int) =~= Seq::empty());
    lemma_nothing_kept(Seq::empty(), true);
    lemma_part(line, l, n, true);
    let nothing = Seq::<char>::empty();
    assert(kept(body, true) + nothing =~= kept(body, true));
    if e.len() == 0 {
        if body.len() == 0 {
            assert(body =~= nothing);
        }
    } else {
        let before = body.drop_last();
        let item = text::trimmed_end(before, CharClass::Indent);
        text::lemma_tail(before, CharClass::Indent, before.len() as int);
        let m = item.len() as int;
        assert(body.take(m) =~= item);
        lemma_kept_split(body, m, true);
        assert forall|k: int| m <= k < body.len() implies text::is_ws(#[trigger] body[k]) || body[k]
            == '\\' by {
            if k < before.len() {
                assert(before[k] == body[k]);
                assert(text::in_class(CharClass::Indent, before[k]));
            }
        }
        lemma_gap(body, m, body.len() as int, true);
        assert(body.skip(body.len() as int) =~= nothing);
        assert(kept(item, true) + nothing =~= kept(item, true));
        if before.len() == 0 {
            assert(item =~= nothing);
        }
    }
}

/// What is kept of a list is kept of its items.
proof fn lemma_items_kept(contents: Seq<char>, i: int, quote: char, ending: Seq<char>)
    requires
        0 <= i <= contents.len(),
        formatter::list_items(contents, i, quote, ending) is Some,
    ensures
        kept(contents.skip(i), true) == items_kept(
            formatter::list_items(contents, i, quote, ending)->0,
        ),
    decreases contents.len() - i,
{
    if i == contents.len() {
        assert(contents.skip(i) =~= Seq::empty());
        lemma_nothing_kept(Seq::empty(), true);
    } else {
        text::lemma_line_end(contents, i);
        let e = text::line_end(contents, i);
        let line = contents.subrange(i, e);
        lemma_line_kept(line, i == 0, quote, ending);
        lemma_items_kept(contents, e, quote, ending);
        lemma_part(contents, i, e, true);
        let rest = formatter::list_items(contents, e, quote, ending)->0;
        let all = formatter::list_items(contents, i, quote, ending)->0;
        if let ListLine::Item(item) = formatter::list_line(line, i == 0, quote, ending) {
            assert(all.drop_first() =~= rest);
        } else {
            assert(Seq::<char>::empty() + items_kept(rest) =~= items_kept(rest));
        }
    }
}

/// What is kept of a text is kept of its words.
proof fn lemma_words_kept(t: Seq<char>, i: int)
    requires
        0 <= i <= t.len(),
    ensures
        kept(t.skip(i), true) == items_kept(
            text::words_from(t, CharClass::Indent, i).map_values(
                |w: (int, int)| t.subrange(w.0, w.1),
            ),
        ),
    decreases t.len() - i,
{
    let s = text::lead_from(t, CharClass::Indent, i);
    let e = text::until_from(t, CharClass::Indent, s);
    text::lemma_lead(t, CharClass::Indent, i);
    text::lemma_until(t, CharClass::Indent, s);
    assert forall|k: int| i <= k < s implies text::is_ws(#[trigger] t[k]) || t[k] == '\\' by {
        assert(text::in_class(CharClass::Indent, t[k]));
    }
    lemma_gap(t, i, s, true);
    let f = |w: (int, int)| t.subrange(w.0, w.1);
    let all = text::words_from(t, CharClass::Indent, i).map_values(f);
    if s < t.len() {
        let rest = text::words_from(t, CharClass::Indent, e).map_values(f);
        lemma_words_kept(t, e);
        lemma_part(t, s, e, true);
        assert(all =~= seq![t.subrange(s, e)] + rest);
        assert(all.drop_first() =~= rest);
    } else {
        assert(all =~= Seq::empty());
        assert(t.skip(s) =~= Seq::empty());
        lemma_nothing_kept(Seq::empty(), true);
    }
}

/// A list that is laid out keeps what is visible, but for the backslashes that
/// end its lines.
#[verifier::rlimit(40)]
proof fn lemma_list_output_kept(text: Seq<char>, a: AssignmentParts)
    requires
        text.len() > 0,
        syntax::next_node(text) == Ok::<(int, NodeKind), ParseFault>(
            (text.len() as int, NodeKind::Assignment(a)),
        ),
        formatter::static_list(text, a) is Some,
    ensures
        kept(formatter::list_output(text, a, formatter::static_list(text, a)->0), true) == kept(
            text,
            true,
        ),
{
    let list = formatter::static_list(text, a)->0;
    lemma_assignment_kept(text, a, true);
    idempotence::lemma_list_facts(text, a);
    idempotence::lemma_list_lines(text, a, list);
    idempotence::lemma_assignment_facts(text, a);
    let j = idempotence::value_at(text, a);
    let c = idempotence::closing_at(text, a);
    let contents = text.subrange(j + 1, c);
    let laid = listing::listed(list.items, list.ending);
    let q = seq![list.quote];
    let tail = list.closing_tail + text::line_ending(text);
    assert(contents.skip(0) =~= contents);
    assert(kept(contents, true) == items_kept(list.items)) by {
        reveal(formatter::static_list);
        let value = formatter::value_body(text, a);
        assert(value.subrange(1, c - j) =~= contents);
        if a.continued {
            lemma_items_kept(contents, 0, list.quote, list.ending);
        } else {
            lemma_words_kept(contents, 0);
        }
    }
    listing::lemma_listed(list.items, list.quote, list.ending);
    lemma_items_kept(laid, 0, list.quote, list.ending);
    assert(laid.skip(0) =~= laid);
    // The text.
    let rest = text.skip(j);
    assert(rest =~= q + contents + q + tail) by {
        assert(tail =~= text.skip(c + 1));
    }
    lemma_kept_joined(q, contents, true);
    lemma_kept_joined(q + contents, q, true);
    lemma_kept_joined(q + contents + q, tail, true);
    // The output.
    let more = q + laid + q + tail;
    lemma_kept_joined(q, laid, true);
    lemma_kept_joined(q + laid, q, true);
    lemma_kept_joined(q + laid + q, tail, true);
    let left = formatter::left_of(text, a);
    let op = operator::operator_chars(a.operator);
    lemma_head_kept(left, op, more, true);
    assert(formatter::list_output(text, a, list) =~= left + seq![' '] + op + seq![' '] + more);
}

/// A formatted directive keeps what is visible.
proof fn lemma_directive_kept(text: Seq<char>, d: DirectiveParts, bare: bool)
    requires
        text.len() > 0,
        syntax::next_node(text) == Ok::<(int, NodeKind), ParseFault>(
            (text.len() as int, NodeKind::Directive(d)),
        ),
    ensures
        kept(formatter::directive_output(text, d), bare) == kept(text, bare),
{
    idempotence::lemma_directive_facts(text, d);
    let content = text::line_content(syntax::first_line(text));
    let word = syntax::keyword_chars(d.keyword);
    let n = word.len() as int;
    let rest = text.skip(d.arguments);
    assert(text.take(n) =~= word) by {
        assert(content.take(n) =~= text.take(n));
    }
    lemma_kept_split(text, n, bare);
    assert forall|k: int| n <= k < d.arguments implies text::is_ws(#[trigger] text[k]) || (bare
        && text[k] == '\\') by {
        assert(content[k] == text[k]);
    }
    lemma_gap(text, n, d.arguments, bare);
    lemma_space(bare);
    let arguments = text.subrange(d.arguments, d.arguments_end);
    assert(rest =~= arguments + text::line_ending(text));
    if arguments.len() == 0 {
        assert(formatter::directive_output(text, d) =~= word + rest);
        lemma_kept_joined(word, rest, bare);
    } else {
        assert(formatter::directive_output(text, d) =~= word + seq![' '] + rest);
        lemma_kept_joined(word, seq![' '], bare);
        lemma_kept_joined(word + seq![' '], rest, bare);
        assert(kept(word, bare) + Seq::<char>::empty() =~= kept(word, bare));
    }
}

/// What is kept of the lines of items is kept of the items.
proof fn lemma_lines_kept(items: Seq<Seq<char>>, ending: Seq<char>)
    requires
        listing::is_ending(ending),
    ensures
        kept(formatter::items_output(items, ending), true) == items_kept(items),
    decreases items.len(),
{
    if items.len() == 0 {
        lemma_nothing_kept(Seq::empty(), true);
    } else {
        let more = items.drop_first();
        let line = listing::item_line(items[0], ending);
        listing::lemma_items_front(items, ending);
        lemma_lines_kept(more, ending);
        lemma_kept_joined(line, formatter::items_output(more, ending), true);
        let n = 4 + items[0].len() as int;
        assert(line.skip(0) =~= line);
        lemma_gap(line, 0, 4, true);
        lemma_part(line, 4, n, true);
        assert(line.subrange(4, n) =~= items[0]);
        assert forall|k: int| n <= k < line.len() implies text::is_ws(#[trigger] line[k]) || line[k]
            == '\\' by {
            if k >= n + 2 {
                assert(line[k] == ending[k - n - 2]);
            }
        }
        lemma_gap(line, n, line.len() as int, true);
        assert(line.skip(line.len() as int) =~= Seq::empty());
        lemma_nothing_kept(Seq::empty(), true);
        assert(kept(items[0], true) + Seq::<char>::empty() =~= kept(items[0], true));
    }
}

/// What is kept of items is kept of those before the last and of the last.
proof fn lemma_last_kept(items: Seq<Seq<char>>)
    requires
        items.len() > 0,
    ensures
        items_kept(items) == items_kept(items.drop_last()) + kept(items.last(), true),
    decreases items.len(),
{
    let more = items.drop_first();
    if items.len() == 1 {
        assert(items_kept(more) =~= Seq::empty());
        assert(items_kept(items.drop_last()) =~= Seq::empty());
        assert(items_kept(items) =~= Seq::<char>::empty() + kept(items.last(), true));
    } else {
        lemma_last_kept(more);
        assert(more.drop_last() =~= items.drop_last().drop_first());
        assert(more.last() == items.last());
        assert(items_kept(items) =~= kept(items[0], true) + items_kept(more.drop_last()) + kept(
            items.last(),
            true,
        ));
    }
}

/// A directive whose classes are laid out keeps what is visible, but for the
/// backslashes that end its lines.
#[verifier::spinoff_prover]
#[verifier::rlimit(60)]
proof fn lemma_classes_output_kept(text: Seq<char>, d: DirectiveParts)
    requires
        text.len() > 0,
        syntax::next_node(text) == Ok::<(int, NodeKind), ParseFault>(
            (text.len() as int, NodeKind::Directive(d)),
        ),
        formatter::static_classes(text, d) is Some,
    ensures
        kept(
            formatter::classes_output(
                d.keyword,
                formatter::static_classes(text, d)->0,
                text::line_ending(text),
            ),
            true,
        ) == kept(text, true),
{
    idempotence::lemma_directive_facts(text, d);
    listing::lemma_line_ending(text);
    let classes = formatter::static_classes(text, d)->0;
    let ending = text::line_ending(text);
    let content = text::line_content(syntax::first_line(text));
    let word = syntax::keyword_chars(d.keyword);
    let n = word.len() as int;
    let nothing = Seq::<char>::empty();
    // The text.
    assert(text.take(n) =~= word) by {
        assert(content.take(n) =~= text.take(n));
    }
    lemma_kept_split(text, n, true);
    assert forall|k: int| n <= k < d.arguments implies text::is_ws(#[trigger] text[k]) || text[k]
        == '\\' by {
        assert(content[k] == text[k]);
    }
    lemma_gap(text, n, d.arguments, true);
    let arguments = text.subrange(d.arguments, d.arguments_end);
    lemma_part(text, d.arguments, d.arguments_end, true);
    assert(text.skip(d.arguments_end) =~= ending);
    assert forall|k: int| 0 <= k < ending.len() implies text::is_ws(#[trigger] ending[k])
        || ending[k] == '\\' by {}
    lemma_nothing_kept(ending, true);
    lemma_words_kept(arguments, 0);
    assert(arguments.skip(0) =~= arguments);
    assert(kept(arguments, true) == items_kept(classes));
    assert(kept(text, true) =~= kept(word, true) + items_kept(classes));
    // The output.
    let mark = seq![' ', '\\'] + ending;
    assert forall|k: int| 0 <= k < mark.len() implies text::is_ws(#[trigger] mark[k]) || mark[k]
        == '\\' by {
        if k >= 2 {
            assert(mark[k] == ending[k - 2]);
        }
    }
    lemma_nothing_kept(mark, true);
    let lines = formatter::items_output(classes.drop_last(), ending);
    let indent = seq![' ', ' ', ' ', ' '];
    lemma_nothing_kept(indent, true);
    lemma_lines_kept(classes.drop_last(), ending);
    lemma_last_kept(classes);
    let out = formatter::classes_output(d.keyword, classes, ending);
    let a = word + mark;
    let b = a + lines;
    let c = b + indent;
    let e = c + classes.last();
    assert(out =~= e + ending);
    lemma_kept_joined(word, mark, true);
    lemma_kept_joined(a, lines, true);
    lemma_kept_joined(b, indent, true);
    lemma_kept_joined(c, classes.last(), true);
    lemma_kept_joined(e, ending, true);
    assert(kept(out, true) =~= kept(word, true) + items_kept(classes));
}

/// Nothing is kept of a blank line.
proof fn lemma_blank_kept(text: Seq<char>, bare: bool)
    requires
        text.len() > 0,
        syntax::next_node(text) == Ok::<(int, NodeKind), ParseFault>(
            (text.len() as int, NodeKind::Blank),
        ),
    ensures
        kept(text, bare) == Seq::<char>::empty(),
        kept(text::line_ending(text), bare) == Seq::<char>::empty(),
{
    let line = syntax::first_line(text);
    text::lemma_line_end(text, 0);
    assert(text::blank_line(line)) by {
        reveal(syntax::next_node);
        reveal(syntax::statement_kind);
        if scanner::continued_line(line) {
            assert(text.take(text.len() as int) =~= text);
        } else {
            assert(line =~= text);
            assert(syntax::first_line(line) =~= line);
        }
    }
    assert(!scanner::continued_line(line)) by {
        let c = text::content_len(line);
        text::lemma_tail(line, CharClass::LineBlank, c);
        let e = text::tail_from(line, CharClass::LineBlank, c);
        if e > 0 {
            assert(text::in_class(CharClass::LineBlank, line[e - 1]));
        }
        assert(scanner::backslashes_before(line, 0) == 0);
    }
    assert(line =~= text) by {
        reveal(syntax::next_node);
        reveal(syntax::statement_kind);
    }
    let e = text::line_ending(text);
    listing::lemma_line_ending(text);
    assert forall|k: int| 0 <= k < text.len() implies text::is_ws(#[trigger] text[k]) || (bare
        && text[k] == '\\') by {
        if k < text::content_len(text) {
            assert(text::in_class(CharClass::LineBlank, line[k]));
        } else {
            assert(e[k - text::content_len(text)] == text[k]);
        }
    }
    lemma_nothing_kept(text, bare);
    assert forall|k: int| 0 <= k < e.len() implies text::is_ws(#[trigger] e[k]) || (bare && e[k]
        == '\\') by {}
    lemma_nothing_kept(e, bare);
}

/// What a node adds to the output keeps what is visible in the node.
proof fn lemma_node_kept(
    output: Seq<char>,
    text: Seq<char>,
    kind: NodeKind,
    options: FormatOptions,
    bare: bool,
)
    requires
        text.len() > 0,
        syntax::next_node(text) == Ok::<(int, NodeKind), ParseFault>((text.len() as int, kind)),
        bare || options.metadata_list_layout == MetadataListLayout::Preserve,
    ensures
        kept(formatter::node_output(output, text, kind, options), bare) == kept(text, bare),
{
    match kind {
        NodeKind::Blank => {
            lemma_blank_kept(text, bare);
            lemma_nothing_kept(Seq::empty(), bare);
        },
        NodeKind::Assignment(a) => {
            if options.metadata_list_layout == MetadataListLayout::OnePerLine
                && formatter::static_list(text, a) is Some {
                lemma_list_output_kept(text, a);
            } else if !formatter::reads_as_definition(text, a) {
                lemma_assignment_output_kept(text, a, bare);
            }
        },
        NodeKind::Directive(d) => {
            if options.metadata_list_layout == MetadataListLayout::OnePerLine
                && formatter::static_classes(text, d) is Some {
                lemma_classes_output_kept(text, d);
            } else {
                lemma_directive_kept(text, d, bare);
            }
        },
        _ => {},
    }
}

/// A node of a text is the node of its own text.
proof fn lemma_node_alone(source: Seq<char>, k: int)
    requires
        syntax::nodes_of(source) is Ok,
        0 <= k < syntax::nodes_of(source)->Ok_0.len(),
    ensures
        ({
            let node = syntax::nodes_of(source)->Ok_0[k];
            let text = source.subrange(node.start, node.end);
            &&& 0 <= node.start < node.end <= source.len()
            &&& text.len() > 0
            &&& syntax::next_node(text) == Ok::<(int, NodeKind), ParseFault>(
                (text.len() as int, node.kind),
            )
        }),
{
    let nodes = syntax::nodes_of(source)->Ok_0;
    let node = nodes[k];
    formatter::lemma_nodes_are_next(source, 0, k);
    syntax::lemma_nodes_contiguous(source, 0);
    let t = source.skip(node.start);
    let text = source.subrange(node.start, node.end);
    let len = node.end - node.start;
    syntax::lemma_next_node(t);
    assert(locality::agree(t, text, len));
    if len < t.len() {
        assert(k + 1 < nodes.len());
        formatter::lemma_nodes_are_next(source, 0, k + 1);
        assert(nodes[k].end == nodes[k + 1].start);
        assert(t.skip(len) =~= source.skip(node.end));
    }
    locality::lemma_next_node_local(t, text, len, node.kind);
}

/// What is visible in the first `k` nodes is visible in their formatted text.
proof fn lemma_nodes_kept(source: Seq<char>, k: int, options: FormatOptions, bare: bool)
    requires
        syntax::nodes_of(source) is Ok,
        0 <= k <= syntax::nodes_of(source)->Ok_0.len(),
        bare || options.metadata_list_layout == MetadataListLayout::Preserve,
    ensures
        kept(formatter::nodes_output(source, syntax::nodes_of(source)->Ok_0.take(k), options), bare)
            == kept(syntax::joined_text(source, syntax::nodes_of(source)->Ok_0.take(k)), bare),
    decreases k,
{
    let nodes: Seq<NodeView> = syntax::nodes_of(source)->Ok_0;
    if k > 0 {
        lemma_nodes_kept(source, k - 1, options, bare);
        lemma_node_alone(source, k - 1);
        let first = nodes.take(k);
        assert(first.drop_last() =~= nodes.take(k - 1));
        let node = nodes[k - 1];
        let text = source.subrange(node.start, node.end);
        let output = formatter::nodes_output(source, nodes.take(k - 1), options);
        lemma_node_kept(output, text, node.kind, options, bare);
        lemma_kept_joined(
            output,
            formatter::node_output(output, text, node.kind, options),
            bare,
        );
        lemma_kept_joined(syntax::joined_text(source, nodes.take(k - 1)), text, bare);
    }
}

proof fn lemma_text_kept(source: Seq<char>, options: FormatOptions, bare: bool)
    requires
        syntax::nodes_of(source) is Ok,
        bare || options.metadata_list_layout == MetadataListLayout::Preserve,
    ensures
        kept(formatter::formatted(source, options), bare) == kept(source, bare),
{
    let nodes = syntax::nodes_of(source)->Ok_0;
    lemma_nodes_kept(source, nodes.len() as int, options, bare);
    assert(nodes.take(nodes.len() as int) =~= nodes);
    syntax::law_tree_is_lossless(source);
}

// ---------------------------------------------------------------------------
// Laws
// ---------------------------------------------------------------------------
/// Formatting changes white space only: without its white space the formatted
/// text is the text.
pub proof fn law_formatting_changes_only_white_space(source: Seq<char>, options: FormatOptions)
    requires
        syntax::nodes_of(source) is Ok,
        options.metadata_list_layout == MetadataListLayout::Preserve,
    ensures
        kept(formatter::formatted(source, options), false) == kept(source, false),
{
    lemma_text_kept(source, options, false);
}

/// With any layout formatting changes white space and backslashes only: without
/// these the formatted text is the text.
pub proof fn law_layout_changes_only_white_space_and_backslashes(
    source: Seq<char>,
    options: FormatOptions,
)
    requires
        syntax::nodes_of(source) is Ok,
    ensures
        kept(formatter::formatted(source, options), true) == kept(source, true),
{
    lemma_text_kept(source, options, true);
}

/// Comments, functions, Python definitions and what is not understood are kept
/// to the letter: what such a node adds to the formatted text is its text.
pub proof fn law_opaque_nodes_are_kept(source: Seq<char>, k: int, options: FormatOptions)
    requires
        syntax::nodes_of(source) is Ok,
        0 <= k < syntax::nodes_of(source)->Ok_0.len(),
        ({
            let kind = syntax::nodes_of(source)->Ok_0[k].kind;
            kind is Comment || kind is Function || kind is PythonDefinition || kind is Unknown
        }),
    ensures
        ({
            let nodes = syntax::nodes_of(source)->Ok_0;
            let before = formatter::nodes_output(source, nodes.take(k), options);
            let text = source.subrange(nodes[k].start, nodes[k].end);
            let output = formatter::formatted(source, options);
            &&& before.len() + text.len() <= output.len()
            &&& output.subrange(before.len() as int, (before.len() + text.len()) as int) == text
        }),
{
    lemma_piece_in_output(source, k, options);
}

/// Where lists keep their layout, the lines of an assignment or a directive
/// after its first are kept to the letter.
pub proof fn law_continuation_tails_are_kept(source: Seq<char>, k: int, options: FormatOptions)
    requires
        syntax::nodes_of(source) is Ok,
        0 <= k < syntax::nodes_of(source)->Ok_0.len(),
        options.metadata_list_layout == MetadataListLayout::Preserve,
        ({
            let kind = syntax::nodes_of(source)->Ok_0[k].kind;
            kind is Assignment || kind is Directive
        }),
    ensures
        ({
            let node = syntax::nodes_of(source)->Ok_0[k];
            let before = formatter::nodes_output(
                source,
                syntax::nodes_of(source)->Ok_0.take(k),
                options,
            );
            let text = source.subrange(node.start, node.end);
            let piece = formatter::node_output(before, text, node.kind, options);
            let output = formatter::formatted(source, options);
            &&& before.len() + piece.len() <= output.len()
            &&& output.subrange(before.len() as int, (before.len() + piece.len()) as int) == piece
            &&& piece.skip(text::line_end(piece, 0)) == text.skip(text::line_end(text, 0))
        }),
{
    let node = syntax::nodes_of(source)->Ok_0[k];
    let before = formatter::nodes_output(source, syntax::nodes_of(source)->Ok_0.take(k), options);
    let text = source.subrange(node.start, node.end);
    let piece = formatter::node_output(before, text, node.kind, options);
    lemma_piece_in_output(source, k, options);
    lemma_node_alone(source, k);
    match node.kind {
        NodeKind::Assignment(a) => if !formatter::reads_as_definition(text, a) {
            idempotence::lemma_assignment_rewritten(text, a);
            lemma_tail_kept(
                text,
                idempotence::assignment_head(text, a),
                idempotence::value_at(text, a),
            );
        },
        NodeKind::Directive(d) => {
            idempotence::lemma_directive_rewritten(text, d);
            lemma_tail_kept(text, idempotence::directive_head(text, d), d.arguments);
        },
        _ => {},
    }
}

/// A statement whose first line starts anew keeps its other lines.
proof fn lemma_tail_kept(text: Seq<char>, head: Seq<char>, j: int)
    requires
        reparse::replaceable(text, head, j),
    ensures
        ({
            let piece = reparse::rewritten(text, head, j);
            piece.skip(text::line_end(piece, 0)) == text.skip(text::line_end(text, 0))
        }),
{
    reparse::lemma_rewritten_lines(text, head, j);
    let piece = reparse::rewritten(text, head, j);
    let n = head.len() as int;
    let e = text::line_end(text, 0);
    text::lemma_line_end(text, 0);
    text::lemma_line_end(piece, 0);
    assert forall|k: int| 0 <= k < text.len() - e implies #[trigger] piece.skip(n + e - j)[k]
        == text.skip(e)[k] by {
        assert(text[j + (e - j + k)] == piece[n + (e - j + k)]);
    }
    assert(piece.skip(n + e - j) =~= text.skip(e));
}

/// What a node adds stands in the formatted text after what the nodes before
/// it add.
proof fn lemma_piece_in_output(source: Seq<char>, k: int, options: FormatOptions)
    requires
        syntax::nodes_of(source) is Ok,
        0 <= k < syntax::nodes_of(source)->Ok_0.len(),
    ensures
        ({
            let nodes = syntax::nodes_of(source)->Ok_0;
            let before = formatter::nodes_output(source, nodes.take(k), options);
            let text = source.subrange(nodes[k].start, nodes[k].end);
            let piece = formatter::node_output(before, text, nodes[k].kind, options);
            let output = formatter::formatted(source, options);
            &&& before.len() + piece.len() <= output.len()
            &&& output.subrange(before.len() as int, (before.len() + piece.len()) as int) == piece
        }),
{
    let nodes = syntax::nodes_of(source)->Ok_0;
    let before = formatter::nodes_output(source, nodes.take(k), options);
    let text = source.subrange(nodes[k].start, nodes[k].end);
    let piece = formatter::node_output(before, text, nodes[k].kind, options);
    let next = formatter::nodes_output(source, nodes.take(k + 1), options);
    assert(nodes.take(k + 1).drop_last() =~= nodes.take(k));
    assert(next == before + piece);
    lemma_output_grows(source, nodes, k + 1, options);
    let output = formatter::formatted(source, options);
    assert(output.take(next.len() as int) == next);
    assert(output.subrange(before.len() as int, next.len() as int) =~= piece) by {
        assert forall|j: int| 0 <= j < piece.len() implies output.subrange(
            before.len() as int,
            next.len() as int,
        )[j] == #[trigger] piece[j] by {
            assert(output.take(next.len() as int)[before.len() + j] == next[before.len() + j]);
        }
    }
}

/// The formatted text of the first `k` nodes starts that of all.
proof fn lemma_output_grows(
    source: Seq<char>,
    nodes: Seq<NodeView>,
    k: int,
    options: FormatOptions,
)
    requires
        0 <= k <= nodes.len(),
    ensures
        ({
            let part = formatter::nodes_output(source, nodes.take(k), options);
            let whole = formatter::nodes_output(source, nodes, options);
            part.len() <= whole.len() && whole.take(part.len() as int) == part
        }),
    decreases nodes.len() - k,
{
    let part = formatter::nodes_output(source, nodes.take(k), options);
    let whole = formatter::nodes_output(source, nodes, options);
    if k == nodes.len() {
        assert(nodes.take(k) =~= nodes);
        assert(whole.take(part.len() as int) =~= part);
    } else {
        lemma_output_grows(source, nodes, k + 1, options);
        let next = formatter::nodes_output(source, nodes.take(k + 1), options);
        assert(nodes.take(k + 1).drop_last() =~= nodes.take(k));
        assert(next.take(part.len() as int) =~= part);
        assert(whole.take(next.len() as int).take(part.len() as int) =~= whole.take(
            part.len() as int,
        ));
    }
}

} // verus!
