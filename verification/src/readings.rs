//! Lines that assign one quoted text to a variable: what they are read as, and
//! what they resolve to.
use crate::checks;
use crate::formatter;
use crate::idempotence;
use crate::keys;
use crate::locality;
use crate::operator;
use crate::overrides;
use crate::reparse;
use crate::scanner;
use crate::statements;
use crate::syntax;
use crate::text;
use crate::values;
use crate::formatter::FormatOptions;
use crate::formatter::ListView;
use crate::formatter::MetadataListLayout;
use crate::keys::KeyFault;
use crate::keys::KeyView;
use crate::keys::OverrideOperation;
use crate::operator::AssignmentOperator;
use crate::overrides::EntryView;
use crate::overrides::RawView;
use crate::overrides::Selector;
use crate::statements::AssignmentView;
use crate::statements::StatementView;
use crate::syntax::AssignmentParts;
use crate::syntax::NodeKind;
use crate::syntax::NodeView;
use crate::syntax::ParseFault;
use crate::text::CharClass;
use vstd::prelude::*;

verus! {

// ---------------------------------------------------------------------------
// Lines
// ---------------------------------------------------------------------------
/// A line that assigns the text `value` in double quotes.
#[verifier::ext_equal]
pub struct PlainLine {
    pub left: Seq<char>,
    pub operator: AssignmentOperator,
    pub value: Seq<char>,
}

/// Capital letters, and at least one.
pub open spec fn capital_name(name: Seq<char>) -> bool {
    name.len() > 0 && forall|k: int| 0 <= k < name.len() ==> 'A' <= #[trigger] name[k] <= 'Z'
}

/// Small letters, and at least one.
pub open spec fn small_word(word: Seq<char>) -> bool {
    word.len() > 0 && forall|k: int| 0 <= k < word.len() ==> 'a' <= #[trigger] word[k] <= 'z'
}

/// A variable, or one with an operation or an override behind a colon.
pub open spec fn plain_left(left: Seq<char>) -> bool {
    capital_name(left) || exists|name: Seq<char>, word: Seq<char>|
        capital_name(name) && small_word(word) && left == #[trigger] with_word(name, word)
}

/// A variable and what stands behind its colon.
pub open spec fn with_word(name: Seq<char>, word: Seq<char>) -> Seq<char> {
    name + seq![':'] + word
}

/// A text without quotes, backslashes, line feeds and references.
pub open spec fn plain_text(value: Seq<char>) -> bool {
    forall|k: int|
        0 <= k < value.len() ==> (#[trigger] value[k]) != '"' && value[k] != '\\' && value[k]
            != '\n' && value[k] != '$'
}

pub open spec fn plain_line(line: PlainLine) -> bool {
    plain_left(line.left) && plain_text(line.value)
}

/// How a line is written.
pub open spec fn line_text(line: PlainLine) -> Seq<char> {
    line.left + seq![' '] + operator::operator_chars(line.operator) + seq![' ', '"'] + line.value
        + seq!['"', '\n']
}

/// The lines, one after the other.
pub open spec fn lines_text(lines: Seq<PlainLine>) -> Seq<char>
    decreases lines.len(),
{
    if lines.len() == 0 {
        Seq::empty()
    } else {
        lines_text(lines.drop_last()) + line_text(lines.last())
    }
}

pub open spec fn plain_lines(lines: Seq<PlainLine>) -> bool {
    forall|k: int| 0 <= k < lines.len() ==> plain_line(#[trigger] lines[k])
}

// ---------------------------------------------------------------------------
// Reading
// ---------------------------------------------------------------------------
/// A letter, a digit, an underscore or a hyphen.
pub open spec fn is_letter(c: char) -> bool {
    ('a' <= c <= 'z') || ('A' <= c <= 'Z') || ('0' <= c <= '9') || c == '_' || c == '-'
}

/// A line whose left-hand side is spelled out and whose value has no quotes,
/// backslashes and line feeds.
pub open spec fn readable_line(line: PlainLine) -> bool {
    lettered(line.left) && forall|k: int|
        0 <= k < line.value.len() ==> (#[trigger] line.value[k]) != '"' && line.value[k] != '\\'
            && line.value[k] != '\n'
}

/// Letters, and colons between letters; the first letter is a capital one.
pub open spec fn lettered(left: Seq<char>) -> bool {
    &&& left.len() > 0
    &&& 'A' <= left[0] <= 'Z'
    &&& is_letter(left.last())
    &&& forall|k: int|
        0 <= k < left.len() ==> is_letter(#[trigger] left[k]) || (left[k] == ':' && 0 < k < left.len()
            - 1 && is_letter(left[k - 1]) && is_letter(left[k + 1]))
}

proof fn lemma_plain_left(left: Seq<char>)
    requires
        plain_left(left),
    ensures
        lettered(left),
{
    if !capital_name(left) {
        let (name, word) = choose|name: Seq<char>, word: Seq<char>|
            capital_name(name) && small_word(word) && left == #[trigger] with_word(name, word);
        let n = name.len() as int;
        assert forall|k: int| 0 <= k < left.len() implies is_letter(#[trigger] left[k]) || (left[k]
            == ':' && 0 < k < left.len() - 1 && is_letter(left[k - 1]) && is_letter(left[k + 1])) by {
            if k < n {
                assert(left[k] == name[k]);
            } else if k == n {
                assert(left[k - 1] == name[k - 1]);
                assert(left[k + 1] == word[0]);
            } else {
                assert(left[k] == word[k - n - 1]);
            }
        }
        assert(left[0] == name[0]);
        assert(left.last() == word.last());
    }
}

proof fn lemma_left_name(left: Seq<char>, i: int, filled: bool)
    requires
        lettered(left),
        0 <= i <= left.len(),
        i == 0 || (filled == (left[i - 1] != ':')),
    ensures
        scanner::name_from(left, i, filled),
    decreases left.len() - i,
{
    if i < left.len() {
        if is_letter(left[i]) {
            lemma_left_name(left, i + 1, true);
        } else {
            assert(is_letter(left[i - 1]));
            lemma_left_name(left, i + 1, false);
        }
    }
}

proof fn lemma_left_operator(t: Seq<char>, left: Seq<char>, i: int)
    requires
        lettered(left),
        0 <= i <= left.len() < t.len(),
        t.take(left.len() as int) == left,
    ensures
        scanner::operator_from(t, i, None, false) == scanner::operator_from(
            t,
            left.len() as int,
            None,
            false,
        ),
    decreases left.len() - i,
{
    if i < left.len() {
        assert(t[i] == t.take(left.len() as int)[i]);
        if i + 1 < left.len() {
            assert(t[i + 1] == t.take(left.len() as int)[i + 1]);
        }
        assert(is_letter(left[i]) || left[i] == ':');
        lemma_left_operator(t, left, i + 1);
    }
}

proof fn lemma_quoted_comment(t: Seq<char>, i: int, e: int)
    requires
        0 <= i <= e < t.len(),
        t[e] == '"',
        forall|k: int| i <= k < e ==> (#[trigger] t[k]) != '"' && t[k] != '\\',
    ensures
        scanner::comment_from(t, i, Some('"'), false) == scanner::comment_from(
            t,
            e + 1,
            None,
            false,
        ),
        scanner::balanced_from(t, i, Some('"'), false) == scanner::balanced_from(
            t,
            e + 1,
            None,
            false,
        ),
    decreases e - i,
{
    if i < e {
        lemma_quoted_comment(t, i + 1, e);
    }
}

/// The parts of a line.
pub open spec fn line_parts(line: PlainLine) -> AssignmentParts {
    AssignmentParts {
        name: 0,
        name_end: line.left.len() as int,
        operator: line.operator,
        operator_at: line.left.len() as int + 1,
        value_end: line_text(line).len() - 1,
        exported: false,
        continued: false,
    }
}

/// A line is read as the assignment that it is.
#[verifier::spinoff_prover]
#[verifier::rlimit(60)]
proof fn lemma_line_node(line: PlainLine)
    requires
        readable_line(line),
    ensures
        line_text(line).len() > 0,
        line_text(line).last() == '\n',
        !text::is_ws(line_text(line)[0]),
        syntax::next_node(line_text(line)) == Ok::<(int, NodeKind), ParseFault>(
            (line_text(line).len() as int, NodeKind::Assignment(line_parts(line))),
        ),
{
    let t = line_text(line);
    let left = line.left;
    let op = operator::operator_chars(line.operator);
    let v = line.value;
    let n = left.len() as int;
    let p = n + 1;
    let s = p + op.len();
    let q = s + 1;
    let size = t.len() as int;
    let c = size - 2;
    idempotence::lemma_operator_chars(line.operator);
    assert(size == q + 1 + v.len() + 2);
    assert(t.take(n) =~= left);
    assert(t[n] == ' ' && t[s] == ' ' && t[q] == '"' && t[c] == '"' && t[size - 1] == '\n');
    assert(t.subrange(p, s) =~= op);
    assert forall|k: int| 0 <= k < n implies #[trigger] t[k] == left[k] by {}
    assert forall|k: int| p <= k < s implies #[trigger] t[k] == op[k - p] by {}
    assert forall|k: int| q < k < c implies #[trigger] t[k] == v[k - q - 1] by {}
    assert forall|k: int| 0 <= k < q implies reparse::is_plain(#[trigger] t[k]) && t[k] != '\n' by {
        if k < n {
            assert(is_letter(left[k]) || left[k] == ':');
        } else if p <= k < s {
            assert(t[k] == op[k - p]);
            assert(!text::is_ws(op[k - p]));
        }
    }
    // One line.
    assert forall|k: int| 0 <= k < size - 1 implies #[trigger] t[k] != '\n' by {
        if q < k < c {
            assert(t[k] == v[k - q - 1]);
        }
    }
    text::lemma_line_end_unique(t, 0, size);
    let content = text::line_content(t);
    assert(syntax::first_line(t) =~= t);
    assert(text::content_len(t) == size - 1);
    assert(content.len() == size - 1);
    // The comment.
    assert forall|k: int| 0 <= k < q implies reparse::is_plain(#[trigger] content[k]) by {
        assert(content[k] == t[k]);
    }
    reparse::lemma_comment_plain(content, 0, q);
    assert(content[q] == '"' && content[c] == '"');
    assert forall|k: int| q + 1 <= k < c implies (#[trigger] content[k]) != '"' && content[k]
        != '\\' by {
        assert(content[k] == v[k - q - 1]);
    }
    lemma_quoted_comment(content, q + 1, c);
    assert(scanner::code_end(content) == size - 1);
    // No function, definition or continuation.
    assert(!text::in_class(CharClass::Whitespace, t[c]));
    text::lemma_tail_unique(t, CharClass::Whitespace, c + 1, c + 1);
    assert(scanner::head_brace(t) == c);
    assert(scanner::function_head(t) is None) by {
        reveal(scanner::function_head);
    }
    assert(!scanner::python_def_start(t)) by {
        reveal(scanner::python_def_start);
        let code = scanner::code_of(t);
        let whole = content.take(size - 1);
        text::lemma_tail(whole, CharClass::Whitespace, size - 1);
        if text::has_prefix(code, scanner::def_word()) {
            assert(code.take(4)[0] == 'd');
            assert(code[0] == whole[0]);
            assert(whole[0] == left[0]);
        }
    }
    assert(!text::in_class(CharClass::LineBlank, t[c]));
    text::lemma_tail_unique(t, CharClass::LineBlank, c + 1, c + 1);
    assert(!scanner::continued_line(t));
    // The assignment.
    assert(content.take(n) =~= left);
    lemma_left_operator(content, left, 0);
    assert(content[n] == ' ');
    assert(operator::operator_at(content, n) is None);
    assert(scanner::operator_from(content, n, None, false) == scanner::operator_from(
        content,
        p,
        None,
        false,
    ));
    assert(content.subrange(p, s) =~= op);
    assert(content[s] == ' ');
    idempotence::lemma_operator_again(content, p, line.operator);
    assert(content[p] == op[0]);
    assert(reparse::is_plain(content[p]));
    assert(scanner::operator_from(content, p, None, false) == Some((p, line.operator)));
    let before = content.take(p);
    assert(before[n] == ' ' && before[n - 1] == left.last());
    assert(!text::is_ws(left.last()));
    text::lemma_tail_unique(before, CharClass::Whitespace, n, p);
    assert(before.take(n) =~= left);
    assert(!scanner::is_exported(left)) by {
        if scanner::is_exported(left) {
            assert(left.take(6)[0] == 'e');
        }
    }
    assert(left.skip(0) =~= left);
    lemma_left_name(left, 0, false);
    assert(scanner::assignment_left(left));
    let a = line_parts(line);
    assert(syntax::assignment_parts(t, false) == Some(a)) by {
        reveal(syntax::assignment_parts);
    }
    // The value.
    let value = syntax::value_of(t, a);
    assert(value =~= t.subrange(s, size - 1));
    assert(value.len() == v.len() + 3);
    assert(value[0] == ' ' && value[1] == '"' && value[v.len() as int + 2] == '"');
    reparse::lemma_balanced_plain(value, 0, 1);
    assert forall|k: int| 2 <= k < v.len() + 2 implies (#[trigger] value[k]) != '"' && value[k]
        != '\\' by {
        assert(value[k] == v[k - 2]);
    }
    lemma_quoted_comment(value, 2, v.len() as int + 2);
    assert(scanner::balanced_from(value, 0, None, false));
    assert(content[0] == left[0]);
    assert(text::lead_from(content, CharClass::Indent, 0) == 0);
    assert(!text::blank_line(t)) by {
        assert(!text::in_class(CharClass::LineBlank, t[0]));
    }
    assert(syntax::statement_kind(t, false) == Ok::<NodeKind, ParseFault>(NodeKind::Assignment(a)))
        by {
        reveal(syntax::statement_kind);
    }
    assert(syntax::next_node(t) == Ok::<(int, NodeKind), ParseFault>(
        (size, NodeKind::Assignment(a)),
    )) by {
        reveal(syntax::next_node);
    }
}

/// A line behind a text that ends in a line feed is one more node.
proof fn lemma_line_appended(source: Seq<char>, i: int, line: PlainLine)
    requires
        readable_line(line),
        0 <= i <= source.len(),
        syntax::nodes_from(source, i) is Ok,
        source.len() == 0 || source.last() == '\n',
    ensures
        syntax::nodes_from(source + line_text(line), i) == Ok::<Seq<NodeView>, (int, ParseFault)>(
            syntax::nodes_from(source, i)->Ok_0.push(
                NodeView {
                    start: source.len() as int,
                    end: (source.len() + line_text(line).len()) as int,
                    kind: NodeKind::Assignment(line_parts(line)),
                },
            ),
        ),
    decreases source.len() - i,
{
    lemma_line_node(line);
    let extra = line_text(line);
    let whole = source + extra;
    if i == source.len() {
        assert(whole.skip(i) =~= extra);
        let size = whole.len() as int;
        assert(syntax::nodes_from(whole, size) == Ok::<Seq<NodeView>, (int, ParseFault)>(
            Seq::empty(),
        ));
        let node = NodeView { start: i, end: size, kind: NodeKind::Assignment(line_parts(line)) };
        assert(seq![node] + Seq::<NodeView>::empty() =~= Seq::<NodeView>::empty().push(node));
    } else {
        idempotence::lemma_node_at(source, i);
        let (len, kind) = syntax::next_node(source.skip(i))->Ok_0;
        let t = source.skip(i);
        let u = whole.skip(i);
        assert(locality::agree(t, u, len)) by {
            assert forall|k: int| 0 <= k < len implies #[trigger] t[k] == u[k] by {}
        }
        let piece = source.subrange(i, i + len);
        assert(piece.last() == source[i + len - 1]);
        if i + len == source.len() {
            assert(u[len] == extra[0]);
        } else {
            assert(u[len] == source[i + len]);
            assert(t.skip(len) =~= source.skip(i + len));
        }
        locality::lemma_next_node_local(t, u, len, kind);
        lemma_line_appended(source, i + len, line);
        let rest = syntax::nodes_from(source, i + len)->Ok_0;
        let first = NodeView { start: i, end: i + len, kind };
        let last = NodeView {
            start: source.len() as int,
            end: whole.len() as int,
            kind: NodeKind::Assignment(line_parts(line)),
        };
        assert(seq![first] + rest.push(last) =~= (seq![first] + rest).push(last));
    }
}

/// The assignment of a line, as node `k`.
pub open spec fn line_raw(line: PlainLine, k: int) -> RawView {
    RawView {
        name: line.left,
        operator: line.operator,
        value: seq![' ', '"'] + line.value + seq!['"'],
        sequence: k,
    }
}

/// The assignments among the nodes of a text do not depend on what follows them.
proof fn lemma_collected(source: Seq<char>, extra: Seq<char>, nodes: Seq<NodeView>)
    requires
        forall|k: int|
            0 <= k < nodes.len() ==> 0 <= (#[trigger] nodes[k]).start <= nodes[k].end
                <= source.len(),
        forall|k: int|
            0 <= k < nodes.len() ==> ((#[trigger] nodes[k]).kind matches NodeKind::Assignment(a)
                ==> 0 <= a.name <= a.name_end <= nodes[k].end - nodes[k].start && 0
                <= syntax::value_start(a) <= a.value_end <= nodes[k].end - nodes[k].start),
    ensures
        overrides::collected(source + extra, nodes) == overrides::collected(source, nodes),
    decreases nodes.len(),
{
    if nodes.len() > 0 {
        let front = nodes.drop_last();
        assert forall|k: int| 0 <= k < front.len() implies #[trigger] front[k] == nodes[k] by {}
        lemma_collected(source, extra, front);
        let node = nodes.last();
        assert(node == nodes[nodes.len() - 1]);
        if let NodeKind::Assignment(a) = node.kind {
            let whole = source + extra;
            assert(whole.subrange(node.start + a.name, node.start + a.name_end) =~= source.subrange(
                node.start + a.name,
                node.start + a.name_end,
            ));
            assert(whole.subrange(node.start + syntax::value_start(a), node.start + a.value_end)
                =~= source.subrange(
                node.start + syntax::value_start(a),
                node.start + a.value_end,
            ));
        }
    }
}

/// A line behind a text that ends in a line feed is one more assignment behind
/// those of the text.
pub proof fn law_a_line_is_one_more_assignment(source: Seq<char>, line: PlainLine)
    requires
        plain_line(line),
        syntax::nodes_of(source) is Ok,
        source.len() == 0 || source.last() == '\n',
    ensures
        syntax::nodes_of(source + line_text(line)) is Ok,
        (source + line_text(line)).last() == '\n',
        overrides::assignments_of(source + line_text(line)) == overrides::assignments_of(
            source,
        ).push(line_raw(line, syntax::nodes_of(source)->Ok_0.len() as int)),
{
    lemma_plain_left(line.left);
    lemma_line_appended(source, 0, line);
    lemma_line_node(line);
    let extra = line_text(line);
    let whole = source + extra;
    let nodes = syntax::nodes_of(source)->Ok_0;
    let all = syntax::nodes_of(whole)->Ok_0;
    assert(all.drop_last() =~= nodes);
    assert forall|k: int| 0 <= k < nodes.len() implies 0 <= (#[trigger] nodes[k]).start
        <= nodes[k].end <= source.len() && (nodes[k].kind matches NodeKind::Assignment(a) ==> 0
        <= a.name <= a.name_end <= nodes[k].end - nodes[k].start && 0 <= syntax::value_start(a)
        <= a.value_end <= nodes[k].end - nodes[k].start) by {
        idempotence::lemma_nth_node(source, 0, k);
        if let NodeKind::Assignment(a) = nodes[k].kind {
            let text = source.subrange(nodes[k].start, nodes[k].end);
            idempotence::lemma_assignment_facts(text, a);
            idempotence::lemma_name_bounds(text, a);
        }
    }
    lemma_collected(source, extra, nodes);
    let a = line_parts(line);
    let i = source.len() as int;
    let s = syntax::value_start(a);
    assert(whole.subrange(i, i + line.left.len()) =~= line.left);
    assert(whole.subrange(i + s, i + a.value_end) =~= seq![' ', '"'] + line.value + seq!['"']);
}

/// The assignments of lines.
pub open spec fn line_raws(lines: Seq<PlainLine>) -> Seq<RawView> {
    lines.map(|k: int, line: PlainLine| line_raw(line, k))
}

/// Lines are read as the assignments that they are.
pub proof fn law_lines_are_assignments(lines: Seq<PlainLine>)
    requires
        plain_lines(lines),
    ensures
        syntax::nodes_of(lines_text(lines)) is Ok,
        syntax::nodes_of(lines_text(lines))->Ok_0.len() == lines.len(),
        lines_text(lines).len() == 0 || lines_text(lines).last() == '\n',
        overrides::assignments_of(lines_text(lines)) == line_raws(lines),
    decreases lines.len(),
{
    if lines.len() == 0 {
        assert(line_raws(lines) =~= Seq::empty());
    } else {
        let front = lines.drop_last();
        assert forall|k: int| 0 <= k < front.len() implies plain_line(#[trigger] front[k]) by {
            assert(front[k] == lines[k]);
        }
        law_lines_are_assignments(front);
        assert(plain_line(lines[lines.len() - 1]));
        law_a_line_is_one_more_assignment(lines_text(front), lines.last());
        lemma_plain_left(lines.last().left);
        lemma_line_appended(lines_text(front), 0, lines.last());
        assert(line_raws(lines) =~= line_raws(front).push(
            line_raw(lines.last(), front.len() as int),
        ));
    }
}

// ---------------------------------------------------------------------------
// Keys and values
// ---------------------------------------------------------------------------
proof fn lemma_absent(t: Seq<char>, p: Seq<char>, c: char, i: int)
    requires
        0 <= i,
        p.len() > 0,
        p[0] == c,
        forall|k: int| 0 <= k < t.len() ==> #[trigger] t[k] != c,
    ensures
        text::find_seq(t, p, i) == -1,
    decreases t.len() + 1 - i,
{
    if i + p.len() <= t.len() {
        assert(t.subrange(i, i + p.len())[0] == t[i]);
        lemma_absent(t, p, c, i + 1);
    }
}

/// A text without references is expanded to itself.
proof fn lemma_no_reference(t: Seq<char>, values: Map<Seq<char>, Seq<char>>)
    requires
        forall|k: int| 0 <= k < t.len() ==> #[trigger] t[k] != '$',
    ensures
        keys::expanded(t, values) == (t, false),
        !keys::has_reference(t),
{
    lemma_absent(t, keys::open_reference(), '$', 0);
    assert(t.skip(0) =~= t);
    if t.len() == 0 {
        assert(t =~= Seq::empty());
    }
}

/// The key of a variable.
pub open spec fn variable_key(name: Seq<char>) -> KeyView {
    KeyView {
        base: name,
        overrides: Seq::empty(),
        operation: OverrideOperation::Plain,
        flag: None,
        legacy: false,
        dynamic: false,
        on_selected: false,
        key_expanded: false,
    }
}

proof fn lemma_capital_chars(name: Seq<char>)
    requires
        capital_name(name),
    ensures
        forall|k: int|
            0 <= k < name.len() ==> (#[trigger] name[k]) != '$' && name[k] != '[' && name[k] != ':'
                && name[k] != '_' && name[k] != '}',
{
}

/// A variable is its own key.
pub proof fn law_a_name_is_its_own_key(
    name: Seq<char>,
    active: Seq<Seq<char>>,
    values: Map<Seq<char>, Seq<char>>,
)
    requires
        capital_name(name),
    ensures
        keys::key_of(name, active, values) == Ok::<KeyView, KeyFault>(variable_key(name)),
{
    lemma_capital_chars(name);
    let n = name.len() as int;
    text::lemma_find_unique(name, '[', 0, n);
    assert(name.take(n) =~= name);
    lemma_absent(name, keys::legacy_marker(OverrideOperation::Append), '_', 0);
    lemma_absent(name, keys::legacy_marker(OverrideOperation::Prepend), '_', 0);
    lemma_absent(name, keys::legacy_marker(OverrideOperation::Remove), '_', 0);
    assert(name.take(n) + name.skip(n) =~= name);
    lemma_no_suffix(name, active, active.len() as int);
    lemma_no_reference(name, values);
    assert(keys::operation_marks(name, OverrideOperation::Append).len() == 0);
    assert(keys::operation_marks(name, OverrideOperation::Prepend).len() == 0);
    assert(keys::operation_marks(name, OverrideOperation::Remove).len() == 0);
    assert(keys::strip_legacy(name, active) == (name, Seq::<Seq<char>>::empty()));
    assert(!name.contains('_'));
    assert(!name.contains(':'));
}

proof fn lemma_no_suffix(name: Seq<char>, active: Seq<Seq<char>>, k: int)
    requires
        forall|j: int| 0 <= j < name.len() ==> #[trigger] name[j] != '_',
        k <= active.len(),
    ensures
        keys::longest_suffix(name, active, k) == -1,
    decreases k,
{
    if k > 0 {
        lemma_no_suffix(name, active, k - 1);
        let component = active[k - 1];
        if keys::ends_in_component(name, component) {
            let p = seq!['_'] + component;
            assert(name.skip(name.len() - p.len())[0] == p[0]);
        }
    }
}

/// A word behind a colon is an operation, or the one override of the key.
pub proof fn law_a_word_behind_a_colon(
    name: Seq<char>,
    word: Seq<char>,
    active: Seq<Seq<char>>,
    values: Map<Seq<char>, Seq<char>>,
)
    requires
        capital_name(name),
        small_word(word),
    ensures
        ({
            let key = keys::key_of(with_word(name, word), active, values);
            let operation = if word == "append"@ {
                OverrideOperation::Append
            } else if word == "prepend"@ {
                OverrideOperation::Prepend
            } else if word == "remove"@ {
                OverrideOperation::Remove
            } else {
                OverrideOperation::Plain
            };
            key == Ok::<KeyView, KeyFault>(
                KeyView {
                    operation,
                    overrides: if operation == OverrideOperation::Plain {
                        seq![word]
                    } else {
                        Seq::empty()
                    },
                    ..variable_key(name)
                },
            )
        }),
{
    lemma_capital_chars(name);
    let t = with_word(name, word);
    let n = name.len() as int;
    let size = t.len() as int;
    assert forall|k: int| 0 <= k < n implies #[trigger] t[k] == name[k] by {}
    assert forall|k: int| n < k < size implies #[trigger] t[k] == word[k - n - 1] by {}
    assert(t[n] == ':');
    assert forall|k: int| 0 <= k < size implies (#[trigger] t[k]) != '[' && t[k] != '$' && t[k] != '}'
        by {
        if n < k {
            assert(t[k] == word[k - n - 1]);
        }
    }
    text::lemma_find_unique(t, '[', 0, size);
    assert(t.take(size) =~= t);
    assert(t.contains(':'));
    lemma_component(t, n + 1, n + 1);
    assert(t.subrange(n + 1, size) =~= word);
    lemma_before_colon(t, 0, n);
    assert(t.subrange(0, n) =~= name);
    let parts = seq![name, word];
    assert(seq![name] + seq![word] =~= parts);
    assert(keys::components_from(t, 0, 0, 0) == Some(parts));
    assert forall|k: int| 0 <= k < parts.len() implies (#[trigger] parts[k]).len() > 0 by {}
    assert(keys::components_of(t) == Ok::<Seq<Seq<char>>, KeyFault>(parts));
    assert(parts.drop_last() =~= seq![name]);
    lemma_no_reference(name, values);
    assert forall|k: int| 0 <= k < word.len() implies #[trigger] word[k] != '$' by {}
    lemma_no_reference(word, values);
    assert(keys::modern_operation(seq![name]) == Ok::<(OverrideOperation, int), KeyFault>(
        (OverrideOperation::Plain, 0),
    ));
    assert(keys::modern_overrides(seq![name], values) =~= Seq::empty());
    assert(Seq::<Seq<char>>::empty().push(word) =~= seq![word]);
    assert(!keys::modern_reference(parts, values, true));
    assert(!keys::modern_reference(parts, values, false));
}

proof fn lemma_component(t: Seq<char>, i: int, start: int)
    requires
        0 <= start <= i <= t.len(),
        forall|k: int| i <= k < t.len() ==> (#[trigger] t[k]) != '$' && t[k] != '}' && t[k] != ':',
    ensures
        keys::components_from(t, i, start, 0) == Some(seq![t.subrange(start, t.len() as int)]),
    decreases t.len() - i,
{
    if i < t.len() {
        lemma_component(t, i + 1, start);
    }
}

proof fn lemma_before_colon(t: Seq<char>, i: int, n: int)
    requires
        0 <= i <= n < t.len(),
        t[n] == ':',
        forall|k: int| i <= k < n ==> (#[trigger] t[k]) != '$' && t[k] != '}' && t[k] != ':',
        keys::components_from(t, n + 1, n + 1, 0) is Some,
    ensures
        keys::components_from(t, i, 0, 0) == Some(
            seq![t.subrange(0, n)] + keys::components_from(t, n + 1, n + 1, 0)->0,
        ),
    decreases n - i,
{
    if i < n {
        lemma_before_colon(t, i + 1, n);
    }
}

proof fn lemma_joined(t: Seq<char>, i: int)
    requires
        0 <= i <= t.len(),
        forall|k: int| 0 <= k < t.len() ==> #[trigger] t[k] != '\\',
    ensures
        overrides::joined_lines(t, i) == t.skip(i),
    decreases t.len() - i,
{
    if i < t.len() {
        lemma_joined(t, i + 1);
        assert(t.skip(i) =~= seq![t[i]] + t.skip(i + 1));
    } else {
        assert(t.skip(i) =~= Seq::empty());
    }
}

/// The value of a line is its text between the quotes.
pub proof fn law_a_quoted_text_is_its_value(value: Seq<char>, known: Map<Seq<char>, Seq<char>>)
    requires
        plain_text(value),
    ensures
        overrides::static_text(seq![' ', '"'] + value + seq!['"'], known) == Some(value),
{
    let raw = seq![' ', '"'] + value + seq!['"'];
    let n = raw.len() as int;
    assert(raw[0] == ' ' && raw[1] == '"' && raw[n - 1] == '"');
    text::lemma_lead_unique(raw, CharClass::Whitespace, 0, 1);
    let rest = raw.skip(1);
    text::lemma_tail_unique(rest, CharClass::Whitespace, rest.len() as int, rest.len() as int);
    assert(rest.take(rest.len() as int) =~= rest);
    assert(rest.subrange(1, rest.len() - 1) =~= value);
    assert(rest[0] == '"' && rest.last() == '"');
    assert(text::trimmed(raw, CharClass::Whitespace) =~= rest);
    lemma_no_reference(value, known);
    lemma_joined(value, 0);
    assert(value.skip(0) =~= value);
}

// ---------------------------------------------------------------------------
// Resolution
// ---------------------------------------------------------------------------
/// The resolved variables of lines under the overrides `active`.
pub open spec fn lines_resolved(lines: Seq<PlainLine>, active: Seq<Seq<char>>) -> Map<
    Seq<char>,
    Seq<char>,
> {
    overrides::resolution(overrides::assignments_of(lines_text(lines)), active)
}

/// The resolved value of a variable, empty where it has none.
pub open spec fn line_value(
    lines: Seq<PlainLine>,
    active: Seq<Seq<char>>,
    name: Seq<char>,
) -> Seq<char> {
    if lines_resolved(lines, active).dom().contains(name) {
        lines_resolved(lines, active)[name]
    } else {
        Seq::empty()
    }
}

/// Whether one of the lines is about `word` of the variable `name`.
pub open spec fn has_word_line(lines: Seq<PlainLine>, name: Seq<char>, word: Seq<char>) -> bool {
    exists|k: int| 0 <= k < lines.len() && (#[trigger] lines[k]).left == with_word(name, word)
}

/// Whether the lines assign to `name` itself at most, with no operation and no
/// override.
pub open spec fn only_assigned(lines: Seq<PlainLine>, name: Seq<char>) -> bool {
    forall|word: Seq<char>| small_word(word) ==> !(#[trigger] has_word_line(lines, name, word))
}

spec fn line_entry(line: PlainLine, k: int, active: Seq<Seq<char>>) -> Option<EntryView> {
    overrides::entry_of(line_raw(line, k), active, Map::empty())
}

spec fn line_entries(lines: Seq<PlainLine>, active: Seq<Seq<char>>) -> Seq<EntryView> {
    overrides::entries_of(line_raws(lines), active, Map::empty())
}

/// What a line contributes does not depend on other variables.
proof fn lemma_line_entry(
    line: PlainLine,
    k: int,
    active: Seq<Seq<char>>,
    known: Map<Seq<char>, Seq<char>>,
)
    requires
        plain_line(line),
    ensures
        overrides::entry_of(line_raw(line, k), active, known) == line_entry(line, k, active),
        capital_name(line.left) ==> line_entry(line, k, active) == Some(
            EntryView {
                key: variable_key(line.left),
                operator: line.operator,
                value: line.value,
                sequence: k,
            },
        ),
        forall|name: Seq<char>, word: Seq<char>|
            capital_name(name) && small_word(word) && line.left == #[trigger] with_word(name, word)
                ==> line_entry(line, k, active) == word_entry(line, k, active, name, word),
{
    law_a_quoted_text_is_its_value(line.value, known);
    law_a_quoted_text_is_its_value(line.value, Map::empty());
    if capital_name(line.left) {
        law_a_name_is_its_own_key(line.left, active, known);
        law_a_name_is_its_own_key(line.left, active, Map::empty());
        lemma_not_worded(line.left);
    } else {
        assert forall|name: Seq<char>, word: Seq<char>|
            capital_name(name) && small_word(word) && line.left == #[trigger] with_word(name, word)
                implies line_entry(line, k, active) == word_entry(line, k, active, name, word)
            && overrides::entry_of(line_raw(line, k), active, known) == line_entry(
            line,
            k,
            active,
        ) by {
            law_a_word_behind_a_colon(name, word, active, known);
            law_a_word_behind_a_colon(name, word, active, Map::empty());
            let key = keys::key_of(line.left, active, known)->Ok_0;
            if key.overrides.len() > 0 {
                assert(key.overrides[0] == word);
                assert(overrides::all_active(key.overrides, active) == active.contains(word));
            }
        }
    }
}

/// What a line with a word contributes: an operation, or an assignment for an
/// override, which counts only where the override is active.
spec fn word_entry(
    line: PlainLine,
    k: int,
    active: Seq<Seq<char>>,
    name: Seq<char>,
    word: Seq<char>,
) -> Option<EntryView> {
    let operation = keys::component_operation(word);
    let plain = operation == OverrideOperation::Plain;
    if plain && !active.contains(word) {
        None
    } else {
        Some(
            EntryView {
                key: KeyView {
                    operation,
                    overrides: if plain {
                        seq![word]
                    } else {
                        Seq::empty()
                    },
                    ..variable_key(name)
                },
                operator: line.operator,
                value: line.value,
                sequence: k,
            },
        )
    }
}

/// A name of capital letters has no colon.
proof fn lemma_not_worded(left: Seq<char>)
    requires
        capital_name(left),
    ensures
        forall|name: Seq<char>, word: Seq<char>| left != #[trigger] with_word(name, word),
{
    assert forall|name: Seq<char>, word: Seq<char>| left != #[trigger] with_word(name, word) by {
        if left == with_word(name, word) {
            assert(left[name.len() as int] == ':');
        }
    }
}

/// A variable and its word are told apart by the colon.
proof fn lemma_word_parts(n1: Seq<char>, w1: Seq<char>, n2: Seq<char>, w2: Seq<char>)
    requires
        capital_name(n1),
        capital_name(n2),
        with_word(n1, w1) == with_word(n2, w2),
    ensures
        n1 == n2,
        w1 == w2,
{
    let t = with_word(n1, w1);
    let (a, b) = (n1.len() as int, n2.len() as int);
    if a < b {
        assert(t[a] == ':' && t[a] == n2[a]);
    }
    if b < a {
        assert(t[b] == ':' && t[b] == n1[b]);
    }
    assert(t.take(a) =~= n1);
    assert(t.take(a) =~= n2);
    assert(t.skip(a + 1) =~= w1);
    assert(t.skip(a + 1) =~= w2);
}

proof fn lemma_line_entries(
    lines: Seq<PlainLine>,
    active: Seq<Seq<char>>,
    known: Map<Seq<char>, Seq<char>>,
)
    requires
        plain_lines(lines),
    ensures
        overrides::entries_of(line_raws(lines), active, known) == line_entries(lines, active),
    decreases lines.len(),
{
    let raws = line_raws(lines);
    if lines.len() > 0 {
        let front = lines.drop_last();
        assert forall|k: int| 0 <= k < front.len() implies plain_line(#[trigger] front[k]) by {
            assert(front[k] == lines[k]);
        }
        assert(raws.drop_last() =~= line_raws(front));
        let k = lines.len() - 1;
        assert(raws.last() == line_raw(lines[k], k));
        assert(plain_line(lines[k]));
        lemma_line_entry(lines[k], k, active, known);
        lemma_line_entries(front, active, known);
    }
}

/// One more line contributes its entry behind the others.
proof fn lemma_entries_pushed(lines: Seq<PlainLine>, line: PlainLine, active: Seq<Seq<char>>)
    requires
        plain_lines(lines.push(line)),
    ensures
        plain_lines(lines),
        plain_line(line),
        line_entries(lines.push(line), active) == match line_entry(
            line,
            lines.len() as int,
            active,
        ) {
            Some(e) => line_entries(lines, active).push(e),
            None => line_entries(lines, active),
        },
{
    let all = lines.push(line);
    assert forall|k: int| 0 <= k < lines.len() implies plain_line(#[trigger] lines[k]) by {
        assert(all[k] == lines[k]);
    }
    assert(plain_line(all[lines.len() as int]));
    assert(line_raws(all).drop_last() =~= line_raws(lines));
    assert(line_raws(all).last() == line_raw(line, lines.len() as int));
}

/// The entries about `name` come from lines about it.
proof fn lemma_entry_lines(
    lines: Seq<PlainLine>,
    active: Seq<Seq<char>>,
    name: Seq<char>,
    i: int,
)
    requires
        plain_lines(lines),
        capital_name(name),
        0 <= i < line_entries(lines, active).len(),
        line_entries(lines, active)[i].key.base == name,
    ensures
        ({
            let key = line_entries(lines, active)[i].key;
            ||| key == variable_key(name)
            ||| key.operation == OverrideOperation::Append && has_word_line(
                lines,
                name,
                "append"@,
            ) && key.overrides.len() == 0 && !key.on_selected
            ||| key.operation == OverrideOperation::Prepend && has_word_line(
                lines,
                name,
                "prepend"@,
            ) && key.overrides.len() == 0 && !key.on_selected
            ||| key.operation == OverrideOperation::Remove && has_word_line(
                lines,
                name,
                "remove"@,
            ) && key.overrides.len() == 0 && !key.on_selected
            ||| key.operation == OverrideOperation::Plain && key.overrides.len() == 1 && small_word(
                key.overrides[0],
            ) && has_word_line(lines, name, key.overrides[0]) && active.contains(key.overrides[0])
                && keys::component_operation(key.overrides[0]) == OverrideOperation::Plain
                && !key.key_expanded
        }),
    decreases lines.len(),
{
    if lines.len() == 0 {
        assert(line_raws(lines).len() == 0);
    } else {
        let front = lines.drop_last();
        let line = lines.last();
        assert(front.push(line) =~= lines);
        lemma_entries_pushed(front, line, active);
        let es = line_entries(front, active);
        let k = front.len() as int;
        if i < es.len() {
            lemma_entry_lines(front, active, name, i);
            assert forall|word: Seq<char>| #[trigger] has_word_line(front, name, word) implies has_word_line(
                lines,
                name,
                word,
            ) by {
                let j = choose|j: int|
                    0 <= j < front.len() && (#[trigger] front[j]).left == with_word(name, word);
                assert(lines[j] == front[j]);
            }
        } else {
            lemma_line_entry(line, k, active, Map::empty());
            assert(lines[k] == line);
            if !capital_name(line.left) {
                let (n, word) = choose|n: Seq<char>, word: Seq<char>|
                    capital_name(n) && small_word(word) && line.left == #[trigger] with_word(n, word);
                assert(line_entry(line, k, active) == word_entry(line, k, active, n, word));
                assert(n == name);
                assert(has_word_line(lines, name, word));
            }
        }
    }
}

/// Entries that the selector does not pick change nothing.
proof fn lemma_fold_unselected(es: Seq<EntryView>, s: Selector, value: Seq<char>)
    requires
        forall|i: int| 0 <= i < es.len() ==> !overrides::selects(s, #[trigger] es[i]),
    ensures
        overrides::entry_fold(es, s, value) == value,
    decreases es.len(),
{
    if es.len() > 0 {
        let front = es.drop_last();
        assert forall|i: int| 0 <= i < front.len() implies !overrides::selects(
            s,
            #[trigger] front[i],
        ) by {
            assert(front[i] == es[i]);
        }
        assert(!overrides::selects(s, es[es.len() - 1]));
        lemma_fold_unselected(front, s, value);
    }
}

/// One more entry is applied last.
proof fn lemma_fold_pushed(es: Seq<EntryView>, e: EntryView, s: Selector, value: Seq<char>)
    ensures
        overrides::entry_fold(es.push(e), s, value) == {
            let before = overrides::entry_fold(es, s, value);
            if !overrides::selects(s, e) {
                before
            } else if s.operation == OverrideOperation::Plain {
                overrides::assigned(before, e.operator, e.value)
            } else {
                overrides::operated(before, s.operation, e.value)
            }
        },
{
    assert(es.push(e).drop_last() =~= es);
    assert(es.push(e).last() == e);
}

proof fn lemma_no_variant(es: Seq<EntryView>, base: Seq<char>, active: Seq<Seq<char>>, k: int)
    requires
        forall|i: int| 0 <= i < es.len() ==> !overrides::is_variant(#[trigger] es[i], base),
        k <= es.len(),
    ensures
        overrides::best_variant(es, base, active, k) is None,
    decreases k,
{
    if k > 0 {
        lemma_no_variant(es, base, active, k - 1);
        assert(!overrides::is_variant(es[k - 1], base));
    }
}

/// The resolved variables are the bases of the entries.
proof fn lemma_resolved_map(es: Seq<EntryView>, active: Seq<Seq<char>>, k: int, base: Seq<char>)
    requires
        0 <= k <= es.len(),
    ensures
        overrides::resolved_values(es, active, k).dom().contains(base) <==> exists|i: int|
            0 <= i < k && (#[trigger] es[i]).key.base == base,
        overrides::resolved_values(es, active, k).dom().contains(base)
            ==> overrides::resolved_values(es, active, k)[base] == overrides::resolved_value(
            es,
            base,
            active,
        ),
    decreases k,
{
    if k > 0 {
        lemma_resolved_map(es, active, k - 1, base);
        if es[k - 1].key.base != base {
            if exists|i: int| 0 <= i < k && (#[trigger] es[i]).key.base == base {
                let i = choose|i: int| 0 <= i < k && (#[trigger] es[i]).key.base == base;
                assert(0 <= i < k - 1 && es[i].key.base == base);
            }
        }
    }
}

spec fn has_entry(es: Seq<EntryView>, base: Seq<char>) -> bool {
    exists|i: int| 0 <= i < es.len() && (#[trigger] es[i]).key.base == base
}

/// The value of a variable of lines, over their entries.
proof fn lemma_line_value(lines: Seq<PlainLine>, active: Seq<Seq<char>>, name: Seq<char>)
    requires
        plain_lines(lines),
        name != "OVERRIDES"@,
    ensures
        lines_resolved(lines, active).dom().contains(name) <==> has_entry(
            line_entries(lines, active),
            name,
        ),
        has_entry(line_entries(lines, active), name) ==> line_value(lines, active, name)
            == overrides::resolved_value(line_entries(lines, active), name, active),
        !has_entry(line_entries(lines, active), name) ==> line_value(lines, active, name)
            == Seq::<char>::empty() && overrides::resolved_value(
            line_entries(lines, active),
            name,
            active,
        ) == Seq::<char>::empty(),
{
    law_lines_are_assignments(lines);
    let raws = line_raws(lines);
    let known = overrides::environment(raws);
    lemma_line_entries(lines, active, known);
    let es = line_entries(lines, active);
    lemma_resolved_map(es, active, es.len() as int, name);
    if !has_entry(es, name) {
        assert forall|s: Selector, i: int| 0 <= i < es.len() && s.base == name implies !(
        #[trigger] overrides::selects(s, es[i])) by {
            assert(es[i].key.base != name);
        }
        assert forall|i: int| 0 <= i < es.len() implies !overrides::is_variant(#[trigger] es[i], name)
            by {
            assert(es[i].key.base != name);
        }
        lemma_no_variant(es, name, active, es.len() as int);
        let s = Selector {
            base: name,
            overrides: Seq::empty(),
            operation: OverrideOperation::Plain,
            on_variant: false,
            key_expanded: None,
        };
        lemma_fold_unselected(es, Selector { key_expanded: Some(false), ..s }, Seq::empty());
        lemma_fold_unselected(es, Selector { key_expanded: Some(true), ..s }, Seq::empty());
        lemma_fold_unselected(es, Selector { operation: OverrideOperation::Append, ..s }, Seq::empty());
        lemma_fold_unselected(es, Selector { operation: OverrideOperation::Prepend, ..s }, Seq::empty());
        lemma_fold_unselected(es, Selector { operation: OverrideOperation::Remove, ..s }, Seq::empty());
    }
}

/// What a further plain entry does to a variable without overrides, over the
/// entries.
proof fn lemma_pushed_value(
    es: Seq<EntryView>,
    e: EntryView,
    name: Seq<char>,
    active: Seq<Seq<char>>,
)
    requires
        forall|i: int|
            0 <= i < es.len() && (#[trigger] es[i]).key.base == name ==> es[i].key.overrides.len()
                == 0 && !es[i].key.on_selected && !es[i].key.key_expanded,
        e.key.base == name,
        e.key.overrides.len() == 0,
        !e.key.on_selected,
        !e.key.key_expanded,
    ensures
        ({
            let old_value = overrides::resolved_value(es, name, active);
            let new_value = overrides::resolved_value(es.push(e), name, active);
            let none = |o: OverrideOperation|
                forall|i: int|
                    0 <= i < es.len() && (#[trigger] es[i]).key.base == name
                        ==> es[i].key.operation != o;
            &&& e.key.operation == OverrideOperation::Plain && none(OverrideOperation::Append)
                && none(OverrideOperation::Prepend) && none(OverrideOperation::Remove) ==> new_value
                == overrides::assigned(old_value, e.operator, e.value)
            &&& e.key.operation == OverrideOperation::Append && none(OverrideOperation::Prepend)
                && none(OverrideOperation::Remove) ==> new_value == overrides::operated(
                old_value,
                OverrideOperation::Append,
                e.value,
            )
            &&& e.key.operation == OverrideOperation::Prepend && none(OverrideOperation::Remove)
                ==> new_value == overrides::operated(
                old_value,
                OverrideOperation::Prepend,
                e.value,
            )
            &&& e.key.operation == OverrideOperation::Remove ==> new_value == overrides::operated(
                old_value,
                OverrideOperation::Remove,
                e.value,
            )
        }),
{
    let all = es.push(e);
    assert forall|i: int| 0 <= i < es.len() implies !overrides::is_variant(#[trigger] es[i], name)
        by {}
    assert forall|i: int| 0 <= i < all.len() implies !overrides::is_variant(#[trigger] all[i], name)
        by {
        if i < es.len() {
            assert(all[i] == es[i]);
        }
    }
    lemma_no_variant(es, name, active, es.len() as int);
    lemma_no_variant(all, name, active, all.len() as int);
    let s = Selector {
        base: name,
        overrides: Seq::empty(),
        operation: OverrideOperation::Plain,
        on_variant: false,
        key_expanded: None,
    };
    let s1 = Selector { key_expanded: Some(false), ..s };
    let s2 = Selector { key_expanded: Some(true), ..s };
    let sa = Selector { operation: OverrideOperation::Append, ..s };
    let sp = Selector { operation: OverrideOperation::Prepend, ..s };
    let sr = Selector { operation: OverrideOperation::Remove, ..s };
    assert forall|i: int| 0 <= i < es.len() implies !overrides::selects(s2, #[trigger] es[i]) by {}
    assert forall|i: int| 0 <= i < all.len() implies !overrides::selects(s2, #[trigger] all[i]) by {
        if i < es.len() {
            assert(all[i] == es[i]);
        }
    }
    let d = overrides::entry_fold(es, s1, Seq::empty());
    let d2 = overrides::entry_fold(all, s1, Seq::empty());
    lemma_fold_pushed(es, e, s1, Seq::empty());
    lemma_fold_unselected(es, s2, d);
    lemma_fold_unselected(all, s2, d2);
    let a = overrides::entry_fold(es, sa, d);
    let p = overrides::entry_fold(es, sp, a);
    lemma_fold_pushed(es, e, sa, d2);
    let a2 = overrides::entry_fold(all, sa, d2);
    lemma_fold_pushed(es, e, sp, a2);
    let p2 = overrides::entry_fold(all, sp, a2);
    lemma_fold_pushed(es, e, sr, p2);
    assert(overrides::resolved_value(es, name, active) == overrides::entry_fold(es, sr, p));
    assert(overrides::resolved_value(all, name, active) == overrides::entry_fold(all, sr, p2));
    let none_a = forall|i: int|
        0 <= i < es.len() && (#[trigger] es[i]).key.base == name ==> es[i].key.operation
            != OverrideOperation::Append;
    let none_p = forall|i: int|
        0 <= i < es.len() && (#[trigger] es[i]).key.base == name ==> es[i].key.operation
            != OverrideOperation::Prepend;
    let none_r = forall|i: int|
        0 <= i < es.len() && (#[trigger] es[i]).key.base == name ==> es[i].key.operation
            != OverrideOperation::Remove;
    if none_r {
        lemma_fold_unselected(es, sr, p);
        lemma_fold_unselected(es, sr, p2);
        if none_p {
            lemma_fold_unselected(es, sp, a);
            lemma_fold_unselected(es, sp, a2);
            if none_a {
                lemma_fold_unselected(es, sa, d);
                lemma_fold_unselected(es, sa, d2);
            }
        }
    }
}

/// What one more assignment does to a variable of lines that only assign to it:
/// `=` and `:=` replace the value, `?=` and `??=` count only where there is
/// none, `+=` puts its text behind the value and `=+` in front of it, with a
/// space between two texts that are not empty, and `.=` and `=.` do so without a
/// space.
pub proof fn law_one_more_assignment(
    lines: Seq<PlainLine>,
    line: PlainLine,
    active: Seq<Seq<char>>,
)
    requires
        plain_lines(lines.push(line)),
        capital_name(line.left),
        line.left != "OVERRIDES"@,
        only_assigned(lines, line.left),
    ensures
        lines_resolved(lines.push(line), active).dom().contains(line.left),
        ({
            let before = line_value(lines, active, line.left);
            let after = line_value(lines.push(line), active, line.left);
            let w = line.value;
            let space = seq![' '];
            match line.operator {
                AssignmentOperator::Assign => after == w,
                AssignmentOperator::Immediate => after == w,
                AssignmentOperator::Default => after == (if before.len() == 0 {
                    w
                } else {
                    before
                }),
                AssignmentOperator::WeakDefault => after == (if before.len() == 0 {
                    w
                } else {
                    before
                }),
                AssignmentOperator::AppendWithSpace => {
                    &&& before.len() > 0 && w.len() > 0 ==> after == before + space + w
                    &&& before.len() == 0 || w.len() == 0 ==> after == before + w
                },
                AssignmentOperator::PrependWithSpace => {
                    &&& before.len() > 0 && w.len() > 0 ==> after == w + space + before
                    &&& before.len() == 0 || w.len() == 0 ==> after == w + before
                },
                AssignmentOperator::AppendWithoutSpace => after == before + w,
                AssignmentOperator::PrependWithoutSpace => after == w + before,
            }
        }),
{
    let name = line.left;
    let all = lines.push(line);
    lemma_entries_pushed(lines, line, active);
    let k = lines.len() as int;
    lemma_line_entry(line, k, active, Map::empty());
    let es = line_entries(lines, active);
    let e = line_entry(line, k, active)->0;
    lemma_line_value(lines, active, name);
    lemma_line_value(all, active, name);
    assert(line_entries(all, active)[es.len() as int] == e);
    assert(has_entry(line_entries(all, active), name));
    reveal_strlit("append");
    reveal_strlit("prepend");
    reveal_strlit("remove");
    assert(small_word("append"@) && small_word("prepend"@) && small_word("remove"@));
    assert forall|i: int| 0 <= i < es.len() && (#[trigger] es[i]).key.base == name implies es[i].key
        == variable_key(name) by {
        lemma_entry_lines(lines, active, name, i);
    }
    lemma_pushed_value(es, e, name, active);
}

/// The value before a further `+=`, `=+`, `.=` or `=.` is whole in the value
/// after it.
pub proof fn law_additions_keep_the_value(
    lines: Seq<PlainLine>,
    line: PlainLine,
    active: Seq<Seq<char>>,
)
    requires
        plain_lines(lines.push(line)),
        capital_name(line.left),
        line.left != "OVERRIDES"@,
        only_assigned(lines, line.left),
        line.operator == AssignmentOperator::AppendWithSpace || line.operator
            == AssignmentOperator::PrependWithSpace || line.operator
            == AssignmentOperator::AppendWithoutSpace || line.operator
            == AssignmentOperator::PrependWithoutSpace,
    ensures
        ({
            let before = line_value(lines, active, line.left);
            let after = line_value(lines.push(line), active, line.left);
            exists|i: int|
                0 <= i && i + before.len() <= after.len() && #[trigger] after.subrange(
                    i,
                    i + before.len(),
                ) == before
        }),
{
    law_one_more_assignment(lines, line, active);
    let before = line_value(lines, active, line.left);
    let after = line_value(lines.push(line), active, line.left);
    let n = before.len() as int;
    let i = if line.operator == AssignmentOperator::AppendWithSpace || line.operator
        == AssignmentOperator::AppendWithoutSpace {
        0
    } else {
        after.len() - n
    };
    assert(after.subrange(i, i + n) =~= before);
}

/// What two assignments to one variable give: `A = "v"` and then `A += "w"` is
/// `v w`, `=+` gives `w v`, `.=` and `=.` join the two, `?=` and `??=` leave `v`,
/// and `=` and `:=` give `w`.
#[verifier::spinoff_prover]
#[verifier::rlimit(60)]
pub proof fn law_two_assignments(
    name: Seq<char>,
    operator: AssignmentOperator,
    v: Seq<char>,
    w: Seq<char>,
    active: Seq<Seq<char>>,
)
    requires
        capital_name(name),
        name != "OVERRIDES"@,
        plain_text(v),
        plain_text(w),
        v.len() > 0,
        w.len() > 0,
    ensures
        ({
            let source = name + seq![' ', '=', ' ', '"'] + v + seq!['"', '\n'] + name + seq![' ']
                + operator::operator_chars(operator) + seq![' ', '"'] + w + seq!['"', '\n'];
            let values = overrides::resolution(overrides::assignments_of(source), active);
            &&& syntax::nodes_of(source) is Ok
            &&& values.dom().contains(name)
            &&& values[name] == match operator {
                AssignmentOperator::AppendWithSpace => v + seq![' '] + w,
                AssignmentOperator::PrependWithSpace => w + seq![' '] + v,
                AssignmentOperator::AppendWithoutSpace => v + w,
                AssignmentOperator::PrependWithoutSpace => w + v,
                AssignmentOperator::Default => v,
                AssignmentOperator::WeakDefault => v,
                AssignmentOperator::Assign => w,
                AssignmentOperator::Immediate => w,
            }
        }),
{
    let first = PlainLine { left: name, operator: AssignmentOperator::Assign, value: v };
    let second = PlainLine { left: name, operator, value: w };
    let none = Seq::<PlainLine>::empty();
    let one = none.push(first);
    let two = one.push(second);
    assert forall|k: int| 0 <= k < two.len() implies plain_line(#[trigger] two[k]) by {}
    assert forall|k: int| 0 <= k < one.len() implies plain_line(#[trigger] one[k]) by {}
    lemma_not_worded(name);
    assert(only_assigned(none, name));
    assert(only_assigned(one, name)) by {
        assert forall|word: Seq<char>| small_word(word) implies !(#[trigger] has_word_line(
            one,
            name,
            word,
        )) by {
            assert(name != with_word(name, word));
        }
    }
    law_one_more_assignment(none, first, active);
    law_one_more_assignment(one, second, active);
    law_lines_are_assignments(two);
    assert(one.drop_last() =~= none);
    assert(two.drop_last() =~= one);
    lemma_two_lines(first, second);
}

proof fn lemma_two_lines(first: PlainLine, second: PlainLine)
    requires
        first.operator == AssignmentOperator::Assign,
    ensures
        lines_text(Seq::<PlainLine>::empty().push(first).push(second)) == first.left + seq![
            ' ',
            '=',
            ' ',
            '"',
        ] + first.value + seq!['"', '\n'] + second.left + seq![' '] + operator::operator_chars(
            second.operator,
        ) + seq![' ', '"'] + second.value + seq!['"', '\n'],
{
    let none = Seq::<PlainLine>::empty();
    let one = none.push(first);
    let two = one.push(second);
    assert(one.drop_last() =~= none);
    assert(two.drop_last() =~= one);
    assert(lines_text(none) =~= Seq::empty());
    assert(lines_text(one) =~= line_text(first));
    assert(lines_text(two) =~= line_text(first) + line_text(second));
}

/// What an appended, prepended or removed text does to a variable, wherever the
/// line stands: appending puts the text right behind what the variable has, so
/// far as nothing is prepended or removed; prepending puts it right in front, so
/// far as nothing is removed.
pub proof fn law_one_more_operation(
    lines: Seq<PlainLine>,
    line: PlainLine,
    name: Seq<char>,
    active: Seq<Seq<char>>,
)
    requires
        plain_lines(lines.push(line)),
        capital_name(name),
        name != "OVERRIDES"@,
        forall|word: Seq<char>|
            small_word(word) && word != "append"@ && word != "prepend"@ && word != "remove"@ ==> !(
            #[trigger] has_word_line(lines, name, word)),
    ensures
        ({
            let before = line_value(lines, active, name);
            let after = line_value(lines.push(line), active, name);
            &&& line.left == with_word(name, "append"@) && !has_word_line(lines, name, "prepend"@)
                && !has_word_line(lines, name, "remove"@) ==> after == before + line.value
            &&& line.left == with_word(name, "prepend"@) && !has_word_line(lines, name, "remove"@)
                ==> after == line.value + before
            &&& line.left == with_word(name, "remove"@) ==> without_words(
                before,
                after,
                text::word_texts(line.value, CharClass::Ascii),
            )
        }),
{
    reveal_strlit("append");
    reveal_strlit("prepend");
    reveal_strlit("remove");
    assert(small_word("append"@) && small_word("prepend"@) && small_word("remove"@));
    assert("append"@.len() == 6 && "prepend"@.len() == 7 && "remove"@.len() == 6);
    assert("append"@[0] == 'a' && "remove"@[0] == 'r');
    let all = lines.push(line);
    lemma_entries_pushed(lines, line, active);
    let k = lines.len() as int;
    lemma_line_entry(line, k, active, Map::empty());
    let es = line_entries(lines, active);
    lemma_line_value(lines, active, name);
    lemma_line_value(all, active, name);
    assert forall|i: int| 0 <= i < es.len() && (#[trigger] es[i]).key.base == name implies es[i].key.overrides.len()
        == 0 && !es[i].key.on_selected && !es[i].key.key_expanded && (es[i].key.operation
        == OverrideOperation::Prepend ==> has_word_line(lines, name, "prepend"@)) && (
    es[i].key.operation == OverrideOperation::Remove ==> has_word_line(lines, name, "remove"@)) by {
        lemma_entry_lines(lines, active, name, i);
        lemma_entry_expanded(lines, active, i);
    }
    if line.left == with_word(name, "append"@) || line.left == with_word(name, "prepend"@)
        || line.left == with_word(name, "remove"@) {
        let word = if line.left == with_word(name, "append"@) {
            "append"@
        } else if line.left == with_word(name, "prepend"@) {
            "prepend"@
        } else {
            "remove"@
        };
        let e = line_entry(line, k, active)->0;
        assert(line_entry(line, k, active) == word_entry(line, k, active, name, word));
        assert(line_entries(all, active)[es.len() as int] == e);
        assert(has_entry(line_entries(all, active), name));
        lemma_pushed_value(es, e, name, active);
        if line.left == with_word(name, "prepend"@) && word != "prepend"@ {
            lemma_word_parts(name, word, name, "prepend"@);
        }
        if line.left == with_word(name, "remove"@) {
            if word != "remove"@ {
                lemma_word_parts(name, word, name, "remove"@);
            }
            lemma_without_words(
                line_value(lines, active, name),
                text::word_texts(line.value, CharClass::Ascii),
            );
        }
    }
}

proof fn lemma_entry_expanded(lines: Seq<PlainLine>, active: Seq<Seq<char>>, i: int)
    requires
        plain_lines(lines),
        0 <= i < line_entries(lines, active).len(),
    ensures
        !line_entries(lines, active)[i].key.key_expanded,
    decreases lines.len(),
{
    if lines.len() == 0 {
        assert(line_raws(lines).len() == 0);
    } else {
        let front = lines.drop_last();
        let line = lines.last();
        assert(front.push(line) =~= lines);
        lemma_entries_pushed(front, line, active);
        let es = line_entries(front, active);
        let k = front.len() as int;
        if i < es.len() {
            lemma_entry_expanded(front, active, i);
        } else {
            lemma_line_entry(line, k, active, Map::empty());
            if !capital_name(line.left) {
                let (n, word) = choose|n: Seq<char>, word: Seq<char>|
                    capital_name(n) && small_word(word) && line.left == #[trigger] with_word(n, word);
                assert(line_entry(line, k, active) == word_entry(line, k, active, n, word));
            }
        }
    }
}

/// Whether `after` is `before` without the words `words`: it has the other words
/// of `before` in their order, and all of its white space.
pub open spec fn without_words(before: Seq<char>, after: Seq<char>, words: Seq<Seq<char>>) -> bool {
    &&& text::word_texts(after, CharClass::Whitespace) == text::word_texts(
        before,
        CharClass::Whitespace,
    ).filter(not_among(words))
    &&& after.filter(white_space()) == before.filter(white_space())
}

/// The texts that are none of `words`.
pub open spec fn not_among(words: Seq<Seq<char>>) -> spec_fn(Seq<char>) -> bool {
    |word: Seq<char>| !words.contains(word)
}

pub open spec fn white_space() -> spec_fn(char) -> bool {
    |c: char| text::is_ws(c)
}

spec fn words_at(t: Seq<char>, i: int) -> Seq<Seq<char>> {
    text::words_from(t, CharClass::Whitespace, i).map_values(|w: (int, int)| t.subrange(w.0, w.1))
}

proof fn lemma_words_shift(t: Seq<char>, i: int, u: Seq<char>, j: int)
    requires
        reparse::same_tail(t, i, u, j),
        0 <= i <= t.len(),
        0 <= j <= u.len(),
    ensures
        words_at(t, i) == words_at(u, j),
    decreases t.len() - i,
{
    let class = CharClass::Whitespace;
    let s = text::lead_from(t, class, i);
    let e = text::until_from(t, class, s);
    text::lemma_lead(t, class, i);
    text::lemma_until(t, class, s);
    let d = j - i;
    assert(t.len() - i == u.len() - j);
    assert forall|k: int| i <= k < t.len() implies #[trigger] t[k] == u[k + d] by {
        assert(t[i + (k - i)] == u[j + (k - i)]);
    }
    assert forall|k: int| j <= k < s + d implies text::in_class(class, #[trigger] u[k]) by {
        assert(t[k - d] == u[k]);
    }
    if s < t.len() {
        assert(t[s] == u[s + d]);
    }
    text::lemma_lead_unique(u, class, j, s + d);
    assert forall|k: int| s + d <= k < e + d implies !text::in_class(class, #[trigger] u[k]) by {
        assert(t[k - d] == u[k]);
    }
    if e < t.len() {
        assert(t[e] == u[e + d]);
    }
    text::lemma_until_unique(u, class, s + d, e + d);
    if s < e {
        reparse::lemma_same_tail_step(t, i, u, j, e - i);
        lemma_words_shift(t, e, u, e + d);
        assert(t.subrange(s, e) =~= u.subrange(s + d, e + d));
        assert(words_at(t, i) =~= seq![t.subrange(s, e)] + words_at(t, e));
        assert(words_at(u, j) =~= seq![u.subrange(s + d, e + d)] + words_at(u, e + d));
    } else {
        assert(words_at(t, i) =~= words_at(u, j));
    }
}

proof fn lemma_words_after_blank(c: char, x: Seq<char>)
    requires
        text::is_ws(c),
    ensures
        text::word_texts(seq![c] + x, CharClass::Whitespace) == text::word_texts(
            x,
            CharClass::Whitespace,
        ),
{
    let t = seq![c] + x;
    let class = CharClass::Whitespace;
    assert(t[0] == c);
    assert(text::lead_from(t, class, 0) == text::lead_from(t, class, 1));
    text::lemma_lead(t, class, 1);
    assert(text::words_from(t, class, 0) == text::words_from(t, class, 1));
    assert(reparse::same_tail(t, 1, x, 0)) by {
        assert forall|k: int| 1 <= k < t.len() implies #[trigger] t[k] == x[k - 1] by {}
    }
    lemma_words_shift(t, 1, x, 0);
    assert(words_at(t, 0) =~= text::word_texts(t, class));
    assert(words_at(x, 0) =~= text::word_texts(x, class));
    assert(words_at(t, 0) =~= words_at(t, 1));
}

proof fn lemma_words_after_word(w: Seq<char>, x: Seq<char>)
    requires
        w.len() > 0,
        forall|k: int| 0 <= k < w.len() ==> !text::is_ws(#[trigger] w[k]),
        x.len() == 0 || text::is_ws(x[0]),
    ensures
        text::word_texts(w + x, CharClass::Whitespace) == seq![w] + text::word_texts(
            x,
            CharClass::Whitespace,
        ),
{
    let t = w + x;
    let n = w.len() as int;
    let class = CharClass::Whitespace;
    assert(t[0] == w[0]);
    text::lemma_lead_unique(t, class, 0, 0);
    assert forall|k: int| 0 <= k < n implies !text::in_class(class, #[trigger] t[k]) by {
        assert(t[k] == w[k]);
    }
    if n < t.len() {
        assert(t[n] == x[0]);
    }
    text::lemma_until_unique(t, class, 0, n);
    assert(reparse::same_tail(t, n, x, 0)) by {
        assert forall|k: int| n <= k < t.len() implies #[trigger] t[k] == x[k - n] by {}
    }
    lemma_words_shift(t, n, x, 0);
    assert(t.subrange(0, n) =~= w);
    assert(words_at(t, 0) =~= text::word_texts(t, class));
    assert(words_at(x, 0) =~= text::word_texts(x, class));
    assert(words_at(t, 0) =~= seq![w] + words_at(t, n));
}

proof fn lemma_filter_one<A>(x: A, p: spec_fn(A) -> bool)
    ensures
        seq![x].filter(p) == if p(x) {
            seq![x]
        } else {
            Seq::empty()
        },
{
    reveal(Seq::filter);
    assert(seq![x].drop_last() =~= Seq::empty());
    assert(seq![x].last() == x);
    assert(Seq::<A>::empty().filter(p) =~= Seq::empty());
    assert(Seq::<A>::empty().push(x) =~= seq![x]);
}

proof fn lemma_no_space(w: Seq<char>)
    requires
        forall|k: int| 0 <= k < w.len() ==> !text::is_ws(#[trigger] w[k]),
    ensures
        w.filter(white_space()) == Seq::<char>::empty(),
    decreases w.len(),
{
    reveal(Seq::filter);
    if w.len() > 0 {
        let front = w.drop_last();
        assert forall|k: int| 0 <= k < front.len() implies !text::is_ws(#[trigger] front[k]) by {
            assert(front[k] == w[k]);
        }
        lemma_no_space(front);
        assert(!text::is_ws(w[w.len() - 1]));
    } else {
        assert(w.filter(white_space()) =~= Seq::empty());
    }
}

proof fn lemma_removed(value: Seq<char>, i: int, words: Seq<Seq<char>>)
    requires
        0 <= i <= value.len(),
        i == 0 || i == value.len() || text::is_ws(value[i]) || text::is_ws(value[i - 1]),
    ensures
        without_words(value.skip(i), overrides::removed_from(value, i, words), words),
        i == value.len() ==> overrides::removed_from(value, i, words).len() == 0,
        i < value.len() && text::is_ws(value[i]) ==> overrides::removed_from(value, i, words).len()
            > 0 && overrides::removed_from(value, i, words)[0] == value[i],
    decreases value.len() - i,
{
    let p = not_among(words);
    let ws = white_space();
    let out = overrides::removed_from(value, i, words);
    let rest = value.skip(i);
    let class = CharClass::Whitespace;
    if i == value.len() {
        assert(rest =~= Seq::empty());
        assert(out =~= Seq::empty());
        assert(text::word_texts(out, class) =~= Seq::empty());
        reveal(Seq::filter);
    } else if text::is_ws(value[i]) {
        lemma_removed(value, i + 1, words);
        let next = overrides::removed_from(value, i + 1, words);
        lemma_words_after_blank(value[i], next);
        lemma_words_after_blank(value[i], value.skip(i + 1));
        assert(rest =~= seq![value[i]] + value.skip(i + 1));
        Seq::filter_distributes_over_add(seq![value[i]], next, ws);
        Seq::filter_distributes_over_add(seq![value[i]], value.skip(i + 1), ws);
    } else {
        let e = text::until_from(value, class, i);
        text::lemma_until(value, class, i);
        lemma_removed(value, e, words);
        let next = overrides::removed_from(value, e, words);
        let word = value.subrange(i, e);
        assert forall|k: int| 0 <= k < word.len() implies !text::is_ws(#[trigger] word[k]) by {
            assert(word[k] == value[i + k]);
            assert(!text::in_class(class, value[i + k]));
        }
        assert(rest =~= word + value.skip(e));
        if e < value.len() {
            assert(value.skip(e)[0] == value[e]);
        }
        lemma_words_after_word(word, value.skip(e));
        lemma_filter_one(word, p);
        lemma_no_space(word);
        Seq::filter_distributes_over_add(
            seq![word],
            text::word_texts(value.skip(e), class),
            p,
        );
        Seq::filter_distributes_over_add(word, value.skip(e), ws);
        assert(Seq::<char>::empty() + value.skip(e).filter(ws) =~= value.skip(e).filter(ws));
        if words.contains(word) {
            assert(Seq::<char>::empty() + next =~= next);
            assert(Seq::<Seq<char>>::empty() + text::word_texts(next, class) =~= text::word_texts(
                next,
                class,
            ));
        } else {
            lemma_words_after_word(word, next);
            Seq::filter_distributes_over_add(word, next, ws);
            assert(Seq::<char>::empty() + next.filter(ws) =~= next.filter(ws));
        }
    }
}

proof fn lemma_without_words(value: Seq<char>, words: Seq<Seq<char>>)
    ensures
        without_words(value, overrides::removed_from(value, 0, words), words),
{
    lemma_removed(value, 0, words);
    assert(value.skip(0) =~= value);
}

// ---------------------------------------------------------------------------
// Overrides
// ---------------------------------------------------------------------------
/// An assignment for an override that is not active changes nothing.
pub proof fn law_inactive_lines_change_nothing(
    lines: Seq<PlainLine>,
    line: PlainLine,
    name: Seq<char>,
    word: Seq<char>,
    active: Seq<Seq<char>>,
)
    requires
        plain_lines(lines.push(line)),
        capital_name(name),
        small_word(word),
        word != "append"@,
        word != "prepend"@,
        word != "remove"@,
        line.left == with_word(name, word),
        !active.contains(word),
    ensures
        lines_resolved(lines.push(line), active) == lines_resolved(lines, active),
{
    let all = lines.push(line);
    lemma_entries_pushed(lines, line, active);
    lemma_line_entry(line, lines.len() as int, active, Map::empty());
    law_lines_are_assignments(lines);
    law_lines_are_assignments(all);
    lemma_line_entries(lines, active, overrides::environment(line_raws(lines)));
    lemma_line_entries(all, active, overrides::environment(line_raws(all)));
}

/// An assignment for an active override replaces what the variable has itself.
pub proof fn law_an_active_override_is_selected(
    lines: Seq<PlainLine>,
    line: PlainLine,
    name: Seq<char>,
    word: Seq<char>,
    active: Seq<Seq<char>>,
)
    requires
        plain_lines(lines.push(line)),
        capital_name(name),
        name != "OVERRIDES"@,
        small_word(word),
        word != "append"@,
        word != "prepend"@,
        word != "remove"@,
        line.left == with_word(name, word),
        active.contains(word),
        only_assigned(lines, name),
    ensures
        lines_resolved(lines.push(line), active).dom().contains(name),
        lines_resolved(lines.push(line), active)[name] == line.value,
{
    let all = lines.push(line);
    lemma_entries_pushed(lines, line, active);
    let k = lines.len() as int;
    lemma_line_entry(line, k, active, Map::empty());
    let es = line_entries(lines, active);
    let e = line_entry(line, k, active)->0;
    assert(line_entry(line, k, active) == word_entry(line, k, active, name, word));
    let whole = line_entries(all, active);
    assert(whole == es.push(e));
    assert(whole[es.len() as int] == e);
    assert(has_entry(whole, name));
    lemma_line_value(all, active, name);
    lemma_only_variables(lines, active, name);
    assert forall|i: int| 0 <= i < es.len() implies !overrides::is_variant(#[trigger] es[i], name)
        by {}
    lemma_variants_before(es, whole, name, active, es.len() as int);
    assert(overrides::best_variant(whole, name, active, es.len() as int + 1) == Some(seq![word]));
    lemma_variant_only(es, e, name, word, active);
}

/// Lines that only assign to a variable contribute plain entries to it.
proof fn lemma_only_variables(lines: Seq<PlainLine>, active: Seq<Seq<char>>, name: Seq<char>)
    requires
        plain_lines(lines),
        capital_name(name),
        only_assigned(lines, name),
    ensures
        forall|i: int|
            0 <= i < line_entries(lines, active).len() && (#[trigger] line_entries(
                lines,
                active,
            )[i]).key.base == name ==> line_entries(lines, active)[i].key == variable_key(name),
{
    reveal_strlit("append");
    reveal_strlit("prepend");
    reveal_strlit("remove");
    assert(small_word("append"@) && small_word("prepend"@) && small_word("remove"@));
    let es = line_entries(lines, active);
    assert forall|i: int| 0 <= i < es.len() && (#[trigger] es[i]).key.base == name implies es[i].key
        == variable_key(name) by {
        lemma_entry_lines(lines, active, name, i);
    }
}

/// Entries without variants have no preferred one among the first `k` of more.
proof fn lemma_variants_before(
    es: Seq<EntryView>,
    whole: Seq<EntryView>,
    base: Seq<char>,
    active: Seq<Seq<char>>,
    k: int,
)
    requires
        0 <= k <= es.len() <= whole.len(),
        forall|i: int| 0 <= i < es.len() ==> #[trigger] whole[i] == es[i],
        forall|i: int| 0 <= i < es.len() ==> !overrides::is_variant(#[trigger] es[i], base),
    ensures
        overrides::best_variant(whole, base, active, k) is None,
    decreases k,
{
    if k > 0 {
        lemma_variants_before(es, whole, base, active, k - 1);
        assert(whole[k - 1] == es[k - 1]);
        assert(!overrides::is_variant(es[k - 1], base));
    }
}

/// A variable with one entry for an override and plain entries besides has the
/// value of that entry, where that override is the preferred one.
proof fn lemma_variant_only(
    es: Seq<EntryView>,
    e: EntryView,
    name: Seq<char>,
    word: Seq<char>,
    active: Seq<Seq<char>>,
)
    requires
        forall|i: int|
            0 <= i < es.len() && (#[trigger] es[i]).key.base == name ==> es[i].key == variable_key(
                name,
            ) || (es[i].key.operation == OverrideOperation::Plain && es[i].key.overrides.len() > 0
                && es[i].key.overrides != seq![word]),
        e.key == (KeyView { overrides: seq![word], ..variable_key(name) }),
        overrides::best_variant(es.push(e), name, active, es.len() as int + 1) == Some(seq![word]),
    ensures
        overrides::resolved_value(es.push(e), name, active) == e.value,
{
    let whole = es.push(e);
    let s = Selector {
        base: name,
        overrides: seq![word],
        operation: OverrideOperation::Plain,
        on_variant: true,
        key_expanded: None,
    };
    let s1 = Selector { key_expanded: Some(false), ..s };
    let s2 = Selector { key_expanded: Some(true), ..s };
    assert forall|i: int| 0 <= i < es.len() implies !overrides::selects(s1, #[trigger] es[i])
        && !overrides::selects(s2, es[i]) by {}
    lemma_fold_unselected(es, s1, Seq::empty());
    lemma_fold_pushed(es, e, s1, Seq::empty());
    let first = overrides::entry_fold(whole, s1, Seq::empty());
    assert(first =~= e.value);
    lemma_fold_unselected(es, s2, first);
    lemma_fold_pushed(es, e, s2, first);
    let value = e.value;
    lemma_no_operations(es, e, s, value);
    let d = Selector {
        base: name,
        overrides: Seq::empty(),
        operation: OverrideOperation::Append,
        on_variant: false,
        key_expanded: None,
    };
    assert forall|i: int| 0 <= i < whole.len() implies !overrides::selects(d, #[trigger] whole[i]) by {
        if i < es.len() {
            assert(whole[i] == es[i]);
        }
    }
    let p = Selector { operation: OverrideOperation::Prepend, ..d };
    let r = Selector { operation: OverrideOperation::Remove, ..d };
    assert forall|i: int| 0 <= i < whole.len() implies !overrides::selects(p, #[trigger] whole[i])
        && !overrides::selects(r, whole[i]) by {
        if i < es.len() {
            assert(whole[i] == es[i]);
        }
    }
    lemma_fold_unselected(whole, d, value);
    lemma_fold_unselected(whole, p, value);
    lemma_fold_unselected(whole, r, value);
}

/// The operations on a variant change nothing where there are none.
proof fn lemma_no_operations(es: Seq<EntryView>, e: EntryView, s: Selector, value: Seq<char>)
    requires
        forall|i: int|
            0 <= i < es.len() && (#[trigger] es[i]).key.base == s.base ==> es[i].key.operation
                == OverrideOperation::Plain,
        e.key.operation == OverrideOperation::Plain,
    ensures
        overrides::entry_folds(
            es.push(e),
            Selector { operation: OverrideOperation::Append, ..s },
            value,
        ) == value,
        overrides::entry_folds(
            es.push(e),
            Selector { operation: OverrideOperation::Prepend, ..s },
            value,
        ) == value,
        overrides::entry_folds(
            es.push(e),
            Selector { operation: OverrideOperation::Remove, ..s },
            value,
        ) == value,
{
    let whole = es.push(e);
    lemma_fold_no_operation(whole, Selector { operation: OverrideOperation::Append, ..s }, value);
    lemma_fold_no_operation(whole, Selector { operation: OverrideOperation::Prepend, ..s }, value);
    lemma_fold_no_operation(whole, Selector { operation: OverrideOperation::Remove, ..s }, value);
}

proof fn lemma_fold_no_operation(whole: Seq<EntryView>, s: Selector, value: Seq<char>)
    requires
        s.operation != OverrideOperation::Plain,
        forall|i: int|
            0 <= i < whole.len() && (#[trigger] whole[i]).key.base == s.base
                ==> whole[i].key.operation == OverrideOperation::Plain,
    ensures
        overrides::entry_folds(whole, s, value) == value,
{
    let s1 = Selector { key_expanded: Some(false), ..s };
    let s2 = Selector { key_expanded: Some(true), ..s };
    assert forall|i: int| 0 <= i < whole.len() implies !overrides::selects(s1, #[trigger] whole[i])
        && !overrides::selects(s2, whole[i]) by {}
    lemma_fold_unselected(whole, s1, value);
    lemma_fold_unselected(whole, s2, value);
}

/// A line about one variable leaves the others.
pub proof fn law_other_variables_are_unchanged(
    lines: Seq<PlainLine>,
    line: PlainLine,
    other: Seq<char>,
    active: Seq<Seq<char>>,
)
    requires
        plain_lines(lines.push(line)),
        capital_name(other),
        other != "OVERRIDES"@,
        line.left != other,
        forall|word: Seq<char>| line.left != #[trigger] with_word(other, word),
    ensures
        lines_resolved(lines.push(line), active).dom().contains(other) == lines_resolved(
            lines,
            active,
        ).dom().contains(other),
        line_value(lines.push(line), active, other) == line_value(lines, active, other),
{
    let all = lines.push(line);
    lemma_entries_pushed(lines, line, active);
    let k = lines.len() as int;
    lemma_line_entry(line, k, active, Map::empty());
    let es = line_entries(lines, active);
    lemma_line_value(lines, active, other);
    lemma_line_value(all, active, other);
    if line_entry(line, k, active) is Some {
        let e = line_entry(line, k, active)->0;
        assert(e.key.base != other) by {
            if !capital_name(line.left) {
                let (n, word) = choose|n: Seq<char>, word: Seq<char>|
                    capital_name(n) && small_word(word) && line.left == #[trigger] with_word(n, word);
                assert(line_entry(line, k, active) == word_entry(line, k, active, n, word));
                assert(line.left != with_word(other, word));
            }
        }
        let whole = es.push(e);
        if has_entry(es, other) {
            let i = choose|i: int| 0 <= i < es.len() && (#[trigger] es[i]).key.base == other;
            assert(whole[i] == es[i]);
        }
        if has_entry(whole, other) {
            let i = choose|i: int| 0 <= i < whole.len() && (#[trigger] whole[i]).key.base == other;
            assert(i < es.len());
            assert(es[i] == whole[i]);
        }
        lemma_other_value(es, e, other, active);
    }
}

proof fn lemma_other_folds(es: Seq<EntryView>, e: EntryView, s: Selector, value: Seq<char>)
    requires
        e.key.base != s.base,
    ensures
        overrides::entry_fold(es.push(e), s, value) == overrides::entry_fold(es, s, value),
        overrides::entry_folds(es.push(e), s, value) == overrides::entry_folds(es, s, value),
{
    lemma_fold_pushed(es, e, s, value);
    let s1 = Selector { key_expanded: Some(false), ..s };
    let s2 = Selector { key_expanded: Some(true), ..s };
    lemma_fold_pushed(es, e, s1, value);
    lemma_fold_pushed(es, e, s2, overrides::entry_fold(es, s1, value));
}

proof fn lemma_other_value(
    es: Seq<EntryView>,
    e: EntryView,
    other: Seq<char>,
    active: Seq<Seq<char>>,
)
    requires
        e.key.base != other,
    ensures
        overrides::resolved_value(es.push(e), other, active) == overrides::resolved_value(
            es,
            other,
            active,
        ),
{
    let whole = es.push(e);
    let n = es.len() as int;
    lemma_other_variant(es, e, other, active, n);
    assert(overrides::best_variant(whole, other, active, n + 1) == overrides::best_variant(
        whole,
        other,
        active,
        n,
    )) by {
        assert(whole[n] == e);
    }
    let s = Selector {
        base: other,
        overrides: Seq::empty(),
        operation: OverrideOperation::Plain,
        on_variant: false,
        key_expanded: None,
    };
    lemma_other_folds(es, e, s, Seq::empty());
    if let Some(found) = overrides::best_variant(es, other, active, n) {
        let v = Selector { overrides: found, on_variant: true, ..s };
        let value = overrides::entry_folds(es, v, Seq::empty());
        lemma_other_folds(es, e, v, Seq::empty());
        let va = Selector { operation: OverrideOperation::Append, ..v };
        let vp = Selector { operation: OverrideOperation::Prepend, ..v };
        let vr = Selector { operation: OverrideOperation::Remove, ..v };
        lemma_other_folds(es, e, va, value);
        let value = overrides::entry_folds(es, va, value);
        lemma_other_folds(es, e, vp, value);
        let value = overrides::entry_folds(es, vp, value);
        lemma_other_folds(es, e, vr, value);
    }
    let value = overrides::selected_value(es, other, active);
    assert(overrides::selected_value(whole, other, active) == value);
    let sa = Selector { operation: OverrideOperation::Append, ..s };
    let sp = Selector { operation: OverrideOperation::Prepend, ..s };
    let sr = Selector { operation: OverrideOperation::Remove, ..s };
    lemma_other_folds(es, e, sa, value);
    let value = overrides::entry_fold(es, sa, value);
    lemma_other_folds(es, e, sp, value);
    let value = overrides::entry_fold(es, sp, value);
    lemma_other_folds(es, e, sr, value);
}

proof fn lemma_other_variant(
    es: Seq<EntryView>,
    e: EntryView,
    other: Seq<char>,
    active: Seq<Seq<char>>,
    k: int,
)
    requires
        e.key.base != other,
        0 <= k <= es.len(),
    ensures
        overrides::best_variant(es.push(e), other, active, k) == overrides::best_variant(
            es,
            other,
            active,
            k,
        ),
    decreases k,
{
    if k > 0 {
        let whole = es.push(e);
        lemma_other_variant(es, e, other, active, k - 1);
        assert(whole[k - 1] == es[k - 1]);
        assert forall|o: Seq<Seq<char>>| #[trigger] overrides::variant_sequence(whole, other, o)
            == overrides::variant_sequence(es, other, o) by {
            assert(whole.drop_last() =~= es);
            assert(whole.last() == e);
        }
    }
}

/// Whether `word` stands in `active` at `p` and not before.
pub open spec fn first_index(active: Seq<Seq<char>>, word: Seq<char>, p: int) -> bool {
    0 <= p < active.len() && active[p] == word && forall|k: int|
        0 <= k < p ==> #[trigger] active[k] != word
}

proof fn lemma_position(active: Seq<Seq<char>>, word: Seq<char>, p: int, k: int)
    requires
        first_index(active, word, p),
        0 <= k <= p,
    ensures
        overrides::position_of(active, word, k) == p,
    decreases p - k,
{
    if k < p {
        lemma_position(active, word, p, k + 1);
    }
}

/// One override is less specific than another that is active later.
proof fn lemma_rank(active: Seq<Seq<char>>, w1: Seq<char>, p1: int, w2: Seq<char>, p2: int)
    requires
        first_index(active, w1, p1),
        first_index(active, w2, p2),
        p1 < p2,
    ensures
        overrides::rank_less(seq![w1], seq![w2], active),
        !overrides::rank_less(seq![w2], seq![w1], active),
{
    lemma_position(active, w1, p1, 0);
    lemma_position(active, w2, p2, 0);
    lemma_single_position(active, w1);
    lemma_single_position(active, w2);
    let (a, b) = (seq![p1], seq![p2]);
    assert(a[0] == p1 && b[0] == p2);
}

proof fn lemma_single_position(active: Seq<Seq<char>>, word: Seq<char>)
    ensures
        overrides::positions_of(seq![word], active) == seq![overrides::position_of(active, word, 0)],
{
    let one = seq![word];
    assert(one.drop_last() =~= Seq::empty());
    assert(one.last() == word);
    assert(overrides::positions_of(Seq::empty(), active) =~= Seq::empty());
    let p = overrides::position_of(active, word, 0);
    assert(Seq::<int>::empty().push(p) =~= seq![p]);
}

/// Of two active overrides of a variable the one that is active later wins,
/// whichever of the two lines stands first.
pub proof fn law_the_later_override_wins(
    lines: Seq<PlainLine>,
    earlier: PlainLine,
    later: PlainLine,
    name: Seq<char>,
    w1: Seq<char>,
    p1: int,
    w2: Seq<char>,
    p2: int,
    active: Seq<Seq<char>>,
)
    requires
        plain_lines(lines.push(earlier).push(later)),
        capital_name(name),
        name != "OVERRIDES"@,
        only_assigned(lines, name),
        small_word(w1),
        small_word(w2),
        keys::component_operation(w1) == OverrideOperation::Plain,
        keys::component_operation(w2) == OverrideOperation::Plain,
        earlier.left == with_word(name, w1),
        later.left == with_word(name, w2),
        first_index(active, w1, p1),
        first_index(active, w2, p2),
        p1 < p2,
    ensures
        lines_resolved(lines.push(earlier).push(later), active)[name] == later.value,
        lines_resolved(lines.push(later).push(earlier), active)[name] == later.value,
        lines_resolved(lines.push(earlier).push(later), active).dom().contains(name),
        lines_resolved(lines.push(later).push(earlier), active).dom().contains(name),
{
    let a = lines.push(earlier);
    let ab = a.push(later);
    let b = lines.push(later);
    let ba = b.push(earlier);
    assert forall|k: int| 0 <= k < ba.len() implies plain_line(#[trigger] ba[k]) by {
        assert(plain_line(ab[lines.len() as int]));
        assert(plain_line(ab[lines.len() as int + 1]));
        if k < lines.len() {
            assert(ba[k] == ab[k]);
        }
    }
    let n = lines.len() as int;
    lemma_entries_pushed(a, later, active);
    lemma_entries_pushed(lines, earlier, active);
    lemma_entries_pushed(b, earlier, active);
    lemma_entries_pushed(lines, later, active);
    lemma_line_entry(earlier, n, active, Map::empty());
    lemma_line_entry(earlier, n + 1, active, Map::empty());
    lemma_line_entry(later, n, active, Map::empty());
    lemma_line_entry(later, n + 1, active, Map::empty());
    assert(active.contains(w1) && active.contains(w2));
    let es = line_entries(lines, active);
    let e1 = line_entry(earlier, n, active)->0;
    let e2 = line_entry(later, n + 1, active)->0;
    let f2 = line_entry(later, n, active)->0;
    let f1 = line_entry(earlier, n + 1, active)->0;
    assert(line_entry(earlier, n, active) == word_entry(earlier, n, active, name, w1));
    assert(line_entry(earlier, n + 1, active) == word_entry(earlier, n + 1, active, name, w1));
    assert(line_entry(later, n, active) == word_entry(later, n, active, name, w2));
    assert(line_entry(later, n + 1, active) == word_entry(later, n + 1, active, name, w2));
    lemma_only_variables(lines, active, name);
    lemma_rank(active, w1, p1, w2, p2);
    lemma_line_value(ab, active, name);
    lemma_line_value(ba, active, name);
    let x = es.push(e1).push(e2);
    let y = es.push(f2).push(f1);
    let m = es.len() as int;
    assert(seq![w1][0] == w1 && seq![w2][0] == w2);
    assert(w1 != w2);
    assert forall|i: int| 0 <= i < m implies #[trigger] x[i] == es[i] by {}
    assert forall|i: int| 0 <= i < m implies #[trigger] y[i] == es[i] by {}
    assert(x[m] == e1 && x[m + 1] == e2 && y[m] == f2 && y[m + 1] == f1);
    assert(has_entry(x, name) && has_entry(y, name));
    assert forall|i: int| 0 <= i < es.len() implies !overrides::is_variant(#[trigger] es[i], name)
        by {}
    lemma_variants_before(es, x, name, active, m);
    lemma_variants_before(es, y, name, active, m);
    assert(overrides::best_variant(x, name, active, m + 1) == Some(seq![w1]));
    assert(overrides::best_variant(x, name, active, m + 2) == Some(seq![w2]));
    assert(overrides::best_variant(y, name, active, m + 1) == Some(seq![w2]));
    assert(overrides::best_variant(y, name, active, m + 2) == Some(seq![w2]));
    let es1 = es.push(e1);
    assert forall|i: int| 0 <= i < es1.len() && (#[trigger] es1[i]).key.base == name implies es1[i].key
        == variable_key(name) || (es1[i].key.operation == OverrideOperation::Plain
        && es1[i].key.overrides.len() > 0 && es1[i].key.overrides != seq![w2]) by {
        if i < m {
            assert(es1[i] == es[i]);
        }
    }
    lemma_variant_only(es1, e2, name, w2, active);
    lemma_variant_then(es, f2, f1, name, w2, active);
}

/// A further entry for another override does not change the preferred value.
proof fn lemma_variant_then(
    es: Seq<EntryView>,
    e: EntryView,
    last: EntryView,
    name: Seq<char>,
    word: Seq<char>,
    active: Seq<Seq<char>>,
)
    requires
        forall|i: int|
            0 <= i < es.len() && (#[trigger] es[i]).key.base == name ==> es[i].key == variable_key(
                name,
            ),
        e.key == (KeyView { overrides: seq![word], ..variable_key(name) }),
        last.key.operation == OverrideOperation::Plain,
        last.key.overrides.len() > 0,
        last.key.overrides != seq![word],
        overrides::best_variant(es.push(e).push(last), name, active, es.len() as int + 2) == Some(
            seq![word],
        ),
    ensures
        overrides::resolved_value(es.push(e).push(last), name, active) == e.value,
{
    let one = es.push(e);
    let whole = one.push(last);
    let s = Selector {
        base: name,
        overrides: seq![word],
        operation: OverrideOperation::Plain,
        on_variant: true,
        key_expanded: None,
    };
    let s1 = Selector { key_expanded: Some(false), ..s };
    let s2 = Selector { key_expanded: Some(true), ..s };
    assert forall|i: int| 0 <= i < es.len() implies !overrides::selects(s1, #[trigger] es[i])
        && !overrides::selects(s2, es[i]) by {}
    lemma_fold_unselected(es, s1, Seq::empty());
    lemma_fold_pushed(es, e, s1, Seq::empty());
    lemma_fold_pushed(one, last, s1, Seq::empty());
    let first = overrides::entry_fold(whole, s1, Seq::empty());
    assert(first =~= e.value);
    lemma_fold_unselected(es, s2, first);
    lemma_fold_pushed(es, e, s2, first);
    lemma_fold_pushed(one, last, s2, first);
    let value = e.value;
    assert forall|i: int| 0 <= i < whole.len() && (#[trigger] whole[i]).key.base == name implies whole[i].key.operation
        == OverrideOperation::Plain by {
        if i < es.len() {
            assert(whole[i] == es[i]);
        }
    }
    lemma_fold_no_operation(whole, Selector { operation: OverrideOperation::Append, ..s }, value);
    lemma_fold_no_operation(whole, Selector { operation: OverrideOperation::Prepend, ..s }, value);
    lemma_fold_no_operation(whole, Selector { operation: OverrideOperation::Remove, ..s }, value);
    let d = Selector {
        base: name,
        overrides: Seq::empty(),
        operation: OverrideOperation::Append,
        on_variant: false,
        key_expanded: None,
    };
    let p = Selector { operation: OverrideOperation::Prepend, ..d };
    let r = Selector { operation: OverrideOperation::Remove, ..d };
    assert forall|i: int| 0 <= i < whole.len() implies !overrides::selects(d, #[trigger] whole[i])
        && !overrides::selects(p, whole[i]) && !overrides::selects(r, whole[i]) by {}
    lemma_fold_unselected(whole, d, value);
    lemma_fold_unselected(whole, p, value);
    lemma_fold_unselected(whole, r, value);
}

/// What one more assignment to `OVERRIDES` does to the list of overrides, where
/// the lines only assign to it.
pub proof fn law_one_more_list_of_overrides(lines: Seq<PlainLine>, line: PlainLine)
    requires
        plain_lines(lines.push(line)),
        line.left == "OVERRIDES"@,
        only_assigned(lines, "OVERRIDES"@),
    ensures
        ({
            let before = overrides::override_list(line_raws(lines));
            let after = overrides::override_list(line_raws(lines.push(line)));
            let w = line.value;
            match line.operator {
                AssignmentOperator::Assign => after == w,
                AssignmentOperator::Immediate => after == w,
                AssignmentOperator::Default => after == (if before.len() == 0 {
                    w
                } else {
                    before
                }),
                AssignmentOperator::WeakDefault => after == (if before.len() == 0 {
                    w
                } else {
                    before
                }),
                AssignmentOperator::AppendWithSpace => {
                    &&& before.len() > 0 && w.len() > 0 ==> after == before + seq![' '] + w
                    &&& before.len() == 0 || w.len() == 0 ==> after == before + w
                },
                AssignmentOperator::PrependWithSpace => {
                    &&& before.len() > 0 && w.len() > 0 ==> after == w + seq![' '] + before
                    &&& before.len() == 0 || w.len() == 0 ==> after == w + before
                },
                AssignmentOperator::AppendWithoutSpace => after == before + w,
                AssignmentOperator::PrependWithoutSpace => after == w + before,
            }
        }),
{
    reveal_strlit("OVERRIDES");
    let name = "OVERRIDES"@;
    assert(capital_name(name));
    let all = lines.push(line);
    let raws = line_raws(lines);
    let more = line_raws(all);
    assert(more =~= raws.push(line_raw(line, lines.len() as int)));
    assert forall|k: int| 0 <= k < lines.len() implies plain_line(#[trigger] lines[k]) by {
        assert(all[k] == lines[k]);
    }
    assert(plain_line(all[lines.len() as int]));
    let k1 = overrides::environment(raws);
    let k2 = overrides::environment(more);
    law_a_name_is_its_own_key(name, Seq::empty(), Map::empty());
    law_a_quoted_text_is_its_value(line.value, k2);
    lemma_list_only(lines, k1, OverrideOperation::Append);
    lemma_list_only(lines, k1, OverrideOperation::Prepend);
    lemma_list_only(lines, k1, OverrideOperation::Remove);
    lemma_list_only(lines, k2, OverrideOperation::Append);
    lemma_list_only(lines, k2, OverrideOperation::Prepend);
    lemma_list_only(lines, k2, OverrideOperation::Remove);
    lemma_list_known(lines, k1, k2);
    assert(more.drop_last() =~= raws);
    assert(more.last() == line_raw(line, lines.len() as int));
    let before = overrides::list_fold(raws, k1, OverrideOperation::Plain, Seq::empty());
    let after = overrides::list_fold(more, k2, OverrideOperation::Plain, Seq::empty());
    assert(overrides::list_entry(more.last(), k2) == Some((OverrideOperation::Plain, line.value)));
    assert(after == overrides::assigned(before, line.operator, line.value));
    assert(overrides::list_fold(raws, k1, OverrideOperation::Append, before) == before);
    assert(overrides::list_fold(raws, k1, OverrideOperation::Prepend, before) == before);
    assert(overrides::list_fold(raws, k1, OverrideOperation::Remove, before) == before);
    assert(overrides::list_fold(raws, k2, OverrideOperation::Append, after) == after);
    assert(overrides::list_fold(raws, k2, OverrideOperation::Prepend, after) == after);
    assert(overrides::list_fold(raws, k2, OverrideOperation::Remove, after) == after);
    assert(overrides::list_fold(more, k2, OverrideOperation::Append, after) == after);
    assert(overrides::list_fold(more, k2, OverrideOperation::Prepend, after) == after);
    assert(overrides::list_fold(more, k2, OverrideOperation::Remove, after) == after);
    assert(overrides::override_list(raws) == before);
    assert(overrides::override_list(more) == after);
}

/// The list does not depend on other variables.
proof fn lemma_list_known(
    lines: Seq<PlainLine>,
    k1: Map<Seq<char>, Seq<char>>,
    k2: Map<Seq<char>, Seq<char>>,
)
    requires
        plain_lines(lines),
    ensures
        overrides::list_fold(line_raws(lines), k1, OverrideOperation::Plain, Seq::empty())
            == overrides::list_fold(line_raws(lines), k2, OverrideOperation::Plain, Seq::empty()),
    decreases lines.len(),
{
    if lines.len() > 0 {
        let front = lines.drop_last();
        assert forall|k: int| 0 <= k < front.len() implies plain_line(#[trigger] front[k]) by {
            assert(front[k] == lines[k]);
        }
        lemma_list_known(front, k1, k2);
        let raws = line_raws(lines);
        assert(raws.drop_last() =~= line_raws(front));
        assert(plain_line(lines[lines.len() - 1]));
        law_a_quoted_text_is_its_value(lines.last().value, k1);
        law_a_quoted_text_is_its_value(lines.last().value, k2);
        assert(raws.last() == line_raw(lines.last(), lines.len() - 1));
    }
}

/// Lines that only assign to `OVERRIDES` append, prepend and remove nothing.
proof fn lemma_list_only(
    lines: Seq<PlainLine>,
    known: Map<Seq<char>, Seq<char>>,
    operation: OverrideOperation,
)
    requires
        plain_lines(lines),
        only_assigned(lines, "OVERRIDES"@),
        operation != OverrideOperation::Plain,
    ensures
        forall|value: Seq<char>| #[trigger] overrides::list_fold(
            line_raws(lines),
            known,
            operation,
            value,
        ) == value,
    decreases lines.len(),
{
    reveal_strlit("OVERRIDES");
    let name = "OVERRIDES"@;
    assert(capital_name(name));
    let raws = line_raws(lines);
    if lines.len() > 0 {
        let front = lines.drop_last();
        let n = lines.len() - 1;
        assert forall|k: int| 0 <= k < front.len() implies plain_line(#[trigger] front[k]) by {
            assert(front[k] == lines[k]);
        }
        assert forall|word: Seq<char>| small_word(word) implies !(#[trigger] has_word_line(
            front,
            name,
            word,
        )) by {
            if has_word_line(front, name, word) {
                let k = choose|k: int|
                    0 <= k < front.len() && (#[trigger] front[k]).left == with_word(name, word);
                assert(lines[k].left == with_word(name, word));
                assert(has_word_line(lines, name, word));
            }
        }
        lemma_list_only(front, known, operation);
        assert(raws.drop_last() =~= line_raws(front));
        assert(raws.last() == line_raw(lines[n], n));
        assert(plain_line(lines[n]));
        let left = lines[n].left;
        assert(!(overrides::list_entry(raws.last(), known) matches Some((o, _)) && o == operation)) by {
            if capital_name(left) {
                law_a_name_is_its_own_key(left, Seq::empty(), Map::empty());
            } else {
                let (m, word) = choose|m: Seq<char>, word: Seq<char>|
                    capital_name(m) && small_word(word) && left == #[trigger] with_word(m, word);
                law_a_word_behind_a_colon(m, word, Seq::empty(), Map::empty());
                if m == name {
                    assert(has_word_line(lines, name, word));
                }
            }
        }
        assert forall|value: Seq<char>| #[trigger] overrides::list_fold(
            raws,
            known,
            operation,
            value,
        ) == value by {
            assert(overrides::list_fold(line_raws(front), known, operation, value) == value);
        }
    } else {
        assert(raws.len() == 0);
    }
}

// ---------------------------------------------------------------------------
// Statements
// ---------------------------------------------------------------------------
pub open spec fn readable_lines(lines: Seq<PlainLine>) -> bool {
    forall|k: int| 0 <= k < lines.len() ==> readable_line(#[trigger] lines[k])
}

/// Where line `k` starts.
pub open spec fn line_offset(lines: Seq<PlainLine>, k: int) -> int {
    lines_text(lines.take(k)).len() as int
}

/// The statement that line `k` is.
pub open spec fn line_statement(lines: Seq<PlainLine>, k: int) -> StatementView {
    let at = line_offset(lines, k);
    let line = lines[k];
    let op = operator::operator_chars(line.operator);
    StatementView::Assignment(
        AssignmentView {
            name: line.left,
            name_at: at,
            operator: line.operator,
            operator_at: at + line.left.len() + 1,
            value: seq![' ', '"'] + line.value + seq!['"'],
            value_at: at + line.left.len() + 1 + op.len(),
        },
    )
}

/// The first lines are the beginning of the text.
proof fn lemma_lines_prefix(lines: Seq<PlainLine>, k: int)
    requires
        0 <= k <= lines.len(),
    ensures
        line_offset(lines, k) <= lines_text(lines).len(),
        lines_text(lines).take(line_offset(lines, k)) == lines_text(lines.take(k)),
    decreases lines.len(),
{
    if k == lines.len() {
        assert(lines.take(k) =~= lines);
        let t = lines_text(lines);
        assert(t.take(t.len() as int) =~= t);
    } else {
        let front = lines.drop_last();
        lemma_lines_prefix(front, k);
        assert(front.take(k) =~= lines.take(k));
        let n = line_offset(lines, k);
        assert(lines_text(lines).take(n) =~= lines_text(front).take(n));
    }
}

proof fn lemma_lines_nodes(lines: Seq<PlainLine>)
    requires
        readable_lines(lines),
    ensures
        syntax::nodes_of(lines_text(lines)) is Ok,
        syntax::nodes_of(lines_text(lines))->Ok_0.len() == lines.len(),
        lines_text(lines).len() == 0 || lines_text(lines).last() == '\n',
        forall|k: int|
            0 <= k < lines.len() ==> (#[trigger] syntax::nodes_of(lines_text(lines))->Ok_0[k])
                == (NodeView {
                start: line_offset(lines, k),
                end: line_offset(lines, k) + line_text(lines[k]).len(),
                kind: NodeKind::Assignment(line_parts(lines[k])),
            }),
    decreases lines.len(),
{
    if lines.len() > 0 {
        let front = lines.drop_last();
        assert forall|k: int| 0 <= k < front.len() implies readable_line(#[trigger] front[k]) by {
            assert(front[k] == lines[k]);
        }
        lemma_lines_nodes(front);
        let n = front.len() as int;
        assert(readable_line(lines[n]));
        lemma_line_appended(lines_text(front), 0, lines[n]);
        lemma_line_node(lines[n]);
        assert(lines.take(n) =~= front);
        assert forall|k: int| 0 <= k < lines.len() implies (#[trigger] syntax::nodes_of(
            lines_text(lines),
        )->Ok_0[k]) == (NodeView {
            start: line_offset(lines, k),
            end: line_offset(lines, k) + line_text(lines[k]).len(),
            kind: NodeKind::Assignment(line_parts(lines[k])),
        }) by {
            if k < n {
                assert(front.take(k) =~= lines.take(k));
                assert(front[k] == lines[k]);
                assert(syntax::nodes_of(lines_text(lines))->Ok_0[k] == syntax::nodes_of(
                    lines_text(front),
                )->Ok_0[k]);
            }
        }
        assert(lines_text(lines).last() == line_text(lines[n]).last());
    }
}

/// A text of lines has one statement for each line: the assignment of its quoted
/// value to its variable with its operator, and each part stands where the line
/// has it.
pub proof fn law_lines_are_statements(lines: Seq<PlainLine>, k: int)
    requires
        readable_lines(lines),
        0 <= k < lines.len(),
    ensures
        statements::statements_of(lines_text(lines)).len() == lines.len(),
        statements::statements_of(lines_text(lines))[k] == line_statement(lines, k),
{
    lemma_lines_nodes(lines);
    let source = lines_text(lines);
    let node = syntax::nodes_of(source)->Ok_0[k];
    let at = line_offset(lines, k);
    let line = lines[k];
    let a = line_parts(line);
    let piece = line_text(line);
    lemma_lines_prefix(lines, k + 1);
    let upto = lines_text(lines.take(k + 1));
    assert(lines.take(k + 1).drop_last() =~= lines.take(k));
    assert(lines.take(k + 1).last() == line);
    assert(upto == lines_text(lines.take(k)) + piece);
    assert forall|i: int| 0 <= i < piece.len() implies #[trigger] piece[i] == source[at + i] by {
        assert(source.take(upto.len() as int)[at + i] == upto[at + i]);
    }
    let op = operator::operator_chars(line.operator);
    assert(source.subrange(at, at + line.left.len()) =~= line.left) by {
        assert forall|i: int| 0 <= i < line.left.len() implies source[at + i] == #[trigger] line.left[i] by {
            assert(piece[i] == line.left[i]);
        }
    }
    let s = syntax::value_start(a);
    assert(piece.subrange(s, a.value_end) =~= seq![' ', '"'] + line.value + seq!['"']);
    assert(source.subrange(at + s, at + a.value_end) =~= piece.subrange(s, a.value_end));
}

/// The value of a line is one quoted text.
pub proof fn law_a_quoted_text_is_read(value: Seq<char>)
    requires
        forall|k: int| 0 <= k < value.len() ==> (#[trigger] value[k]) != '"' && value[k] != '\\',
    ensures
        values::quoted_text(seq![' ', '"'] + value + seq!['"']) == Some(value),
        values::simple_quoted(seq![' ', '"'] + value + seq!['"']) == Some(
            (2int, value.len() as int + 2),
        ),
{
    let t = seq![' ', '"'] + value + seq!['"'];
    let n = t.len() as int;
    assert(t[0] == ' ' && t[1] == '"' && t[n - 1] == '"');
    text::lemma_lead_unique(t, CharClass::Indent, 0, 1);
    assert forall|k: int| 2 <= k < n - 1 implies (#[trigger] t[k]) != '"' && t[k] != '\\' by {
        assert(t[k] == value[k - 2]);
    }
    lemma_closing(t, 2, n - 1);
    let rest = t.skip(n);
    assert(rest =~= Seq::empty());
    assert(text::trimmed(rest, CharClass::Whitespace).len() == 0);
    assert(t.subrange(2, n - 1) =~= value);
}

proof fn lemma_closing(t: Seq<char>, i: int, e: int)
    requires
        0 <= i <= e < t.len(),
        t[e] == '"',
        forall|k: int| i <= k < e ==> (#[trigger] t[k]) != '"' && t[k] != '\\',
    ensures
        values::close_from(t, i, '"', false) == e,
    decreases e - i,
{
    if i < e {
        lemma_closing(t, i + 1, e);
    }
}

/// The words of a quoted value without references and braces are all the words
/// of its text, each where it stands.
pub proof fn law_words_of_a_value(a: AssignmentView, value: Seq<char>, i: int)
    requires
        a.value == seq![' ', '"'] + value + seq!['"'],
        forall|k: int|
            0 <= k < value.len() ==> (#[trigger] value[k]) != '"' && value[k] != '\\' && value[k]
                != '$' && value[k] != '{' && value[k] != '}',
        0 <= i < text::words_of(value, CharClass::Whitespace).len(),
    ensures
        checks::assigned_words(a).len() == text::words_of(value, CharClass::Whitespace).len(),
        checks::assigned_words(a)[i] == ({
            let w = text::words_of(value, CharClass::Whitespace)[i];
            (a.value_at + 2 + w.0, value.subrange(w.0, w.1))
        }),
{
    law_a_quoted_text_is_read(value);
    let t = a.value.subrange(2, value.len() as int + 2);
    assert(t =~= value);
    let words = text::words_of(value, CharClass::Whitespace);
    assert forall|k: int| 0 <= k < words.len() implies 0 <= (#[trigger] words[k]).0 < words[k].1
        <= value.len() by {
        text::law_words_are_maximal_runs(value, CharClass::Whitespace, 0, k);
    }
    lemma_static_words(value, words, 0);
    assert(words.skip(0) =~= words);
}

proof fn lemma_static_words(value: Seq<char>, words: Seq<(int, int)>, k: int)
    requires
        0 <= k <= words.len(),
        forall|i: int|
            0 <= i < value.len() ==> (#[trigger] value[i]) != '\\' && value[i] != '$' && value[i]
                != '{' && value[i] != '}',
        forall|i: int| 0 <= i < words.len() ==> 0 <= (#[trigger] words[i]).0 < words[i].1 <= value.len(),
    ensures
        values::static_from(value, words, k, true, false) == words.skip(k),
    decreases words.len() - k,
{
    if k < words.len() {
        lemma_static_words(value, words, k + 1);
        let word = value.subrange(words[k].0, words[k].1);
        assert forall|c: char| #[trigger] word.contains(c) implies c != '$' && c != '{' && c != '}'
            && c != '\\' by {
            let i = choose|i: int| 0 <= i < word.len() && word[i] == c;
            assert(value[words[k].0 + i] == c);
        }
        assert(word != seq!['\\']) by {
            if word == seq!['\\'] {
                assert(word[0] == '\\');
                assert(word.contains('\\'));
            }
        }
        assert(words.skip(k) =~= seq![words[k]] + words.skip(k + 1));
    } else {
        assert(words.skip(k) =~= Seq::empty());
    }
}

/// The items from `k` on, each on a line of its own.
pub open spec fn item_lines(items: Seq<Seq<char>>, k: int) -> Seq<char>
    decreases items.len() - k,
{
    if k < 0 || k >= items.len() {
        Seq::empty()
    } else {
        seq![' ', ' ', ' ', ' '] + items[k] + seq![' ', '\\', '\n'] + item_lines(items, k + 1)
    }
}

proof fn lemma_item_lines_push(items: Seq<Seq<char>>, x: Seq<char>, k: int)
    requires
        0 <= k <= items.len(),
    ensures
        item_lines(items.push(x), k) == item_lines(items, k) + seq![' ', ' ', ' ', ' '] + x + seq![
            ' ',
            '\\',
            '\n',
        ],
    decreases items.len() - k,
{
    let more = items.push(x);
    if k < items.len() {
        lemma_item_lines_push(items, x, k + 1);
        assert(more[k] == items[k]);
        assert(item_lines(more, k) =~= item_lines(items, k) + seq![' ', ' ', ' ', ' '] + x + seq![
            ' ',
            '\\',
            '\n',
        ]);
    } else {
        assert(more[k] == x);
        assert(item_lines(more, k + 1) =~= Seq::empty());
        assert(item_lines(more, k) =~= item_lines(items, k) + seq![' ', ' ', ' ', ' '] + x + seq![
            ' ',
            '\\',
            '\n',
        ]);
    }
}

proof fn lemma_item_lines(items: Seq<Seq<char>>)
    ensures
        formatter::items_output(items, seq!['\n']) == item_lines(items, 0),
    decreases items.len(),
{
    if items.len() > 0 {
        let front = items.drop_last();
        lemma_item_lines(front);
        lemma_item_lines_push(front, items.last(), 0);
        assert(front.push(items.last()) =~= items);
        assert(formatter::items_output(items, seq!['\n']) =~= item_lines(front, 0) + seq![
            ' ',
            ' ',
            ' ',
            ' ',
        ] + items.last() + seq![' ', '\\', '\n']);
    } else {
        assert(item_lines(items, 0) =~= Seq::empty());
    }
}

/// Whether a name is `base`, or `base` with overrides.
pub open spec fn scoped_name(left: Seq<char>, base: Seq<char>) -> bool {
    left == base || (base.len() < left.len() && left.take(base.len() as int) == base
        && left[base.len() as int] == ':')
}

proof fn lemma_scoped_name(left: Seq<char>, base: Seq<char>)
    requires
        scoped_name(left, base),
        !base.contains(':'),
    ensures
        left.take(text::find_from(left, ':', 0)) == base,
{
    let n = base.len() as int;
    assert forall|k: int| 0 <= k < n implies #[trigger] left[k] != ':' by {
        if left != base {
            assert(left.take(n)[k] == left[k]);
        }
        assert(base.contains(base[k]));
    }
    text::lemma_find_unique(left, ':', 0, n);
    assert(left.take(n) =~= base);
}

proof fn lemma_known_list(left: Seq<char>)
    requires
        scoped_name(left, "DEPENDS"@) || scoped_name(left, "RDEPENDS"@),
    ensures
        formatter::known_list(left),
{
    reveal_strlit("DEPENDS");
    reveal_strlit("RDEPENDS");
    assert(!"DEPENDS"@.contains(':'));
    assert(!"RDEPENDS"@.contains(':'));
    if scoped_name(left, "DEPENDS"@) {
        lemma_scoped_name(left, "DEPENDS"@);
    } else {
        lemma_scoped_name(left, "RDEPENDS"@);
    }
}

/// Whether every character of a value is a space, a tab, or one that a list may
/// be split at: no other white space, and none of `$`, `{`, `}`, a backslash and the
/// quote.
pub open spec fn splits_into_items(value: Seq<char>) -> bool {
    forall|k: int|
        0 <= k < value.len() ==> text::is_indent(#[trigger] value[k]) || (!text::is_ws(value[k])
            && value[k] != '$' && value[k] != '{' && value[k] != '}' && value[k] != '\\' && value[k]
            != '"')
}

proof fn lemma_items_static(value: Seq<char>, k: int)
    requires
        splits_into_items(value),
        0 <= k < text::word_texts(value, CharClass::Indent).len(),
    ensures
        formatter::static_item(text::word_texts(value, CharClass::Indent)[k], '"'),
{
    text::law_words_are_maximal_runs(value, CharClass::Indent, 0, k);
    let w = text::words_of(value, CharClass::Indent)[k];
    let word = value.subrange(w.0, w.1);
    assert forall|j: int| 0 <= j < word.len() implies formatter::static_char(
        #[trigger] word[j],
        '"',
    ) by {
        assert(word[j] == value[w.0 + j]);
    }
}

proof fn lemma_closing_quote(t: Seq<char>, i: int)
    requires
        1 <= i < t.len(),
        t.last() == '"',
        forall|k: int| i <= k < t.len() - 1 ==> (#[trigger] t[k]) != '"' && t[k] != '\\',
    ensures
        formatter::closing_quote(t, i, '"', false) == Some(t.len() - 1),
    decreases t.len() - i,
{
    if i < t.len() - 1 {
        lemma_closing_quote(t, i + 1);
    } else {
        let rest = t.skip(i + 1);
        assert(rest.len() == 0);
        text::lemma_lead_unique(rest, CharClass::Indent, 0, 0);
        assert(formatter::comment_or_blank(rest));
    }
}

proof fn lemma_line_list(line: PlainLine)
    requires
        readable_line(line),
        scoped_name(line.left, "DEPENDS"@) || scoped_name(line.left, "RDEPENDS"@),
        splits_into_items(line.value),
        text::word_texts(line.value, CharClass::Indent).len() >= 2,
    ensures
        formatter::static_list(line_text(line), line_parts(line)) == Some(
            (ListView {
                quote: '"',
                items: text::word_texts(line.value, CharClass::Indent),
                closing_tail: Seq::empty(),
                ending: seq!['\n'],
            }),
        ),
{
    let none = Seq::<char>::empty();
    let source = line_text(line);
    let a = line_parts(line);
    let words = text::word_texts(line.value, CharClass::Indent);
    let quoted = seq!['"'] + line.value + seq!['"'];
    let spaced = seq![' '] + quoted;
    assert(syntax::value_of(source, a) =~= spaced);
    text::lemma_lead_unique(spaced, CharClass::Indent, 0, 1);
    assert(spaced.skip(1) =~= quoted);
    assert(formatter::value_body(source, a) == quoted);
    assert forall|k: int| 1 <= k < quoted.len() - 1 implies (#[trigger] quoted[k]) != '"'
        && quoted[k] != '\\' by {
        assert(quoted[k] == line.value[k - 1]);
    }
    lemma_closing_quote(quoted, 1);
    assert(quoted.subrange(1, quoted.len() - 1) =~= line.value);
    assert(quoted.skip(quoted.len() as int) =~= none);
    assert(source.subrange(0, a.name_end) =~= line.left);
    lemma_known_list(line.left);
    lemma_one_line(line);
    assert forall|k: int| 0 <= k < words.len() implies formatter::static_item(
        #[trigger] words[k],
        '"',
    ) by {
        lemma_items_static(line.value, k);
    }
    reveal(formatter::static_list);
}

proof fn lemma_single_node(line: PlainLine, options: FormatOptions)
    requires
        readable_line(line),
    ensures
        formatter::formatted(line_text(line), options) == formatter::node_output(
            Seq::empty(),
            line_text(line),
            NodeKind::Assignment(line_parts(line)),
            options,
        ),
        formatter::left_of(line_text(line), line_parts(line)) == line.left,
{
    let none = Seq::<char>::empty();
    let source = line_text(line);
    let a = line_parts(line);
    let n = source.len() as int;
    assert(syntax::nodes_from(none, 0) is Ok);
    lemma_line_appended(none, 0, line);
    assert(none + source =~= source);
    let node = NodeView { start: 0, end: n, kind: NodeKind::Assignment(a) };
    let nodes = syntax::nodes_of(source)->Ok_0;
    assert(nodes =~= seq![node]);
    assert(source.subrange(0, n) =~= source);
    let front = formatter::nodes_output(source, nodes.drop_last(), options);
    assert(nodes.drop_last().len() == 0);
    assert(front =~= none);
    assert(nodes.last() == node);
    let out = formatter::node_output(none, source, node.kind, options);
    assert(none + out =~= out);
    let left = source.take(a.operator_at);
    assert(left =~= line.left + seq![' ']);
    let m = line.left.len() as int;
    lemma_left_ends(line);
    text::lemma_tail_unique(left, CharClass::Whitespace, m, m + 1);
    assert(left.take(m) =~= line.left);
}

/// A line that gives a list of two or more items to `DEPENDS` or `RDEPENDS`, with
/// overrides or without, is written with each item on a line of its own, the quotes
/// on the first and on the last line, where that layout is asked for.
pub proof fn law_lists_are_laid_out(line: PlainLine, options: FormatOptions)
    requires
        readable_line(line),
        scoped_name(line.left, "DEPENDS"@) || scoped_name(line.left, "RDEPENDS"@),
        splits_into_items(line.value),
        text::word_texts(line.value, CharClass::Indent).len() >= 2,
        options.metadata_list_layout == MetadataListLayout::OnePerLine,
    ensures
        formatter::formatted(line_text(line), options) == line.left + seq![' ']
            + operator::operator_chars(line.operator) + seq![' ', '"', ' ', '\\', '\n']
            + item_lines(text::word_texts(line.value, CharClass::Indent), 0) + seq![
            ' ',
            ' ',
            ' ',
            ' ',
            '"',
            '\n',
        ],
{
    lemma_line_list(line);
    lemma_single_node(line, options);
    lemma_one_line(line);
    let words = text::word_texts(line.value, CharClass::Indent);
    lemma_item_lines(words);
    let op = operator::operator_chars(line.operator);
    let list = formatter::static_list(line_text(line), line_parts(line))->0;
    assert(formatter::list_output(line_text(line), line_parts(line), list) =~= line.left + seq![' ']
        + op + seq![' ', '"', ' ', '\\', '\n'] + item_lines(words, 0) + seq![
        ' ',
        ' ',
        ' ',
        ' ',
        '"',
        '\n',
    ]);
}

proof fn lemma_left_ends(line: PlainLine)
    requires
        readable_line(line),
    ensures
        line.left.len() > 0,
        forall|k: int|
            0 <= k < line.left.len() ==> !text::is_ws(#[trigger] line.left[k]) && line.left[k]
                != '\n',
{
}

proof fn lemma_one_line(line: PlainLine)
    requires
        readable_line(line),
    ensures
        formatter::common_ending(line_text(line), 0, None) == Some(seq!['\n']),
        text::line_ending(line_text(line)) == seq!['\n'],
{
    let t = line_text(line);
    let n = t.len() as int;
    let op = operator::operator_chars(line.operator);
    let l = line.left.len() as int;
    lemma_left_ends(line);
    assert forall|k: int| 0 <= k < n - 1 implies #[trigger] t[k] != '\n' by {
        if k < l {
            assert(t[k] == line.left[k]);
        } else if k > l && k < l + 1 + op.len() {
            assert(t[k] == op[k - l - 1]);
            idempotence::lemma_operator_chars(line.operator);
        } else if k >= l + 3 + op.len() && k < n - 2 {
            assert(t[k] == line.value[k - l - 3 - op.len()]);
        }
    }
    text::lemma_line_end_unique(t, 0, n);
    assert(t[n - 2] == '"');
    assert(text::line_ending(t) =~= seq!['\n']);
    assert(t.subrange(0, n) =~= t);
    assert(formatter::common_ending(t, n, Some(seq!['\n'])) == Some(seq!['\n']));
}

} // verus!
