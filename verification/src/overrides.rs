//! Static resolution of variables under override semantics.
use crate::collections;
use crate::keys;
use crate::operator;
use crate::scanner;
use crate::syntax;
use crate::text;
use crate::collections::TextMap;
use crate::collections::has_text;
use crate::collections::join;
use crate::collections::push_distinct;
use crate::collections::same_texts;
use crate::keys::KeyView;
use crate::keys::OverrideKey;
use crate::keys::OverrideOperation;
use crate::keys::contains_reference;
use crate::keys::expand_references;
use crate::keys::parse_key;
use crate::operator::AssignmentOperator;
use crate::operator::is_pair_at;
use crate::syntax::NodeKind;
use crate::syntax::NodeView;
use crate::text::CharClass;
use crate::text::append_chars;
use crate::text::chars_of;
use crate::text::is_whitespace;
use crate::text::same_chars;
use crate::text::same_str;
use crate::text::split_words;
use crate::text::string_of;
use crate::text::trim;
use crate::text::until_index;
use crate::tree::SyntaxKind;
use crate::tree::SyntaxTree;
use vstd::prelude::*;
use vstd::slice::slice_subrange;

verus! {

// ---------------------------------------------------------------------------
// Values
// ---------------------------------------------------------------------------
/// `t` from `i` on with each backslash and line feed replaced by a space.
pub open spec fn joined_lines(t: Seq<char>, i: int) -> Seq<char>
    decreases t.len() - i,
{
    if i < 0 || i >= t.len() {
        Seq::empty()
    } else if operator::pair_at(t, i, '\\', '\n') {
        seq![' '] + joined_lines(t, i + 2)
    } else {
        seq![t[i]] + joined_lines(t, i + 1)
    }
}

/// What a value says without its quotes; `None` where they do not match.
pub open spec fn unquoted(raw: Seq<char>) -> Option<Seq<char>> {
    let value = text::trimmed(raw, CharClass::Whitespace);
    if value.len() > 0 && scanner::is_quote(value[0]) {
        if value.len() < 2 || value.last() != value[0] {
            None
        } else {
            Some(value.subrange(1, value.len() - 1))
        }
    } else {
        Some(value)
    }
}

/// The text of a value whose references are all known.
pub open spec fn static_text(raw: Seq<char>, values: Map<Seq<char>, Seq<char>>) -> Option<
    Seq<char>,
> {
    match unquoted(raw) {
        None => None,
        Some(value) => {
            let (text, dynamic) = keys::expanded(value, values);
            if dynamic {
                None
            } else {
                Some(joined_lines(text, 0))
            }
        },
    }
}

/// The text of a value whose references are all known.
fn static_value(raw: &str, values: &TextMap) -> (r: Option<Vec<char>>)
    requires
        values.wf(),
    ensures
        match r {
            Some(text) => static_text(raw@, values.map()) == Some(text@),
            None => static_text(raw@, values.map()) is None,
        },
{
    let chars = chars_of(raw);
    let whole = trim(chars.as_slice(), CharClass::Whitespace);
    let value = if whole.len() > 0 && (whole[0] == '\'' || whole[0] == '"') {
        if whole.len() < 2 || whole[whole.len() - 1] != whole[0] {
            return None;
        }
        slice_subrange(whole, 1, whole.len() - 1)
    } else {
        whole
    };
    let (text, dynamic) = expand_references(value, values);
    if dynamic {
        return None;
    }
    let mut out: Vec<char> = Vec::new();
    let mut i: usize = 0;
    assert(out@ + joined_lines(text@, 0) =~= joined_lines(text@, 0));
    while i < text.len()
        invariant
            i <= text@.len(),
            out@ + joined_lines(text@, i as int) == joined_lines(text@, 0),
        decreases text@.len() - i,
    {
        let ghost before = out@;
        if is_pair_at(text.as_slice(), i, '\\', '\n') {
            out.push(' ');
            i += 2;
            assert(out@ + joined_lines(text@, i as int) =~= before + (seq![' '] + joined_lines(
                text@,
                i as int,
            )));
        } else {
            out.push(text[i]);
            i += 1;
            assert(out@ + joined_lines(text@, i as int) =~= before + (seq![text@[i - 1]]
                + joined_lines(text@, i as int)));
        }
    }
    assert(out@ + Seq::empty() =~= out@);
    Some(out)
}

/// The value of a variable after an assignment.
pub open spec fn assigned(
    value: Seq<char>,
    operator: AssignmentOperator,
    addition: Seq<char>,
) -> Seq<char> {
    let space = if value.len() > 0 && addition.len() > 0 {
        seq![' ']
    } else {
        Seq::<char>::empty()
    };
    match operator {
        AssignmentOperator::Assign => addition,
        AssignmentOperator::Immediate => addition,
        AssignmentOperator::Default => if value.len() == 0 {
            addition
        } else {
            value
        },
        AssignmentOperator::WeakDefault => if value.len() == 0 {
            addition
        } else {
            value
        },
        AssignmentOperator::AppendWithSpace => value + space + addition,
        AssignmentOperator::PrependWithSpace => addition + space + value,
        AssignmentOperator::AppendWithoutSpace => value + addition,
        AssignmentOperator::PrependWithoutSpace => addition + value,
    }
}

/// `a`, then `b`.
fn concat(a: &[char], b: &[char]) -> (r: Vec<char>)
    ensures
        r@ == a@ + b@,
{
    let mut out: Vec<char> = Vec::new();
    append_chars(&mut out, a);
    append_chars(&mut out, b);
    assert(out@ =~= a@ + b@);
    out
}

/// The value of a variable after an assignment.
fn apply_assignment_operator(
    value: &[char],
    operator: AssignmentOperator,
    addition: &[char],
) -> (r: Vec<char>)
    ensures
        r@ == assigned(value@, operator, addition@),
{
    let mut out: Vec<char> = Vec::new();
    let spaced = value.len() > 0 && addition.len() > 0;
    match operator {
        AssignmentOperator::Assign | AssignmentOperator::Immediate => {
            append_chars(&mut out, addition);
        },
        AssignmentOperator::Default | AssignmentOperator::WeakDefault => {
            if value.len() == 0 {
                append_chars(&mut out, addition);
            } else {
                append_chars(&mut out, value);
            }
        },
        AssignmentOperator::AppendWithSpace => {
            append_chars(&mut out, value);
            if spaced {
                out.push(' ');
            }
            append_chars(&mut out, addition);
        },
        AssignmentOperator::PrependWithSpace => {
            append_chars(&mut out, addition);
            if spaced {
                out.push(' ');
            }
            append_chars(&mut out, value);
        },
        AssignmentOperator::AppendWithoutSpace => {
            append_chars(&mut out, value);
            append_chars(&mut out, addition);
        },
        AssignmentOperator::PrependWithoutSpace => {
            append_chars(&mut out, addition);
            append_chars(&mut out, value);
        },
    }
    assert(out@ =~= assigned(value@, operator, addition@));
    out
}

/// `value` from `i` on without the words in `words`; white space stays.
pub open spec fn removed_from(value: Seq<char>, i: int, words: Seq<Seq<char>>) -> Seq<char>
    decreases value.len() - i,
{
    if i < 0 || i >= value.len() {
        Seq::empty()
    } else if text::is_ws(value[i]) {
        seq![value[i]] + removed_from(value, i + 1, words)
    } else {
        let e = text::until_from(value, CharClass::Whitespace, i);
        if i < e <= value.len() {
            (if words.contains(value.subrange(i, e)) {
                Seq::empty()
            } else {
                value.subrange(i, e)
            }) + removed_from(value, e, words)
        } else {
            Seq::empty()
        }
    }
}

/// `value` without the words of `removal`.
pub open spec fn removed(value: Seq<char>, removal: Seq<char>) -> Seq<char> {
    removed_from(value, 0, text::word_texts(removal, CharClass::Ascii))
}

/// `value` without the words of `removal`.
fn remove_override_tokens(value: &[char], removal: &[char]) -> (r: Vec<char>)
    ensures
        r@ == removed(value@, removal@),
{
    let ranges = split_words(removal, CharClass::Ascii);
    let ghost words = text::word_texts(removal@, CharClass::Ascii);
    let mut out: Vec<char> = Vec::new();
    let mut i: usize = 0;
    assert(out@ + removed_from(value@, 0, words) =~= removed_from(value@, 0, words));
    while i < value.len()
        invariant
            i <= value@.len(),
            words == text::word_texts(removal@, CharClass::Ascii),
            text::ranges_match(ranges@, text::words_of(removal@, CharClass::Ascii)),
            text::ranges_inside(ranges@, removal@.len() as int),
            out@ + removed_from(value@, i as int, words) == removed(value@, removal@),
        decreases value@.len() - i,
    {
        let ghost before = out@;
        if is_whitespace(value[i]) {
            out.push(value[i]);
            i += 1;
            assert(out@ + removed_from(value@, i as int, words) =~= before + (seq![value@[i - 1]]
                + removed_from(value@, i as int, words)));
        } else {
            let e = until_index(value, CharClass::Whitespace, i);
            let token = slice_subrange(value, i, e);
            let mut drop = false;
            let mut k: usize = 0;
            while k < ranges.len() && !drop
                invariant
                    k <= ranges@.len(),
                    words == text::word_texts(removal@, CharClass::Ascii),
                    text::ranges_match(ranges@, text::words_of(removal@, CharClass::Ascii)),
                    text::ranges_inside(ranges@, removal@.len() as int),
                    drop ==> words.contains(token@),
                    !drop ==> forall|j: int| 0 <= j < k ==> #[trigger] words[j] != token@,
                decreases ranges@.len() - k + (if drop {
                    0int
                } else {
                    1int
                }),
            {
                let (a, b) = ranges[k];
                let word = slice_subrange(removal, a, b);
                assert(words[k as int] == word@);
                if same_chars(word, token) {
                    drop = true;
                }
                k += 1;
            }
            proof {
                if !drop && words.contains(token@) {
                    let j = choose|j: int| 0 <= j < words.len() && words[j] == token@;
                    assert(words[j] == token@);
                }
            }
            let ghost rest = removed_from(value@, e as int, words);
            if !drop {
                append_chars(&mut out, token);
                assert(out@ + rest =~= before + (token@ + rest));
            } else {
                assert(Seq::<char>::empty() + rest =~= rest);
            }
            i = e;
        }
    }
    assert(out@ + Seq::empty() =~= out@);
    out
}

/// The value of a variable after an override operation.
pub open spec fn operated(
    value: Seq<char>,
    operation: OverrideOperation,
    text: Seq<char>,
) -> Seq<char> {
    match operation {
        OverrideOperation::Append => value + text,
        OverrideOperation::Prepend => text + value,
        OverrideOperation::Remove => removed(value, text),
        OverrideOperation::Plain => value,
    }
}

fn apply_operation(value: Vec<char>, operation: OverrideOperation, text: &[char]) -> (r: Vec<char>)
    ensures
        r@ == operated(value@, operation, text@),
{
    match operation {
        OverrideOperation::Append => concat(value.as_slice(), text),
        OverrideOperation::Prepend => concat(text, value.as_slice()),
        OverrideOperation::Remove => remove_override_tokens(value.as_slice(), text),
        OverrideOperation::Plain => value,
    }
}

// ---------------------------------------------------------------------------
// Assignments
// ---------------------------------------------------------------------------
/// An assignment as it stands in the text, with the index of its node.
pub struct RawView {
    pub name: Seq<char>,
    pub operator: AssignmentOperator,
    pub value: Seq<char>,
    pub sequence: int,
}

struct RawAssignment {
    name: String,
    operator: AssignmentOperator,
    value: String,
    sequence: usize,
}

impl RawAssignment {
    spec fn view(&self) -> RawView {
        RawView {
            name: self.name@,
            operator: self.operator,
            value: self.value@,
            sequence: self.sequence as int,
        }
    }
}

spec fn raw_views(raws: Seq<RawAssignment>) -> Seq<RawView> {
    raws.map_values(|r: RawAssignment| r.view())
}

/// The assignments among `nodes`.
pub open spec fn collected(source: Seq<char>, nodes: Seq<NodeView>) -> Seq<RawView>
    decreases nodes.len(),
{
    if nodes.len() == 0 {
        Seq::empty()
    } else {
        let before = collected(source, nodes.drop_last());
        let node = nodes.last();
        match node.kind {
            NodeKind::Assignment(a) => before.push(
                RawView {
                    name: source.subrange(node.start + a.name, node.start + a.name_end),
                    operator: a.operator,
                    value: source.subrange(node.start + syntax::value_start(a), node.start + a.value_end),
                    sequence: nodes.len() - 1,
                },
            ),
            _ => before,
        }
    }
}

/// The assignments of a text.
pub open spec fn assignments_of(source: Seq<char>) -> Seq<RawView> {
    collected(source, syntax::nodes_of(source)->Ok_0)
}

fn collect_assignments(tree: &SyntaxTree) -> (r: Vec<RawAssignment>)
    requires
        tree.wf(),
    ensures
        raw_views(r@) == assignments_of(tree.text()),
        r@.len() <= tree.spec_nodes().len(),
{
    let nodes = tree.nodes();
    let ghost views = tree.views();
    let ghost source = tree.text();
    let mut out: Vec<RawAssignment> = Vec::new();
    let mut k: usize = 0;
    assert(views.take(0) =~= Seq::empty());
    assert(raw_views(out@) =~= Seq::empty());
    while k < nodes.len()
        invariant
            k <= nodes@.len(),
            nodes@ == tree.spec_nodes(),
            views == tree.views(),
            source == tree.text(),
            tree.wf(),
            out@.len() <= k,
            raw_views(out@) == collected(source, views.take(k as int)),
        decreases nodes@.len() - k,
    {
        let node = &nodes[k];
        proof {
            assert(node.holds(source, views[k as int]));
            node.lemma_holds(source, views[k as int]);
            assert(views.take(k + 1).drop_last() =~= views.take(k as int));
            assert(views.take(k + 1).last() == views[k as int]);
        }
        if let SyntaxKind::Assignment(assignment) = node.kind() {
            proof {
                assignment.lemma_holds(
                    source,
                    views[k as int].start,
                    views[k as int].kind->Assignment_0,
                );
            }
            let ghost before = out@;
            let raw = RawAssignment {
                name: assignment.name().to_owned(),
                operator: assignment.operator(),
                value: assignment.value().to_owned(),
                sequence: k,
            };
            out.push(raw);
            assert(raw_views(out@) =~= raw_views(before).push(raw.view()));
        }
        k += 1;
    }
    assert(views.take(k as int) =~= views);
    out
}

// ---------------------------------------------------------------------------
// The static environment
// ---------------------------------------------------------------------------
/// The value of a variable, empty where it has none.
pub open spec fn value_or_empty(values: Map<Seq<char>, Seq<char>>, name: Seq<char>) -> Seq<char> {
    if values.dom().contains(name) {
        values[name]
    } else {
        Seq::empty()
    }
}

/// A key that assigns to a variable itself: no flag, override or operation.
pub open spec fn plain_key(key: KeyView) -> bool {
    key.flag is None && key.overrides.len() == 0 && key.operation == OverrideOperation::Plain
}

/// `out` after the assignment `raw`, read with what is `known`.
pub open spec fn environment_step(
    out: Map<Seq<char>, Seq<char>>,
    raw: RawView,
    known: Map<Seq<char>, Seq<char>>,
) -> Map<Seq<char>, Seq<char>> {
    match keys::key_of(raw.name, Seq::empty(), known) {
        Err(_) => out,
        Ok(key) => match static_text(raw.value, known) {
            Some(text) if plain_key(key) => out.insert(
                key.base,
                assigned(value_or_empty(out, key.base), raw.operator, text),
            ),
            _ => out,
        },
    }
}

/// `out` after those of `raws` whose name holds a reference, or none.
pub open spec fn environment_fold(
    raws: Seq<RawView>,
    references: bool,
    out: Map<Seq<char>, Seq<char>>,
    known: Map<Seq<char>, Seq<char>>,
) -> Map<Seq<char>, Seq<char>>
    decreases raws.len(),
{
    if raws.len() == 0 {
        out
    } else {
        let before = environment_fold(raws.drop_last(), references, out, known);
        if keys::has_reference(raws.last().name) == references {
            environment_step(before, raws.last(), known)
        } else {
            before
        }
    }
}

/// The variables that all assignments give, read with what is `known`: first
/// those with a literal name, then those whose name is expanded.
pub open spec fn environment_round(raws: Seq<RawView>, known: Map<Seq<char>, Seq<char>>) -> Map<
    Seq<char>,
    Seq<char>,
> {
    environment_fold(raws, true, environment_fold(raws, false, Map::empty(), known), known)
}

/// What is known after at most `rounds` rounds, fewer where a round adds nothing.
pub open spec fn environment_from(
    raws: Seq<RawView>,
    known: Map<Seq<char>, Seq<char>>,
    rounds: nat,
) -> Map<Seq<char>, Seq<char>>
    decreases rounds,
{
    let next = environment_round(raws, known);
    if rounds == 0 || next == known {
        known
    } else {
        environment_from(raws, next, (rounds - 1) as nat)
    }
}

/// The variables with a statically known value.
pub open spec fn environment(raws: Seq<RawView>) -> Map<Seq<char>, Seq<char>> {
    environment_from(raws, Map::empty(), raws.len() + 1)
}

fn fold_environment(raws: &Vec<RawAssignment>, references: bool, start: TextMap, known: &TextMap)
    -> (r: TextMap)
    requires
        start.wf(),
        known.wf(),
    ensures
        r.wf(),
        r.map() == environment_fold(raw_views(raws@), references, start.map(), known.map()),
{
    let mut out = start;
    let ghost views = raw_views(raws@);
    let mut k: usize = 0;
    let active: Vec<String> = Vec::new();
    assert(collections::string_texts(active@) =~= Seq::empty());
    assert(views.take(0) =~= Seq::empty());
    while k < raws.len()
        invariant
            k <= raws@.len(),
            views == raw_views(raws@),
            collections::string_texts(active@) == Seq::<Seq<char>>::empty(),
            known.wf(),
            out.wf(),
            out.map() == environment_fold(
                views.take(k as int),
                references,
                start.map(),
                known.map(),
            ),
        decreases raws@.len() - k,
    {
        let raw = &raws[k];
        proof {
            assert(views.take(k + 1).drop_last() =~= views.take(k as int));
            assert(views.take(k + 1).last() == raw.view());
        }
        let name = chars_of(raw.name.as_str());
        if contains_reference(name.as_slice()) == references {
            if let Ok(key) = parse_key(raw.name.as_str(), &active, known) {
                let plain = key.flag().is_none() && key.override_count() == 0 && key.operation()
                    == OverrideOperation::Plain;
                assert(plain == plain_key(key.view()));
                if plain {
                    if let Some(text) = static_value(raw.value.as_str(), known) {
                        let old_value = match out.get(key.base()) {
                            Some(value) => chars_of(value),
                            None => {
                                let empty: Vec<char> = Vec::new();
                                assert(empty@ =~= Seq::empty());
                                empty
                            },
                        };
                        let value = apply_assignment_operator(
                            old_value.as_slice(),
                            raw.operator,
                            text.as_slice(),
                        );
                        out.insert(key.base().to_owned(), string_of(value.as_slice()));
                    }
                }
            }
        }
        k += 1;
    }
    assert(views.take(k as int) =~= views);
    out
}

fn resolve_static_environment(raws: &Vec<RawAssignment>) -> (r: TextMap)
    requires
        raws@.len() < usize::MAX,
    ensures
        r.wf(),
        r.map() == environment(raw_views(raws@)),
{
    let ghost views = raw_views(raws@);
    let mut known = TextMap::new();
    let mut rounds: usize = raws.len() + 1;
    while rounds > 0
        invariant
            known.wf(),
            views == raw_views(raws@),
            environment_from(views, known.map(), rounds as nat) == environment(views),
        decreases rounds,
    {
        let literal = fold_environment(raws, false, TextMap::new(), &known);
        let next = fold_environment(raws, true, literal, &known);
        if next.same(&known) {
            return known;
        }
        known = next;
        rounds -= 1;
    }
    known
}

// ---------------------------------------------------------------------------
// The active overrides
// ---------------------------------------------------------------------------
/// The operation and the text that an assignment to `OVERRIDES` itself gives.
pub open spec fn list_entry(raw: RawView, known: Map<Seq<char>, Seq<char>>) -> Option<
    (OverrideOperation, Seq<char>),
> {
    match keys::key_of(raw.name, Seq::empty(), Map::empty()) {
        Err(_) => None,
        Ok(key) => if key.base != "OVERRIDES"@ || key.overrides.len() > 0 || key.flag is Some {
            None
        } else {
            match static_text(raw.value, known) {
                Some(text) => Some((key.operation, text)),
                None => None,
            }
        },
    }
}

/// `value` after those assignments to `OVERRIDES` with the operation `operation`.
pub open spec fn list_fold(
    raws: Seq<RawView>,
    known: Map<Seq<char>, Seq<char>>,
    operation: OverrideOperation,
    value: Seq<char>,
) -> Seq<char>
    decreases raws.len(),
{
    if raws.len() == 0 {
        value
    } else {
        let before = list_fold(raws.drop_last(), known, operation, value);
        match list_entry(raws.last(), known) {
            Some((o, text)) if o == operation => if o == OverrideOperation::Plain {
                assigned(before, raws.last().operator, text)
            } else {
                operated(before, o, text)
            },
            _ => before,
        }
    }
}

/// The value of `OVERRIDES`: its assignments, then what is appended, prepended
/// and removed, in this order.
pub open spec fn override_list(raws: Seq<RawView>) -> Seq<char> {
    let known = environment(raws);
    let value = list_fold(raws, known, OverrideOperation::Plain, Seq::empty());
    let value = list_fold(raws, known, OverrideOperation::Append, value);
    let value = list_fold(raws, known, OverrideOperation::Prepend, value);
    list_fold(raws, known, OverrideOperation::Remove, value)
}

/// The names of the overrides in a list, each once.
pub open spec fn override_names(list: Seq<char>) -> Seq<Seq<char>> {
    collections::distinct(text::word_texts(list, CharClass::Separator))
}

fn fold_override_list(
    raws: &Vec<RawAssignment>,
    known: &TextMap,
    operation: OverrideOperation,
    start: Vec<char>,
) -> (r: Vec<char>)
    requires
        known.wf(),
    ensures
        r@ == list_fold(raw_views(raws@), known.map(), operation, start@),
{
    let ghost views = raw_views(raws@);
    let mut value = start;
    let mut k: usize = 0;
    let nothing = TextMap::new();
    let active: Vec<String> = Vec::new();
    assert(collections::string_texts(active@) =~= Seq::empty());
    assert(views.take(0) =~= Seq::empty());
    while k < raws.len()
        invariant
            k <= raws@.len(),
            views == raw_views(raws@),
            known.wf(),
            nothing.wf(),
            nothing.map() == Map::<Seq<char>, Seq<char>>::empty(),
            collections::string_texts(active@) == Seq::<Seq<char>>::empty(),
            value@ == list_fold(views.take(k as int), known.map(), operation, start@),
        decreases raws@.len() - k,
    {
        let raw = &raws[k];
        proof {
            assert(views.take(k + 1).drop_last() =~= views.take(k as int));
            assert(views.take(k + 1).last() == raw.view());
        }
        if let Ok(key) = parse_key(raw.name.as_str(), &active, &nothing) {
            if same_str(key.base(), "OVERRIDES") && key.override_count() == 0
                && key.flag().is_none() {
                if let Some(text) = static_value(raw.value.as_str(), known) {
                    if key.operation() == operation {
                        if operation == OverrideOperation::Plain {
                            value = apply_assignment_operator(
                                value.as_slice(),
                                raw.operator,
                                text.as_slice(),
                            );
                        } else {
                            value = apply_operation(value, operation, text.as_slice());
                        }
                    }
                }
            }
        }
        k += 1;
    }
    assert(views.take(k as int) =~= views);
    value
}

fn resolve_override_list(raws: &Vec<RawAssignment>) -> (r: Vec<char>)
    requires
        raws@.len() < usize::MAX,
    ensures
        r@ == override_list(raw_views(raws@)),
{
    let known = resolve_static_environment(raws);
    let start: Vec<char> = Vec::new();
    assert(start@ =~= Seq::empty());
    let value = fold_override_list(raws, &known, OverrideOperation::Plain, start);
    let value = fold_override_list(raws, &known, OverrideOperation::Append, value);
    let value = fold_override_list(raws, &known, OverrideOperation::Prepend, value);
    fold_override_list(raws, &known, OverrideOperation::Remove, value)
}

fn override_tokens(value: &[char]) -> (r: Vec<String>)
    ensures
        collections::string_texts(r@) == override_names(value@),
{
    let ranges = split_words(value, CharClass::Separator);
    let ghost words = text::word_texts(value@, CharClass::Separator);
    let mut out: Vec<String> = Vec::new();
    let mut k: usize = 0;
    assert(words.take(0) =~= Seq::empty());
    assert(collections::string_texts(out@) =~= Seq::empty());
    while k < ranges.len()
        invariant
            k <= ranges@.len(),
            words == text::word_texts(value@, CharClass::Separator),
            text::ranges_match(ranges@, text::words_of(value@, CharClass::Separator)),
            text::ranges_inside(ranges@, value@.len() as int),
            collections::string_texts(out@) == collections::distinct(words.take(k as int)),
        decreases ranges@.len() - k,
    {
        let (a, b) = ranges[k];
        let word = slice_subrange(value, a, b);
        assert(words[k as int] == word@);
        assert(words.take(k + 1).drop_last() =~= words.take(k as int));
        push_distinct(&mut out, string_of(word));
        k += 1;
    }
    assert(words.take(k as int) =~= words);
    out
}

// ---------------------------------------------------------------------------
// Resolution
// ---------------------------------------------------------------------------
/// An assignment that takes part in the resolution.
pub struct EntryView {
    pub key: KeyView,
    pub operator: AssignmentOperator,
    pub value: Seq<char>,
    pub sequence: int,
}

struct ResolvedAssignment {
    key: OverrideKey,
    operator: AssignmentOperator,
    value: Vec<char>,
    sequence: usize,
}

impl ResolvedAssignment {
    spec fn view(&self) -> EntryView {
        EntryView {
            key: self.key.view(),
            operator: self.operator,
            value: self.value@,
            sequence: self.sequence as int,
        }
    }
}

spec fn entry_views(entries: Seq<ResolvedAssignment>) -> Seq<EntryView> {
    entries.map_values(|e: ResolvedAssignment| e.view())
}

/// Whether every one of `items` is in `active`.
pub open spec fn all_active(items: Seq<Seq<char>>, active: Seq<Seq<char>>) -> bool {
    forall|k: int| 0 <= k < items.len() ==> active.contains(#[trigger] items[k])
}

/// What the assignment `raw` contributes, if anything: its key is static, has
/// no flag and only active overrides, and its value is static.
pub open spec fn entry_of(
    raw: RawView,
    active: Seq<Seq<char>>,
    known: Map<Seq<char>, Seq<char>>,
) -> Option<EntryView> {
    match keys::key_of(raw.name, active, known) {
        Err(_) => None,
        Ok(key) => if key.flag is Some || key.dynamic || !all_active(key.overrides, active) {
            None
        } else {
            match static_text(raw.value, known) {
                Some(value) => Some(
                    EntryView { key, operator: raw.operator, value, sequence: raw.sequence },
                ),
                None => None,
            }
        },
    }
}

/// What the assignments contribute, in their order.
pub open spec fn entries_of(
    raws: Seq<RawView>,
    active: Seq<Seq<char>>,
    known: Map<Seq<char>, Seq<char>>,
) -> Seq<EntryView>
    decreases raws.len(),
{
    if raws.len() == 0 {
        Seq::empty()
    } else {
        let before = entries_of(raws.drop_last(), active, known);
        match entry_of(raws.last(), active, known) {
            Some(entry) => before.push(entry),
            None => before,
        }
    }
}

/// A plain assignment to `base` itself.
pub open spec fn is_direct(e: EntryView, base: Seq<char>) -> bool {
    e.key.base == base && e.key.operation == OverrideOperation::Plain && e.key.overrides.len() == 0
}

/// An assignment to, or an operation on, an override-specific value of `base`.
pub open spec fn is_variant(e: EntryView, base: Seq<char>) -> bool {
    e.key.base == base && e.key.overrides.len() > 0 && (e.key.operation == OverrideOperation::Plain
        || e.key.on_selected)
}

/// Which assignments a fold applies.
pub struct Selector {
    pub base: Seq<char>,
    /// The overrides of the variant; none for the variable itself.
    pub overrides: Seq<Seq<char>>,
    pub operation: OverrideOperation,
    /// Whether the operation applies to the override-specific value.
    pub on_variant: bool,
    /// Whether the key is expanded; `None` selects both.
    pub key_expanded: Option<bool>,
}

/// Whether the selector picks the entry.
pub open spec fn selects(s: Selector, e: EntryView) -> bool {
    &&& e.key.operation == s.operation
    &&& s.key_expanded matches Some(b) ==> e.key.key_expanded == b
    &&& if s.on_variant {
        is_variant(e, s.base) && e.key.overrides == s.overrides
    } else if s.operation == OverrideOperation::Plain {
        is_direct(e, s.base)
    } else {
        e.key.base == s.base && !e.key.on_selected
    }
}

/// `value` after the entries that the selector picks, in their order.
pub open spec fn entry_fold(es: Seq<EntryView>, s: Selector, value: Seq<char>) -> Seq<char>
    decreases es.len(),
{
    if es.len() == 0 {
        value
    } else {
        let before = entry_fold(es.drop_last(), s, value);
        let e = es.last();
        if !selects(s, e) {
            before
        } else if s.operation == OverrideOperation::Plain {
            assigned(before, e.operator, e.value)
        } else {
            operated(before, s.operation, e.value)
        }
    }
}

/// `value` after the literal keys and then the expanded ones.
pub open spec fn entry_folds(es: Seq<EntryView>, s: Selector, value: Seq<char>) -> Seq<char> {
    entry_fold(
        es,
        Selector { key_expanded: Some(true), ..s },
        entry_fold(es, Selector { key_expanded: Some(false), ..s }, value),
    )
}

/// The value that plain assignments give `base` itself.
pub open spec fn direct_value(es: Seq<EntryView>, base: Seq<char>) -> Seq<char> {
    entry_folds(
        es,
        Selector {
            base,
            overrides: Seq::empty(),
            operation: OverrideOperation::Plain,
            on_variant: false,
            key_expanded: None,
        },
        Seq::empty(),
    )
}

/// The value of `base` for a list of overrides: its assignments, then what is
/// appended, prepended and removed.
pub open spec fn variant_value(
    es: Seq<EntryView>,
    base: Seq<char>,
    overrides: Seq<Seq<char>>,
) -> Seq<char> {
    let s = Selector {
        base,
        overrides,
        operation: OverrideOperation::Plain,
        on_variant: true,
        key_expanded: None,
    };
    let value = entry_folds(es, s, Seq::empty());
    let value = entry_folds(es, Selector { operation: OverrideOperation::Append, ..s }, value);
    let value = entry_folds(es, Selector { operation: OverrideOperation::Prepend, ..s }, value);
    entry_folds(es, Selector { operation: OverrideOperation::Remove, ..s }, value)
}

/// The latest place at which `base` gets a value for a list of overrides.
pub open spec fn variant_sequence(
    es: Seq<EntryView>,
    base: Seq<char>,
    overrides: Seq<Seq<char>>,
) -> int
    decreases es.len(),
{
    if es.len() == 0 {
        0
    } else {
        let before = variant_sequence(es.drop_last(), base, overrides);
        let e = es.last();
        if is_variant(e, base) && e.key.overrides == overrides && e.sequence > before {
            e.sequence
        } else {
            before
        }
    }
}

/// The first index of `item` in `items`, or their number.
pub open spec fn position_of(items: Seq<Seq<char>>, item: Seq<char>, k: int) -> int
    decreases items.len() - k,
{
    if k < 0 || k >= items.len() {
        items.len() as int
    } else if items[k] == item {
        k
    } else {
        position_of(items, item, k + 1)
    }
}

/// `positions`, which increase, with `p` put in its place.
pub open spec fn insert_position(positions: Seq<int>, p: int) -> Seq<int>
    decreases positions.len(),
{
    if positions.len() == 0 || positions.last() <= p {
        positions.push(p)
    } else {
        insert_position(positions.drop_last(), p).push(positions.last())
    }
}

/// The positions of overrides in the active list, in increasing order.
pub open spec fn positions_of(overrides: Seq<Seq<char>>, active: Seq<Seq<char>>) -> Seq<int>
    decreases overrides.len(),
{
    if overrides.len() == 0 {
        Seq::empty()
    } else {
        insert_position(
            positions_of(overrides.drop_last(), active),
            position_of(active, overrides.last(), 0),
        )
    }
}

/// Whether the first position that differs is smaller in `a`, or `a` is a part of `b`.
pub open spec fn positions_less(a: Seq<int>, b: Seq<int>) -> bool
    decreases a.len(),
{
    if b.len() == 0 {
        false
    } else if a.len() == 0 {
        true
    } else if a[0] != b[0] {
        a[0] < b[0]
    } else {
        positions_less(a.drop_first(), b.drop_first())
    }
}

/// Whether the overrides `a` are less specific than `b`: fewer, or as many but
/// earlier in the active list.
pub open spec fn rank_less(
    a: Seq<Seq<char>>,
    b: Seq<Seq<char>>,
    active: Seq<Seq<char>>,
) -> bool {
    a.len() < b.len() || (a.len() == b.len() && positions_less(
        positions_of(a, active),
        positions_of(b, active),
    ))
}

/// Whether the variant `a` of `base` is preferred to `b`: it is more specific,
/// or as specific and set later.
pub open spec fn beats(
    es: Seq<EntryView>,
    base: Seq<char>,
    a: Seq<Seq<char>>,
    b: Seq<Seq<char>>,
    active: Seq<Seq<char>>,
) -> bool {
    rank_less(b, a, active) || (!rank_less(a, b, active) && variant_sequence(es, base, b)
        < variant_sequence(es, base, a))
}

/// The preferred variant of `base` among the first `k` entries.
pub open spec fn best_variant(
    es: Seq<EntryView>,
    base: Seq<char>,
    active: Seq<Seq<char>>,
    k: int,
) -> Option<Seq<Seq<char>>>
    decreases k,
{
    if k <= 0 || k > es.len() {
        None
    } else {
        let before = best_variant(es, base, active, k - 1);
        let e = es[k - 1];
        if !is_variant(e, base) {
            before
        } else if before is None || beats(es, base, e.key.overrides, before->0, active) {
            Some(e.key.overrides)
        } else {
            before
        }
    }
}

/// The value of `base` before the operations on it: that of its preferred
/// variant, or its own.
pub open spec fn selected_value(
    es: Seq<EntryView>,
    base: Seq<char>,
    active: Seq<Seq<char>>,
) -> Seq<char> {
    match best_variant(es, base, active, es.len() as int) {
        Some(overrides) => variant_value(es, base, overrides),
        None => direct_value(es, base),
    }
}

/// The resolved value of `base`: the selected value, then what is appended,
/// prepended and removed.
pub open spec fn resolved_value(
    es: Seq<EntryView>,
    base: Seq<char>,
    active: Seq<Seq<char>>,
) -> Seq<char> {
    let s = Selector {
        base,
        overrides: Seq::empty(),
        operation: OverrideOperation::Append,
        on_variant: false,
        key_expanded: None,
    };
    let value = entry_fold(es, s, selected_value(es, base, active));
    let value = entry_fold(es, Selector { operation: OverrideOperation::Prepend, ..s }, value);
    entry_fold(es, Selector { operation: OverrideOperation::Remove, ..s }, value)
}

/// The resolved values of the bases of the first `k` entries.
pub open spec fn resolved_values(es: Seq<EntryView>, active: Seq<Seq<char>>, k: int) -> Map<
    Seq<char>,
    Seq<char>,
>
    decreases k,
{
    if k <= 0 || k > es.len() {
        Map::empty()
    } else {
        resolved_values(es, active, k - 1).insert(
            es[k - 1].key.base,
            resolved_value(es, es[k - 1].key.base, active),
        )
    }
}

/// The resolved variables of a text under the overrides `active`.
pub open spec fn resolution(raws: Seq<RawView>, active: Seq<Seq<char>>) -> Map<
    Seq<char>,
    Seq<char>,
> {
    let es = entries_of(raws, active, environment(raws));
    resolved_values(es, active, es.len() as int).insert(
        "OVERRIDES"@,
        collections::joined(active, seq![':']),
    )
}

/// The result of resolving statically known assignments under BitBake override
/// semantics.
#[derive(Clone, Debug, Eq, PartialEq)]
pub struct OverrideResolution {
    overrides: Vec<String>,
    values: TextMap,
}

impl OverrideResolution {
    pub closed spec fn wf(self) -> bool {
        self.values.wf()
    }

    pub closed spec fn active(self) -> Seq<Seq<char>> {
        collections::string_texts(self.overrides@)
    }

    pub closed spec fn map(self) -> Map<Seq<char>, Seq<char>> {
        self.values.map()
    }

    /// Returns the active override list in BitBake order.
    pub fn overrides(&self) -> (r: &Vec<String>)
        ensures
            collections::string_texts(r@) == self.active(),
    {
        &self.overrides
    }

    /// Returns the resolved value for a normalized base variable name.
    pub fn get(&self, name: &str) -> (r: Option<&str>)
        requires
            self.wf(),
        ensures
            match r {
                Some(value) => self.map().dom().contains(name@) && self.map()[name@] == value@,
                None => !self.map().dom().contains(name@),
            },
    {
        self.values.get(name)
    }

    /// Returns all statically resolved base variables.
    pub fn values(&self) -> (r: &TextMap)
        requires
            self.wf(),
        ensures
            r.wf(),
            r.map() == self.map(),
    {
        &self.values
    }
}

impl Default for OverrideResolution {
    fn default() -> (r: OverrideResolution)
        ensures
            r.wf(),
            r.active() == Seq::<Seq<char>>::empty(),
            r.map() == Map::<Seq<char>, Seq<char>>::empty(),
    {
        let r = OverrideResolution { overrides: Vec::new(), values: TextMap::new() };
        assert(collections::string_texts(r.overrides@) =~= Seq::empty());
        r
    }
}

// ---------------------------------------------------------------------------
// The resolver
// ---------------------------------------------------------------------------
struct EntrySelector<'a> {
    base: &'a str,
    overrides: &'a Vec<String>,
    operation: OverrideOperation,
    on_variant: bool,
    key_expanded: Option<bool>,
}

impl<'a> EntrySelector<'a> {
    spec fn view(&self) -> Selector {
        Selector {
            base: self.base@,
            overrides: collections::string_texts(self.overrides@),
            operation: self.operation,
            on_variant: self.on_variant,
            key_expanded: self.key_expanded,
        }
    }

    fn selects(&self, entry: &ResolvedAssignment) -> (r: bool)
        ensures
            r == selects(self.view(), entry.view()),
    {
        if entry.key.operation() != self.operation || !same_str(entry.key.base(), self.base) {
            return false;
        }
        if let Some(b) = self.key_expanded {
            if entry.key.key_expanded() != b {
                return false;
            }
        }
        if self.on_variant {
            entry.key.override_count() > 0 && (self.operation == OverrideOperation::Plain
                || entry.key.operation_on_selected_value()) && same_texts(
                entry.key.overrides(),
                self.overrides,
            )
        } else if self.operation == OverrideOperation::Plain {
            entry.key.override_count() == 0
        } else {
            !entry.key.operation_on_selected_value()
        }
    }

    /// `start` after the entries that the selector picks.
    fn fold(&self, entries: &Vec<ResolvedAssignment>, start: Vec<char>) -> (r: Vec<char>)
        ensures
            r@ == entry_fold(entry_views(entries@), self.view(), start@),
    {
        let ghost views = entry_views(entries@);
        let mut value = start;
        let mut k: usize = 0;
        assert(views.take(0) =~= Seq::empty());
        while k < entries.len()
            invariant
                k <= entries@.len(),
                views == entry_views(entries@),
                value@ == entry_fold(views.take(k as int), self.view(), start@),
            decreases entries@.len() - k,
        {
            let entry = &entries[k];
            proof {
                assert(views.take(k + 1).drop_last() =~= views.take(k as int));
                assert(views.take(k + 1).last() == entry.view());
            }
            if self.selects(entry) {
                if self.operation == OverrideOperation::Plain {
                    value = apply_assignment_operator(
                        value.as_slice(),
                        entry.operator,
                        entry.value.as_slice(),
                    );
                } else {
                    value = apply_operation(value, self.operation, entry.value.as_slice());
                }
            }
            k += 1;
        }
        assert(views.take(k as int) =~= views);
        value
    }
}

/// `start` after the literal keys and then the expanded ones.
fn fold_both(
    entries: &Vec<ResolvedAssignment>,
    base: &str,
    overrides: &Vec<String>,
    operation: OverrideOperation,
    on_variant: bool,
    start: Vec<char>,
) -> (r: Vec<char>)
    ensures
        r@ == entry_folds(
            entry_views(entries@),
            Selector {
                base: base@,
                overrides: collections::string_texts(overrides@),
                operation,
                on_variant,
                key_expanded: None,
            },
            start@,
        ),
{
    let literal = EntrySelector {
        base,
        overrides,
        operation,
        on_variant,
        key_expanded: Some(false),
    };
    let expanded = EntrySelector {
        base,
        overrides,
        operation,
        on_variant,
        key_expanded: Some(true),
    };
    let value = literal.fold(entries, start);
    expanded.fold(entries, value)
}

fn find_variant_value(entries: &Vec<ResolvedAssignment>, base: &str, overrides: &Vec<String>) -> (r:
    Vec<char>)
    ensures
        r@ == variant_value(entry_views(entries@), base@, collections::string_texts(overrides@)),
{
    let start: Vec<char> = Vec::new();
    assert(start@ =~= Seq::empty());
    let value = fold_both(entries, base, overrides, OverrideOperation::Plain, true, start);
    let value = fold_both(entries, base, overrides, OverrideOperation::Append, true, value);
    let value = fold_both(entries, base, overrides, OverrideOperation::Prepend, true, value);
    fold_both(entries, base, overrides, OverrideOperation::Remove, true, value)
}

fn entry_is_variant(entry: &ResolvedAssignment, base: &str) -> (r: bool)
    ensures
        r == is_variant(entry.view(), base@),
{
    same_str(entry.key.base(), base) && entry.key.override_count() > 0 && (entry.key.operation()
        == OverrideOperation::Plain || entry.key.operation_on_selected_value())
}

fn find_variant_sequence(entries: &Vec<ResolvedAssignment>, base: &str, overrides: &Vec<String>)
    -> (r: usize)
    ensures
        r == variant_sequence(entry_views(entries@), base@, collections::string_texts(overrides@)),
{
    let ghost views = entry_views(entries@);
    let mut latest: usize = 0;
    let mut k: usize = 0;
    assert(views.take(0) =~= Seq::empty());
    while k < entries.len()
        invariant
            k <= entries@.len(),
            views == entry_views(entries@),
            latest == variant_sequence(views.take(k as int), base@, collections::string_texts(overrides@)),
        decreases entries@.len() - k,
    {
        let entry = &entries[k];
        proof {
            assert(views.take(k + 1).drop_last() =~= views.take(k as int));
            assert(views.take(k + 1).last() == entry.view());
        }
        if entry_is_variant(entry, base) && same_texts(entry.key.overrides(), overrides)
            && entry.sequence > latest {
            latest = entry.sequence;
        }
        k += 1;
    }
    assert(views.take(k as int) =~= views);
    latest
}

/// The positions as mathematical integers.
spec fn position_ints(positions: Seq<usize>) -> Seq<int> {
    positions.map_values(|p: usize| p as int)
}

fn insert_sorted(positions: Vec<usize>, p: usize) -> (r: Vec<usize>)
    ensures
        position_ints(r@) == insert_position(position_ints(positions@), p as int),
    decreases positions@.len(),
{
    let mut rest = positions;
    let ghost all = positions@;
    if rest.len() == 0 || rest[rest.len() - 1] <= p {
        rest.push(p);
        assert(position_ints(rest@) =~= position_ints(all).push(p as int));
        return rest;
    }
    let last = rest[rest.len() - 1];
    let _ = rest.pop();
    assert(rest@ =~= all.drop_last());
    assert(position_ints(rest@) =~= position_ints(all).drop_last());
    let mut out = insert_sorted(rest, p);
    let ghost before = out@;
    out.push(last);
    assert(position_ints(out@) =~= position_ints(before).push(last as int));
    out
}

/// The positions of overrides in the active list, in increasing order.
fn override_rank(overrides: &Vec<String>, active: &Vec<String>) -> (r: Vec<usize>)
    ensures
        position_ints(r@) == positions_of(collections::string_texts(overrides@), collections::string_texts(active@)),
{
    let ghost items = collections::string_texts(overrides@);
    let ghost names = collections::string_texts(active@);
    let mut out: Vec<usize> = Vec::new();
    let mut k: usize = 0;
    assert(items.take(0) =~= Seq::empty());
    assert(position_ints(out@) =~= Seq::empty());
    while k < overrides.len()
        invariant
            k <= overrides@.len(),
            items == collections::string_texts(overrides@),
            names == collections::string_texts(active@),
            position_ints(out@) == positions_of(items.take(k as int), names),
        decreases overrides@.len() - k,
    {
        let item = overrides[k].as_str();
        assert(items.take(k + 1).drop_last() =~= items.take(k as int));
        assert(items.take(k + 1).last() == item@);
        let mut p: usize = 0;
        while p < active.len() && !same_str(active[p].as_str(), item)
            invariant
                p <= active@.len(),
                names == collections::string_texts(active@),
                position_of(names, item@, p as int) == position_of(names, item@, 0),
            decreases active@.len() - p,
        {
            assert(names[p as int] == active@[p as int]@);
            p += 1;
        }
        proof {
            if p < active@.len() {
                assert(names[p as int] == active@[p as int]@);
            }
        }
        out = insert_sorted(out, p);
        k += 1;
    }
    assert(items.take(k as int) =~= items);
    out
}

fn is_positions_less(a: &Vec<usize>, b: &Vec<usize>) -> (r: bool)
    ensures
        r == positions_less(position_ints(a@), position_ints(b@)),
{
    let ghost x = position_ints(a@);
    let ghost y = position_ints(b@);
    let mut k: usize = 0;
    assert(x.skip(0) =~= x);
    assert(y.skip(0) =~= y);
    while k < a.len() && k < b.len()
        invariant
            k <= a@.len(),
            k <= b@.len(),
            x == position_ints(a@),
            y == position_ints(b@),
            positions_less(x, y) == positions_less(x.skip(k as int), y.skip(k as int)),
        decreases a@.len() - k,
    {
        assert(x.skip(k as int)[0] == a@[k as int]);
        assert(y.skip(k as int)[0] == b@[k as int]);
        if a[k] != b[k] {
            return a[k] < b[k];
        }
        assert(x.skip(k as int).drop_first() =~= x.skip(k + 1));
        assert(y.skip(k as int).drop_first() =~= y.skip(k + 1));
        k += 1;
    }
    k < b.len()
}

fn is_rank_less(a: &Vec<String>, b: &Vec<String>, active: &Vec<String>) -> (r: bool)
    ensures
        r == rank_less(collections::string_texts(a@), collections::string_texts(b@), collections::string_texts(active@)),
{
    if a.len() != b.len() {
        return a.len() < b.len();
    }
    let x = override_rank(a, active);
    let y = override_rank(b, active);
    is_positions_less(&x, &y)
}

/// The index of an entry with the overrides of the preferred variant.
fn find_best_variant(entries: &Vec<ResolvedAssignment>, base: &str, active: &Vec<String>) -> (r:
    Option<usize>)
    ensures
        match r {
            Some(k) => k < entries@.len() && best_variant(
                entry_views(entries@),
                base@,
                collections::string_texts(active@),
                entries@.len() as int,
            ) == Some(entries@[k as int].view().key.overrides),
            None => best_variant(
                entry_views(entries@),
                base@,
                collections::string_texts(active@),
                entries@.len() as int,
            ) is None,
        },
{
    let ghost views = entry_views(entries@);
    let ghost names = collections::string_texts(active@);
    let mut best: Option<usize> = None;
    let mut k: usize = 0;
    while k < entries.len()
        invariant
            k <= entries@.len(),
            views == entry_views(entries@),
            names == collections::string_texts(active@),
            match best {
                Some(b) => b < entries@.len() && best_variant(views, base@, names, k as int)
                    == Some(entries@[b as int].view().key.overrides),
                None => best_variant(views, base@, names, k as int) is None,
            },
        decreases entries@.len() - k,
    {
        assert(views[k as int] == entries@[k as int].view());
        if entry_is_variant(&entries[k], base) {
            let better = match best {
                None => true,
                Some(b) => {
                    let cur = entries[k].key.overrides();
                    let old = entries[b].key.overrides();
                    is_rank_less(old, cur, active) || (!is_rank_less(cur, old, active)
                        && find_variant_sequence(entries, base, old) < find_variant_sequence(
                        entries,
                        base,
                        cur,
                    ))
                },
            };
            if better {
                best = Some(k);
            }
        }
        k += 1;
    }
    best
}

/// The value of `base` before the operations on it.
fn resolve_direct_entries(entries: &Vec<ResolvedAssignment>, base: &str, active: &Vec<String>)
    -> (r: Vec<char>)
    ensures
        r@ == selected_value(entry_views(entries@), base@, collections::string_texts(active@)),
{
    match find_best_variant(entries, base, active) {
        Some(k) => find_variant_value(entries, base, entries[k].key.overrides()),
        None => {
            let start: Vec<char> = Vec::new();
            let overrides: Vec<String> = Vec::new();
            assert(start@ =~= Seq::empty());
            assert(collections::string_texts(overrides@) =~= Seq::empty());
            fold_both(entries, base, &overrides, OverrideOperation::Plain, false, start)
        },
    }
}

/// The resolved value of `base`.
fn resolve_value(entries: &Vec<ResolvedAssignment>, base: &str, active: &Vec<String>) -> (r:
    Vec<char>)
    ensures
        r@ == resolved_value(entry_views(entries@), base@, collections::string_texts(active@)),
{
    let overrides: Vec<String> = Vec::new();
    assert(collections::string_texts(overrides@) =~= Seq::empty());
    let append = EntrySelector {
        base,
        overrides: &overrides,
        operation: OverrideOperation::Append,
        on_variant: false,
        key_expanded: None,
    };
    let prepend = EntrySelector {
        base,
        overrides: &overrides,
        operation: OverrideOperation::Prepend,
        on_variant: false,
        key_expanded: None,
    };
    let remove = EntrySelector {
        base,
        overrides: &overrides,
        operation: OverrideOperation::Remove,
        on_variant: false,
        key_expanded: None,
    };
    let value = resolve_direct_entries(entries, base, active);
    let value = append.fold(entries, value);
    let value = prepend.fold(entries, value);
    remove.fold(entries, value)
}

/// Whether every one of `items` is in `active`.
fn are_active(items: &Vec<String>, active: &Vec<String>) -> (r: bool)
    ensures
        r == all_active(collections::string_texts(items@), collections::string_texts(active@)),
{
    let ghost texts = collections::string_texts(items@);
    let mut k: usize = 0;
    while k < items.len()
        invariant
            k <= items@.len(),
            texts == collections::string_texts(items@),
            forall|j: int| 0 <= j < k ==> collections::string_texts(active@).contains(#[trigger] texts[j]),
        decreases items@.len() - k,
    {
        assert(texts[k as int] == items@[k as int]@);
        if !has_text(active, items[k].as_str()) {
            return false;
        }
        k += 1;
    }
    true
}

/// What the assignments contribute, in their order.
fn collect_entries(raws: &Vec<RawAssignment>, active: &Vec<String>, known: &TextMap) -> (r: Vec<
    ResolvedAssignment,
>)
    requires
        known.wf(),
    ensures
        entry_views(r@) == entries_of(raw_views(raws@), collections::string_texts(active@), known.map()),
{
    let ghost views = raw_views(raws@);
    let mut out: Vec<ResolvedAssignment> = Vec::new();
    let mut k: usize = 0;
    assert(views.take(0) =~= Seq::empty());
    assert(entry_views(out@) =~= Seq::empty());
    while k < raws.len()
        invariant
            k <= raws@.len(),
            views == raw_views(raws@),
            known.wf(),
            entry_views(out@) == entries_of(
                views.take(k as int),
                collections::string_texts(active@),
                known.map(),
            ),
        decreases raws@.len() - k,
    {
        let raw = &raws[k];
        proof {
            assert(views.take(k + 1).drop_last() =~= views.take(k as int));
            assert(views.take(k + 1).last() == raw.view());
        }
        if let Ok(key) = parse_key(raw.name.as_str(), active, known) {
            if key.flag().is_none() && !key.is_dynamic() && are_active(key.overrides(), active) {
                if let Some(value) = static_value(raw.value.as_str(), known) {
                    let ghost before = out@;
                    let entry = ResolvedAssignment {
                        key,
                        operator: raw.operator,
                        value,
                        sequence: raw.sequence,
                    };
                    out.push(entry);
                    assert(entry_views(out@) =~= entry_views(before).push(entry.view()));
                }
            }
        }
        k += 1;
    }
    assert(views.take(k as int) =~= views);
    out
}

/// Every base of the first entries has its resolved value.
proof fn lemma_resolved_values(
    es: Seq<EntryView>,
    active: Seq<Seq<char>>,
    k: int,
    base: Seq<char>,
)
    requires
        0 <= k <= es.len(),
        resolved_values(es, active, k).dom().contains(base),
    ensures
        resolved_values(es, active, k)[base] == resolved_value(es, base, active),
    decreases k,
{
    if k > 0 && base != es[k - 1].key.base {
        lemma_resolved_values(es, active, k - 1, base);
    }
}

fn resolve_with_active_overrides(raws: &Vec<RawAssignment>, active: Vec<String>) -> (r:
    OverrideResolution)
    requires
        raws@.len() < usize::MAX,
    ensures
        r.wf(),
        r.active() == collections::string_texts(active@),
        r.map() == resolution(raw_views(raws@), collections::string_texts(active@)),
{
    let known = resolve_static_environment(raws);
    let entries = collect_entries(raws, &active, &known);
    let ghost views = entry_views(entries@);
    let ghost names = collections::string_texts(active@);
    let mut values = TextMap::new();
    let mut k: usize = 0;
    while k < entries.len()
        invariant
            k <= entries@.len(),
            views == entry_views(entries@),
            names == collections::string_texts(active@),
            values.wf(),
            values.map() == resolved_values(views, names, k as int),
        decreases entries@.len() - k,
    {
        let base = entries[k].key.base();
        assert(views[k as int].key.base == base@);
        if values.get(base).is_none() {
            let value = resolve_value(&entries, base, &active);
            values.insert(base.to_owned(), string_of(value.as_slice()));
        } else {
            proof {
                lemma_resolved_values(views, names, k as int, base@);
                assert(values.map() =~= values.map().insert(
                    base@,
                    resolved_value(views, base@, names),
                ));
            }
        }
        k += 1;
    }
    proof {
        reveal_strlit(":");
        assert(":"@ =~= seq![':']);
    }
    let list = join(&active, ":");
    values.insert("OVERRIDES".to_owned(), list);
    OverrideResolution { overrides: active, values }
}

/// The nodes of a tree are fewer than the addresses of the machine.
proof fn lemma_node_count(tree: SyntaxTree)
    requires
        tree.wf(),
    ensures
        tree.spec_nodes().len() < usize::MAX,
{
    syntax::law_tree_is_lossless(tree.text());
    syntax::lemma_contiguous_count(tree.views(), 0, tree.text().len() as int);
    text::lemma_byte_len_at_least(tree.text());
}

/// Resolves statically known assignments using the file's `OVERRIDES` value.
///
/// Dynamic Python expansion, anonymous functions, and values that depend on
/// unavailable metadata are skipped rather than guessed. This gives callers a
/// deterministic static model while BitBake remains authoritative for fully
/// expanded build environments.
pub fn resolve_overrides(tree: &SyntaxTree) -> (r: OverrideResolution)
    requires
        tree.wf(),
    ensures
        r.wf(),
        r.active() == override_names(override_list(assignments_of(tree.text()))),
        r.map() == resolution(assignments_of(tree.text()), r.active()),
{
    let raws = collect_assignments(tree);
    proof {
        lemma_node_count(*tree);
    }
    let list = resolve_override_list(&raws);
    let active = override_tokens(list.as_slice());
    resolve_with_active_overrides(&raws, active)
}

/// The given names but for empty and repeated ones.
pub open spec fn given_names(names: Seq<Seq<char>>) -> Seq<Seq<char>>
    decreases names.len(),
{
    if names.len() == 0 {
        Seq::empty()
    } else {
        let before = given_names(names.drop_last());
        if names.last().len() == 0 || before.contains(names.last()) {
            before
        } else {
            before.push(names.last())
        }
    }
}

/// Resolves statically known assignments using a caller-supplied active
/// override list. This is useful for tools that obtain `OVERRIDES` from a
/// machine, distro, or target context outside the source file.
pub fn resolve_overrides_with_active(tree: &SyntaxTree, active_overrides: &[&str]) -> (r:
    OverrideResolution)
    requires
        tree.wf(),
    ensures
        r.wf(),
        r.active() == given_names(collections::str_texts(active_overrides@)),
        r.map() == resolution(assignments_of(tree.text()), r.active()),
{
    let raws = collect_assignments(tree);
    proof {
        lemma_node_count(*tree);
    }
    let ghost names = collections::str_texts(active_overrides@);
    let mut active: Vec<String> = Vec::new();
    let mut k: usize = 0;
    assert(names.take(0) =~= Seq::empty());
    assert(collections::string_texts(active@) =~= Seq::empty());
    while k < active_overrides.len()
        invariant
            k <= active_overrides@.len(),
            names == collections::str_texts(active_overrides@),
            collections::string_texts(active@) == given_names(names.take(k as int)),
        decreases active_overrides@.len() - k,
    {
        let name = active_overrides[k];
        assert(names.take(k + 1).drop_last() =~= names.take(k as int));
        assert(names.take(k + 1).last() == name@);
        let chars = chars_of(name);
        if chars.len() > 0 {
            push_distinct(&mut active, name.to_owned());
        }
        k += 1;
    }
    assert(names.take(k as int) =~= names);
    resolve_with_active_overrides(&raws, active)
}

/// The resolved value of `OVERRIDES` is the list of the active overrides.
pub proof fn law_overrides_variable_lists_active(raws: Seq<RawView>, active: Seq<Seq<char>>)
    ensures
        resolution(raws, active).dom().contains("OVERRIDES"@),
        resolution(raws, active)["OVERRIDES"@] == collections::joined(active, seq![':']),
{
}

proof fn lemma_positions_order(a: Seq<int>, b: Seq<int>)
    ensures
        !positions_less(a, a),
        positions_less(a, b) ==> !positions_less(b, a),
        positions_less(a, b) || positions_less(b, a) || a == b,
    decreases a.len(),
{
    if a.len() > 0 {
        lemma_positions_order(a.drop_first(), a.drop_first());
        if b.len() > 0 && a[0] == b[0] {
            lemma_positions_order(a.drop_first(), b.drop_first());
            if a.drop_first() == b.drop_first() {
                assert(a =~= seq![a[0]] + a.drop_first());
                assert(b =~= seq![b[0]] + b.drop_first());
            }
        }
    } else if b.len() == 0 {
        assert(a =~= b);
    }
}

proof fn lemma_positions_transitive(a: Seq<int>, b: Seq<int>, c: Seq<int>)
    requires
        positions_less(a, b),
        positions_less(b, c),
    ensures
        positions_less(a, c),
    decreases a.len(),
{
    if a.len() > 0 && a[0] == b[0] && b[0] == c[0] {
        lemma_positions_transitive(a.drop_first(), b.drop_first(), c.drop_first());
    }
}

/// Preference is transitive, and no variant is preferred to itself.
proof fn lemma_beats_transitive(
    es: Seq<EntryView>,
    base: Seq<char>,
    a: Seq<Seq<char>>,
    b: Seq<Seq<char>>,
    c: Seq<Seq<char>>,
    active: Seq<Seq<char>>,
)
    ensures
        !beats(es, base, a, a, active),
        beats(es, base, a, b, active) && beats(es, base, b, c, active) ==> beats(
            es,
            base,
            a,
            c,
            active,
        ),
{
    let (x, y, z) = (positions_of(a, active), positions_of(b, active), positions_of(c, active));
    lemma_positions_order(x, x);
    lemma_positions_order(x, y);
    lemma_positions_order(y, z);
    lemma_positions_order(x, z);
    if positions_less(z, y) && positions_less(y, x) {
        lemma_positions_transitive(z, y, x);
    }
}

/// The preferred variant of a variable is one of its variants, and no other is
/// preferred to it: none is more specific, and none that is as specific is set
/// later.
pub proof fn law_no_variant_beats_the_preferred(
    es: Seq<EntryView>,
    base: Seq<char>,
    active: Seq<Seq<char>>,
    k: int,
    j: int,
)
    requires
        0 <= j < k <= es.len(),
        is_variant(es[j], base),
    ensures
        best_variant(es, base, active, k) is Some,
        !beats(es, base, es[j].key.overrides, best_variant(es, base, active, k)->0, active),
        exists|i: int|
            0 <= i < k && is_variant(#[trigger] es[i], base) && es[i].key.overrides
                == best_variant(es, base, active, k)->0,
    decreases k,
{
    let e = es[k - 1];
    let x = es[j].key.overrides;
    let before = best_variant(es, base, active, k - 1);
    lemma_beats_transitive(es, base, e.key.overrides, x, x, active);
    if j < k - 1 {
        law_no_variant_beats_the_preferred(es, base, active, k - 1, j);
        lemma_beats_transitive(es, base, x, e.key.overrides, before->0, active);
    } else if before is Some {
        lemma_some_variant(es, base, active, k - 1);
    }
}

proof fn lemma_some_variant(es: Seq<EntryView>, base: Seq<char>, active: Seq<Seq<char>>, k: int)
    requires
        0 <= k <= es.len(),
        best_variant(es, base, active, k) is Some,
    ensures
        exists|i: int|
            0 <= i < k && is_variant(#[trigger] es[i], base) && es[i].key.overrides
                == best_variant(es, base, active, k)->0,
    decreases k,
{
    if k > 0 {
        let e = es[k - 1];
        let before = best_variant(es, base, active, k - 1);
        if best_variant(es, base, active, k) == before {
            lemma_some_variant(es, base, active, k - 1);
        } else {
            assert(is_variant(es[k - 1], base));
        }
    }
}

/// An assignment with an override that is not active is ignored: the others
/// contribute what they contribute without it.
pub proof fn law_inactive_assignments_are_ignored(
    before: Seq<RawView>,
    raw: RawView,
    after: Seq<RawView>,
    active: Seq<Seq<char>>,
    known: Map<Seq<char>, Seq<char>>,
)
    requires
        keys::key_of(raw.name, active, known) is Ok,
        !all_active(keys::key_of(raw.name, active, known)->Ok_0.overrides, active),
    ensures
        entries_of(before.push(raw) + after, active, known) == entries_of(
            before + after,
            active,
            known,
        ),
    decreases after.len(),
{
    if after.len() == 0 {
        assert(before.push(raw) + after =~= before.push(raw));
        assert(before + after =~= before);
        assert(before.push(raw).drop_last() =~= before);
    } else {
        law_inactive_assignments_are_ignored(before, raw, after.drop_last(), active, known);
        assert((before.push(raw) + after).drop_last() =~= before.push(raw) + after.drop_last());
        assert((before + after).drop_last() =~= before + after.drop_last());
    }
}

} // verus!
