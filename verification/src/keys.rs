//! Variable keys with overrides, operations and flags.
use crate::collections;
use crate::operator;
use crate::text;
use crate::collections::TextMap;
use crate::collections::push_text;
use crate::operator::is_pair_at;
use crate::text::append_chars;
use crate::text::append_str;
use crate::text::chars_of;
use crate::text::contains_char;
use crate::text::eq_str;
use crate::text::find_char;
use crate::text::find_str;
use crate::text::rfind_str;
use crate::text::same_chars;
use crate::text::string_of;
use vstd::prelude::*;
use vstd::slice::slice_subrange;

verus! {

/// An operation encoded in a BitBake override key.
#[derive(Clone, Copy, Debug, Eq, Ord, PartialEq, PartialOrd, Structural)]
pub enum OverrideOperation {
    /// A normal assignment key without an override operation.
    Plain,
    /// Append text after the selected value.
    Append,
    /// Prepend text before the selected value.
    Prepend,
    /// Remove whitespace-delimited tokens from the selected value.
    Remove,
}

/// The word that stands for an operation in a key.
pub open spec fn operation_word(operation: OverrideOperation) -> Option<Seq<char>> {
    match operation {
        OverrideOperation::Plain => None,
        OverrideOperation::Append => Some("append"@),
        OverrideOperation::Prepend => Some("prepend"@),
        OverrideOperation::Remove => Some("remove"@),
    }
}

impl OverrideOperation {
    /// The word that stands for the operation in a key.
    pub fn as_str(self) -> (r: Option<&'static str>)
        ensures
            match r {
                Some(word) => operation_word(self) == Some(word@),
                None => operation_word(self) is None,
            },
    {
        match self {
            OverrideOperation::Plain => None,
            OverrideOperation::Append => Some("append"),
            OverrideOperation::Prepend => Some("prepend"),
            OverrideOperation::Remove => Some("remove"),
        }
    }
}

/// The operation that a component of a key is, if any.
pub open spec fn component_operation(component: Seq<char>) -> OverrideOperation {
    if component == "append"@ {
        OverrideOperation::Append
    } else if component == "prepend"@ {
        OverrideOperation::Prepend
    } else if component == "remove"@ {
        OverrideOperation::Remove
    } else {
        OverrideOperation::Plain
    }
}

/// The operation that a component of a key is, if any.
pub fn operation_for(component: &[char]) -> (r: OverrideOperation)
    ensures
        r == component_operation(component@),
{
    if eq_str(component, "append") {
        OverrideOperation::Append
    } else if eq_str(component, "prepend") {
        OverrideOperation::Prepend
    } else if eq_str(component, "remove") {
        OverrideOperation::Remove
    } else {
        OverrideOperation::Plain
    }
}

/// Why a text is no override key.
pub enum KeyFault {
    MalformedFlag,
    EmptyFlag,
    OpenExpansion,
    EmptyComponent,
    TwoOperations,
    TwoLegacyOperations,
}

pub open spec fn key_fault_message(fault: KeyFault) -> Seq<char> {
    match fault {
        KeyFault::MalformedFlag => "override key has malformed variable flag"@,
        KeyFault::EmptyFlag => "override key has an empty variable flag"@,
        KeyFault::OpenExpansion => "override key contains an unclosed variable expansion"@,
        KeyFault::EmptyComponent => "override key contains an empty component"@,
        KeyFault::TwoOperations => "override key contains more than one override operation"@,
        KeyFault::TwoLegacyOperations => "legacy override key contains more than one operation"@,
    }
}

/// An error returned when a variable key cannot be interpreted as a BitBake
/// override key.
#[derive(Clone, Debug, Eq, PartialEq)]
pub struct OverrideKeyError {
    message: String,
}

impl OverrideKeyError {
    pub closed spec fn text(self) -> Seq<char> {
        self.message@
    }

    fn new(fault: KeyFault) -> (r: OverrideKeyError)
        ensures
            r.text() == key_fault_message(fault),
    {
        let message = match fault {
            KeyFault::MalformedFlag => "override key has malformed variable flag",
            KeyFault::EmptyFlag => "override key has an empty variable flag",
            KeyFault::OpenExpansion => "override key contains an unclosed variable expansion",
            KeyFault::EmptyComponent => "override key contains an empty component",
            KeyFault::TwoOperations => "override key contains more than one override operation",
            KeyFault::TwoLegacyOperations =>
                "legacy override key contains more than one operation",
        };
        OverrideKeyError { message: message.to_owned() }
    }

    /// Returns the explanation of the invalid key.
    pub fn message(&self) -> (r: &str)
        ensures
            r@ == self.text(),
    {
        self.message.as_str()
    }

    /// The error in words.
    pub fn to_string(&self) -> (r: String)
        ensures
            r@ == self.text(),
    {
        self.message.clone()
    }
}

// ---------------------------------------------------------------------------
// References
// ---------------------------------------------------------------------------
pub open spec fn open_reference() -> Seq<char> {
    seq!['$', '{']
}

/// Whether `t` holds a variable reference.
pub open spec fn has_reference(t: Seq<char>) -> bool {
    text::find_seq(t, open_reference(), 0) >= 0
}

/// `value` from `i` on with its references replaced by what `values` says of
/// them, and whether one of them could not be replaced.
///
/// Python expressions and unknown names stay as they are.
pub open spec fn expanded_from(
    value: Seq<char>,
    i: int,
    values: Map<Seq<char>, Seq<char>>,
) -> (Seq<char>, bool)
    decreases value.len() - i,
{
    let start = text::find_seq(value, open_reference(), i);
    let end = text::find_from(value, '}', start + 2);
    if i < 0 || i >= value.len() {
        (Seq::empty(), false)
    } else if start < i {
        (value.skip(i), false)
    } else if end >= value.len() || end < start + 2 {
        (value.skip(i), true)
    } else {
        let (rest, dynamic) = expanded_from(value, end + 1, values);
        let name = value.subrange(start + 2, end);
        if !text::has_prefix(name, seq!['@']) && values.dom().contains(name) {
            (value.subrange(i, start) + values[name] + rest, dynamic)
        } else {
            (value.subrange(i, end + 1) + rest, true)
        }
    }
}

/// `value` with its references replaced, and whether one could not be.
pub open spec fn expanded(
    value: Seq<char>,
    values: Map<Seq<char>, Seq<char>>,
) -> (Seq<char>, bool) {
    expanded_from(value, 0, values)
}

pub proof fn lemma_find_seq(t: Seq<char>, p: Seq<char>, i: int)
    requires
        0 <= i <= t.len(),
    ensures
        text::find_seq(t, p, i) == -1 || (i <= text::find_seq(t, p, i) && text::find_seq(t, p, i) + p.len()
            <= t.len()),
    decreases t.len() + 1 - i,
{
    if i == t.len() && p.len() == 0 {
        assert(t.subrange(i, i + p.len()) =~= p);
    }
    if i + p.len() <= t.len() && t.subrange(i, i + p.len()) != p && i < t.len() {
        lemma_find_seq(t, p, i + 1);
    }
}

/// `value` with its references replaced, and whether one could not be.
pub fn expand_references(value: &[char], values: &TextMap) -> (r: (Vec<char>, bool))
    requires
        values.wf(),
    ensures
        (r.0@, r.1) == expanded(value@, values.map()),
{
    let mut output: Vec<char> = Vec::new();
    let mut dynamic = false;
    let mut i: usize = 0;
    let mut marker: Vec<char> = Vec::new();
    marker.push('$');
    marker.push('{');
    assert(marker@ =~= open_reference());
    assert(output@ + expanded_from(value@, 0, values.map()).0 =~= expanded_from(
        value@,
        0,
        values.map(),
    ).0);
    while i < value.len()
        invariant
            i <= value@.len(),
            values.wf(),
            marker@ == open_reference(),
            output@ + expanded_from(value@, i as int, values.map()).0 == expanded(
                value@,
                values.map(),
            ).0,
            (dynamic || expanded_from(value@, i as int, values.map()).1) == expanded(
                value@,
                values.map(),
            ).1,
        decreases value@.len() - i,
    {
        proof {
            lemma_find_seq(value@, open_reference(), i as int);
            assert(value@.subrange(i as int, value@.len() as int) =~= value@.skip(i as int));
        }
        let start = match find_str(value, marker.as_slice(), i) {
            Some(start) => start,
            None => {
                append_chars(&mut output, slice_subrange(value, i, value.len()));
                return (output, dynamic);
            },
        };
        let end = find_char(value, '}', start + 2);
        if end >= value.len() {
            append_chars(&mut output, slice_subrange(value, i, value.len()));
            return (output, true);
        }
        let name = slice_subrange(value, start + 2, end);
        let python = name.len() > 0 && name[0] == '@';
        assert(python == text::has_prefix(name@, seq!['@'])) by {
            if name@.len() > 0 {
                assert(name@.take(1) =~= seq![name@[0]]);
                if text::has_prefix(name@, seq!['@']) {
                    assert(name@.take(1)[0] == '@');
                }
            }
        }
        let ghost before = output@;
        let ghost rest = expanded_from(value@, end + 1, values.map()).0;
        let known = if python {
            None
        } else {
            let text = string_of(name);
            values.get(text.as_str())
        };
        match known {
            Some(resolved) => {
                append_chars(&mut output, slice_subrange(value, i, start));
                append_str(&mut output, resolved);
                assert(output@ + rest =~= before + (value@.subrange(i as int, start as int)
                    + resolved@ + rest));
            },
            None => {
                dynamic = true;
                append_chars(&mut output, slice_subrange(value, i, end + 1));
                assert(output@ + rest =~= before + (value@.subrange(i as int, end + 1) + rest));
            },
        }
        i = end + 1;
    }
    assert(output@ + Seq::empty() =~= output@);
    (output, dynamic)
}

/// Whether `t` holds a variable reference.
pub fn contains_reference(t: &[char]) -> (r: bool)
    ensures
        r == has_reference(t@),
{
    let mut marker: Vec<char> = Vec::new();
    marker.push('$');
    marker.push('{');
    assert(marker@ =~= open_reference());
    match find_str(t, marker.as_slice(), 0) {
        Some(_) => true,
        None => false,
    }
}

// ---------------------------------------------------------------------------
// Parts of a key
// ---------------------------------------------------------------------------
/// The length of the key before its flag, and the flag.
pub open spec fn flag_split(name: Seq<char>) -> Result<(int, Option<Seq<char>>), KeyFault> {
    let open = text::find_from(name, '[', 0);
    let flag = name.subrange(open + 1, name.len() - 1);
    if open >= name.len() {
        Ok((name.len() as int, None))
    } else if name.last() != ']' || flag.contains('[') {
        Err(KeyFault::MalformedFlag)
    } else if flag.len() == 0 {
        Err(KeyFault::EmptyFlag)
    } else {
        Ok((open, Some(flag)))
    }
}

/// Splits a key into what precedes its flag and the flag.
fn split_flag(name: &[char]) -> (r: Result<(usize, Option<String>), KeyFault>)
    ensures
        match flag_split(name@) {
            Ok((len, flag)) => r matches Ok((n, f)) && n == len && n <= name@.len() && match flag {
                Some(text) => f is Some && f->0@ == text,
                None => f is None,
            },
            Err(fault) => r matches Err(e) && e == fault,
        },
{
    let open = find_char(name, '[', 0);
    if open >= name.len() {
        return Ok((name.len(), None));
    }
    proof {
        text::lemma_find(name@, '[', 0);
    }
    if name[name.len() - 1] != ']' {
        return Err(KeyFault::MalformedFlag);
    }
    let flag = slice_subrange(name, open + 1, name.len() - 1);
    if contains_char(flag, '[') {
        return Err(KeyFault::MalformedFlag);
    }
    if flag.len() == 0 {
        return Err(KeyFault::EmptyFlag);
    }
    Ok((open, Some(string_of(flag))))
}

/// The components of `t[start..]` once it is scanned from `i` on inside
/// `braces` references; `None` where a reference is not closed.
pub open spec fn components_from(
    t: Seq<char>,
    i: int,
    start: int,
    braces: nat,
) -> Option<Seq<Seq<char>>>
    decreases t.len() - i,
{
    if i < 0 || i >= t.len() {
        if braces == 0 {
            Some(seq![t.subrange(start, t.len() as int)])
        } else {
            None
        }
    } else if operator::pair_at(t, i, '$', '{') {
        components_from(t, i + 2, start, braces + 1)
    } else if t[i] == '}' && braces > 0 {
        components_from(t, i + 1, start, (braces - 1) as nat)
    } else if t[i] == ':' && braces == 0 {
        match components_from(t, i + 1, i + 1, 0) {
            Some(rest) => Some(seq![t.subrange(start, i)] + rest),
            None => None,
        }
    } else {
        components_from(t, i + 1, start, braces)
    }
}

/// The components of a key: what colons outside references separate.
pub open spec fn components_of(t: Seq<char>) -> Result<Seq<Seq<char>>, KeyFault> {
    match components_from(t, 0, 0, 0) {
        None => Err(KeyFault::OpenExpansion),
        Some(parts) => if exists|k: int| 0 <= k < parts.len() && (#[trigger] parts[k]).len() == 0 {
            Err(KeyFault::EmptyComponent)
        } else {
            Ok(parts)
        },
    }
}

proof fn lemma_components_nonempty(t: Seq<char>, i: int, start: int, braces: nat)
    ensures
        components_from(t, i, start, braces) matches Some(parts) ==> parts.len() > 0,
    decreases t.len() - i,
{
    if 0 <= i < t.len() {
        lemma_components_nonempty(t, i + 1, start, braces);
        if i + 1 < t.len() {
            lemma_components_nonempty(t, i + 2, start, braces + 1);
        }
        if braces > 0 {
            lemma_components_nonempty(t, i + 1, start, (braces - 1) as nat);
        }
        lemma_components_nonempty(t, i + 1, i + 1, 0);
    }
}

/// The components of a key.
fn split_components(t: &[char]) -> (r: Result<Vec<Vec<char>>, KeyFault>)
    ensures
        match components_of(t@) {
            Ok(parts) => r matches Ok(v) && collections::char_texts(v@) == parts && v@.len() > 0,
            Err(fault) => r matches Err(e) && e == fault,
        },
{
    let mut parts: Vec<Vec<char>> = Vec::new();
    let mut start: usize = 0;
    let mut braces: usize = 0;
    let mut i: usize = 0;
    proof {
        assert(collections::char_texts(parts@) =~= Seq::empty());
        if let Some(rest) = components_from(t@, 0, 0, 0) {
            assert(collections::char_texts(parts@) + rest =~= rest);
        }
        lemma_components_nonempty(t@, 0, 0, 0);
    }
    while i < t.len()
        invariant
            start <= i <= t@.len(),
            braces <= i,
            match components_from(t@, i as int, start as int, braces as nat) {
                Some(rest) => components_from(t@, 0, 0, 0) == Some(collections::char_texts(parts@) + rest),
                None => components_from(t@, 0, 0, 0) is None,
            },
        decreases t@.len() - i,
    {
        if is_pair_at(t, i, '$', '{') {
            braces += 1;
            i += 2;
            continue ;
        }
        if t[i] == '}' && braces > 0 {
            braces -= 1;
        } else if t[i] == ':' && braces == 0 {
            let mut part: Vec<char> = Vec::new();
            append_chars(&mut part, slice_subrange(t, start, i));
            assert(part@ =~= t@.subrange(start as int, i as int));
            let ghost before = parts@;
            parts.push(part);
            proof {
                assert(collections::char_texts(parts@) =~= collections::char_texts(before).push(part@));
                if let Some(rest) = components_from(t@, i + 1, i + 1, 0) {
                    assert(collections::char_texts(before) + (seq![part@] + rest) =~= collections::char_texts(parts@)
                        + rest);
                }
            }
            start = i + 1;
        }
        i += 1;
    }
    if braces != 0 {
        return Err(KeyFault::OpenExpansion);
    }
    let mut part: Vec<char> = Vec::new();
    append_chars(&mut part, slice_subrange(t, start, t.len()));
    assert(part@ =~= t@.subrange(start as int, t@.len() as int));
    let ghost before = parts@;
    parts.push(part);
    assert(collections::char_texts(parts@) =~= collections::char_texts(before) + seq![part@]);
    let mut k: usize = 0;
    while k < parts.len()
        invariant
            k <= parts@.len(),
            components_from(t@, 0, 0, 0) == Some(collections::char_texts(parts@)),
            forall|j: int| 0 <= j < k ==> (#[trigger] collections::char_texts(parts@)[j]).len() > 0,
        decreases parts@.len() - k,
    {
        assert(collections::char_texts(parts@)[k as int] == parts@[k as int]@);
        if parts[k].len() == 0 {
            return Err(KeyFault::EmptyComponent);
        }
        k += 1;
    }
    Ok(parts)
}

/// The operation among `parts`, the first of which is the base; a fault where
/// there are two.
pub open spec fn modern_operation(parts: Seq<Seq<char>>) -> Result<
    (OverrideOperation, int),
    KeyFault,
>
    decreases parts.len(),
{
    if parts.len() <= 1 {
        Ok((OverrideOperation::Plain, 0))
    } else {
        match modern_operation(parts.drop_last()) {
            Err(fault) => Err(fault),
            Ok((operation, position)) => {
                let last = component_operation(parts.last());
                if last == OverrideOperation::Plain {
                    Ok((operation, position))
                } else if operation != OverrideOperation::Plain {
                    Err(KeyFault::TwoOperations)
                } else {
                    Ok((last, parts.len() - 1))
                }
            },
        }
    }
}

/// The components of `parts` after the base that are no operation, expanded.
pub open spec fn modern_overrides(
    parts: Seq<Seq<char>>,
    values: Map<Seq<char>, Seq<char>>,
) -> Seq<Seq<char>>
    decreases parts.len(),
{
    if parts.len() <= 1 {
        Seq::empty()
    } else {
        let before = modern_overrides(parts.drop_last(), values);
        if component_operation(parts.last()) == OverrideOperation::Plain {
            before.push(expanded(parts.last(), values).0)
        } else {
            before
        }
    }
}

/// Whether the base or an override of `parts` holds a reference, and `values`
/// resolves all of its references or, with `unresolved`, does not.
pub open spec fn modern_reference(
    parts: Seq<Seq<char>>,
    values: Map<Seq<char>, Seq<char>>,
    unresolved: bool,
) -> bool {
    exists|k: int|
        0 <= k < parts.len() && (k == 0 || component_operation(#[trigger] parts[k])
            == OverrideOperation::Plain) && (if unresolved {
            expanded(parts[k], values).1
        } else {
            was_expanded(parts[k], values)
        })
}

/// Whether `part` holds references, all of which `values` resolves.
pub open spec fn was_expanded(part: Seq<char>, values: Map<Seq<char>, Seq<char>>) -> bool {
    has_reference(part) && !expanded(part, values).1
}

/// Whether index `i` of `name` is inside an open reference.
pub open spec fn inside(name: Seq<char>, i: int) -> bool {
    let start = text::rfind_seq(name.take(i), open_reference(), i);
    start >= 0 && text::find_from(name.take(i), '}', start + 2) >= i
}

fn inside_reference(name: &[char], index: usize) -> (r: bool)
    requires
        index <= name@.len(),
    ensures
        r == inside(name@, index as int),
{
    let mut marker: Vec<char> = Vec::new();
    marker.push('$');
    marker.push('{');
    assert(marker@ =~= open_reference());
    assert(name@.subrange(0, index as int) =~= name@.take(index as int));
    let prefix = slice_subrange(name, 0, index);
    match rfind_str(prefix, marker.as_slice()) {
        Some(start) => find_char(prefix, '}', start + 2) >= index,
        None => false,
    }
}

/// The starts of the occurrences of `_operation` in `name` from `i` on that end
/// a component and stand outside references.
pub open spec fn legacy_marks(name: Seq<char>, marker: Seq<char>, i: int) -> Seq<int>
    decreases name.len() - i,
{
    let start = text::find_seq(name, marker, i);
    let end = start + marker.len();
    if i < 0 || start < i || marker.len() == 0 || end > name.len() {
        Seq::empty()
    } else {
        let rest = legacy_marks(name, marker, end);
        if (end == name.len() || name[end] == '_') && !inside(name, start) {
            seq![start] + rest
        } else {
            rest
        }
    }
}

pub open spec fn legacy_marker(operation: OverrideOperation) -> Seq<char> {
    match operation {
        OverrideOperation::Plain => Seq::empty(),
        OverrideOperation::Append => seq!['_', 'a', 'p', 'p', 'e', 'n', 'd'],
        OverrideOperation::Prepend => seq!['_', 'p', 'r', 'e', 'p', 'e', 'n', 'd'],
        OverrideOperation::Remove => seq!['_', 'r', 'e', 'm', 'o', 'v', 'e'],
    }
}

pub open spec fn operation_marks(name: Seq<char>, operation: OverrideOperation) -> Seq<int> {
    legacy_marks(name, legacy_marker(operation), 0)
}

/// Where the operation of a legacy key starts, if it has one.
pub open spec fn legacy_operation(name: Seq<char>) -> Result<
    Option<(int, OverrideOperation)>,
    KeyFault,
> {
    let a = operation_marks(name, OverrideOperation::Append);
    let p = operation_marks(name, OverrideOperation::Prepend);
    let r = operation_marks(name, OverrideOperation::Remove);
    if a.len() + p.len() + r.len() > 1 {
        Err(KeyFault::TwoLegacyOperations)
    } else if a.len() == 1 {
        Ok(Some((a[0], OverrideOperation::Append)))
    } else if p.len() == 1 {
        Ok(Some((p[0], OverrideOperation::Prepend)))
    } else if r.len() == 1 {
        Ok(Some((r[0], OverrideOperation::Remove)))
    } else {
        Ok(None)
    }
}

/// Looks for a mark of one operation; `count` marks were found before.
fn find_marks(name: &[char], marker: &[char]) -> (r: (usize, usize))
    requires
        marker@.len() > 0,
    ensures
        r.0 == legacy_marks(name@, marker@, 0).len(),
        r.0 > 0 ==> r.1 == legacy_marks(name@, marker@, 0)[0] && r.1 + marker@.len()
            <= name@.len(),
{
    let mut search: usize = 0;
    let mut count: usize = 0;
    let mut first: usize = 0;
    let ghost all = legacy_marks(name@, marker@, 0);
    loop
        invariant
            search <= name@.len(),
            marker@.len() > 0,
            count <= search,
            all == legacy_marks(name@, marker@, 0),
            count + legacy_marks(name@, marker@, search as int).len() == all.len(),
            count > 0 ==> first == all[0] && first + marker@.len() <= name@.len(),
            count == 0 ==> legacy_marks(name@, marker@, search as int) == all,
        decreases name@.len() - search,
    {
        proof {
            lemma_find_seq(name@, marker@, search as int);
        }
        match find_str(name, marker, search) {
            None => {
                return (count, first);
            },
            Some(start) => {
                let size = name.len();
                assert(start + marker@.len() <= size);
                let end = start + marker.len();
                let boundary = end == name.len() || name[end] == '_';
                if boundary && !inside_reference(name, start) {
                    if count == 0 {
                        first = start;
                    }
                    count += 1;
                }
                search = end;
            },
        }
    }
}

/// The operation of a legacy key and where it starts.
fn find_legacy_operation(name: &[char]) -> (r: Result<
    Option<(usize, usize, OverrideOperation)>,
    KeyFault,
>)
    ensures
        match legacy_operation(name@) {
            Ok(Some((start, operation))) => r matches Ok(Some((s, e, o))) && s == start && o
                == operation && e == start + legacy_marker(operation).len() && s < e
                <= name@.len() && o != OverrideOperation::Plain,
            Ok(None) => r matches Ok(None),
            Err(fault) => r matches Err(e) && e == fault,
        },
{
    proof {
        reveal_strlit("_append");
        reveal_strlit("_prepend");
        reveal_strlit("_remove");
        assert("_append"@ =~= legacy_marker(OverrideOperation::Append));
        assert("_prepend"@ =~= legacy_marker(OverrideOperation::Prepend));
        assert("_remove"@ =~= legacy_marker(OverrideOperation::Remove));
    }
    let a = find_marks(name, chars_of("_append").as_slice());
    let p = find_marks(name, chars_of("_prepend").as_slice());
    let r = find_marks(name, chars_of("_remove").as_slice());
    let size = name.len();
    if a.0 > 1 || p.0 > 1 || r.0 > 1 || (a.0 == 1 && p.0 == 1) || (a.0 == 1 && r.0 == 1) || (p.0
        == 1 && r.0 == 1) {
        return Err(KeyFault::TwoLegacyOperations);
    }
    if a.0 == 1 {
        assert(a.1 + 7 <= size);
        Ok(Some((a.1, a.1 + 7, OverrideOperation::Append)))
    } else if p.0 == 1 {
        assert(p.1 + 8 <= size);
        Ok(Some((p.1, p.1 + 8, OverrideOperation::Prepend)))
    } else if r.0 == 1 {
        assert(r.1 + 7 <= size);
        Ok(Some((r.1, r.1 + 7, OverrideOperation::Remove)))
    } else {
        Ok(None)
    }
}

/// Whether `name` is a text, an underscore and `component`, the text not empty.
pub open spec fn ends_in_component(name: Seq<char>, component: Seq<char>) -> bool {
    name.len() > component.len() + 1 && text::has_suffix(name, seq!['_'] + component)
}

/// The length of the longest of the first `k` active overrides that ends
/// `name`, or -1.
pub open spec fn longest_suffix(name: Seq<char>, active: Seq<Seq<char>>, k: int) -> int
    decreases k,
{
    if k <= 0 || k > active.len() {
        -1
    } else {
        let before = longest_suffix(name, active, k - 1);
        let component = active[k - 1];
        if ends_in_component(name, component) && component.len() > before {
            component.len() as int
        } else {
            before
        }
    }
}

proof fn lemma_longest_suffix(name: Seq<char>, active: Seq<Seq<char>>, k: int)
    ensures
        -1 <= longest_suffix(name, active, k),
        longest_suffix(name, active, k) >= 0 ==> longest_suffix(name, active, k) + 1 < name.len(),
    decreases k,
{
    if 0 < k <= active.len() {
        lemma_longest_suffix(name, active, k - 1);
    }
}

/// A legacy name without the active overrides that end it, and these.
pub open spec fn strip_legacy(name: Seq<char>, active: Seq<Seq<char>>) -> (
    Seq<char>,
    Seq<Seq<char>>,
)
    decreases name.len(),
{
    let n = longest_suffix(name, active, active.len() as int);
    if n < 0 || n + 1 >= name.len() {
        (name, Seq::empty())
    } else {
        let (base, overrides) = strip_legacy(name.take(name.len() - n - 1), active);
        (base, overrides.push(name.skip(name.len() - n)))
    }
}

fn longest_legacy_suffix(name: &[char], active: &Vec<String>) -> (r: Option<usize>)
    ensures
        match r {
            Some(n) => longest_suffix(name@, collections::string_texts(active@), active@.len() as int) == n && n
                + 1 < name@.len(),
            None => longest_suffix(name@, collections::string_texts(active@), active@.len() as int) < 0,
        },
{
    let mut best: Option<usize> = None;
    let mut k: usize = 0;
    let ghost texts = collections::string_texts(active@);
    while k < active.len()
        invariant
            k <= active@.len(),
            texts == collections::string_texts(active@),
            match best {
                Some(n) => longest_suffix(name@, texts, k as int) == n && n + 1 < name@.len(),
                None => longest_suffix(name@, texts, k as int) == -1,
            },
        decreases active@.len() - k,
    {
        let component = chars_of(active[k].as_str());
        assert(component@ == texts[k as int]);
        let n = component.len();
        let longer = match best {
            Some(found) => n > found,
            None => true,
        };
        if name.len() > n && name.len() - n > 1 && longer && name[name.len() - n - 1] == '_' {
            let at = name.len() - n;
            if same_chars(slice_subrange(name, at, name.len()), component.as_slice()) {
                proof {
                    let p = seq!['_'] + component@;
                    assert(name@.skip(name@.len() - p.len()) =~= p) by {
                        assert(name@.subrange(at as int, name@.len() as int) == component@);
                        assert forall|j: int| 0 <= j < p.len() implies name@.skip(
                            name@.len() - p.len(),
                        )[j] == #[trigger] p[j] by {
                            if j > 0 {
                                assert(name@.subrange(at as int, name@.len() as int)[j - 1]
                                    == component@[j - 1]);
                            }
                        }
                    }
                }
                best = Some(n);
            } else {
                proof {
                    let p = seq!['_'] + component@;
                    if text::has_suffix(name@, p) {
                        assert(name@.subrange(at as int, name@.len() as int) =~= component@) by {
                            assert forall|j: int| 0 <= j < n implies name@.subrange(
                                at as int,
                                name@.len() as int,
                            )[j] == #[trigger] component@[j] by {
                                assert(name@.skip(name@.len() - p.len())[j + 1] == p[j + 1]);
                            }
                        }
                    }
                }
            }
        } else {
            proof {
                let p = seq!['_'] + component@;
                if text::has_suffix(name@, p) && name@.len() > n + 1 {
                    assert(name@.skip(name@.len() - p.len())[0] == p[0]);
                }
            }
        }
        k += 1;
    }
    best
}

// ---------------------------------------------------------------------------
// Keys
// ---------------------------------------------------------------------------
/// What a variable key says.
pub struct KeyView {
    pub base: Seq<char>,
    pub overrides: Seq<Seq<char>>,
    pub operation: OverrideOperation,
    pub flag: Option<Seq<char>>,
    pub legacy: bool,
    pub dynamic: bool,
    /// Whether the operation changes the override-specific value before that
    /// value is selected.
    pub on_selected: bool,
    /// Whether a part of the key holds references that were expanded.
    pub key_expanded: bool,
}

/// What the key `name` with colons says: a base, then overrides and at most
/// one operation.
pub open spec fn modern_key(
    body: Seq<char>,
    flag: Option<Seq<char>>,
    values: Map<Seq<char>, Seq<char>>,
) -> Result<KeyView, KeyFault> {
    match components_of(body) {
        Err(fault) => Err(fault),
        Ok(parts) => match modern_operation(parts) {
            Err(fault) => Err(fault),
            Ok((operation, position)) => Ok(
                KeyView {
                    base: expanded(parts[0], values).0,
                    overrides: modern_overrides(parts, values),
                    operation,
                    flag,
                    legacy: false,
                    dynamic: modern_reference(parts, values, true),
                    on_selected: position > 1,
                    key_expanded: modern_reference(parts, values, false),
                },
            ),
        },
    }
}

/// What the key `name` without colons says: a base, then active overrides and
/// at most one operation, joined by underscores.
pub open spec fn legacy_key(
    body: Seq<char>,
    flag: Option<Seq<char>>,
    active: Seq<Seq<char>>,
    values: Map<Seq<char>, Seq<char>>,
) -> Result<KeyView, KeyFault> {
    match legacy_operation(body) {
        Err(fault) => Err(fault),
        Ok(found) => {
            let operation = match found {
                Some((_, o)) => o,
                None => OverrideOperation::Plain,
            };
            let start = match found {
                Some((s, _)) => s,
                None => body.len() as int,
            };
            let end = start + legacy_marker(operation).len();
            let compact = body.take(start) + body.skip(end);
            let (base, overrides) = strip_legacy(compact, active);
            Ok(
                KeyView {
                    base: expanded(base, values).0,
                    overrides,
                    operation,
                    flag,
                    legacy: found is Some || overrides.len() > 0 || body.contains('_'),
                    dynamic: expanded(base, values).1,
                    on_selected: found is Some && end == body.len() && start > 0 && overrides.len()
                        > 0,
                    key_expanded: was_expanded(base, values),
                },
            )
        },
    }
}

/// What the key `name` says where `active` lists the active overrides and
/// `values` the known variables.
pub open spec fn key_of(
    name: Seq<char>,
    active: Seq<Seq<char>>,
    values: Map<Seq<char>, Seq<char>>,
) -> Result<KeyView, KeyFault> {
    match flag_split(name) {
        Err(fault) => Err(fault),
        Ok((len, flag)) => {
            let body = name.take(len);
            if body.contains(':') {
                modern_key(body, flag, values)
            } else {
                legacy_key(body, flag, active, values)
            }
        },
    }
}

/// A parsed BitBake variable key with modern or legacy override notation.
#[derive(Clone, Debug, Eq, PartialEq)]
pub struct OverrideKey {
    raw: String,
    base: String,
    overrides: Vec<String>,
    operation: OverrideOperation,
    flag: Option<String>,
    legacy: bool,
    dynamic: bool,
    operation_on_selected_value: bool,
    key_expanded: bool,
}

impl OverrideKey {
    pub closed spec fn raw_text(self) -> Seq<char> {
        self.raw@
    }

    /// What the key says.
    pub closed spec fn view(&self) -> KeyView {
        KeyView {
            base: self.base@,
            overrides: collections::string_texts(self.overrides@),
            operation: self.operation,
            flag: collections::optional_text(self.flag),
            legacy: self.legacy,
            dynamic: self.dynamic,
            on_selected: self.operation_on_selected_value,
            key_expanded: self.key_expanded,
        }
    }

    /// Returns the original variable key.
    pub fn raw(&self) -> (r: &str)
        ensures
            r@ == self.raw_text(),
    {
        self.raw.as_str()
    }

    /// Returns the normalized base variable name.
    pub fn base(&self) -> (r: &str)
        ensures
            r@ == self.view().base,
    {
        self.base.as_str()
    }

    /// Returns normalized literal override components in key order.
    pub fn overrides(&self) -> (r: &Vec<String>)
        ensures
            collections::string_texts(r@) == self.view().overrides,
    {
        &self.overrides
    }

    /// Returns the number of override components.
    pub fn override_count(&self) -> (r: usize)
        ensures
            r == self.view().overrides.len(),
    {
        assert(collections::string_texts(self.overrides@).len() == self.overrides@.len());
        self.overrides.len()
    }

    /// Returns the operation encoded in the key.
    pub fn operation(&self) -> (r: OverrideOperation)
        ensures
            r == self.view().operation,
    {
        self.operation
    }

    /// Returns whether the operation modifies the override-specific variable
    /// before that variable is selected. For example, `A:machine:append`
    /// targets the `A:machine` value, while `A:append:machine` appends to the
    /// selected `A` value.
    pub fn operation_on_selected_value(&self) -> (r: bool)
        ensures
            r == self.view().on_selected,
    {
        self.operation_on_selected_value
    }

    /// Returns the variable flag, when the key contains one.
    pub fn flag(&self) -> (r: Option<&str>)
        ensures
            match r {
                Some(flag) => self.view().flag == Some(flag@),
                None => self.view().flag is None,
            },
    {
        match &self.flag {
            Some(flag) => Some(flag.as_str()),
            None => None,
        }
    }

    /// Returns whether the key used legacy underscore notation.
    pub fn is_legacy(&self) -> (r: bool)
        ensures
            r == self.view().legacy,
    {
        self.legacy
    }

    /// Returns whether a variable or override component could not be expanded
    /// statically.
    pub fn is_dynamic(&self) -> (r: bool)
        ensures
            r == self.view().dynamic,
    {
        self.dynamic
    }

    /// Returns whether the key contained a variable reference that was
    /// expanded during normalization.
    pub fn key_expanded(&self) -> (r: bool)
        ensures
            r == self.view().key_expanded,
    {
        self.key_expanded
    }
}

fn parse_modern_key(
    name: &str,
    body: &[char],
    flag: Option<String>,
    values: &TextMap,
) -> (r: Result<OverrideKey, OverrideKeyError>)
    requires
        values.wf(),
    ensures
        match modern_key(
            body@,
            collections::optional_text(flag),
            values.map(),
        ) {
            Ok(view) => r matches Ok(key) && key.view() == view && key.raw_text() == name@,
            Err(fault) => r matches Err(e) && e.text() == key_fault_message(fault),
        },
{
    let parts = match split_components(body) {
        Ok(parts) => parts,
        Err(fault) => {
            return Err(OverrideKeyError::new(fault));
        },
    };
    let ghost texts = collections::char_texts(parts@);
    assert(texts[0] == parts@[0]@);
    let (base, base_dynamic) = expand_references(parts[0].as_slice(), values);
    let mut dynamic = base_dynamic;
    let mut key_expanded = !base_dynamic && contains_reference(parts[0].as_slice());
    let mut operation = OverrideOperation::Plain;
    let mut position: usize = 0;
    let mut overrides: Vec<String> = Vec::new();
    let mut k: usize = 1;
    proof {
        assert(collections::string_texts(overrides@) =~= Seq::empty());
        assert(texts.take(1).len() == 1);
    }
    while k < parts.len()
        invariant
            1 <= k <= parts@.len(),
            components_of(body@) == Ok::<Seq<Seq<char>>, KeyFault>(texts),
            texts == collections::char_texts(parts@),
            values.wf(),
            modern_operation(texts.take(k as int)) == Ok::<(OverrideOperation, int), KeyFault>(
                (operation, position as int),
            ),
            position < k,
            collections::string_texts(overrides@) == modern_overrides(texts.take(k as int), values.map()),
            dynamic == exists|j: int|
                0 <= j < k && (j == 0 || component_operation(#[trigger] texts[j])
                    == OverrideOperation::Plain) && expanded(texts[j], values.map()).1,
            key_expanded == exists|j: int|
                0 <= j < k && (j == 0 || component_operation(#[trigger] texts[j])
                    == OverrideOperation::Plain) && was_expanded(texts[j], values.map()),
        decreases parts@.len() - k,
    {
        let part = parts[k].as_slice();
        assert(texts[k as int] == part@);
        assert(texts.take(k + 1).drop_last() =~= texts.take(k as int));
        assert(texts.take(k + 1).last() == part@);
        let candidate = operation_for(part);
        if let OverrideOperation::Plain = candidate {
            let (text, unresolved) = expand_references(part, values);
            push_text(&mut overrides, string_of(text.as_slice()));
            if unresolved {
                dynamic = true;
            } else if contains_reference(part) {
                key_expanded = true;
            }
        } else {
            if operation != OverrideOperation::Plain {
                proof {
                    lemma_modern_fault(texts, k + 1);
                }
                return Err(OverrideKeyError::new(KeyFault::TwoOperations));
            }
            operation = candidate;
            position = k;
        }
        k += 1;
    }
    assert(texts.take(k as int) =~= texts);
    Ok(
        OverrideKey {
            raw: name.to_owned(),
            base: string_of(base.as_slice()),
            overrides,
            operation,
            flag,
            legacy: false,
            dynamic,
            operation_on_selected_value: position > 1,
            key_expanded,
        },
    )
}

/// A fault among the first parts is a fault of all.
proof fn lemma_modern_fault(parts: Seq<Seq<char>>, k: int)
    requires
        1 <= k <= parts.len(),
        modern_operation(parts.take(k)) is Err,
    ensures
        modern_operation(parts) == modern_operation(parts.take(k)),
    decreases parts.len() - k,
{
    if k < parts.len() {
        assert(parts.take(k + 1).drop_last() =~= parts.take(k));
        lemma_modern_fault(parts, k + 1);
    } else {
        assert(parts.take(k) =~= parts);
    }
}

fn parse_legacy_key(
    name: &str,
    body: &[char],
    flag: Option<String>,
    active: &Vec<String>,
    values: &TextMap,
) -> (r: Result<OverrideKey, OverrideKeyError>)
    requires
        values.wf(),
    ensures
        match legacy_key(
            body@,
            collections::optional_text(flag),
            collections::string_texts(active@),
            values.map(),
        ) {
            Ok(view) => r matches Ok(key) && key.view() == view && key.raw_text() == name@,
            Err(fault) => r matches Err(e) && e.text() == key_fault_message(fault),
        },
{
    let found = match find_legacy_operation(body) {
        Ok(found) => found,
        Err(fault) => {
            return Err(OverrideKeyError::new(fault));
        },
    };
    let (start, end, operation) = match found {
        Some(mark) => mark,
        None => (body.len(), body.len(), OverrideOperation::Plain),
    };
    let mut compact: Vec<char> = Vec::new();
    append_chars(&mut compact, slice_subrange(body, 0, start));
    append_chars(&mut compact, slice_subrange(body, end, body.len()));
    assert(compact@ =~= body@.take(start as int) + body@.skip(end as int));
    let ghost texts = collections::string_texts(active@);
    let mut len: usize = compact.len();
    let mut reversed: Vec<String> = Vec::new();
    assert(compact@.take(len as int) =~= compact@);
    assert(collections::string_texts(reversed@).reverse() =~= Seq::empty());
    assert(strip_legacy(compact@, texts).1 + Seq::empty() =~= strip_legacy(compact@, texts).1);
    loop
        invariant
            len <= compact@.len(),
            texts == collections::string_texts(active@),
            strip_legacy(compact@.take(len as int), texts).0 == strip_legacy(compact@, texts).0,
            strip_legacy(compact@.take(len as int), texts).1 + collections::string_texts(reversed@).reverse()
                == strip_legacy(compact@, texts).1,
        ensures
            len <= compact@.len(),
            compact@.take(len as int) == strip_legacy(compact@, texts).0,
            collections::string_texts(reversed@).reverse() == strip_legacy(compact@, texts).1,
        decreases len,
    {
        let name_now = slice_subrange(compact.as_slice(), 0, len);
        assert(name_now@ =~= compact@.take(len as int));
        match longest_legacy_suffix(name_now, active) {
            None => {
                assert(Seq::empty() + collections::string_texts(reversed@).reverse() =~= collections::string_texts(
                    reversed@,
                ).reverse());
                break ;
            },
            Some(n) => {
                let component = slice_subrange(name_now, len - n, len);
                let ghost before = collections::string_texts(reversed@);
                proof {
                    assert(component@ =~= name_now@.skip(name_now@.len() - n));
                    assert(name_now@.take(len - n - 1) =~= compact@.take(len - n - 1));
                    let rest = strip_legacy(compact@.take(len - n - 1), texts).1;
                    assert(rest.push(component@) + before.reverse() =~= rest + before.push(
                        component@,
                    ).reverse());
                }
                push_text(&mut reversed, string_of(component));
                len = len - n - 1;
            },
        }
    }
    let mut overrides: Vec<String> = Vec::new();
    let mut k: usize = reversed.len();
    let ghost listed = collections::string_texts(reversed@).reverse();
    assert(collections::string_texts(overrides@) =~= listed.take(0));
    while k > 0
        invariant
            k <= reversed@.len(),
            listed == collections::string_texts(reversed@).reverse(),
            collections::string_texts(overrides@) == listed.take(reversed@.len() - k),
        decreases k,
    {
        k -= 1;
        let text = &reversed[k];
        let ghost at = reversed@.len() - k - 1;
        assert(listed[at] == text@);
        push_text(&mut overrides, text.clone());
        assert(listed.take(at + 1) =~= listed.take(at).push(listed[at]));
    }
    assert(listed.take(reversed@.len() as int) =~= listed);
    let base_chars = slice_subrange(compact.as_slice(), 0, len);
    assert(base_chars@ =~= compact@.take(len as int));
    let (base, dynamic) = expand_references(base_chars, values);
    let key_expanded = !dynamic && contains_reference(base_chars);
    let has_operation = found.is_some();
    let has_overrides = overrides.len() > 0;
    proof {
        let stripped = strip_legacy(compact@, texts);
        assert(base_chars@ == stripped.0);
        assert(collections::string_texts(overrides@) == stripped.1);
        assert(collections::string_texts(overrides@).len() == overrides@.len());
        assert(key_expanded == was_expanded(stripped.0, values.map()));
        assert(found is Some == legacy_operation(body@)->Ok_0 is Some);
    }
    let legacy = has_operation || has_overrides || contains_char(body, '_');
    let key = OverrideKey {
        raw: name.to_owned(),
        base: string_of(base.as_slice()),
        overrides,
        operation,
        flag,
        legacy,
        dynamic,
        operation_on_selected_value: has_operation && end == body.len() && start > 0
            && has_overrides,
        key_expanded,
    };
    Ok(key)
}

/// Parses the key `name` where `active` lists the active overrides and `values`
/// the known variables.
pub fn parse_key(name: &str, active: &Vec<String>, values: &TextMap) -> (r: Result<
    OverrideKey,
    OverrideKeyError,
>)
    requires
        values.wf(),
    ensures
        match key_of(name@, collections::string_texts(active@), values.map()) {
            Ok(view) => r matches Ok(key) && key.view() == view && key.raw_text() == name@,
            Err(fault) => r matches Err(e) && e.text() == key_fault_message(fault),
        },
{
    let chars = chars_of(name);
    let (len, flag) = match split_flag(chars.as_slice()) {
        Ok(parts) => parts,
        Err(fault) => {
            return Err(OverrideKeyError::new(fault));
        },
    };
    let body = slice_subrange(chars.as_slice(), 0, len);
    assert(body@ =~= name@.take(len as int));
    if contains_char(body, ':') {
        parse_modern_key(name, body, flag, values)
    } else {
        parse_legacy_key(name, body, flag, active, values)
    }
}

/// Parses modern override notation and any unambiguous legacy operation
/// suffixes without an active override list.
pub fn parse_override_key(name: &str) -> (r: Result<OverrideKey, OverrideKeyError>)
    ensures
        match key_of(name@, Seq::empty(), Map::empty()) {
            Ok(view) => r matches Ok(key) && key.view() == view && key.raw_text() == name@,
            Err(fault) => r matches Err(e) && e.text() == key_fault_message(fault),
        },
{
    let active: Vec<String> = Vec::new();
    assert(collections::string_texts(active@) =~= Seq::empty());
    parse_key(name, &active, &TextMap::new())
}

/// Parses a variable key using the supplied active override names to interpret
/// legacy underscore suffixes such as `RDEPENDS_${PN}_class-native`.
pub fn parse_override_key_with_overrides(name: &str, active_overrides: &[&str]) -> (r: Result<
    OverrideKey,
    OverrideKeyError,
>)
    ensures
        match key_of(name@, collections::str_texts(active_overrides@), Map::empty()) {
            Ok(view) => r matches Ok(key) && key.view() == view && key.raw_text() == name@,
            Err(fault) => r matches Err(e) && e.text() == key_fault_message(fault),
        },
{
    let mut active: Vec<String> = Vec::new();
    let mut k: usize = 0;
    while k < active_overrides.len()
        invariant
            k <= active_overrides@.len(),
            active@.len() == k,
            forall|j: int| 0 <= j < k ==> (#[trigger] active@[j])@ == active_overrides@[j]@,
        decreases active_overrides@.len() - k,
    {
        active.push(active_overrides[k].to_owned());
        k += 1;
    }
    assert(collections::string_texts(active@) =~= collections::str_texts(active_overrides@));
    parse_key(name, &active, &TextMap::new())
}

/// A modern key names the same base and overrides whatever overrides are active.
pub proof fn law_modern_keys_ignore_active_overrides(
    name: Seq<char>,
    a: Seq<Seq<char>>,
    b: Seq<Seq<char>>,
    values: Map<Seq<char>, Seq<char>>,
)
    requires
        flag_split(name) matches Ok((len, _)) && name.take(len).contains(':'),
    ensures
        key_of(name, a, values) == key_of(name, b, values),
{
}

} // verus!
