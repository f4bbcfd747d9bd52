//! Fully expanded recipe environments.
use crate::collections;
use crate::output;
use crate::text;
use crate::values;
use crate::collections::TextMap;
use crate::collections::has_text;
use crate::collections::is_str_less;
use crate::output::SemanticDiagnostic;
use crate::output::SemanticDiagnosticPhase;
use crate::output::SemanticView;
use crate::output::analysis_diagnostic;
use crate::output::split_lines;
use crate::text::CharClass;
use crate::text::append_chars;
use crate::text::append_str;
use crate::text::chars_of;
use crate::text::copy_chars;
use crate::text::find_char;
use crate::text::is_alphanumeric;
use crate::text::same_str;
use crate::text::split_words;
use crate::text::starts_with;
use crate::text::string_of;
use crate::text::trim;
use crate::values::begins;
use vstd::prelude::*;
use vstd::slice::slice_subrange;

verus! {

/// Whether `c` may stand in the name of a variable.
pub open spec fn is_environment_char(c: char) -> bool {
    text::is_alnum(c) || c == '_' || c == '-' || c == '+' || c == '.' || c == ':' || c == '[' || c == ']'
}

/// Whether a text is the name of a variable.
pub open spec fn environment_name(t: Seq<char>) -> bool {
    t.len() > 0 && forall|k: int| 0 <= k < t.len() ==> is_environment_char(#[trigger] t[k])
}

fn is_environment_name(t: &[char]) -> (r: bool)
    ensures
        r == environment_name(t@),
{
    if t.len() == 0 {
        return false;
    }
    let mut k: usize = 0;
    while k < t.len()
        invariant
            k <= t@.len(),
            forall|j: int| 0 <= j < k ==> is_environment_char(#[trigger] t@[j]),
        decreases t@.len() - k,
    {
        let c = t[k];
        if !(is_alphanumeric(c) || c == '_' || c == '-' || c == '+' || c == '.' || c == ':' || c
            == '[' || c == ']') {
            assert(!is_environment_char(t@[k as int]));
            return false;
        }
        k += 1;
    }
    true
}

/// The name that stands before the equals sign of an environment line.
pub open spec fn assigned_name(t: Seq<char>) -> Seq<char> {
    let name = text::trimmed(t, CharClass::Whitespace);
    if text::has_prefix(name, "export "@) {
        name.skip(7)
    } else {
        name
    }
}

/// The variable that a line of an environment assigns, and the text of its
/// value.
pub open spec fn environment_assignment(line: Seq<char>) -> Option<(Seq<char>, Seq<char>)> {
    let equals = text::find_from(line, '=', 0);
    let name = assigned_name(line.take(equals));
    if line.len() > 0 && (line[0] == '#' || line[0] == ' ' || line[0] == '\t') {
        None
    } else if equals < line.len() && environment_name(name) {
        Some((name, text::trimmed(line.skip(equals + 1), CharClass::Whitespace)))
    } else {
        None
    }
}

fn parse_environment_assignment(line: &[char]) -> (r: Option<(Vec<char>, Vec<char>)>)
    ensures
        match r {
            Some((name, value)) => environment_assignment(line@) == Some((name@, value@)),
            None => environment_assignment(line@) is None,
        },
{
    if line.len() > 0 && (line[0] == '#' || line[0] == ' ' || line[0] == '\t') {
        return None;
    }
    let equals = find_char(line, '=', 0);
    if equals >= line.len() {
        return None;
    }
    let before = slice_subrange(line, 0, equals);
    assert(before@ =~= line@.take(equals as int));
    let mut name = trim(before, CharClass::Whitespace);
    proof {
        reveal_strlit("export ");
    }
    if starts_with(name, "export ") {
        let rest = slice_subrange(name, 7, name.len());
        assert(rest@ =~= name@.skip(7));
        name = rest;
    }
    if !is_environment_name(name) {
        return None;
    }
    let after = slice_subrange(line, equals + 1, line.len());
    assert(after@ =~= line@.skip(equals + 1));
    Some((copy_chars(name), copy_chars(trim(after, CharClass::Whitespace))))
}

/// Whether a value opens a double quote that it does not close.
pub open spec fn open_quote(value: Seq<char>) -> bool {
    value.len() > 0 && value[0] == '"' && values::close_from(value, 1, '"', false) >= value.len()
}

fn has_unterminated_double_quote(value: &[char]) -> (r: bool)
    ensures
        r == open_quote(value@),
{
    if value.len() == 0 || value[0] != '"' {
        return false;
    }
    let mut escaped = false;
    let mut i: usize = 1;
    while i < value.len() && (escaped || value[i] != '"')
        invariant
            1 <= i <= value@.len(),
            values::close_from(value@, 1, '"', false) == values::close_from(value@, i as int, '"', escaped),
        decreases value@.len() - i,
    {
        escaped = !escaped && value[i] == '\\';
        i += 1;
    }
    i >= value.len()
}

/// What an escaped character of a quoted value stands for.
pub open spec fn unescaped(c: char) -> Seq<char> {
    if c == '\n' {
        Seq::empty()
    } else if c == 'n' {
        seq!['\n']
    } else if c == 'r' {
        seq!['\r']
    } else if c == 't' {
        seq!['\t']
    } else {
        seq![c]
    }
}

/// What `t[i..]` stands for inside quotes.
pub open spec fn decoded_from(t: Seq<char>, i: int, escaped: bool) -> Seq<char>
    decreases t.len() - i,
{
    if i < 0 || i >= t.len() {
        if escaped {
            seq!['\\']
        } else {
            Seq::empty()
        }
    } else if escaped {
        unescaped(t[i]) + decoded_from(t, i + 1, false)
    } else if t[i] == '\\' {
        decoded_from(t, i + 1, true)
    } else {
        seq![t[i]] + decoded_from(t, i + 1, false)
    }
}

/// What the text of a value stands for.
pub open spec fn decoded(value: Seq<char>) -> Seq<char> {
    if value.len() >= 2 && value[0] == '"' && value.last() == '"' {
        decoded_from(value.subrange(1, value.len() - 1), 0, false)
    } else {
        value
    }
}

fn decode_environment_value(value: &[char]) -> (r: String)
    ensures
        r@ == decoded(value@),
{
    if value.len() < 2 || value[0] != '"' || value[value.len() - 1] != '"' {
        return string_of(value);
    }
    let t = slice_subrange(value, 1, value.len() - 1);
    let mut out: Vec<char> = Vec::new();
    let mut escaped = false;
    let mut i: usize = 0;
    assert(out@ + decoded_from(t@, 0, false) =~= decoded(value@));
    while i < t.len()
        invariant
            i <= t@.len(),
            out@ + decoded_from(t@, i as int, escaped) == decoded(value@),
        decreases t@.len() - i,
    {
        let c = t[i];
        let ghost before = out@;
        let ghost rest = decoded_from(t@, i + 1, false);
        if escaped {
            if c != '\n' {
                out.push(
                    match c {
                        'n' => '\n',
                        'r' => '\r',
                        't' => '\t',
                        _ => c,
                    },
                );
            }
            escaped = false;
            assert(out@ =~= before + unescaped(c));
            assert(before + (unescaped(c) + rest) =~= (before + unescaped(c)) + rest);
        } else if c == '\\' {
            escaped = true;
        } else {
            out.push(c);
            assert(before + (seq![c] + rest) =~= before.push(c) + rest);
        }
        i += 1;
    }
    if escaped {
        let ghost before = out@;
        out.push('\\');
        assert(out@ =~= before + seq!['\\']);
    } else {
        assert(out@ + Seq::<char>::empty() =~= out@);
    }
    string_of(out.as_slice())
}

/// The text of a value that begins with `value` and may go on in the lines
/// from `k`, and the line after it.
pub open spec fn value_lines(lines: Seq<Seq<char>>, k: int, value: Seq<char>) -> (Seq<char>, int)
    decreases lines.len() - k,
{
    if k < 0 || k >= lines.len() || !open_quote(value) {
        (value, k)
    } else {
        value_lines(lines, k + 1, value + "\n"@ + lines[k])
    }
}

proof fn lemma_value_lines(lines: Seq<Seq<char>>, k: int, value: Seq<char>)
    requires
        0 <= k <= lines.len(),
    ensures
        k <= value_lines(lines, k, value).1 <= lines.len(),
    decreases lines.len() - k,
{
    if k < lines.len() && open_quote(value) {
        lemma_value_lines(lines, k + 1, value + "\n"@ + lines[k]);
    }
}

/// The variables of the lines from `k`, after those of `found`.
pub open spec fn variables_from(
    lines: Seq<Seq<char>>,
    k: int,
    found: Seq<(Seq<char>, Seq<char>)>,
) -> Seq<(Seq<char>, Seq<char>)>
    decreases lines.len() - k,
{
    if k < 0 || k >= lines.len() {
        found
    } else {
        match environment_assignment(lines[k]) {
            Some((name, first)) => {
                let (value, next) = value_lines(lines, k + 1, first);
                if k < next <= lines.len() {
                    variables_from(lines, next, collections::pairs_insert(found, name, decoded(value)))
                } else {
                    found
                }
            },
            None => variables_from(lines, k + 1, found),
        }
    }
}

/// The variables of an environment, in the order of their names.
pub open spec fn environment_values(raw: Seq<char>) -> Seq<(Seq<char>, Seq<char>)> {
    variables_from(output::text_lines(raw), 0, Seq::empty())
}

/// The variables of an environment.
pub fn parse_environment_values(raw: &str) -> (r: TextMap)
    ensures
        r.wf(),
        r.pairs() == environment_values(raw@),
{
    let lines = split_lines(chars_of(raw).as_slice());
    let ghost all = collections::char_texts(lines@);
    let mut out = TextMap::new();
    let mut k: usize = 0;
    while k < lines.len()
        invariant
            k <= lines@.len(),
            all == collections::char_texts(lines@),
            all == output::text_lines(raw@),
            out.wf(),
            variables_from(all, k as int, out.pairs()) == environment_values(raw@),
        decreases lines@.len() - k,
    {
        assert(all[k as int] == lines@[k as int]@);
        match parse_environment_assignment(lines[k].as_slice()) {
            Some((name, first)) => {
                let ghost goal = value_lines(all, k + 1, first@);
                proof {
                    lemma_value_lines(all, k + 1, first@);
                }
                let mut value = first;
                let mut next: usize = k + 1;
                while next < lines.len() && has_unterminated_double_quote(value.as_slice())
                    invariant
                        k < next <= lines@.len(),
                        all == collections::char_texts(lines@),
                        value_lines(all, next as int, value@) == goal,
                    decreases lines@.len() - next,
                {
                    assert(all[next as int] == lines@[next as int]@);
                    append_str(&mut value, "\n");
                    append_chars(&mut value, lines[next].as_slice());
                    next += 1;
                }
                out.insert(string_of(name.as_slice()), decode_environment_value(value.as_slice()));
                k = next;
            },
            None => {
                k += 1;
            },
        }
    }
    out
}

/// The pairs of `values[k..]` whose names are in `wanted`, after those of
/// `found`.
pub open spec fn requested_from(
    values: Seq<(Seq<char>, Seq<char>)>,
    k: int,
    wanted: Seq<Seq<char>>,
    found: Seq<(Seq<char>, Seq<char>)>,
) -> Seq<(Seq<char>, Seq<char>)>
    decreases values.len() - k,
{
    if k < 0 || k >= values.len() {
        found
    } else {
        requested_from(
            values,
            k + 1,
            wanted,
            if wanted.contains(values[k].0) {
                collections::pairs_insert(found, values[k].0, values[k].1)
            } else {
                found
            },
        )
    }
}

/// A fully expanded recipe environment returned by `bitbake -e`.
#[derive(Clone, Debug, Eq, PartialEq)]
pub struct SemanticEnvironment {
    target: String,
    variables: TextMap,
    raw: String,
}

#[verifier::ext_equal]
pub struct EnvironmentView {
    pub target: Seq<char>,
    pub variables: Seq<(Seq<char>, Seq<char>)>,
    pub raw: Seq<char>,
}

/// The environment of `target` with the requested variables.
pub open spec fn environment_of(target: Seq<char>, raw: Seq<char>, wanted: Seq<Seq<char>>) -> EnvironmentView {
    EnvironmentView {
        target,
        variables: requested_from(environment_values(raw), 0, wanted, Seq::empty()),
        raw,
    }
}

/// The value of a variable of an environment.
pub open spec fn variable_of(e: EnvironmentView, name: Seq<char>) -> Option<Seq<char>> {
    let map = collections::pairs_map(e.variables);
    if map.dom().contains(name) {
        Some(map[name])
    } else {
        None
    }
}

impl SemanticEnvironment {
    pub closed spec fn view(&self) -> EnvironmentView {
        EnvironmentView {
            target: self.target@,
            variables: self.variables.pairs(),
            raw: self.raw@,
        }
    }

    pub closed spec fn wf(&self) -> bool {
        self.variables.wf()
    }

    /// The target that was asked about.
    pub fn target(&self) -> (r: &str)
        ensures
            r@ == self@.target,
    {
        self.target.as_str()
    }

    /// A resolved value when the variable was selected. Values are unquoted
    /// and common BitBake escape sequences are decoded, while function bodies
    /// and unknown forms remain available through [`Self::raw`].
    pub fn get(&self, variable: &str) -> (r: Option<&str>)
        requires
            self.wf(),
        ensures
            output::optional_view(r) == variable_of(self@, variable@),
    {
        self.variables.get(variable)
    }

    /// The selected variables.
    pub fn variables(&self) -> (r: &TextMap)
        ensures
            r.pairs() == self@.variables,
    {
        &self.variables
    }

    /// The exact environment dump emitted by BitBake.
    pub fn raw(&self) -> (r: &str)
        ensures
            r@ == self@.raw,
    {
        self.raw.as_str()
    }
}

/// The environment of `target` with the requested variables.
pub fn parse_environment(target: &str, raw: &str, requested: &Vec<String>) -> (r:
    SemanticEnvironment)
    ensures
        r.wf(),
        r@ == environment_of(target@, raw@, collections::string_texts(requested@)),
{
    let values = parse_environment_values(raw);
    let entries = values.entries();
    let ghost all = environment_values(raw@);
    let ghost wanted = collections::string_texts(requested@);
    let mut variables = TextMap::new();
    let mut k: usize = 0;
    assert(collections::pair_texts(entries@) == all);
    while k < entries.len()
        invariant
            k <= entries@.len(),
            all == collections::pair_texts(entries@),
            wanted == collections::string_texts(requested@),
            variables.wf(),
            requested_from(all, k as int, wanted, variables.pairs()) == requested_from(
                all,
                0,
                wanted,
                Seq::empty(),
            ),
        decreases entries@.len() - k,
    {
        assert(all[k as int] == (entries@[k as int].0@, entries@[k as int].1@));
        if has_text(requested, entries[k].0.as_str()) {
            variables.insert(entries[k].0.clone(), entries[k].1.clone());
        }
        k += 1;
    }
    SemanticEnvironment { target: target.to_owned(), variables, raw: raw.to_owned() }
}

// ---------------------------------------------------------------------------
// Packages
// ---------------------------------------------------------------------------
/// The words of a text as strings.
pub fn words_as_strings(t: &[char], class: CharClass) -> (r: Vec<String>)
    ensures
        collections::string_texts(r@) == text::word_texts(t@, class),
{
    let words = split_words(t, class);
    let mut out: Vec<String> = Vec::new();
    let mut k: usize = 0;
    while k < words.len()
        invariant
            k <= words@.len(),
            text::ranges_match(words@, text::words_of(t@, class)),
            text::ranges_inside(words@, t@.len() as int),
            out@.len() == k,
            forall|j: int| 0 <= j < k ==> (#[trigger] out@[j])@ == text::word_texts(t@, class)[j],
        decreases words@.len() - k,
    {
        let (a, b) = words[k];
        out.push(string_of(slice_subrange(t, a, b)));
        k += 1;
    }
    assert(collections::string_texts(out@) =~= text::word_texts(t@, class));
    out
}

/// Lists of words by names.
#[derive(Clone, Debug, Eq, PartialEq)]
pub struct WordsMap {
    entries: Vec<(String, Vec<String>)>,
}

/// The first position from `k` whose name does not come before `key`.
pub open spec fn words_place(
    items: Seq<(Seq<char>, Seq<Seq<char>>)>,
    key: Seq<char>,
    k: int,
) -> int
    decreases items.len() - k,
{
    if k < 0 || k >= items.len() {
        items.len() as int
    } else if collections::text_less(items[k].0, key) {
        words_place(items, key, k + 1)
    } else {
        k
    }
}

/// Sorted lists of words with the list `words` for `key`.
pub open spec fn with_list(
    items: Seq<(Seq<char>, Seq<Seq<char>>)>,
    key: Seq<char>,
    words: Seq<Seq<char>>,
) -> Seq<(Seq<char>, Seq<Seq<char>>)> {
    let k = words_place(items, key, 0);
    if k < items.len() && items[k].0 == key {
        items.update(k, (key, words))
    } else {
        items.insert(k, (key, words))
    }
}

/// The names of lists of words are in strictly increasing order, so that each
/// occurs once.
pub open spec fn names_ascend(items: Seq<(Seq<char>, Seq<Seq<char>>)>) -> bool {
    forall|i: int, j: int|
        0 <= i < j < items.len() ==> collections::text_less(
            (#[trigger] items[i]).0,
            (#[trigger] items[j]).0,
        )
}

/// The first list of `key` from `k` on.
pub open spec fn list_from(
    items: Seq<(Seq<char>, Seq<Seq<char>>)>,
    key: Seq<char>,
    k: int,
) -> Option<Seq<Seq<char>>>
    decreases items.len() - k,
{
    if k < 0 || k >= items.len() {
        None
    } else if items[k].0 == key {
        Some(items[k].1)
    } else {
        list_from(items, key, k + 1)
    }
}

proof fn lemma_words_place(items: Seq<(Seq<char>, Seq<Seq<char>>)>, key: Seq<char>, k: int)
    requires
        0 <= k <= items.len(),
    ensures
        k <= words_place(items, key, k) <= items.len(),
        forall|i: int|
            k <= i < words_place(items, key, k) ==> collections::text_less(
                (#[trigger] items[i]).0,
                key,
            ),
        words_place(items, key, k) < items.len() ==> !collections::text_less(
            items[words_place(items, key, k)].0,
            key,
        ),
    decreases items.len() - k,
{
    if k < items.len() && collections::text_less(items[k].0, key) {
        lemma_words_place(items, key, k + 1);
    }
}

/// Lists whose names ascend keep that when one is added.
proof fn lemma_names_ascend(
    items: Seq<(Seq<char>, Seq<Seq<char>>)>,
    key: Seq<char>,
    words: Seq<Seq<char>>,
)
    requires
        names_ascend(items),
    ensures
        names_ascend(with_list(items, key, words)),
{
    let p = words_place(items, key, 0);
    lemma_words_place(items, key, 0);
    let out = with_list(items, key, words);
    if p < items.len() && items[p].0 == key {
        assert forall|i: int| 0 <= i < out.len() implies (#[trigger] out[i]).0 == items[i].0 by {}
    } else {
        assert forall|i: int| p <= i < items.len() implies collections::text_less(
            key,
            (#[trigger] items[i]).0,
        ) by {
            collections::lemma_text_less_total(key, items[p].0);
            if i > p {
                collections::lemma_text_less_transitive(key, items[p].0, items[i].0);
            }
        }
        assert forall|i: int, j: int| 0 <= i < j < out.len() implies collections::text_less(
            (#[trigger] out[i]).0,
            (#[trigger] out[j]).0,
        ) by {
            if j < p {
                assert(out[i] == items[i] && out[j] == items[j]);
            } else if j == p {
                assert(out[i] == items[i]);
            } else if i < p {
                assert(out[i] == items[i] && out[j] == items[j - 1]);
            } else if i == p {
                assert(out[j] == items[j - 1]);
            } else {
                assert(out[i] == items[i - 1] && out[j] == items[j - 1]);
            }
        }
    }
}

/// In lists whose names ascend every list is the one that its name gives, and
/// adding a list gives its name that list and leaves the others.
pub proof fn law_lists_are_found_by_name(
    items: Seq<(Seq<char>, Seq<Seq<char>>)>,
    key: Seq<char>,
    words: Seq<Seq<char>>,
)
    requires
        names_ascend(items),
    ensures
        forall|i: int|
            0 <= i < items.len() ==> list_from(items, (#[trigger] items[i]).0, 0) == Some(
                items[i].1,
            ),
        list_from(with_list(items, key, words), key, 0) == Some(words),
        forall|other: Seq<char>|
            other != key ==> #[trigger] list_from(with_list(items, key, words), other, 0)
                == list_from(items, other, 0),
{
    let p = words_place(items, key, 0);
    lemma_words_place(items, key, 0);
    lemma_names_ascend(items, key, words);
    let out = with_list(items, key, words);
    assert forall|i: int| 0 <= i < items.len() implies list_from(items, (#[trigger] items[i]).0, 0)
        == Some(items[i].1) by {
        lemma_list_at(items, 0, i);
    }
    lemma_list_at(out, 0, p);
    assert forall|other: Seq<char>| other != key implies #[trigger] list_from(out, other, 0)
        == list_from(items, other, 0) by {
        lemma_list_from(items, other, 0);
        if let Some(found) = list_from(items, other, 0) {
            let i = choose|i: int| 0 <= i < items.len() && #[trigger] items[i] == (other, found);
            if (p < items.len() && items[p].0 == key) || i < p {
                assert(out[i] == items[i]);
                lemma_list_at(out, 0, i);
            } else {
                assert(out[i + 1] == items[i]);
                lemma_list_at(out, 0, i + 1);
            }
        } else {
            lemma_list_from(out, other, 0);
            if let Some(found) = list_from(out, other, 0) {
                let i = choose|i: int| 0 <= i < out.len() && #[trigger] out[i] == (other, found);
                if (p < items.len() && items[p].0 == key) || i < p {
                    assert(items[i].0 == other);
                } else {
                    assert(items[i - 1].0 == other);
                }
            }
        }
    }
}

proof fn lemma_list_from(items: Seq<(Seq<char>, Seq<Seq<char>>)>, key: Seq<char>, k: int)
    requires
        0 <= k <= items.len(),
    ensures
        match list_from(items, key, k) {
            Some(found) => exists|i: int| k <= i < items.len() && #[trigger] items[i] == (key, found),
            None => forall|i: int| k <= i < items.len() ==> (#[trigger] items[i]).0 != key,
        },
    decreases items.len() - k,
{
    if k < items.len() {
        if items[k].0 == key {
            assert(items[k] == (key, items[k].1));
        } else {
            lemma_list_from(items, key, k + 1);
        }
    }
}

proof fn lemma_list_at(items: Seq<(Seq<char>, Seq<Seq<char>>)>, k: int, i: int)
    requires
        0 <= k <= i < items.len(),
        names_ascend(items),
    ensures
        list_from(items, items[i].0, k) == Some(items[i].1),
    decreases i - k,
{
    if k < i {
        collections::lemma_text_less_irreflexive(items[i].0);
        assert(collections::text_less(items[k].0, items[i].0));
        lemma_list_at(items, k + 1, i);
    }
}

/// The contents of lists of words.
pub open spec fn list_views(items: Seq<(String, Vec<String>)>) -> Seq<
    (Seq<char>, Seq<Seq<char>>),
> {
    items.map_values(|e: (String, Vec<String>)| (e.0@, collections::string_texts(e.1@)))
}

impl WordsMap {
    pub closed spec fn view(&self) -> Seq<(Seq<char>, Seq<Seq<char>>)> {
        list_views(self.entries@)
    }

    /// No lists.
    pub fn new() -> (r: WordsMap)
        ensures
            r@ == Seq::<(Seq<char>, Seq<Seq<char>>)>::empty(),
            names_ascend(r@),
    {
        let r = WordsMap { entries: Vec::new() };
        assert(r@ =~= Seq::empty());
        r
    }

    /// Gives `key` the list `words`.
    pub fn insert(&mut self, key: String, words: Vec<String>)
        ensures
            final(self)@ == with_list(old(self)@, key@, collections::string_texts(words@)),
            names_ascend(old(self)@) ==> names_ascend(final(self)@),
    {
        proof {
            if names_ascend(self@) {
                lemma_names_ascend(self@, key@, collections::string_texts(words@));
            }
        }
        let ghost all = self@;
        let ghost name = key@;
        let ghost texts = collections::string_texts(words@);
        let mut k: usize = 0;
        while k < self.entries.len() && is_str_less(self.entries[k].0.as_str(), key.as_str())
            invariant
                k <= self.entries@.len(),
                all == self@,
                name == key@,
                words_place(all, name, 0) == words_place(all, name, k as int),
            decreases self.entries@.len() - k,
        {
            assert(all[k as int].0 == self.entries@[k as int].0@);
            k += 1;
        }
        if k < self.entries.len() {
            assert(all[k as int].0 == self.entries@[k as int].0@);
            if same_str(self.entries[k].0.as_str(), key.as_str()) {
                self.entries.set(k, (key, words));
                assert(self@ =~= all.update(k as int, (name, texts)));
                return;
            }
        }
        self.entries.insert(k, (key, words));
        assert(self@ =~= all.insert(k as int, (name, texts)));
    }

    /// The lists in the order of their names.
    pub fn entries(&self) -> (r: &Vec<(String, Vec<String>)>)
        ensures
            list_views(r@) == self@,
    {
        &self.entries
    }

    /// The list of `key`.
    pub fn get(&self, key: &str) -> (r: Option<&Vec<String>>)
        ensures
            match r {
                Some(words) => list_from(self@, key@, 0) == Some(collections::string_texts(words@)),
                None => list_from(self@, key@, 0) is None,
            },
    {
        let mut k: usize = 0;
        while k < self.entries.len()
            invariant
                k <= self.entries@.len(),
                list_from(self@, key@, k as int) == list_from(self@, key@, 0),
            decreases self.entries@.len() - k,
        {
            assert(self@[k as int] == (
                self.entries@[k as int].0@,
                collections::string_texts(self.entries@[k as int].1@),
            ));
            if same_str(self.entries[k].0.as_str(), key) {
                return Some(&self.entries[k].1);
            }
            k += 1;
        }
        None
    }
}

pub open spec fn is_brace(c: char) -> bool {
    c == '{' || c == '}'
}

/// The first position from `i` that holds no brace.
pub open spec fn after_braces(t: Seq<char>, i: int) -> int
    decreases t.len() - i,
{
    if i < 0 || i >= t.len() {
        t.len() as int
    } else if is_brace(t[i]) {
        after_braces(t, i + 1)
    } else {
        i
    }
}

/// The end of `t[s..e]` without the braces at its end.
pub open spec fn before_braces(t: Seq<char>, s: int, e: int) -> int
    decreases e,
{
    if e <= s {
        s
    } else if 0 < e <= t.len() && is_brace(t[e - 1]) {
        before_braces(t, s, e - 1)
    } else {
        e
    }
}

/// A text without the braces around it.
pub open spec fn unbraced(t: Seq<char>) -> Seq<char> {
    let s = after_braces(t, 0);
    t.subrange(s, before_braces(t, s, t.len() as int))
}

/// The package that a variable of the family `base` is about.
pub open spec fn suffix_package(name: Seq<char>, base: Seq<char>) -> Option<Seq<char>> {
    let suffix = name.skip(base.len() as int + 1);
    if (text::has_prefix(name, base + seq![':']) || text::has_prefix(name, base + seq!['_'])) && suffix.len()
        > 0 {
        Some(unbraced(suffix))
    } else {
        None
    }
}

fn unbrace(t: &[char]) -> (r: String)
    ensures
        r@ == unbraced(t@),
{
    let mut s: usize = 0;
    while s < t.len() && (t[s] == '{' || t[s] == '}')
        invariant
            s <= t@.len(),
            after_braces(t@, 0) == after_braces(t@, s as int),
        decreases t@.len() - s,
    {
        s += 1;
    }
    let mut e: usize = t.len();
    while e > s && (t[e - 1] == '{' || t[e - 1] == '}')
        invariant
            s <= e <= t@.len(),
            before_braces(t@, s as int, t@.len() as int) == before_braces(
                t@,
                s as int,
                e as int,
            ),
        decreases e,
    {
        e -= 1;
    }
    string_of(slice_subrange(t, s, e))
}

fn variable_package_suffix(name: &str, base: &str) -> (r: Option<String>)
    ensures
        collections::optional_text(r) == suffix_package(name@, base@),
{
    let chars = chars_of(name);
    let mut prefix = chars_of(base);
    let n = prefix.len();
    prefix.push(':');
    assert(prefix@ =~= base@ + seq![':']);
    let colon = begins(chars.as_slice(), prefix.as_slice());
    prefix.set(n, '_');
    assert(prefix@ =~= base@ + seq!['_']);
    let underscore = begins(chars.as_slice(), prefix.as_slice());
    if (!colon && !underscore) || chars.len() == prefix.len() {
        return None;
    }
    let suffix = slice_subrange(chars.as_slice(), prefix.len(), chars.len());
    assert(suffix@ =~= name@.skip(n + 1));
    Some(unbrace(suffix))
}

/// The package metadata of variables.
#[verifier::ext_equal]
pub struct RuntimeView {
    pub dependencies: Seq<(Seq<char>, Seq<Seq<char>>)>,
    pub recommended: Seq<(Seq<char>, Seq<Seq<char>>)>,
    pub provides: Seq<(Seq<char>, Seq<Seq<char>>)>,
}

/// The package metadata of one more variable.
pub open spec fn runtime_step(r: RuntimeView, name: Seq<char>, value: Seq<char>) -> RuntimeView {
    let words = text::word_texts(value, CharClass::Whitespace);
    match suffix_package(name, "RDEPENDS"@) {
        Some(package) => RuntimeView {
            dependencies: with_list(r.dependencies, package, words),
            ..r
        },
        None => match suffix_package(name, "RRECOMMENDS"@) {
            Some(package) => RuntimeView {
                recommended: with_list(r.recommended, package, words),
                ..r
            },
            None => match suffix_package(name, "RPROVIDES"@) {
                Some(package) => RuntimeView {
                    provides: with_list(r.provides, package, words),
                    ..r
                },
                None => r,
            },
        },
    }
}

/// The package metadata of the variables `values[k..]`, after `r`.
pub open spec fn runtime_from(values: Seq<(Seq<char>, Seq<char>)>, k: int, r: RuntimeView) -> RuntimeView
    decreases values.len() - k,
{
    if k < 0 || k >= values.len() {
        r
    } else {
        runtime_from(values, k + 1, runtime_step(r, values[k].0, values[k].1))
    }
}

/// The words of the variable `name`, or none.
pub open spec fn variable_words(values: Seq<(Seq<char>, Seq<char>)>, name: Seq<char>) -> Seq<
    Seq<char>,
> {
    let map = collections::pairs_map(values);
    if map.dom().contains(name) {
        text::word_texts(map[name], CharClass::Whitespace)
    } else {
        Seq::empty()
    }
}

fn words_of_variable(values: &TextMap, name: &str) -> (r: Vec<String>)
    requires
        values.wf(),
    ensures
        collections::string_texts(r@) == variable_words(values.pairs(), name@),
{
    match values.get(name) {
        Some(value) => words_as_strings(chars_of(value).as_slice(), CharClass::Whitespace),
        None => {
            let none: Vec<String> = Vec::new();
            assert(collections::string_texts(none@) =~= Seq::empty());
            none
        },
    }
}

/// Resolved package and image metadata for one target environment.
#[derive(Clone, Debug, Eq, PartialEq)]
pub struct SemanticPackageSummary {
    target: String,
    succeeded: bool,
    diagnostics: Vec<SemanticDiagnostic>,
    packages: Vec<String>,
    provides: Vec<String>,
    build_dependencies: Vec<String>,
    image_install: Vec<String>,
    image_fstypes: Vec<String>,
    runtime_dependencies: WordsMap,
    runtime_recommends: WordsMap,
    runtime_provides: WordsMap,
}

#[verifier::ext_equal]
pub struct SummaryView {
    pub target: Seq<char>,
    pub succeeded: bool,
    pub diagnostics: Seq<SemanticView>,
    pub packages: Seq<Seq<char>>,
    pub provides: Seq<Seq<char>>,
    pub build_dependencies: Seq<Seq<char>>,
    pub image_install: Seq<Seq<char>>,
    pub image_fstypes: Seq<Seq<char>>,
    pub runtime: RuntimeView,
}

/// No package metadata.
pub open spec fn no_runtime() -> RuntimeView {
    RuntimeView { dependencies: Seq::empty(), recommended: Seq::empty(), provides: Seq::empty() }
}

/// The package metadata of an environment.
pub open spec fn summary_of(target: Seq<char>, raw: Seq<char>) -> SummaryView {
    let values = environment_values(raw);
    SummaryView {
        target,
        succeeded: true,
        diagnostics: Seq::empty(),
        packages: variable_words(values, "PACKAGES"@),
        provides: variable_words(values, "PROVIDES"@),
        build_dependencies: variable_words(values, "DEPENDS"@),
        image_install: variable_words(values, "IMAGE_INSTALL"@),
        image_fstypes: variable_words(values, "IMAGE_FSTYPES"@),
        runtime: runtime_from(values, 0, no_runtime()),
    }
}

/// The package metadata of a target without an environment.
pub open spec fn failed_summary(target: Seq<char>) -> SummaryView {
    SummaryView {
        target,
        succeeded: false,
        diagnostics: seq![
            output::analysis_failure(
                SemanticDiagnosticPhase::PackageSummary,
                Some(target),
                "package metadata unavailable because the target environment query failed"@,
            ),
        ],
        packages: Seq::empty(),
        provides: Seq::empty(),
        build_dependencies: Seq::empty(),
        image_install: Seq::empty(),
        image_fstypes: Seq::empty(),
        runtime: no_runtime(),
    }
}

/// The names of the package metadata ascend.
pub open spec fn runtime_ascends(r: RuntimeView) -> bool {
    names_ascend(r.dependencies) && names_ascend(r.recommended) && names_ascend(r.provides)
}

proof fn lemma_runtime_ascends(values: Seq<(Seq<char>, Seq<char>)>, k: int, r: RuntimeView)
    requires
        0 <= k <= values.len(),
        runtime_ascends(r),
    ensures
        runtime_ascends(runtime_from(values, k, r)),
    decreases values.len() - k,
{
    if k < values.len() {
        let (name, value) = values[k];
        let words = text::word_texts(value, CharClass::Whitespace);
        if let Some(package) = suffix_package(name, "RDEPENDS"@) {
            lemma_names_ascend(r.dependencies, package, words);
        } else if let Some(package) = suffix_package(name, "RRECOMMENDS"@) {
            lemma_names_ascend(r.recommended, package, words);
        } else if let Some(package) = suffix_package(name, "RPROVIDES"@) {
            lemma_names_ascend(r.provides, package, words);
        }
        lemma_runtime_ascends(values, k + 1, runtime_step(r, name, value));
    }
}

/// The metadata of a target names every package once, in order.
pub proof fn law_summaries_name_packages_once(target: Seq<char>, raw: Seq<char>)
    ensures
        runtime_ascends(summary_of(target, raw).runtime),
        runtime_ascends(failed_summary(target).runtime),
{
    lemma_runtime_ascends(environment_values(raw), 0, no_runtime());
}

impl SemanticPackageSummary {
    pub closed spec fn view(&self) -> SummaryView {
        SummaryView {
            target: self.target@,
            succeeded: self.succeeded,
            diagnostics: output::semantic_views(self.diagnostics@),
            packages: collections::string_texts(self.packages@),
            provides: collections::string_texts(self.provides@),
            build_dependencies: collections::string_texts(self.build_dependencies@),
            image_install: collections::string_texts(self.image_install@),
            image_fstypes: collections::string_texts(self.image_fstypes@),
            runtime: RuntimeView {
                dependencies: self.runtime_dependencies@,
                recommended: self.runtime_recommends@,
                provides: self.runtime_provides@,
            },
        }
    }

    /// The target that was asked about.
    pub fn target(&self) -> (r: &str)
        ensures
            r@ == self@.target,
    {
        self.target.as_str()
    }

    /// Whether the metadata is there.
    pub fn succeeded(&self) -> (r: bool)
        ensures
            r == self@.succeeded,
    {
        self.succeeded
    }

    /// What went wrong.
    pub fn diagnostics(&self) -> (r: &Vec<SemanticDiagnostic>)
        ensures
            output::semantic_views(r@) == self@.diagnostics,
    {
        &self.diagnostics
    }

    /// The packages of the recipe.
    pub fn packages(&self) -> (r: &Vec<String>)
        ensures
            collections::string_texts(r@) == self@.packages,
    {
        &self.packages
    }

    /// What the recipe provides.
    pub fn provides(&self) -> (r: &Vec<String>)
        ensures
            collections::string_texts(r@) == self@.provides,
    {
        &self.provides
    }

    /// What the recipe needs to be built.
    pub fn build_dependencies(&self) -> (r: &Vec<String>)
        ensures
            collections::string_texts(r@) == self@.build_dependencies,
    {
        &self.build_dependencies
    }

    /// What the image installs.
    pub fn image_install(&self) -> (r: &Vec<String>)
        ensures
            collections::string_texts(r@) == self@.image_install,
    {
        &self.image_install
    }

    /// The types of the image.
    pub fn image_fstypes(&self) -> (r: &Vec<String>)
        ensures
            collections::string_texts(r@) == self@.image_fstypes,
    {
        &self.image_fstypes
    }

    /// What each package needs at run time.
    pub fn runtime_dependencies(&self) -> (r: &WordsMap)
        ensures
            r@ == self@.runtime.dependencies,
    {
        &self.runtime_dependencies
    }

    /// What each package suggests at run time.
    pub fn runtime_recommends(&self) -> (r: &WordsMap)
        ensures
            r@ == self@.runtime.recommended,
    {
        &self.runtime_recommends
    }

    /// What each package provides at run time.
    pub fn runtime_provides(&self) -> (r: &WordsMap)
        ensures
            r@ == self@.runtime.provides,
    {
        &self.runtime_provides
    }
}

/// The package metadata of an environment.
pub fn package_summary_from_environment(environment: &SemanticEnvironment) -> (r:
    SemanticPackageSummary)
    ensures
        r@ == summary_of(environment@.target, environment@.raw),
{
    let values = parse_environment_values(environment.raw());
    let ghost all = values.pairs();
    let entries = values.entries();
    let mut dependencies = WordsMap::new();
    let mut recommended = WordsMap::new();
    let mut provides = WordsMap::new();
    let mut k: usize = 0;
    while k < entries.len()
        invariant
            k <= entries@.len(),
            all == collections::pair_texts(entries@),
            runtime_from(
                all,
                k as int,
                RuntimeView {
                    dependencies: dependencies@,
                    recommended: recommended@,
                    provides: provides@,
                },
            ) == runtime_from(all, 0, no_runtime()),
        decreases entries@.len() - k,
    {
        assert(all[k as int] == (entries@[k as int].0@, entries@[k as int].1@));
        let name = entries[k].0.as_str();
        let value = chars_of(entries[k].1.as_str());
        if let Some(package) = variable_package_suffix(name, "RDEPENDS") {
            dependencies.insert(
                package,
                words_as_strings(value.as_slice(), CharClass::Whitespace),
            );
        } else if let Some(package) = variable_package_suffix(name, "RRECOMMENDS") {
            recommended.insert(package, words_as_strings(value.as_slice(), CharClass::Whitespace));
        } else if let Some(package) = variable_package_suffix(name, "RPROVIDES") {
            provides.insert(package, words_as_strings(value.as_slice(), CharClass::Whitespace));
        }
        k += 1;
    }
    let none: Vec<SemanticDiagnostic> = Vec::new();
    assert(output::semantic_views(none@) =~= Seq::empty());
    SemanticPackageSummary {
        target: environment.target().to_owned(),
        succeeded: true,
        diagnostics: none,
        packages: words_of_variable(&values, "PACKAGES"),
        provides: words_of_variable(&values, "PROVIDES"),
        build_dependencies: words_of_variable(&values, "DEPENDS"),
        image_install: words_of_variable(&values, "IMAGE_INSTALL"),
        image_fstypes: words_of_variable(&values, "IMAGE_FSTYPES"),
        runtime_dependencies: dependencies,
        runtime_recommends: recommended,
        runtime_provides: provides,
    }
}

fn no_words() -> (r: Vec<String>)
    ensures
        collections::string_texts(r@) == Seq::<Seq<char>>::empty(),
{
    let none: Vec<String> = Vec::new();
    assert(collections::string_texts(none@) =~= Seq::empty());
    none
}

/// The package metadata of a target without an environment.
pub fn failed_package_summary(target: &str) -> (r: SemanticPackageSummary)
    ensures
        r@ == failed_summary(target@),
{
    let mut diagnostics: Vec<SemanticDiagnostic> = Vec::new();
    diagnostics.push(
        analysis_diagnostic(
            SemanticDiagnosticPhase::PackageSummary,
            Some(target),
            "package metadata unavailable because the target environment query failed",
        ),
    );
    let r = SemanticPackageSummary {
        target: target.to_owned(),
        succeeded: false,
        diagnostics,
        packages: no_words(),
        provides: no_words(),
        build_dependencies: no_words(),
        image_install: no_words(),
        image_fstypes: no_words(),
        runtime_dependencies: WordsMap::new(),
        runtime_recommends: WordsMap::new(),
        runtime_provides: WordsMap::new(),
    };
    assert(r@.diagnostics =~= failed_summary(target@).diagnostics);
    r
}

/// Whether a variable of the family `base` is about `package`: it is named by
/// the family, a colon or an underscore, and the package, which may stand in
/// braces.
pub open spec fn names_package(name: Seq<char>, base: Seq<char>, package: Seq<char>) -> bool {
    let n = base.len() as int;
    &&& n + 1 < name.len()
    &&& name.take(n) == base
    &&& name[n] == ':' || name[n] == '_'
    &&& exists|i: int, j: int| #[trigger] braces_between(name.skip(n + 1), i, j, package)
}

/// Whether `t` is braces up to `i`, then `package`, and braces from `j` on.
pub open spec fn braces_between(t: Seq<char>, i: int, j: int, package: Seq<char>) -> bool {
    &&& 0 <= i <= j <= t.len()
    &&& t.subrange(i, j) == package
    &&& forall|k: int| 0 <= k < i ==> is_brace(#[trigger] t[k])
    &&& forall|k: int| j <= k < t.len() ==> is_brace(#[trigger] t[k])
    &&& i < j ==> !is_brace(t[i]) && !is_brace(t[j - 1])
}

proof fn lemma_after_braces(t: Seq<char>, i: int)
    requires
        0 <= i <= t.len(),
    ensures
        i <= after_braces(t, i) <= t.len(),
        forall|k: int| i <= k < after_braces(t, i) ==> is_brace(#[trigger] t[k]),
        after_braces(t, i) < t.len() ==> !is_brace(t[after_braces(t, i)]),
    decreases t.len() - i,
{
    if i < t.len() && is_brace(t[i]) {
        lemma_after_braces(t, i + 1);
    }
}

proof fn lemma_before_braces(t: Seq<char>, s: int, e: int)
    requires
        0 <= s <= e <= t.len(),
    ensures
        s <= before_braces(t, s, e) <= e,
        forall|k: int| before_braces(t, s, e) <= k < e ==> is_brace(#[trigger] t[k]),
        before_braces(t, s, e) > s ==> !is_brace(t[before_braces(t, s, e) - 1]),
    decreases e,
{
    if s < e && is_brace(t[e - 1]) {
        lemma_before_braces(t, s, e - 1);
    }
}

/// The package of a variable is the one that its name spells behind the family,
/// without the braces around it, and a variable of another family has none.
pub proof fn law_package_of_a_variable(name: Seq<char>, base: Seq<char>, package: Seq<char>)
    ensures
        suffix_package(name, base) == Some(package) <==> names_package(name, base, package),
        package.len() > 0 && !is_brace(package[0]) && !is_brace(package.last()) ==> suffix_package(
            base + seq![':'] + package,
            base,
        ) == Some(package) && suffix_package(base + seq!['_'] + package, base) == Some(package),
{
    lemma_package_of(name, base, package);
    if package.len() > 0 && !is_brace(package[0]) && !is_brace(package.last()) {
        let colon = base + seq![':'] + package;
        let underscore = base + seq!['_'] + package;
        let n = base.len() as int;
        assert(colon.take(n) =~= base);
        assert(underscore.take(n) =~= base);
        assert(colon.skip(n + 1) =~= package);
        assert(underscore.skip(n + 1) =~= package);
        assert(package.subrange(0, package.len() as int) =~= package);
        assert(braces_between(package, 0, package.len() as int, package));
        lemma_package_of(colon, base, package);
        lemma_package_of(underscore, base, package);
    }
}

proof fn lemma_package_of(name: Seq<char>, base: Seq<char>, package: Seq<char>)
    ensures
        suffix_package(name, base) == Some(package) <==> names_package(name, base, package),
{
    let n = base.len() as int;
    let colon = base + seq![':'];
    let underscore = base + seq!['_'];
    if n < name.len() {
        assert(name.take(n + 1) =~= name.take(n).push(name[n]));
        if name.take(n) == base {
            assert(name[n] == ':' ==> name.take(n + 1) =~= colon);
            assert(name[n] == '_' ==> name.take(n + 1) =~= underscore);
        }
        assert(colon.take(n) =~= base);
        assert(underscore.take(n) =~= base);
        assert(name.take(n + 1).take(n) =~= name.take(n));
        if name.take(n + 1) == colon {
            assert(name.take(n + 1)[n] == ':');
        }
        if name.take(n + 1) == underscore {
            assert(name.take(n + 1)[n] == '_');
        }
    }
    if n + 1 < name.len() {
        let t = name.skip(n + 1);
        let s = after_braces(t, 0);
        let e = before_braces(t, s, t.len() as int);
        lemma_after_braces(t, 0);
        lemma_before_braces(t, s, t.len() as int);
        if suffix_package(name, base) == Some(package) {
            assert(braces_between(t, s, e, package));
        }
        if names_package(name, base, package) {
            let (i, j) = choose|i: int, j: int| #[trigger] braces_between(t, i, j, package);
            if i < j {
                assert(s == i) by {
                    if s < i {
                        assert(is_brace(t[s]));
                    }
                    if s > i {
                        assert(is_brace(t[i]));
                    }
                }
                assert(e == j) by {
                    if e < j {
                        assert(is_brace(t[j - 1]));
                    }
                    if e > j {
                        assert(is_brace(t[e - 1]));
                    }
                }
            } else {
                assert(forall|k: int| 0 <= k < t.len() ==> is_brace(#[trigger] t[k]));
                assert(s == t.len());
                assert(t.subrange(s, e) =~= t.subrange(i, j));
            }
        }
    }
}

/// The lists of a family.
spec fn family_lists(r: RuntimeView, base: Seq<char>) -> Seq<(Seq<char>, Seq<Seq<char>>)> {
    if base == "RDEPENDS"@ {
        r.dependencies
    } else if base == "RRECOMMENDS"@ {
        r.recommended
    } else {
        r.provides
    }
}

spec fn is_family(base: Seq<char>) -> bool {
    base == "RDEPENDS"@ || base == "RRECOMMENDS"@ || base == "RPROVIDES"@
}

/// A variable changes the lists of its own family only.
proof fn lemma_family_step(r: RuntimeView, name: Seq<char>, value: Seq<char>, base: Seq<char>)
    requires
        is_family(base),
    ensures
        family_lists(runtime_step(r, name, value), base) == match suffix_package(name, base) {
            Some(package) => with_list(
                family_lists(r, base),
                package,
                text::word_texts(value, CharClass::Whitespace),
            ),
            None => family_lists(r, base),
        },
{
    reveal_strlit("RDEPENDS");
    reveal_strlit("RRECOMMENDS");
    reveal_strlit("RPROVIDES");
    assert("RDEPENDS"@[1] == 'D' && "RRECOMMENDS"@[1] == 'R' && "RPROVIDES"@[1] == 'P');
    assert forall|other: Seq<char>|
        is_family(other) && (#[trigger] suffix_package(name, other)) is Some implies name[1]
        == other[1] by {
        let package = suffix_package(name, other)->0;
        lemma_package_of(name, other, package);
        assert(name.take(other.len() as int)[1] == other[1]);
    }
    assert(is_family("RDEPENDS"@) && is_family("RRECOMMENDS"@) && is_family("RPROVIDES"@));
    let a = suffix_package(name, "RDEPENDS"@);
    let b = suffix_package(name, "RRECOMMENDS"@);
    let c = suffix_package(name, "RPROVIDES"@);
    assert(a is Some ==> b is None && c is None);
    assert(b is Some ==> c is None);
}

/// Variables that are about other packages leave the list of a package.
proof fn lemma_family_kept(
    values: Seq<(Seq<char>, Seq<char>)>,
    k: int,
    r: RuntimeView,
    base: Seq<char>,
    package: Seq<char>,
)
    requires
        0 <= k <= values.len(),
        is_family(base),
        runtime_ascends(r),
        forall|j: int|
            k <= j < values.len() ==> suffix_package((#[trigger] values[j]).0, base) != Some(
                package,
            ),
    ensures
        list_from(family_lists(runtime_from(values, k, r), base), package, 0) == list_from(
            family_lists(r, base),
            package,
            0,
        ),
    decreases values.len() - k,
{
    if k < values.len() {
        let (name, value) = values[k];
        let next = runtime_step(r, name, value);
        lemma_family_step(r, name, value, base);
        assert(runtime_ascends(next)) by {
            lemma_step_ascends(r, name, value);
        }
        assert(suffix_package(values[k].0, base) != Some(package));
        if let Some(other) = suffix_package(name, base) {
            law_lists_are_found_by_name(
                family_lists(r, base),
                other,
                text::word_texts(value, CharClass::Whitespace),
            );
        }
        lemma_family_kept(values, k + 1, next, base, package);
    }
}

proof fn lemma_step_ascends(r: RuntimeView, name: Seq<char>, value: Seq<char>)
    requires
        runtime_ascends(r),
    ensures
        runtime_ascends(runtime_step(r, name, value)),
{
    lemma_runtime_ascends(seq![(name, value)], 0, r);
    assert(runtime_from(seq![(name, value)], 1, runtime_step(r, name, value)) == runtime_step(
        r,
        name,
        value,
    ));
}

/// The last variable about a package gives its list.
proof fn lemma_family_last(
    values: Seq<(Seq<char>, Seq<char>)>,
    k: int,
    r: RuntimeView,
    base: Seq<char>,
    package: Seq<char>,
    m: int,
)
    requires
        0 <= k <= m < values.len(),
        is_family(base),
        runtime_ascends(r),
        suffix_package(values[m].0, base) == Some(package),
        forall|j: int|
            m < j < values.len() ==> suffix_package((#[trigger] values[j]).0, base) != Some(
                package,
            ),
    ensures
        list_from(family_lists(runtime_from(values, k, r), base), package, 0) == Some(
            text::word_texts(values[m].1, CharClass::Whitespace),
        ),
    decreases m - k,
{
    let (name, value) = values[k];
    let next = runtime_step(r, name, value);
    lemma_step_ascends(r, name, value);
    lemma_family_step(r, name, value, base);
    if k < m {
        lemma_family_last(values, k + 1, next, base, package, m);
    } else {
        law_lists_are_found_by_name(
            family_lists(r, base),
            package,
            text::word_texts(value, CharClass::Whitespace),
        );
        lemma_family_kept(values, k + 1, next, base, package);
    }
}

/// Whether one of the variables of a family is about a package.
pub open spec fn family_names(
    values: Seq<(Seq<char>, Seq<char>)>,
    base: Seq<char>,
    package: Seq<char>,
) -> bool {
    exists|j: int| 0 <= j < values.len() && names_package((#[trigger] values[j]).0, base, package)
}

/// The packages that the metadata of an environment names, family by family:
/// the last variable of a family that is about a package gives the words of its
/// value as the list of that package, and a list names no package that no
/// variable of its own family is about.
pub proof fn law_runtime_lists_follow_their_variables(
    target: Seq<char>,
    raw: Seq<char>,
    package: Seq<char>,
)
    ensures
        ({
            let values = environment_values(raw);
            let runtime = summary_of(target, raw).runtime;
            &&& forall|m: int|
                0 <= m < values.len() && names_package((#[trigger] values[m]).0, "RDEPENDS"@, package)
                    && !family_names(values.skip(m + 1), "RDEPENDS"@, package) ==> list_from(
                    runtime.dependencies,
                    package,
                    0,
                ) == Some(text::word_texts(values[m].1, CharClass::Whitespace))
            &&& forall|m: int|
                0 <= m < values.len() && names_package(
                    (#[trigger] values[m]).0,
                    "RRECOMMENDS"@,
                    package,
                ) && !family_names(values.skip(m + 1), "RRECOMMENDS"@, package) ==> list_from(
                    runtime.recommended,
                    package,
                    0,
                ) == Some(text::word_texts(values[m].1, CharClass::Whitespace))
            &&& forall|m: int|
                0 <= m < values.len() && names_package((#[trigger] values[m]).0, "RPROVIDES"@, package)
                    && !family_names(values.skip(m + 1), "RPROVIDES"@, package) ==> list_from(
                    runtime.provides,
                    package,
                    0,
                ) == Some(text::word_texts(values[m].1, CharClass::Whitespace))
            &&& list_from(runtime.dependencies, package, 0) is Some ==> family_names(
                values,
                "RDEPENDS"@,
                package,
            )
            &&& list_from(runtime.recommended, package, 0) is Some ==> family_names(
                values,
                "RRECOMMENDS"@,
                package,
            )
            &&& list_from(runtime.provides, package, 0) is Some ==> family_names(
                values,
                "RPROVIDES"@,
                package,
            )
        }),
{
    reveal_strlit("RDEPENDS");
    reveal_strlit("RRECOMMENDS");
    reveal_strlit("RPROVIDES");
    assert("RDEPENDS"@[1] == 'D' && "RRECOMMENDS"@[1] == 'R' && "RPROVIDES"@[1] == 'P');
    let values = environment_values(raw);
    let runtime = summary_of(target, raw).runtime;
    assert forall|base: Seq<char>, m: int|
        is_family(base) && 0 <= m < values.len() && #[trigger] names_package(
            values[m].0,
            base,
            package,
        ) && !family_names(values.skip(m + 1), base, package) implies list_from(
        family_lists(runtime, base),
        package,
        0,
    ) == Some(text::word_texts(values[m].1, CharClass::Whitespace)) by {
        lemma_package_of(values[m].0, base, package);
        let rest = values.skip(m + 1);
        assert forall|j: int| m < j < values.len() implies suffix_package(
            (#[trigger] values[j]).0,
            base,
        ) != Some(package) by {
            lemma_package_of(values[j].0, base, package);
            assert(rest[j - m - 1] == values[j]);
        }
        lemma_family_last(values, 0, no_runtime(), base, package, m);
    }
    assert forall|base: Seq<char>|
        is_family(base) && list_from(#[trigger] family_lists(runtime, base), package, 0) is Some
            implies family_names(values, base, package) by {
        if !family_names(values, base, package) {
            assert forall|j: int| 0 <= j < values.len() implies suffix_package(
                (#[trigger] values[j]).0,
                base,
            ) != Some(package) by {
                lemma_package_of(values[j].0, base, package);
            }
            lemma_family_kept(values, 0, no_runtime(), base, package);
        }
    }
    assert(family_lists(runtime, "RDEPENDS"@) == runtime.dependencies);
    assert(family_lists(runtime, "RRECOMMENDS"@) == runtime.recommended);
    assert(family_lists(runtime, "RPROVIDES"@) == runtime.provides);
}

} // verus!
