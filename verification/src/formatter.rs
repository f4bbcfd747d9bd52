//! Formatting of syntax trees.
use crate::collections;
use crate::operator;
use crate::scanner;
use crate::syntax;
use crate::text;
use crate::scanner::is_python_def_start;
use crate::syntax::AssignmentParts;
use crate::syntax::DirectiveKeyword;
use crate::syntax::DirectiveParts;
use crate::syntax::NodeKind;
use crate::syntax::NodeView;
use crate::syntax::ParseFault;
use crate::text::CharClass;
use crate::text::append_chars;
use crate::text::append_str;
use crate::text::chars_of;
use crate::text::contains_char;
use crate::text::eq_str;
use crate::text::find_char;
use crate::text::is_blank_line;
use crate::text::is_whitespace;
use crate::text::lead_index;
use crate::text::next_line_end;
use crate::text::rfind_char;
use crate::text::same_chars;
use crate::text::split_line_ending;
use crate::text::split_words;
use crate::text::string_of;
use crate::text::trim_end;
use crate::text::trim_start;
use crate::tree::AssignmentSyntax;
use crate::tree::DirectiveSyntax;
use crate::tree::FormatError;
use crate::tree::SyntaxKind;
use crate::tree::SyntaxNode;
use crate::tree::SyntaxTree;
use crate::tree::parse;
use vstd::prelude::*;
use vstd::slice::slice_subrange;

verus! {

/// Controls whether selected static metadata lists receive a structural layout.
///
/// The default preserves every continuation tail. `OnePerLine` is intentionally
/// limited to static quoted values, of one line or continued, for known
/// whitespace-separated metadata variables and to the static classes that an
/// `inherit` or `inherit_defer` of one line names.
#[derive(Clone, Copy, Debug, Eq, PartialEq, Structural)]
pub enum MetadataListLayout {
    /// Preserve continuation tails byte-for-byte.
    Preserve,
    /// Put each safely recognized metadata-list item and each inherited class
    /// on its own line.
    OnePerLine,
}

impl Default for MetadataListLayout {
    fn default() -> (r: MetadataListLayout)
        ensures
            r == MetadataListLayout::Preserve,
    {
        MetadataListLayout::Preserve
    }
}

/// Controls formatting behavior that is safe to apply at the top-level
/// metadata boundary.
#[derive(Clone, Copy, Debug, Eq, PartialEq, Structural)]
pub struct FormatOptions {
    /// Maximum number of consecutive blank lines between top-level nodes.
    pub max_top_level_blank_lines: usize,
    /// Layout for safely recognized static metadata lists.
    pub metadata_list_layout: MetadataListLayout,
}

pub open spec fn default_format_options() -> FormatOptions {
    FormatOptions {
        max_top_level_blank_lines: 1,
        metadata_list_layout: MetadataListLayout::Preserve,
    }
}

impl Default for FormatOptions {
    fn default() -> (r: FormatOptions)
        ensures
            r == default_format_options(),
    {
        FormatOptions {
            max_top_level_blank_lines: 1,
            metadata_list_layout: MetadataListLayout::Preserve,
        }
    }
}

// ---------------------------------------------------------------------------
// Blank lines
// ---------------------------------------------------------------------------
/// The start of the last line of `t`.
pub open spec fn last_line_start(t: Seq<char>) -> int {
    text::rfind_before(t, '\n', t.len() - 1) + 1
}

/// The number of blank lines that end `t`.
pub open spec fn trailing_blanks(t: Seq<char>) -> int
    decreases t.len(),
{
    let s = last_line_start(t);
    if t.len() == 0 || !(0 <= s < t.len()) || !text::blank_line(t.skip(s)) {
        0
    } else {
        1 + trailing_blanks(t.take(s))
    }
}

/// Whether at least `limit` blank lines end `output`.
fn trailing_blank_lines(output: &[char], limit: usize) -> (r: bool)
    ensures
        r == (trailing_blanks(output@) >= limit),
{
    let mut e: usize = output.len();
    let mut n: usize = 0;
    assert(output@.take(e as int) =~= output@);
    while n < limit
        invariant
            e <= output@.len(),
            n <= limit,
            n + trailing_blanks(output@.take(e as int)) == trailing_blanks(output@),
        decreases limit - n,
    {
        proof {
            lemma_trailing_blanks(output@.take(e as int));
        }
        if e == 0 {
            return false;
        }
        let s = match rfind_char(output, '\n', e - 1) {
            Some(i) => i + 1,
            None => 0,
        };
        proof {
            text::lemma_rfind(output@, '\n', e - 1);
            text::lemma_rfind_unique(
                output@.take(e as int),
                '\n',
                text::rfind_before(output@, '\n', e - 1),
                e - 1,
            );
            assert(output@.subrange(s as int, e as int) =~= output@.take(e as int).skip(s as int));
            assert(output@.take(e as int).take(s as int) =~= output@.take(s as int));
        }
        if !is_blank_line(slice_subrange(output, s, e)) {
            return false;
        }
        n += 1;
        e = s;
    }
    proof {
        lemma_trailing_blanks(output@.take(e as int));
    }
    true
}

pub proof fn lemma_trailing_blanks(t: Seq<char>)
    ensures
        0 <= trailing_blanks(t) <= t.len(),
    decreases t.len(),
{
    let s = last_line_start(t);
    if t.len() > 0 && 0 <= s < t.len() && text::blank_line(t.skip(s)) {
        lemma_trailing_blanks(t.take(s));
    }
}

// ---------------------------------------------------------------------------
// Static metadata lists
// ---------------------------------------------------------------------------
/// The variables whose value is a list of words.
pub open spec fn known_list(name: Seq<char>) -> bool {
    let base = name.take(text::find_from(name, ':', 0));
    base == "SRC_URI"@ || base == "DEPENDS"@ || base == "RDEPENDS"@
}

/// Whether the variable `name` holds a list of words.
pub fn is_known_metadata_list(name: &[char]) -> (r: bool)
    ensures
        r == known_list(name@),
{
    let end = find_char(name, ':', 0);
    assert(name@.subrange(0, end as int) =~= name@.take(end as int));
    let base = slice_subrange(name, 0, end);
    eq_str(base, "SRC_URI") || eq_str(base, "DEPENDS") || eq_str(base, "RDEPENDS")
}

/// The one line ending that the lines of `t` from `i` on share with `seen`.
pub open spec fn common_ending(t: Seq<char>, i: int, seen: Option<Seq<char>>) -> Option<Seq<char>>
    decreases t.len() - i,
{
    proof {
        if 0 <= i <= t.len() {
            text::lemma_line_end(t, i);
        }
    }
    if i < 0 || i >= t.len() {
        seen
    } else {
        let e = text::line_end(t, i);
        let ending = text::line_ending(t.subrange(i, e));
        if ending.len() == 0 {
            common_ending(t, e, seen)
        } else if seen is Some && seen->0 != ending {
            None
        } else {
            common_ending(t, e, Some(ending))
        }
    }
}

/// The one line ending of `text`, if its lines agree on one.
pub fn consistent_line_ending(text: &[char]) -> (r: Option<Vec<char>>)
    ensures
        match r {
            Some(ending) => common_ending(text@, 0, None) == Some(ending@),
            None => common_ending(text@, 0, None) is None,
        },
{
    let mut seen: Option<Vec<char>> = None;
    let ghost mut view: Option<Seq<char>> = None;
    let mut i: usize = 0;
    while i < text.len()
        invariant
            i <= text@.len(),
            view == (match seen {
                Some(v) => Some(v@),
                None => None,
            }),
            common_ending(text@, i as int, view) == common_ending(text@, 0, None),
        decreases text@.len() - i,
    {
        let e = next_line_end(text, i);
        let (_, ending) = split_line_ending(slice_subrange(text, i, e));
        if ending.len() > 0 {
            if let Some(existing) = &seen {
                if !same_chars(existing.as_slice(), ending) {
                    return None;
                }
            }
            let mut copy: Vec<char> = Vec::new();
            append_chars(&mut copy, ending);
            assert(copy@ =~= ending@);
            proof {
                view = Some(ending@);
            }
            seen = Some(copy);
        }
        i = e;
    }
    seen
}

/// Nothing but blanks, or blanks and a comment.
pub open spec fn comment_or_blank(t: Seq<char>) -> bool {
    let k = text::lead_from(t, CharClass::Indent, 0);
    k == t.len() || operator::at(t, k, '#')
}

/// Whether `t` is nothing but blanks, or blanks and a comment.
pub fn is_comment_or_whitespace(t: &[char]) -> (r: bool)
    ensures
        r == comment_or_blank(t@),
{
    let k = lead_index(t, CharClass::Indent, 0);
    k == t.len() || t[k] == '#'
}

/// The first unescaped `quote` of `value` from `i` on that only a comment follows.
pub open spec fn closing_quote(value: Seq<char>, i: int, quote: char, escaped: bool) -> Option<int>
    decreases value.len() - i,
{
    if i < 0 || i >= value.len() {
        None
    } else if value[i] == '\\' {
        closing_quote(value, i + 1, quote, !escaped)
    } else if value[i] == quote && !escaped && comment_or_blank(value.skip(i + 1)) {
        Some(i)
    } else {
        closing_quote(value, i + 1, quote, false)
    }
}

/// The first unescaped `quote` of `value` from `start` on that only a comment follows.
pub fn split_closing_quote(value: &[char], start: usize, quote: char) -> (r: Option<usize>)
    requires
        start <= value@.len(),
    ensures
        match r {
            Some(i) => closing_quote(value@, start as int, quote, false) == Some(i as int) && start
                <= i < value@.len(),
            None => closing_quote(value@, start as int, quote, false) is None,
        },
{
    let mut escaped = false;
    let mut i: usize = start;
    while i < value.len()
        invariant
            start <= i <= value@.len(),
            closing_quote(value@, i as int, quote, escaped) == closing_quote(
                value@,
                start as int,
                quote,
                false,
            ),
        decreases value@.len() - i,
    {
        let c = value[i];
        if c == '\\' {
            escaped = !escaped;
        } else {
            if c == quote && !escaped {
                assert(value@.subrange(i + 1, value@.len() as int) =~= value@.skip(i + 1));
                if is_comment_or_whitespace(slice_subrange(value, i + 1, value.len())) {
                    return Some(i);
                }
            }
            escaped = false;
        }
        i += 1;
    }
    None
}

/// A character that may stand in an item of a static list quoted by `quote`.
pub open spec fn static_char(c: char, quote: char) -> bool {
    !text::is_ws(c) && c != '$' && c != '{' && c != '}' && c != '\\' && c != quote
}

/// An item that the formatter may move to a line of its own.
pub open spec fn static_item(item: Seq<char>, quote: char) -> bool {
    item.len() > 0 && forall|k: int| 0 <= k < item.len() ==> static_char(#[trigger] item[k], quote)
}

/// Whether the formatter may move `item` to a line of its own.
pub fn is_static_metadata_list_item(item: &[char], quote: char) -> (r: bool)
    ensures
        r == static_item(item@, quote),
{
    if item.len() == 0 {
        return false;
    }
    let mut k: usize = 0;
    while k < item.len()
        invariant
            k <= item@.len(),
            forall|j: int| 0 <= j < k ==> static_char(#[trigger] item@[j], quote),
        decreases item@.len() - k,
    {
        let c = item[k];
        if is_whitespace(c) || c == '$' || c == '{' || c == '}' || c == '\\' || c == quote {
            return false;
        }
        k += 1;
    }
    true
}

/// What a line of a static list contributes.
pub enum ListLine {
    /// The line is not of the form that the formatter may change.
    Reject,
    /// The line holds no item.
    Empty,
    /// The line holds this item.
    Item(Seq<char>),
}

/// What `line`, the first one or a later one, contributes to a static list.
///
/// A line that ends in `ending` holds one item, blanks and a backslash; the
/// first may be a backslash alone. The last line has no ending and holds one
/// item or none.
pub open spec fn list_line(
    line: Seq<char>,
    is_first: bool,
    quote: char,
    ending: Seq<char>,
) -> ListLine {
    let content = text::trimmed_start(text::line_content(line), CharClass::Indent);
    if text::line_ending(line).len() == 0 {
        if content.len() == 0 {
            ListLine::Empty
        } else if static_item(content, quote) {
            ListLine::Item(content)
        } else {
            ListLine::Reject
        }
    } else if text::line_ending(line) != ending || content.len() == 0 || content.last() != '\\' {
        ListLine::Reject
    } else {
        let before = content.drop_last();
        let item = text::trimmed_end(before, CharClass::Indent);
        if before.len() == 0 {
            if is_first {
                ListLine::Empty
            } else {
                ListLine::Reject
            }
        } else if text::is_indent(before.last()) && static_item(item, quote) {
            ListLine::Item(item)
        } else {
            ListLine::Reject
        }
    }
}

/// The items of the lines of `contents` from `i` on.
pub open spec fn list_items(
    contents: Seq<char>,
    i: int,
    quote: char,
    ending: Seq<char>,
) -> Option<Seq<Seq<char>>>
    decreases contents.len() - i,
{
    proof {
        if 0 <= i <= contents.len() {
            text::lemma_line_end(contents, i);
        }
    }
    if i < 0 || i >= contents.len() {
        Some(Seq::empty())
    } else {
        let e = text::line_end(contents, i);
        match list_line(contents.subrange(i, e), i == 0, quote, ending) {
            ListLine::Reject => None,
            ListLine::Empty => list_items(contents, e, quote, ending),
            ListLine::Item(item) => match list_items(contents, e, quote, ending) {
                Some(rest) => Some(seq![item] + rest),
                None => None,
            },
        }
    }
}

/// The words of `contents`, where all of them may be moved.
pub open spec fn list_words(contents: Seq<char>, quote: char) -> Option<Seq<Seq<char>>> {
    let words = text::word_texts(contents, CharClass::Indent);
    if forall|k: int| 0 <= k < words.len() ==> static_item(#[trigger] words[k], quote) {
        Some(words)
    } else {
        None
    }
}

/// The value of an assignment without leading blanks.
pub open spec fn value_body(text: Seq<char>, a: AssignmentParts) -> Seq<char> {
    text::trimmed_start(syntax::value_of(text, a), CharClass::Indent)
}

/// A metadata list that the formatter may lay out one item per line.
#[verifier::ext_equal]
pub struct ListView {
    pub quote: char,
    pub items: Seq<Seq<char>>,
    pub closing_tail: Seq<char>,
    pub ending: Seq<char>,
}

/// The static metadata list that an assignment holds: a quoted value of a list
/// variable with at least two items, all on one line or each alone on its line.
#[verifier::opaque]
pub open spec fn static_list(text: Seq<char>, a: AssignmentParts) -> Option<ListView> {
    let value = value_body(text, a);
    let ending = common_ending(text, 0, None);
    let quote = value[0];
    let close = closing_quote(value, 1, quote, false);
    let contents = value.subrange(1, close->0);
    let items = if a.continued {
        list_items(contents, 0, quote, ending->0)
    } else {
        list_words(contents, quote)
    };
    if !known_list(text.subrange(a.name, a.name_end)) || ending is None || value.len() == 0
        || !scanner::is_quote(quote) || close is None || items is None || items->0.len() < 2 || (
    a.continued && !contents.contains('\n')) {
        None
    } else {
        Some(
            ListView {
                quote,
                items: items->0,
                closing_tail: value.skip(close->0 + 1),
                ending: ending->0,
            },
        )
    }
}

struct StaticMetadataList {
    quote: char,
    items: Vec<Vec<char>>,
    closing_tail: Vec<char>,
    ending: Vec<char>,
}

impl StaticMetadataList {
    spec fn view(&self) -> ListView {
        ListView {
            quote: self.quote,
            items: collections::char_texts(self.items@),
            closing_tail: self.closing_tail@,
            ending: self.ending@,
        }
    }
}

/// What a line of a static list contributes: `None` to reject it.
fn read_list_line(line: &[char], is_first: bool, quote: char, ending: &[char]) -> (r: Option<
    Option<Vec<char>>,
>)
    ensures
        match r {
            None => list_line(line@, is_first, quote, ending@) is Reject,
            Some(None) => list_line(line@, is_first, quote, ending@) is Empty,
            Some(Some(item)) => list_line(line@, is_first, quote, ending@) == ListLine::Item(item@),
        },
{
    let (content, current) = split_line_ending(line);
    let content = trim_start(content, CharClass::Indent);
    if current.len() == 0 {
        if content.len() == 0 {
            return Some(None);
        }
        if !is_static_metadata_list_item(content, quote) {
            return None;
        }
        let mut item: Vec<char> = Vec::new();
        append_chars(&mut item, content);
        assert(item@ =~= content@);
        return Some(Some(item));
    }
    if !same_chars(current, ending) || content.len() == 0 || content[content.len() - 1] != '\\' {
        return None;
    }
    assert(content@.subrange(0, content@.len() - 1) =~= content@.drop_last());
    let before = slice_subrange(content, 0, content.len() - 1);
    if before.len() == 0 {
        return if is_first {
            Some(None)
        } else {
            None
        };
    }
    let last = before[before.len() - 1];
    let trimmed = trim_end(before, CharClass::Indent);
    if (last != ' ' && last != '\t') || !is_static_metadata_list_item(trimmed, quote) {
        return None;
    }
    let mut item: Vec<char> = Vec::new();
    append_chars(&mut item, trimmed);
    assert(item@ =~= trimmed@);
    Some(Some(item))
}

/// The items of the lines of `contents`.
fn read_list_items(contents: &[char], quote: char, ending: &[char]) -> (r: Option<Vec<Vec<char>>>)
    ensures
        match r {
            Some(items) => list_items(contents@, 0, quote, ending@) == Some(collections::char_texts(items@)),
            None => list_items(contents@, 0, quote, ending@) is None,
        },
{
    let mut items: Vec<Vec<char>> = Vec::new();
    let mut i: usize = 0;
    assert(collections::char_texts(items@) =~= Seq::empty());
    proof {
        if let Some(rest) = list_items(contents@, 0, quote, ending@) {
            assert(collections::char_texts(items@) + rest =~= rest);
        }
    }
    while i < contents.len()
        invariant
            i <= contents@.len(),
            match list_items(contents@, i as int, quote, ending@) {
                Some(rest) => list_items(contents@, 0, quote, ending@) == Some(
                    collections::char_texts(items@) + rest,
                ),
                None => list_items(contents@, 0, quote, ending@) is None,
            },
        decreases contents@.len() - i,
    {
        let e = next_line_end(contents, i);
        match read_list_line(slice_subrange(contents, i, e), i == 0, quote, ending) {
            None => {
                return None;
            },
            Some(None) => {},
            Some(Some(item)) => {
                let ghost before = items@;
                items.push(item);
                proof {
                    assert(collections::char_texts(items@) =~= collections::char_texts(before).push(item@));
                    if let Some(rest) = list_items(contents@, e as int, quote, ending@) {
                        assert(collections::char_texts(before) + (seq![item@] + rest) =~= collections::char_texts(items@)
                            + rest);
                    }
                }
            },
        }
        i = e;
    }
    assert(collections::char_texts(items@) + Seq::empty() =~= collections::char_texts(items@));
    Some(items)
}

/// The words of `contents`, where all of them may be moved.
fn read_list_words(contents: &[char], quote: char) -> (r: Option<Vec<Vec<char>>>)
    ensures
        match r {
            Some(items) => list_words(contents@, quote) == Some(collections::char_texts(items@)),
            None => list_words(contents@, quote) is None,
        },
{
    let ranges = split_words(contents, CharClass::Indent);
    let ghost words = text::word_texts(contents@, CharClass::Indent);
    let mut items: Vec<Vec<char>> = Vec::new();
    let mut k: usize = 0;
    while k < ranges.len()
        invariant
            k <= ranges@.len(),
            ranges@.len() == words.len(),
            words == text::word_texts(contents@, CharClass::Indent),
            text::ranges_match(ranges@, text::words_of(contents@, CharClass::Indent)),
            text::ranges_inside(ranges@, contents@.len() as int),
            items@.len() == k,
            forall|j: int| 0 <= j < k ==> (#[trigger] items@[j])@ == words[j],
            forall|j: int| 0 <= j < k ==> static_item(#[trigger] words[j], quote),
        decreases ranges@.len() - k,
    {
        let word = slice_subrange(contents, ranges[k].0, ranges[k].1);
        assert(words[k as int] == word@);
        if !is_static_metadata_list_item(word, quote) {
            return None;
        }
        let mut item: Vec<char> = Vec::new();
        append_chars(&mut item, word);
        assert(item@ =~= word@);
        items.push(item);
        k += 1;
    }
    assert(collections::char_texts(items@) =~= words);
    Some(items)
}

/// The static metadata list that an assignment holds.
fn parse_static_metadata_list(
    text: &[char],
    value: &[char],
    assignment: &AssignmentSyntax,
    Ghost(a): Ghost<AssignmentParts>,
) -> (r: Option<StaticMetadataList>)
    requires
        value@ == value_body(text@, a),
        assignment.spec_continued() == a.continued,
        assignment.name_text() == text@.subrange(a.name, a.name_end),
    ensures
        match r {
            Some(list) => static_list(text@, a) == Some(list.view()),
            None => static_list(text@, a) is None,
        },
{
    proof {
        reveal(static_list);
    }
    let name = chars_of(assignment.name());
    if !is_known_metadata_list(name.as_slice()) {
        return None;
    }
    let ending = match consistent_line_ending(text) {
        Some(ending) => ending,
        None => {
            return None;
        },
    };
    if value.len() == 0 {
        return None;
    }
    let quote = value[0];
    if quote != '\'' && quote != '"' {
        return None;
    }
    let close = match split_closing_quote(value, 1, quote) {
        Some(close) => close,
        None => {
            return None;
        },
    };
    let contents = slice_subrange(value, 1, close);
    let continued = assignment.is_continued();
    let read = if continued {
        read_list_items(contents, quote, ending.as_slice())
    } else {
        read_list_words(contents, quote)
    };
    let items = match read {
        Some(items) => items,
        None => {
            return None;
        },
    };
    if items.len() < 2 || (continued && !contains_char(contents, '\n')) {
        return None;
    }
    let mut closing_tail: Vec<char> = Vec::new();
    append_chars(&mut closing_tail, slice_subrange(value, close + 1, value.len()));
    assert(closing_tail@ =~= value@.skip(close + 1));
    Some(StaticMetadataList { quote, items, closing_tail, ending })
}

// ---------------------------------------------------------------------------
// Output
// ---------------------------------------------------------------------------
/// The left-hand side of an assignment without trailing white space.
pub open spec fn left_of(text: Seq<char>, a: AssignmentParts) -> Seq<char> {
    text::trimmed_end(text.take(a.operator_at), CharClass::Whitespace)
}

/// An assignment with one space on each side of its operator.
pub open spec fn assignment_output(text: Seq<char>, a: AssignmentParts) -> Seq<char> {
    let value = value_body(text, a);
    left_of(text, a) + seq![' '] + operator::operator_chars(a.operator) + (if value.len() == 0 {
        Seq::empty()
    } else {
        seq![' '] + value
    }) + text::line_ending(text)
}

/// The lines of the items of a list.
pub open spec fn items_output(items: Seq<Seq<char>>, ending: Seq<char>) -> Seq<char>
    decreases items.len(),
{
    if items.len() == 0 {
        Seq::empty()
    } else {
        items_output(items.drop_last(), ending) + seq![' ', ' ', ' ', ' '] + items.last() + seq![
            ' ',
            '\\',
        ] + ending
    }
}

/// A list with each item on a line of its own.
pub open spec fn list_output(text: Seq<char>, a: AssignmentParts, list: ListView) -> Seq<char> {
    left_of(text, a) + seq![' '] + operator::operator_chars(a.operator) + seq![' ', list.quote, ' ', '\\']
        + list.ending + items_output(list.items, list.ending) + seq![' ', ' ', ' ', ' ', list.quote]
        + list.closing_tail + text::line_ending(text)
}

/// A directive with one space between its keyword and its arguments.
pub open spec fn directive_output(text: Seq<char>, d: DirectiveParts) -> Seq<char> {
    let arguments = text.subrange(d.arguments, d.arguments_end);
    syntax::keyword_chars(d.keyword) + (if arguments.len() == 0 {
        Seq::empty()
    } else {
        seq![' '] + arguments
    }) + text::line_ending(text)
}

/// A class that the formatter may move to a line of its own.
pub open spec fn static_class(word: Seq<char>) -> bool {
    static_item(word, '"') && forall|k: int|
        0 <= k < word.len() ==> #[trigger] word[k] != '\'' && word[k] != '#'
}

/// The classes that a directive names, where the formatter may put each on a
/// line of its own: at least two static ones on one line that ends.
pub open spec fn static_classes(text: Seq<char>, d: DirectiveParts) -> Option<Seq<Seq<char>>> {
    let words = text::word_texts(text.subrange(d.arguments, d.arguments_end), CharClass::Indent);
    if !d.continued && (d.keyword == DirectiveKeyword::Inherit || d.keyword
        == DirectiveKeyword::InheritDefer) && text::line_ending(text).len() > 0 && words.len() >= 2
        && forall|k: int| 0 <= k < words.len() ==> static_class(#[trigger] words[k]) {
        Some(words)
    } else {
        None
    }
}

/// A directive with each of the classes on a line of its own.
pub open spec fn classes_output(
    keyword: DirectiveKeyword,
    classes: Seq<Seq<char>>,
    ending: Seq<char>,
) -> Seq<char> {
    syntax::keyword_chars(keyword) + seq![' ', '\\'] + ending + items_output(
        classes.drop_last(),
        ending,
    ) + seq![' ', ' ', ' ', ' '] + classes.last() + ending
}

/// Whether an assignment would read as a Python definition once it is
/// formatted, as `def=x:` does.
pub open spec fn reads_as_definition(text: Seq<char>, a: AssignmentParts) -> bool {
    scanner::python_def_start(syntax::first_line(assignment_output(text, a)))
}

/// What the node `text` of kind `kind` adds to `output`.
///
/// An assignment that would read as a Python definition is kept as it is.
pub open spec fn node_output(
    output: Seq<char>,
    text: Seq<char>,
    kind: NodeKind,
    options: FormatOptions,
) -> Seq<char> {
    match kind {
        NodeKind::Blank => if trailing_blanks(output) >= options.max_top_level_blank_lines {
            Seq::empty()
        } else {
            text::line_ending(text)
        },
        NodeKind::Assignment(a) => if options.metadata_list_layout == MetadataListLayout::OnePerLine
            && static_list(text, a) is Some {
            list_output(text, a, static_list(text, a)->0)
        } else if reads_as_definition(text, a) {
            text
        } else {
            assignment_output(text, a)
        },
        NodeKind::Directive(d) => if options.metadata_list_layout == MetadataListLayout::OnePerLine
            && static_classes(text, d) is Some {
            classes_output(d.keyword, static_classes(text, d)->0, text::line_ending(text))
        } else {
            directive_output(text, d)
        },
        _ => text,
    }
}

/// The formatted text of nodes.
pub open spec fn nodes_output(
    source: Seq<char>,
    nodes: Seq<NodeView>,
    options: FormatOptions,
) -> Seq<char>
    decreases nodes.len(),
{
    if nodes.len() == 0 {
        Seq::empty()
    } else {
        let output = nodes_output(source, nodes.drop_last(), options);
        let node = nodes.last();
        output + node_output(output, source.subrange(node.start, node.end), node.kind, options)
    }
}

/// The formatted text of `source`, which has a syntax tree.
pub open spec fn formatted(source: Seq<char>, options: FormatOptions) -> Seq<char> {
    nodes_output(source, syntax::nodes_of(source)->Ok_0, options)
}

/// The operator and the value of an assignment lie in the text of its node.
pub open spec fn assignment_inside(text: Seq<char>, a: AssignmentParts) -> bool {
    0 <= a.operator_at && syntax::value_start(a) <= a.value_end <= text.len()
}

proof fn lemma_assignment_inside(text: Seq<char>, continued: bool)
    requires
        syntax::assignment_parts(text, continued) is Some,
    ensures
        assignment_inside(text, syntax::assignment_parts(text, continued)->0),
        0 <= syntax::assignment_parts(text, continued)->0.name <= syntax::assignment_parts(
            text,
            continued,
        )->0.name_end <= syntax::assignment_parts(text, continued)->0.operator_at,
{
    reveal(syntax::assignment_parts);
    text::lemma_line_end(text, 0);
    let e = text::line_end(text, 0);
    if e < text.len() {
        assert(text[e - 1] == '\n');
    } else {
        assert(syntax::first_line(text) =~= text);
    }
    let content = text::line_content(syntax::first_line(text));
    lemma_operator_from(content, 0, None, false);
    let (i, _) = scanner::operator_from(content, 0, None, false)->0;
    text::lemma_tail(content.take(i), CharClass::Whitespace, i);
    let left = text::trimmed_end(content.take(i), CharClass::Whitespace);
    if scanner::is_exported(left) {
        text::lemma_lead(left, CharClass::Whitespace, 6);
    }
}

/// An operator that is found lies in the text.
pub proof fn lemma_operator_from(t: Seq<char>, i: int, quote: Option<char>, escaped: bool)
    requires
        0 <= i <= t.len(),
    ensures
        scanner::operator_from(t, i, quote, escaped) matches Some((k, operator)) ==> i <= k && k
            + operator::operator_chars(operator).len() <= t.len() && operator::operator_at(t, k) == Some(operator),
    decreases t.len() - i,
{
    if i < t.len() {
        lemma_operator_from(t, i + 1, quote, false);
        lemma_operator_from(t, i + 1, quote, true);
        lemma_operator_from(t, i + 1, None, false);
        lemma_operator_from(t, i + 1, Some(t[i]), false);
    }
}

/// The parts of a node of a parsed text are those of its own text.
pub open spec fn node_parts_inside(text: Seq<char>, kind: NodeKind) -> bool {
    match kind {
        NodeKind::Assignment(a) => assignment_inside(text, a) && 0 <= a.name <= a.name_end
            <= a.operator_at,
        NodeKind::Directive(d) => 0 <= d.arguments <= d.arguments_end <= text.len(),
        _ => true,
    }
}

proof fn lemma_statement_inside(text: Seq<char>, continued: bool)
    requires
        text.len() > 0,
        syntax::statement_kind(text, continued) is Ok,
    ensures
        node_parts_inside(text, syntax::statement_kind(text, continued)->Ok_0),
{
    reveal(syntax::statement_kind);
    match syntax::assignment_parts(text, continued) {
        Some(a) => {
            lemma_assignment_inside(text, continued);
        },
        None => {},
    }
    let content = text::line_content(text);
    text::lemma_until(content, CharClass::Whitespace, 0);
    text::lemma_lead(
        content,
        CharClass::Whitespace,
        text::until_from(content, CharClass::Whitespace, 0),
    );
}

/// The parts of a node lie in its text.
pub proof fn lemma_node_inside(t: Seq<char>)
    requires
        t.len() > 0,
        syntax::next_node(t) is Ok,
    ensures
        node_parts_inside(t.take(syntax::next_node(t)->Ok_0.0), syntax::next_node(t)->Ok_0.1),
{
    syntax::lemma_next_node(t);
    reveal(syntax::next_node);
    let line = syntax::first_line(t);
    if scanner::function_head(line) is None && !scanner::python_def_start(line) {
        if scanner::continued_line(line) {
            lemma_statement_inside(t.take(scanner::continuation_end(t, 0)->0), true);
        } else {
            text::lemma_line_end(t, 0);
            lemma_statement_inside(line, false);
        }
    }
}

/// Every node of a text is the node that its own start gives.
pub proof fn lemma_nodes_are_next(source: Seq<char>, i: int, k: int)
    requires
        0 <= i <= source.len(),
        syntax::nodes_from(source, i) is Ok,
        0 <= k < syntax::nodes_from(source, i)->Ok_0.len(),
    ensures
        ({
            let node = syntax::nodes_from(source, i)->Ok_0[k];
            &&& i <= node.start < node.end <= source.len()
            &&& syntax::next_node(source.skip(node.start)) == Ok::<(int, NodeKind), ParseFault>(
                (node.end - node.start, node.kind),
            )
        }),
    decreases source.len() - i,
{
    if i < source.len() {
        syntax::lemma_next_node(source.skip(i));
        let (len, kind) = syntax::next_node(source.skip(i))->Ok_0;
        let rest = syntax::nodes_from(source, i + len)->Ok_0;
        let nodes = seq![NodeView { start: i, end: i + len, kind }] + rest;
        assert(syntax::nodes_from(source, i)->Ok_0 == nodes);
        if k > 0 {
            assert(nodes[k] == rest[k - 1]);
            lemma_nodes_are_next(source, i + len, k - 1);
        }
    }
}

/// Appends an assignment in its formatted form.
#[verifier::spinoff_prover]
#[verifier::rlimit(60)]
fn format_assignment(
    output: &mut Vec<char>,
    node: &SyntaxNode,
    assignment: &AssignmentSyntax,
    options: &FormatOptions,
    Ghost(source): Ghost<Seq<char>>,
    Ghost(view): Ghost<NodeView>,
    Ghost(a): Ghost<AssignmentParts>,
)
    requires
        0 <= view.start <= view.end <= source.len(),
        node.holds(source, view),
        assignment.holds(source, view.start, a),
        node_parts_inside(source.subrange(view.start, view.end), NodeKind::Assignment(a)),
    ensures
        final(output)@ == old(output)@ + node_output(
            old(output)@,
            source.subrange(view.start, view.end),
            NodeKind::Assignment(a),
            *options,
        ),
{
    let ghost text_view = source.subrange(view.start, view.end);
    proof {
        node.lemma_holds(source, view);
        assignment.lemma_holds(source, view.start, a);
        assert(text_view.subrange(syntax::value_start(a), a.value_end) =~= source.subrange(
            view.start + syntax::value_start(a),
            view.start + a.value_end,
        ));
        assert(text_view.subrange(a.name, a.name_end) =~= source.subrange(
            view.start + a.name,
            view.start + a.name_end,
        ));
    }
    let chars = chars_of(node.text());
    let text = chars.as_slice();
    let value_chars = chars_of(assignment.value());
    let value = trim_start(value_chars.as_slice(), CharClass::Indent);
    assert(text@.subrange(0, a.operator_at) =~= text@.take(a.operator_at));
    let left = trim_end(slice_subrange(text, 0, assignment.operator_at()), CharClass::Whitespace);
    let (_, ending) = split_line_ending(text);
    let ghost before = output@;
    if let MetadataListLayout::OnePerLine = options.metadata_list_layout {
        if let Some(list) = parse_static_metadata_list(text, value, assignment, Ghost(a)) {
            append_chars(output, left);
            output.push(' ');
            append_str(output, assignment.operator().lexeme());
            format_metadata_list(output, &list);
            append_chars(output, ending);
            assert(output@ =~= before + list_output(text@, a, list.view()));
            return ;
        }
    }
    let mut formed: Vec<char> = Vec::new();
    append_chars(&mut formed, left);
    formed.push(' ');
    append_str(&mut formed, assignment.operator().lexeme());
    if value.len() > 0 {
        formed.push(' ');
        append_chars(&mut formed, value);
    }
    append_chars(&mut formed, ending);
    assert(formed@ =~= assignment_output(text@, a));
    let first = next_line_end(formed.as_slice(), 0);
    assert(formed@.subrange(0, first as int) =~= syntax::first_line(formed@));
    if is_python_def_start(slice_subrange(formed.as_slice(), 0, first)) {
        append_chars(output, text);
    } else {
        append_chars(output, formed.as_slice());
    }
}

/// Appends the lines of the first `count` of the items.
fn append_items(output: &mut Vec<char>, items: &Vec<Vec<char>>, count: usize, ending: &[char])
    requires
        count <= items@.len(),
    ensures
        final(output)@ == old(output)@ + items_output(
            collections::char_texts(items@).take(count as int),
            ending@,
        ),
{
    let ghost head = output@;
    let ghost texts = collections::char_texts(items@);
    let mut k: usize = 0;
    assert(texts.take(0) =~= Seq::empty());
    assert(head =~= head + items_output(texts.take(0), ending@));
    while k < count
        invariant
            k <= count <= items@.len(),
            texts == collections::char_texts(items@),
            output@ == head + items_output(texts.take(k as int), ending@),
        decreases count - k,
    {
        let ghost before = output@;
        output.push(' ');
        output.push(' ');
        output.push(' ');
        output.push(' ');
        append_chars(output, items[k].as_slice());
        output.push(' ');
        output.push('\\');
        append_chars(output, ending);
        k += 1;
        proof {
            let item = items@[k - 1]@;
            assert(texts.take(k as int).drop_last() =~= texts.take(k - 1));
            assert(texts.take(k as int).last() == item);
            assert(output@ =~= before + (seq![' ', ' ', ' ', ' '] + item + seq![' ', '\\']
                + ending@));
            assert(items_output(texts.take(k as int), ending@) =~= items_output(
                texts.take(k - 1),
                ending@,
            ) + (seq![' ', ' ', ' ', ' '] + item + seq![' ', '\\'] + ending@));
            assert(output@ =~= head + items_output(texts.take(k as int), ending@));
        }
    }
}

/// Appends the quoted value of a list with each item on a line of its own.
fn format_metadata_list(output: &mut Vec<char>, list: &StaticMetadataList)
    ensures
        final(output)@ == old(output)@ + seq![' ', list.view().quote, ' ', '\\']
            + list.view().ending + items_output(list.view().items, list.view().ending) + seq![
            ' ',
            ' ',
            ' ',
            ' ',
            list.view().quote,
        ] + list.view().closing_tail,
{
    let ghost start = output@;
    let ghost items = list.view().items;
    let ghost ending = list.view().ending;
    output.push(' ');
    output.push(list.quote);
    output.push(' ');
    output.push('\\');
    append_chars(output, list.ending.as_slice());
    let ghost head = output@;
    assert(head =~= start + seq![' ', list.view().quote, ' ', '\\'] + ending);
    append_items(output, &list.items, list.items.len(), list.ending.as_slice());
    assert(items.take(items.len() as int) =~= items);
    let ghost body = output@;
    output.push(' ');
    output.push(' ');
    output.push(' ');
    output.push(' ');
    output.push(list.quote);
    append_chars(output, list.closing_tail.as_slice());
    assert(output@ =~= body + seq![' ', ' ', ' ', ' ', list.view().quote]
        + list.view().closing_tail);
}

/// Whether the formatter may move `word` to a line of its own.
fn is_static_class(word: &[char]) -> (r: bool)
    ensures
        r == static_class(word@),
{
    if !is_static_metadata_list_item(word, '"') {
        return false;
    }
    let mut k: usize = 0;
    while k < word.len()
        invariant
            k <= word@.len(),
            forall|j: int| 0 <= j < k ==> #[trigger] word@[j] != '\'' && word@[j] != '#',
        decreases word@.len() - k,
    {
        if word[k] == '\'' || word[k] == '#' {
            return false;
        }
        k += 1;
    }
    true
}

/// The words of `arguments`, where all of them are static classes.
fn read_classes(arguments: &[char]) -> (r: Option<Vec<Vec<char>>>)
    ensures
        ({
            let words = text::word_texts(arguments@, CharClass::Indent);
            match r {
                Some(classes) => collections::char_texts(classes@) == words && forall|k: int|
                    0 <= k < words.len() ==> static_class(#[trigger] words[k]),
                None => exists|k: int| 0 <= k < words.len() && !static_class(#[trigger] words[k]),
            }
        }),
{
    let ranges = split_words(arguments, CharClass::Indent);
    let ghost words = text::word_texts(arguments@, CharClass::Indent);
    let mut classes: Vec<Vec<char>> = Vec::new();
    let mut k: usize = 0;
    while k < ranges.len()
        invariant
            k <= ranges@.len(),
            ranges@.len() == words.len(),
            words == text::word_texts(arguments@, CharClass::Indent),
            text::ranges_match(ranges@, text::words_of(arguments@, CharClass::Indent)),
            text::ranges_inside(ranges@, arguments@.len() as int),
            classes@.len() == k,
            forall|j: int| 0 <= j < k ==> (#[trigger] classes@[j])@ == words[j],
            forall|j: int| 0 <= j < k ==> static_class(#[trigger] words[j]),
        decreases ranges@.len() - k,
    {
        let word = slice_subrange(arguments, ranges[k].0, ranges[k].1);
        assert(words[k as int] == word@);
        if !is_static_class(word) {
            return None;
        }
        let mut item: Vec<char> = Vec::new();
        append_chars(&mut item, word);
        assert(item@ =~= word@);
        classes.push(item);
        k += 1;
    }
    assert(collections::char_texts(classes@) =~= words);
    Some(classes)
}

/// Whether a directive names classes.
fn is_class_list(keyword: DirectiveKeyword) -> (r: bool)
    ensures
        r == (keyword == DirectiveKeyword::Inherit || keyword == DirectiveKeyword::InheritDefer),
{
    match keyword {
        DirectiveKeyword::Inherit => true,
        DirectiveKeyword::InheritDefer => true,
        _ => false,
    }
}

/// Appends a directive in its formatted form.
#[verifier::spinoff_prover]
#[verifier::rlimit(60)]
fn format_directive(
    output: &mut Vec<char>,
    node: &SyntaxNode,
    directive: &DirectiveSyntax,
    options: &FormatOptions,
    Ghost(source): Ghost<Seq<char>>,
    Ghost(view): Ghost<NodeView>,
    Ghost(d): Ghost<DirectiveParts>,
)
    requires
        0 <= view.start <= view.end <= source.len(),
        node.holds(source, view),
        directive.holds(source, view.start, d),
        node_parts_inside(source.subrange(view.start, view.end), NodeKind::Directive(d)),
    ensures
        final(output)@ == old(output)@ + node_output(
            old(output)@,
            source.subrange(view.start, view.end),
            NodeKind::Directive(d),
            *options,
        ),
{
    let ghost text_view = source.subrange(view.start, view.end);
    proof {
        node.lemma_holds(source, view);
        directive.lemma_holds(source, view.start, d);
        assert(text_view.subrange(d.arguments, d.arguments_end) =~= source.subrange(
            view.start + d.arguments,
            view.start + d.arguments_end,
        ));
    }
    let chars = chars_of(node.text());
    let arguments = chars_of(directive.arguments());
    let (_, ending) = split_line_ending(chars.as_slice());
    let ghost before = output@;
    if let MetadataListLayout::OnePerLine = options.metadata_list_layout {
        if !directive.is_continued() && is_class_list(directive.keyword()) && ending.len() > 0 {
            if let Some(classes) = read_classes(arguments.as_slice()) {
                if classes.len() >= 2 {
                    let last = classes.len() - 1;
                    append_str(output, directive.keyword().lexeme());
                    output.push(' ');
                    output.push('\\');
                    append_chars(output, ending);
                    append_items(output, &classes, last, ending);
                    output.push(' ');
                    output.push(' ');
                    output.push(' ');
                    output.push(' ');
                    append_chars(output, classes[last].as_slice());
                    append_chars(output, ending);
                    proof {
                        let words = collections::char_texts(classes@);
                        assert(words.take(last as int) =~= words.drop_last());
                        assert(output@ =~= before + classes_output(d.keyword, words, ending@));
                    }
                    return ;
                }
            }
        }
    }
    append_str(output, directive.keyword().lexeme());
    if arguments.len() > 0 {
        output.push(' ');
        append_chars(output, arguments.as_slice());
    }
    append_chars(output, ending);
    assert(output@ =~= before + directive_output(text_view, d));
}

/// Appends the line ending of a blank line unless the limit is reached.
fn append_normalized_blank_line(output: &mut Vec<char>, line: &[char], options: &FormatOptions)
    ensures
        final(output)@ == old(output)@ + node_output(
            old(output)@,
            line@,
            NodeKind::Blank,
            *options,
        ),
{
    let (_, ending) = split_line_ending(line);
    if trailing_blank_lines(output.as_slice(), options.max_top_level_blank_lines) {
        assert(output@ + Seq::empty() =~= output@);
        return ;
    }
    append_chars(output, ending);
}

/// Formats a previously parsed syntax tree without reparsing its source.
///
/// Assignment operators and directive keywords are normalized at the
/// top-level boundary. Continuation tails, comments, unsupported syntax, and
/// embedded shell or Python bodies remain byte-for-byte unchanged.
pub fn format_syntax(tree: &SyntaxTree) -> (r: String)
    requires
        tree.wf(),
    ensures
        r@ == formatted(tree.text(), default_format_options()),
{
    format_syntax_with_options(tree, &FormatOptions::default())
}

/// Formats a previously parsed syntax tree with caller-provided options.
pub fn format_syntax_with_options(tree: &SyntaxTree, options: &FormatOptions) -> (r: String)
    requires
        tree.wf(),
    ensures
        r@ == formatted(tree.text(), *options),
{
    let ghost source = tree.text();
    let ghost views = tree.views();
    let nodes = tree.nodes();
    let mut output: Vec<char> = Vec::new();
    let mut k: usize = 0;
    assert(views.take(0) =~= Seq::empty());
    while k < nodes.len()
        invariant
            k <= nodes@.len(),
            source == tree.text(),
            views == tree.views(),
            nodes@ == tree.spec_nodes(),
            tree.wf(),
            output@ == nodes_output(source, views.take(k as int), *options),
        decreases nodes@.len() - k,
    {
        let node = &nodes[k];
        let ghost view = views[k as int];
        proof {
            lemma_nodes_are_next(source, 0, k as int);
            assert(source.skip(view.start).take(view.end - view.start) =~= source.subrange(
                view.start,
                view.end,
            ));
            lemma_node_inside(source.skip(view.start));
            assert(views.take(k + 1).drop_last() =~= views.take(k as int));
            assert(node.holds(source, view));
            node.lemma_holds(source, view);
        }
        match node.kind() {
            SyntaxKind::Blank => {
                let chars = chars_of(node.text());
                append_normalized_blank_line(&mut output, chars.as_slice(), options);
            },
            SyntaxKind::Assignment(assignment) => {
                format_assignment(
                    &mut output,
                    node,
                    assignment,
                    options,
                    Ghost(source),
                    Ghost(view),
                    Ghost(view.kind->Assignment_0),
                );
            },
            SyntaxKind::Directive(directive) => {
                format_directive(
                    &mut output,
                    node,
                    directive,
                    options,
                    Ghost(source),
                    Ghost(view),
                    Ghost(view.kind->Directive_0),
                );
            },
            _ => {
                append_str(&mut output, node.text());
            },
        }
        k += 1;
    }
    assert(views.take(k as int) =~= views);
    string_of(output.as_slice())
}

/// Formats source with caller-provided top-level formatting options.
pub fn format_with_options(text: &str, options: &FormatOptions) -> (r: Result<String, FormatError>)
    requires
        text::byte_len(text@) < usize::MAX,
    ensures
        match syntax::nodes_of(text@) {
            Ok(_) => r matches Ok(output) && output@ == formatted(text@, *options),
            Err((i, fault)) => r matches Err(error) && error.reports(text@, i, fault),
        },
{
    match parse(text) {
        Ok(tree) => Ok(format_syntax_with_options(&tree, options)),
        Err(error) => Err(error),
    }
}

} // verus!
