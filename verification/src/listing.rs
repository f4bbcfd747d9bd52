//! The lines of a list that is laid out one item per line read as its items.
use crate::formatter;
use crate::reparse;
use crate::scanner;
use crate::syntax;
use crate::text;
use crate::formatter::ListLine;
use crate::text::CharClass;
use vstd::prelude::*;

verus! {

// ---------------------------------------------------------------------------
// Quotes
// ---------------------------------------------------------------------------
/// What a closing quote is.
pub proof fn lemma_closing_quote(value: Seq<char>, i: int, quote: char, escaped: bool)
    requires
        0 <= i,
    ensures
        formatter::closing_quote(value, i, quote, escaped) matches Some(c) ==> i <= c < value.len()
            && value[c] == quote && formatter::comment_or_blank(value.skip(c + 1)),
    decreases value.len() - i,
{
    if i < value.len() {
        lemma_closing_quote(value, i + 1, quote, !escaped);
        lemma_closing_quote(value, i + 1, quote, false);
    }
}

/// Text without quotes is passed on the way to the closing quote.
pub proof fn lemma_closing_found(value: Seq<char>, i: int, c: int, quote: char, escaped: bool)
    requires
        0 <= i <= c < value.len(),
        quote != '\\',
        forall|k: int| i <= k < c ==> #[trigger] value[k] != quote,
        value[c] == quote,
        formatter::comment_or_blank(value.skip(c + 1)),
        i < c ==> value[c - 1] != '\\',
        i == c ==> !escaped,
    ensures
        formatter::closing_quote(value, i, quote, escaped) == Some(c),
    decreases c - i,
{
    if i < c {
        assert(value[i] != quote);
        if value[i] == '\\' {
            lemma_closing_found(value, i + 1, c, quote, !escaped);
        } else {
            lemma_closing_found(value, i + 1, c, quote, false);
        }
    }
}

/// A quoted value without quotes inside is balanced where what follows it is.
pub proof fn lemma_balanced_quoted(value: Seq<char>, i: int, c: int, quote: char, escaped: bool)
    requires
        0 <= i <= c < value.len(),
        quote != '\\',
        forall|k: int| i <= k < c ==> #[trigger] value[k] != quote,
        formatter::closing_quote(value, i, quote, escaped) == Some(c),
    ensures
        scanner::balanced_from(value, i, Some(quote), escaped) == scanner::balanced_from(
            value,
            c + 1,
            None,
            false,
        ),
    decreases c - i,
{
    lemma_closing_quote(value, i, quote, escaped);
    if i < c {
        assert(value[i] != quote);
        if value[i] == '\\' {
            lemma_balanced_quoted(value, i + 1, c, quote, !escaped);
        } else {
            lemma_balanced_quoted(value, i + 1, c, quote, false);
        }
    } else {
        lemma_closing_quote(value, i + 1, quote, false);
        lemma_closing_quote(value, i + 1, quote, !escaped);
    }
}

// ---------------------------------------------------------------------------
// Lines
// ---------------------------------------------------------------------------
/// One of the two line endings.
pub open spec fn is_ending(ending: Seq<char>) -> bool {
    ending == seq!['\n'] || ending == seq!['\r', '\n']
}

/// The ending of a line is one of the two, or none.
pub proof fn lemma_line_ending(line: Seq<char>)
    ensures
        text::line_ending(line).len() == 0 || is_ending(text::line_ending(line)),
{
    let ending = text::line_ending(line);
    if ending.len() == 1 {
        assert(ending =~= seq!['\n']);
    } else if ending.len() == 2 {
        assert(ending =~= seq!['\r', '\n']);
    }
}

/// A line that a list may hold has no quote.
proof fn lemma_line_unquoted(line: Seq<char>, is_first: bool, quote: char, ending: Seq<char>)
    requires
        scanner::is_quote(quote),
        !(formatter::list_line(line, is_first, quote, ending) is Reject),
    ensures
        forall|k: int| 0 <= k < line.len() ==> #[trigger] line[k] != quote,
        formatter::list_line(line, is_first, quote, ending) matches ListLine::Item(item) ==> formatter::static_item(item, quote),
{
    let content = text::line_content(line);
    let n = content.len() as int;
    let l = text::lead_from(content, CharClass::Indent, 0);
    text::lemma_lead(content, CharClass::Indent, 0);
    let body = text::trimmed_start(content, CharClass::Indent);
    assert(body =~= content.skip(l));
    assert forall|k: int| 0 <= k < line.len() implies #[trigger] line[k] != quote by {
        if k >= n {
            let e = text::line_ending(line);
            lemma_line_ending(line);
            assert(e[k - n] == line[k]);
        } else if k < l {
            assert(content[k] == line[k]);
            assert(text::in_class(CharClass::Indent, content[k]));
        } else {
            assert(content[k] == line[k]);
            assert(body[k - l] == content[k]);
            if text::line_ending(line).len() == 0 {
                assert(formatter::static_char(body[k - l], quote));
            } else if k < n - 1 {
                let before = body.drop_last();
                let item = text::trimmed_end(before, CharClass::Indent);
                text::lemma_tail(before, CharClass::Indent, before.len() as int);
                assert(before[k - l] == body[k - l]);
                if k - l < item.len() {
                    assert(item[k - l] == before[k - l]);
                    assert(formatter::static_char(item[k - l], quote));
                } else {
                    assert(text::in_class(CharClass::Indent, before[k - l]));
                }
            }
        }
    }
}

/// The items of a list are static, and the list has no quote.
pub proof fn lemma_items_unquoted(contents: Seq<char>, i: int, quote: char, ending: Seq<char>)
    requires
        0 <= i <= contents.len(),
        scanner::is_quote(quote),
        formatter::list_items(contents, i, quote, ending) is Some,
    ensures
        forall|k: int| i <= k < contents.len() ==> #[trigger] contents[k] != quote,
        forall|k: int|
            0 <= k < formatter::list_items(contents, i, quote, ending)->0.len() ==> formatter::static_item(
                #[trigger] formatter::list_items(contents, i, quote, ending)->0[k],
                quote,
            ),
    decreases contents.len() - i,
{
    if i < contents.len() {
        text::lemma_line_end(contents, i);
        let e = text::line_end(contents, i);
        let line = contents.subrange(i, e);
        lemma_line_unquoted(line, i == 0, quote, ending);
        lemma_items_unquoted(contents, e, quote, ending);
        let rest = formatter::list_items(contents, e, quote, ending)->0;
        let all = formatter::list_items(contents, i, quote, ending)->0;
        assert forall|k: int| i <= k < contents.len() implies #[trigger] contents[k] != quote by {
            if k < e {
                assert(line[k - i] == contents[k]);
            }
        }
        if let ListLine::Item(item) = formatter::list_line(line, i == 0, quote, ending) {
            assert forall|k: int| 0 <= k < all.len() implies formatter::static_item(
                #[trigger] all[k],
                quote,
            ) by {
                if k > 0 {
                    assert(all[k] == rest[k - 1]);
                }
            }
        }
    }
}

/// The words of a value that may be moved leave no quote in it.
pub proof fn lemma_words_unquoted(contents: Seq<char>, quote: char)
    requires
        scanner::is_quote(quote),
        formatter::list_words(contents, quote) is Some,
    ensures
        forall|k: int| 0 <= k < contents.len() ==> #[trigger] contents[k] != quote,
        forall|k: int|
            0 <= k < formatter::list_words(contents, quote)->0.len() ==> formatter::static_item(
                #[trigger] formatter::list_words(contents, quote)->0[k],
                quote,
            ),
{
    let words = text::word_texts(contents, CharClass::Indent);
    assert forall|k: int| 0 <= k < contents.len() implies #[trigger] contents[k] != quote by {
        if !text::in_class(CharClass::Indent, contents[k]) {
            let w = text::lemma_words_cover(contents, CharClass::Indent, 0, k);
            let (s, e) = text::words_of(contents, CharClass::Indent)[w];
            assert(words[w] == contents.subrange(s, e));
            assert(formatter::static_item(words[w], quote));
            assert(formatter::static_char(words[w][k - s], quote));
        }
    }
}

/// The line of one item.
pub open spec fn item_line(item: Seq<char>, ending: Seq<char>) -> Seq<char> {
    seq![' ', ' ', ' ', ' '] + item + seq![' ', '\\'] + ending
}

/// The lines of the items of a list start with the line of the first.
pub proof fn lemma_items_front(items: Seq<Seq<char>>, ending: Seq<char>)
    requires
        items.len() > 0,
    ensures
        formatter::items_output(items, ending) == item_line(items[0], ending) + formatter::items_output(
            items.drop_first(),
            ending,
        ),
    decreases items.len(),
{
    if items.len() == 1 {
        reveal_with_fuel(formatter::items_output, 2);
        assert(items.drop_last() =~= Seq::empty());
        assert(items.drop_first() =~= Seq::empty());
        assert(formatter::items_output(items, ending) =~= item_line(items[0], ending));
        assert(item_line(items[0], ending) + Seq::<char>::empty() =~= item_line(items[0], ending));
    } else {
        let init = items.drop_last();
        lemma_items_front(init, ending);
        assert(items.drop_first().drop_last() =~= init.drop_first());
        assert(formatter::items_output(items, ending) =~= item_line(items[0], ending)
            + formatter::items_output(items.drop_first(), ending));
    }
}

/// The line of an item is read as that item.
proof fn lemma_item_line(item: Seq<char>, quote: char, ending: Seq<char>)
    requires
        formatter::static_item(item, quote),
        is_ending(ending),
    ensures
        formatter::list_line(item_line(item, ending), false, quote, ending) == ListLine::Item(item),
        text::line_ending(item_line(item, ending)) == ending,
        scanner::continued_line(item_line(item, ending)),
        forall|k: int|
            0 <= k < item_line(item, ending).len() - 1 ==> #[trigger] item_line(item, ending)[k] != '\n',
        item_line(item, ending).last() == '\n',
        item_line(item, ending).len() == 6 + item.len() + ending.len(),
{
    let line = item_line(item, ending);
    let n = 6 + item.len() as int;
    assert(line.len() == n + ending.len());
    assert(line[n - 1] == '\\' && line[n - 2] == ' ');
    assert forall|k: int| 0 <= k < item.len() implies #[trigger] line[4 + k] == item[k] by {}
    assert(text::content_len(line) == n);
    assert(text::line_ending(line) =~= ending);
    let content = text::line_content(line);
    assert(content =~= line.take(n));
    assert(formatter::static_char(item[0], quote));
    assert(content[4] == item[0]);
    text::lemma_lead_unique(content, CharClass::Indent, 0, 4);
    let body = text::trimmed_start(content, CharClass::Indent);
    assert(body =~= item + seq![' ', '\\']);
    let before = body.drop_last();
    assert(before =~= item.push(' '));
    assert(formatter::static_char(item[item.len() - 1], quote));
    assert(before[item.len() - 1] == item[item.len() - 1]);
    text::lemma_tail_unique(before, CharClass::Indent, item.len() as int, before.len() as int);
    assert(text::trimmed_end(before, CharClass::Indent) =~= item);
    text::lemma_tail_unique(line, CharClass::LineBlank, n, n);
    assert(scanner::backslashes_before(line, n - 1) == 0);
    assert(scanner::backslashes_before(line, n) == 1);
    assert forall|k: int| 0 <= k < line.len() - 1 implies #[trigger] line[k] != '\n' by {
        if 4 <= k < 4 + item.len() {
            assert(line[4 + (k - 4)] == item[k - 4]);
            assert(formatter::static_char(item[k - 4], quote));
        }
    }
}

/// The first line of a text from `k` on, and what follows it.
pub proof fn lemma_line_first(t: Seq<char>, k: int, line: Seq<char>, after: Seq<char>)
    requires
        0 <= k <= t.len(),
        t.skip(k) == line + after,
        line.len() > 0,
        line.last() == '\n',
        forall|j: int| 0 <= j < line.len() - 1 ==> #[trigger] line[j] != '\n',
    ensures
        k + line.len() + after.len() == t.len(),
        t.subrange(k, (k + line.len()) as int) == line,
        t.skip((k + line.len()) as int) == after,
        text::line_end(t, k) == k + line.len(),
{
    let e = (k + line.len()) as int;
    let rest = line + after;
    assert(rest.len() == line.len() + after.len());
    assert forall|j: int| 0 <= j < rest.len() implies #[trigger] rest[j] == t[k + j] by {
        assert(t.skip(k)[j] == t[k + j]);
    }
    assert forall|j: int| 0 <= j < line.len() implies t[k + j] == #[trigger] line[j] by {
        assert(rest[j] == t[k + j]);
    }
    assert(t.subrange(k, e) =~= line);
    assert forall|j: int| 0 <= j < after.len() implies t[e + j] == #[trigger] after[j] by {
        assert(rest[line.len() + j] == t[k + (line.len() + j)]);
    }
    assert(t.skip(e) =~= after);
    assert forall|j: int| k <= j < e - 1 implies #[trigger] t[j] != '\n' by {
        assert(t[k + (j - k)] == line[j - k]);
    }
    assert(t[k + (line.len() - 1)] == line[line.len() - 1]);
    text::lemma_line_end_unique(t, k, e);
}

/// The first line of a list that is laid out.
pub open spec fn opening(ending: Seq<char>) -> Seq<char> {
    seq![' ', '\\'] + ending
}

pub open spec fn closing() -> Seq<char> {
    seq![' ', ' ', ' ', ' ']
}

/// The blanks before the closing quote hold no item.
proof fn lemma_closing_line(contents: Seq<char>, k: int, quote: char, ending: Seq<char>)
    requires
        0 < k <= contents.len(),
        contents.skip(k) == closing(),
    ensures
        formatter::list_items(contents, k, quote, ending) == Some(Seq::<Seq<char>>::empty()),
{
    let rest = contents.skip(k);
    assert(closing().len() == 4);
    assert forall|j: int| 0 <= j < 4 implies #[trigger] closing()[j] == ' ' by {}
    assert forall|j: int| k <= j < contents.len() implies #[trigger] contents[j] == ' ' by {
        assert(closing()[j - k] == ' ');
        assert(rest[j - k] == contents[j]);
    }
    text::lemma_line_end_unique(contents, k, contents.len() as int);
    let line = contents.subrange(k, contents.len() as int);
    assert(line =~= closing());
    assert(text::line_ending(line) =~= Seq::empty());
    let content = text::line_content(line);
    assert(content =~= closing());
    text::lemma_lead_unique(content, CharClass::Indent, 0, 4);
    assert(text::trimmed_start(content, CharClass::Indent) =~= Seq::empty());
    assert(formatter::list_items(contents, contents.len() as int, quote, ending) == Some(
        Seq::<Seq<char>>::empty(),
    ));
}

/// The lines of items, up to the closing quote, are read as the items.
proof fn lemma_rest_listed(
    contents: Seq<char>,
    k: int,
    items: Seq<Seq<char>>,
    quote: char,
    ending: Seq<char>,
)
    requires
        0 < k <= contents.len(),
        contents.skip(k) == formatter::items_output(items, ending) + closing(),
        is_ending(ending),
        forall|j: int| 0 <= j < items.len() ==> formatter::static_item(#[trigger] items[j], quote),
    ensures
        formatter::list_items(contents, k, quote, ending) == Some(items),
    decreases items.len(),
{
    let rest = contents.skip(k);
    if items.len() == 0 {
        assert(rest =~= closing());
        lemma_closing_line(contents, k, quote, ending);
        assert(items =~= Seq::empty());
    } else {
        let line = item_line(items[0], ending);
        let more = items.drop_first();
        lemma_items_front(items, ending);
        lemma_item_line(items[0], quote, ending);
        let e = k + line.len();
        let after = formatter::items_output(more, ending) + closing();
        assert(rest =~= line + after);
        lemma_line_first(contents, k, line, after);
        assert forall|j: int| 0 <= j < more.len() implies formatter::static_item(
            #[trigger] more[j],
            quote,
        ) by {
            assert(more[j] == items[j + 1]);
        }
        lemma_rest_listed(contents, e, more, quote, ending);
        assert(seq![items[0]] + more =~= items);
    }
}

/// What stands between the quotes of a list that is laid out.
pub open spec fn listed(items: Seq<Seq<char>>, ending: Seq<char>) -> Seq<char> {
    opening(ending) + formatter::items_output(items, ending) + closing()
}

/// A list that is laid out is read as its items.
pub proof fn lemma_listed(items: Seq<Seq<char>>, quote: char, ending: Seq<char>)
    requires
        is_ending(ending),
        scanner::is_quote(quote),
        forall|j: int| 0 <= j < items.len() ==> formatter::static_item(#[trigger] items[j], quote),
    ensures
        formatter::list_items(listed(items, ending), 0, quote, ending) == Some(items),
        listed(items, ending).contains('\n'),
        forall|k: int| 0 <= k < listed(items, ending).len() ==> #[trigger] listed(items, ending)[k] != quote,
        listed(items, ending).last() == ' ',
{
    let contents = listed(items, ending);
    let line = opening(ending);
    let e = line.len() as int;
    let after = formatter::items_output(items, ending) + closing();
    assert(contents.skip(0) =~= line + after);
    lemma_line_first(contents, 0, line, after);
    assert(text::content_len(line) == 2);
    assert(text::line_ending(line) =~= ending);
    let content = text::line_content(line);
    assert(content =~= seq![' ', '\\']);
    text::lemma_lead_unique(content, CharClass::Indent, 0, 1);
    assert(text::trimmed_start(content, CharClass::Indent) =~= seq!['\\']);
    assert(formatter::list_line(line, true, quote, ending) is Empty);
    lemma_rest_listed(contents, e, items, quote, ending);
    lemma_items_unquoted(contents, 0, quote, ending);
    assert(contents.last() == closing()[3]);
}

// ---------------------------------------------------------------------------
// Line endings
// ---------------------------------------------------------------------------
/// Equal tails agree on their line endings.
pub proof fn lemma_ending_shift(
    a: Seq<char>,
    i: int,
    b: Seq<char>,
    j: int,
    seen: Option<Seq<char>>,
)
    requires
        reparse::same_tail(a, i, b, j),
    ensures
        formatter::common_ending(a, i, seen) == formatter::common_ending(b, j, seen),
    decreases a.len() - i,
{
    if i < a.len() {
        reparse::lemma_line_end_shift(a, i, b, j);
        text::lemma_line_end(a, i);
        text::lemma_line_end(b, j);
        let e = text::line_end(a, i);
        let f = text::line_end(b, j);
        reparse::lemma_same_tail_step(a, i, b, j, e - i);
        assert(a.subrange(i, e) =~= b.subrange(j, f)) by {
            assert forall|d: int| 0 <= d < e - i implies #[trigger] a.subrange(i, e)[d]
                == b.subrange(j, f)[d] by {
                assert(a[i + d] == b[j + d]);
            }
        }
        lemma_ending_shift(a, e, b, f, seen);
        lemma_ending_shift(a, e, b, f, Some(text::line_ending(a.subrange(i, e))));
    }
}

/// A statement with another head has the same line endings.
pub proof fn lemma_rewritten_endings(
    text: Seq<char>,
    head: Seq<char>,
    j: int,
    seen: Option<Seq<char>>,
)
    requires
        reparse::replaceable(text, head, j),
    ensures
        formatter::common_ending(reparse::rewritten(text, head, j), 0, seen) == formatter::common_ending(
            text,
            0,
            seen,
        ),
{
    let out = reparse::rewritten(text, head, j);
    let n = head.len() as int;
    reparse::lemma_rewritten_lines(text, head, j);
    text::lemma_line_end(text, 0);
    text::lemma_line_end(out, 0);
    let e = text::line_end(text, 0);
    let f = text::line_end(out, 0);
    let line = syntax::first_line(text);
    let fine = syntax::first_line(out);
    assert(text.subrange(0, e) =~= line);
    assert(out.subrange(0, f) =~= fine);
    assert(text::line_ending(line) =~= text::line_ending(fine));
    reparse::lemma_same_tail_step(text, j, out, n, e - j);
    lemma_ending_shift(text, e, out, f, seen);
    lemma_ending_shift(text, e, out, f, Some(text::line_ending(line)));
}

/// A text with one line ending has it from any of its lines on.
pub proof fn lemma_ending_later(t: Seq<char>, i: int, o: int, seen: Option<Seq<char>>, ending: Seq<char>)
    requires
        0 <= i <= o <= t.len(),
        o == i || (o > 0 && t[o - 1] == '\n'),
        formatter::common_ending(t, i, seen) == Some(ending),
        seen is None || seen == Some(ending),
    ensures
        formatter::common_ending(t, o, Some(ending)) == Some(ending),
    decreases o - i,
{
    lemma_ending_seen(t, i, seen, ending);
    if i < o {
        text::lemma_line_end(t, i);
        let e = text::line_end(t, i);
        let now = text::line_ending(t.subrange(i, e));
        assert(e <= o) by {
            if e > o {
                assert(t[o - 1] != '\n');
            }
        }
        if now.len() == 0 {
            lemma_ending_later(t, e, o, seen, ending);
        } else {
            lemma_ending_seen(t, e, Some(now), ending);
            lemma_ending_later(t, e, o, Some(now), ending);
        }
    }
}

/// The ending that a text agrees on is the one that was seen before it.
proof fn lemma_ending_seen(t: Seq<char>, i: int, seen: Option<Seq<char>>, ending: Seq<char>)
    requires
        0 <= i <= t.len(),
        formatter::common_ending(t, i, seen) == Some(ending),
    ensures
        seen matches Some(known) ==> known == ending,
        formatter::common_ending(t, i, Some(ending)) == Some(ending),
        seen is None ==> is_ending(ending),
    decreases t.len() - i,
{
    if i < t.len() {
        text::lemma_line_end(t, i);
        let e = text::line_end(t, i);
        let now = text::line_ending(t.subrange(i, e));
        lemma_line_ending(t.subrange(i, e));
        if now.len() == 0 {
            lemma_ending_seen(t, e, seen, ending);
        } else {
            lemma_ending_seen(t, e, Some(now), ending);
        }
    }
}

/// The one line ending of a text is one of the two.
pub proof fn lemma_common_ending(t: Seq<char>)
    ensures
        formatter::common_ending(t, 0, None) matches Some(ending) ==> is_ending(ending),
{
    if formatter::common_ending(t, 0, None) is Some {
        lemma_ending_seen(t, 0, None, formatter::common_ending(t, 0, None)->0);
    }
}

// ---------------------------------------------------------------------------
// Continuations
// ---------------------------------------------------------------------------
/// A statement that ends with its text does so from any of its lines on.
pub proof fn lemma_continued_later(t: Seq<char>, i: int, o: int)
    requires
        0 <= i <= o < t.len(),
        o == i || t[o - 1] == '\n',
        scanner::continuation_end(t, i) == Some(t.len() as int),
    ensures
        scanner::continuation_end(t, o) == Some(t.len() as int),
    decreases o - i,
{
    if i < o {
        text::lemma_line_end(t, i);
        let e = text::line_end(t, i);
        assert(e <= o) by {
            if e > o {
                assert(t[o - 1] != '\n');
            }
        }
        lemma_continued_later(t, e, o);
    }
}

/// A statement with another head ends with its text where it did before.
pub proof fn lemma_rewritten_end(text: Seq<char>, head: Seq<char>, j: int)
    requires
        reparse::replaceable(text, head, j),
        scanner::continuation_end(text, 0) == Some(text.len() as int),
    ensures
        scanner::continuation_end(reparse::rewritten(text, head, j), 0) == Some(
            reparse::rewritten(text, head, j).len() as int,
        ),
{
    let out = reparse::rewritten(text, head, j);
    let n = head.len() as int;
    reparse::lemma_rewritten_lines(text, head, j);
    reparse::lemma_rewritten_continued(text, head, j);
    text::lemma_line_end(text, 0);
    let e = text::line_end(text, 0);
    let f = text::line_end(out, 0);
    assert(text.subrange(0, e) =~= syntax::first_line(text));
    assert(out.subrange(0, f) =~= syntax::first_line(out));
    if scanner::continued_line(syntax::first_line(text)) {
        reparse::lemma_same_tail_step(text, j, out, n, e - j);
        reparse::lemma_continuation_shift(text, e, out, f);
    }
}

/// The lines of items are continued and share their ending.
pub proof fn lemma_items_run(
    t: Seq<char>,
    k: int,
    items: Seq<Seq<char>>,
    last: Seq<char>,
    quote: char,
    ending: Seq<char>,
)
    requires
        0 <= k <= t.len(),
        t.skip(k) == formatter::items_output(items, ending) + last,
        last.len() > 0,
        is_ending(ending),
        forall|j: int| 0 <= j < items.len() ==> formatter::static_item(#[trigger] items[j], quote),
    ensures
        ({
            let p = k + formatter::items_output(items, ending).len();
            &&& p + last.len() == t.len()
            &&& t.skip(p) == last
            &&& scanner::continuation_end(t, k) == scanner::continuation_end(t, p)
            &&& formatter::common_ending(t, k, Some(ending)) == formatter::common_ending(
                t,
                p,
                Some(ending),
            )
        }),
    decreases items.len(),
{
    let rest = t.skip(k);
    if items.len() == 0 {
        assert(rest =~= last);
    } else {
        let line = item_line(items[0], ending);
        let more = items.drop_first();
        lemma_items_front(items, ending);
        lemma_item_line(items[0], quote, ending);
        let e = k + line.len();
        let after = formatter::items_output(more, ending) + last;
        assert(rest =~= line + after);
        lemma_line_first(t, k, line, after);
        assert(e < t.len()) by {
            assert(after.len() > 0);
        }
        assert forall|j: int| 0 <= j < more.len() implies formatter::static_item(
            #[trigger] more[j],
            quote,
        ) by {
            assert(more[j] == items[j + 1]);
        }
        lemma_items_run(t, e, more, last, quote, ending);
        assert(formatter::items_output(items, ending).len() == line.len() + formatter::items_output(
            more,
            ending,
        ).len());
    }
}

} // verus!
