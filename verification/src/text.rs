//! Text as a sequence of characters: classes, trimming, lines and byte widths.
//!
//! The library scans text as a sequence of Unicode scalar values and reports
//! positions as byte offsets of the UTF-8 encoding.
use vstd::prelude::*;
use vstd::slice::slice_subrange;

verus! {

/// The standard library's `String::push` appends one character.
pub assume_specification[ String::push ](s: &mut String, ch: char)
    ensures
        final(s)@ == old(s)@.push(ch),
;

// ---------------------------------------------------------------------------
// Character classes
// ---------------------------------------------------------------------------
/// A set of characters that trimming removes.
#[derive(Clone, Copy, Debug, PartialEq, Eq, Structural)]
pub enum CharClass {
    /// Every character with the Unicode `White_Space` property.
    Whitespace,
    /// The space and the horizontal tab.
    Indent,
    /// The space, the horizontal tab and the carriage return.
    LineBlank,
    /// ASCII white space.
    Ascii,
    /// ASCII white space and the colon, which separate the names of overrides.
    Separator,
}

/// The characters with the Unicode `White_Space` property.
pub open spec fn is_ws(c: char) -> bool {
    let u = c as u32;
    ||| 0x9 <= u <= 0xd
    ||| u == 0x20
    ||| u == 0x85
    ||| u == 0xa0
    ||| u == 0x1680
    ||| 0x2000 <= u <= 0x200a
    ||| u == 0x2028
    ||| u == 0x2029
    ||| u == 0x202f
    ||| u == 0x205f
    ||| u == 0x3000
}

/// ASCII white space: space, tab, line feed, form feed, carriage return.
pub open spec fn is_ascii_ws(c: char) -> bool {
    c == ' ' || c == '\t' || c == '\n' || c == '\r' || c as u32 == 0xc
}

pub open spec fn is_indent(c: char) -> bool {
    c == ' ' || c == '\t'
}

pub open spec fn is_digit(c: char) -> bool {
    '0' <= c <= '9'
}

pub open spec fn is_alpha(c: char) -> bool {
    ('a' <= c <= 'z') || ('A' <= c <= 'Z')
}

pub open spec fn is_alnum(c: char) -> bool {
    is_digit(c) || is_alpha(c)
}

pub open spec fn in_class(class: CharClass, c: char) -> bool {
    match class {
        CharClass::Whitespace => is_ws(c),
        CharClass::Indent => is_indent(c),
        CharClass::LineBlank => is_indent(c) || c == '\r',
        CharClass::Ascii => is_ascii_ws(c),
        CharClass::Separator => is_ascii_ws(c) || c == ':',
    }
}

/// Whether `c` is Unicode white space.
pub fn is_whitespace(c: char) -> (b: bool)
    ensures
        b == is_ws(c),
{
    let u = c as u32;
    (0x9 <= u && u <= 0xd) || u == 0x20 || u == 0x85 || u == 0xa0 || u == 0x1680 || (0x2000 <= u
        && u <= 0x200a) || u == 0x2028 || u == 0x2029 || u == 0x202f || u == 0x205f || u == 0x3000
}

/// Whether `c` is ASCII white space.
pub fn is_ascii_whitespace(c: char) -> (b: bool)
    ensures
        b == is_ascii_ws(c),
{
    c == ' ' || c == '\t' || c == '\n' || c == '\r' || c as u32 == 0xc
}

/// Whether `c` is an ASCII letter or digit.
pub fn is_alphanumeric(c: char) -> (b: bool)
    ensures
        b == is_alnum(c),
{
    ('0' <= c && c <= '9') || ('a' <= c && c <= 'z') || ('A' <= c && c <= 'Z')
}

/// Whether `c` belongs to `class`.
pub fn class_has(class: CharClass, c: char) -> (b: bool)
    ensures
        b == in_class(class, c),
{
    match class {
        CharClass::Whitespace => is_whitespace(c),
        CharClass::Indent => c == ' ' || c == '\t',
        CharClass::LineBlank => c == ' ' || c == '\t' || c == '\r',
        CharClass::Ascii => is_ascii_whitespace(c),
        CharClass::Separator => is_ascii_whitespace(c) || c == ':',
    }
}

// ---------------------------------------------------------------------------
// Strings and character vectors
// ---------------------------------------------------------------------------
/// The characters of `text`, in order.
pub fn chars_of(text: &str) -> (chars: Vec<char>)
    ensures
        chars@ == text@,
{
    let mut chars: Vec<char> = Vec::new();
    for c in iter: text.chars()
        invariant
            chars@ == text@.take(iter.index()),
            iter.seq() == text@,
    {
        chars.push(c);
    }
    chars
}

/// Appends `chars` to `text`.
pub fn push_chars(text: &mut String, chars: &[char])
    ensures
        final(text)@ == old(text)@ + chars@,
{
    let mut i: usize = 0;
    assert(text@ =~= old(text)@ + chars@.take(0));
    while i < chars.len()
        invariant
            i <= chars@.len(),
            text@ == old(text)@ + chars@.take(i as int),
        decreases chars@.len() - i,
    {
        text.push(chars[i]);
        i += 1;
        assert(chars@.take(i as int) =~= chars@.take(i - 1).push(chars@[i - 1]));
        assert(text@ =~= old(text)@ + chars@.take(i as int));
    }
    assert(chars@.take(i as int) =~= chars@);
}

/// A string made of the given characters.
pub fn string_of(chars: &[char]) -> (text: String)
    ensures
        text@ == chars@,
{
    let mut text = String::new();
    push_chars(&mut text, chars);
    assert(text@ =~= chars@);
    text
}

/// A copy of a run of characters.
pub fn copy_chars(chars: &[char]) -> (r: Vec<char>)
    ensures
        r@ == chars@,
{
    let mut out: Vec<char> = Vec::new();
    append_chars(&mut out, chars);
    assert(out@ =~= chars@);
    out
}

/// Appends the characters of `more` to `chars`.
pub fn append_chars(chars: &mut Vec<char>, more: &[char])
    ensures
        final(chars)@ == old(chars)@ + more@,
{
    let mut i: usize = 0;
    assert(chars@ =~= old(chars)@ + more@.take(0));
    while i < more.len()
        invariant
            i <= more@.len(),
            chars@ == old(chars)@ + more@.take(i as int),
        decreases more@.len() - i,
    {
        chars.push(more[i]);
        i += 1;
        assert(more@.take(i as int) =~= more@.take(i - 1).push(more@[i - 1]));
        assert(chars@ =~= old(chars)@ + more@.take(i as int));
    }
    assert(more@.take(i as int) =~= more@);
}

/// Appends the characters of `more` to `chars`.
pub fn append_str(chars: &mut Vec<char>, more: &str)
    ensures
        final(chars)@ == old(chars)@ + more@,
{
    let more = chars_of(more);
    append_chars(chars, more.as_slice());
}

/// Whether two character slices hold the same characters.
pub fn same_chars(a: &[char], b: &[char]) -> (r: bool)
    ensures
        r == (a@ == b@),
{
    if a.len() != b.len() {
        return false;
    }
    let mut i: usize = 0;
    while i < a.len()
        invariant
            i <= a@.len(),
            a@.len() == b@.len(),
            forall|k: int| 0 <= k < i ==> a@[k] == b@[k],
        decreases a@.len() - i,
    {
        if a[i] != b[i] {
            return false;
        }
        i += 1;
    }
    assert(a@ =~= b@);
    true
}

/// Whether `a` spells `b`.
pub fn eq_str(a: &[char], b: &str) -> (r: bool)
    ensures
        r == (a@ == b@),
{
    let b = chars_of(b);
    same_chars(a, b.as_slice())
}

/// Whether two strings hold the same characters.
pub fn same_str(a: &str, b: &str) -> (r: bool)
    ensures
        r == (a@ == b@),
{
    let a = chars_of(a);
    eq_str(a.as_slice(), b)
}

/// Whether `p` is a prefix of `t`.
pub open spec fn has_prefix(t: Seq<char>, p: Seq<char>) -> bool {
    p.len() <= t.len() && t.take(p.len() as int) == p
}

/// Whether `p` is a suffix of `t`.
pub open spec fn has_suffix(t: Seq<char>, p: Seq<char>) -> bool {
    p.len() <= t.len() && t.skip(t.len() - p.len()) == p
}

/// Whether `t` begins with the characters of `p`.
pub fn starts_with(t: &[char], p: &str) -> (r: bool)
    ensures
        r == has_prefix(t@, p@),
{
    let p = chars_of(p);
    if p.len() > t.len() {
        return false;
    }
    same_chars(slice_subrange(t, 0, p.len()), p.as_slice())
}

/// Whether `t` ends with the characters of `p`.
pub fn ends_with(t: &[char], p: &str) -> (r: bool)
    ensures
        r == has_suffix(t@, p@),
{
    let p = chars_of(p);
    if p.len() > t.len() {
        return false;
    }
    assert(t@.subrange(t@.len() - p@.len(), t@.len() as int) =~= t@.skip(t@.len() - p@.len()));
    same_chars(slice_subrange(t, t.len() - p.len(), t.len()), p.as_slice())
}

// ---------------------------------------------------------------------------
// Trimming
// ---------------------------------------------------------------------------
/// The first index from `i` on whose character is not in `class`, or the length.
pub open spec fn lead_from(t: Seq<char>, class: CharClass, i: int) -> int
    decreases t.len() - i,
{
    if i < 0 || i >= t.len() {
        t.len() as int
    } else if in_class(class, t[i]) {
        lead_from(t, class, i + 1)
    } else {
        i
    }
}

/// The end of `t[..e]` without its trailing characters in `class`.
pub open spec fn tail_from(t: Seq<char>, class: CharClass, e: int) -> int
    decreases e,
{
    if e <= 0 {
        0
    } else if e <= t.len() && in_class(class, t[e - 1]) {
        tail_from(t, class, e - 1)
    } else {
        e
    }
}

/// `t` without its leading characters in `class`.
pub open spec fn trimmed_start(t: Seq<char>, class: CharClass) -> Seq<char> {
    t.skip(lead_from(t, class, 0))
}

/// `t` without its trailing characters in `class`.
pub open spec fn trimmed_end(t: Seq<char>, class: CharClass) -> Seq<char> {
    t.take(tail_from(t, class, t.len() as int))
}

/// `t` without its leading and trailing characters in `class`.
pub open spec fn trimmed(t: Seq<char>, class: CharClass) -> Seq<char> {
    trimmed_end(trimmed_start(t, class), class)
}

pub proof fn lemma_lead(t: Seq<char>, class: CharClass, i: int)
    requires
        0 <= i <= t.len(),
    ensures
        i <= lead_from(t, class, i) <= t.len(),
        forall|k: int| i <= k < lead_from(t, class, i) ==> in_class(class, #[trigger] t[k]),
        lead_from(t, class, i) < t.len() ==> !in_class(class, t[lead_from(t, class, i)]),
    decreases t.len() - i,
{
    if i < t.len() && in_class(class, t[i]) {
        lemma_lead(t, class, i + 1);
    }
}

/// The leading run is the one position that separates the class from the rest.
pub proof fn lemma_lead_unique(t: Seq<char>, class: CharClass, i: int, e: int)
    requires
        0 <= i <= e <= t.len(),
        forall|k: int| i <= k < e ==> in_class(class, #[trigger] t[k]),
        e < t.len() ==> !in_class(class, t[e]),
    ensures
        lead_from(t, class, i) == e,
    decreases e - i,
{
    if i < e {
        assert(in_class(class, t[i]));
        lemma_lead_unique(t, class, i + 1, e);
    }
}

pub proof fn lemma_tail(t: Seq<char>, class: CharClass, e: int)
    requires
        0 <= e <= t.len(),
    ensures
        0 <= tail_from(t, class, e) <= e,
        forall|k: int| tail_from(t, class, e) <= k < e ==> in_class(class, #[trigger] t[k]),
        tail_from(t, class, e) > 0 ==> !in_class(class, t[tail_from(t, class, e) - 1]),
    decreases e,
{
    if e > 0 && in_class(class, t[e - 1]) {
        lemma_tail(t, class, e - 1);
    }
}

pub proof fn lemma_tail_unique(t: Seq<char>, class: CharClass, s: int, e: int)
    requires
        0 <= s <= e <= t.len(),
        forall|k: int| s <= k < e ==> in_class(class, #[trigger] t[k]),
        s > 0 ==> !in_class(class, t[s - 1]),
    ensures
        tail_from(t, class, e) == s,
    decreases e,
{
    if s < e {
        assert(in_class(class, t[e - 1]));
        lemma_tail_unique(t, class, s, e - 1);
    }
}

/// The first index from `i` on whose character is not in `class`, or the length.
pub fn lead_index(t: &[char], class: CharClass, i: usize) -> (r: usize)
    requires
        i <= t@.len(),
    ensures
        r == lead_from(t@, class, i as int),
        i <= r <= t@.len(),
{
    let mut k: usize = i;
    while k < t.len() && class_has(class, t[k])
        invariant
            i <= k <= t@.len(),
            lead_from(t@, class, k as int) == lead_from(t@, class, i as int),
        decreases t@.len() - k,
    {
        k += 1;
    }
    k
}

/// The end of `t[..e]` without its trailing characters in `class`.
pub fn tail_index(t: &[char], class: CharClass, e: usize) -> (r: usize)
    requires
        e <= t@.len(),
    ensures
        r == tail_from(t@, class, e as int),
        r <= e,
{
    let mut k: usize = e;
    while k > 0 && class_has(class, t[k - 1])
        invariant
            k <= e <= t@.len(),
            tail_from(t@, class, k as int) == tail_from(t@, class, e as int),
        decreases k,
    {
        k -= 1;
    }
    k
}

/// `t` without its leading characters in `class`.
pub fn trim_start(t: &[char], class: CharClass) -> (r: &[char])
    ensures
        r@ == trimmed_start(t@, class),
        r@.len() <= t@.len(),
{
    let s = lead_index(t, class, 0);
    assert(t@.subrange(s as int, t@.len() as int) =~= t@.skip(s as int));
    slice_subrange(t, s, t.len())
}

/// `t` without its trailing characters in `class`.
pub fn trim_end(t: &[char], class: CharClass) -> (r: &[char])
    ensures
        r@ == trimmed_end(t@, class),
        r@.len() <= t@.len(),
{
    let e = tail_index(t, class, t.len());
    assert(t@.subrange(0, e as int) =~= t@.take(e as int));
    slice_subrange(t, 0, e)
}

/// `t` without its leading and trailing characters in `class`.
pub fn trim(t: &[char], class: CharClass) -> (r: &[char])
    ensures
        r@ == trimmed(t@, class),
        r@.len() <= t@.len(),
{
    trim_end(trim_start(t, class), class)
}

// ---------------------------------------------------------------------------
// Words
// ---------------------------------------------------------------------------
/// The first index from `i` on whose character is in `class`, or the length.
pub open spec fn until_from(t: Seq<char>, class: CharClass, i: int) -> int
    decreases t.len() - i,
{
    if i < 0 || i >= t.len() {
        t.len() as int
    } else if in_class(class, t[i]) {
        i
    } else {
        until_from(t, class, i + 1)
    }
}

pub proof fn lemma_until(t: Seq<char>, class: CharClass, i: int)
    requires
        0 <= i <= t.len(),
    ensures
        i <= until_from(t, class, i) <= t.len(),
        forall|k: int| i <= k < until_from(t, class, i) ==> !in_class(class, #[trigger] t[k]),
        until_from(t, class, i) < t.len() ==> in_class(class, t[until_from(t, class, i)]),
    decreases t.len() - i,
{
    if i < t.len() && !in_class(class, t[i]) {
        lemma_until(t, class, i + 1);
    }
}

pub proof fn lemma_until_unique(t: Seq<char>, class: CharClass, i: int, e: int)
    requires
        0 <= i <= e <= t.len(),
        forall|k: int| i <= k < e ==> !in_class(class, #[trigger] t[k]),
        e < t.len() ==> in_class(class, t[e]),
    ensures
        until_from(t, class, i) == e,
    decreases e - i,
{
    if i < e {
        assert(!in_class(class, t[i]));
        lemma_until_unique(t, class, i + 1, e);
    }
}

/// The ranges of the words of `t[i..]`: the runs of characters not in `class`.
pub open spec fn words_from(t: Seq<char>, class: CharClass, i: int) -> Seq<(int, int)>
    decreases t.len() - i,
{
    let s = lead_from(t, class, i);
    let e = until_from(t, class, s);
    if 0 <= i <= s < e <= t.len() {
        seq![(s, e)] + words_from(t, class, e)
    } else {
        Seq::empty()
    }
}

/// The ranges of the words of `t`.
pub open spec fn words_of(t: Seq<char>, class: CharClass) -> Seq<(int, int)> {
    words_from(t, class, 0)
}

/// The text of the words of `t`.
pub open spec fn word_texts(t: Seq<char>, class: CharClass) -> Seq<Seq<char>> {
    words_of(t, class).map_values(|w: (int, int)| t.subrange(w.0, w.1))
}

/// A character that is not in `class` stands in a word.
pub proof fn lemma_words_cover(t: Seq<char>, class: CharClass, i: int, k: int) -> (w: int)
    requires
        0 <= i <= k < t.len(),
        !in_class(class, t[k]),
    ensures
        0 <= w < words_from(t, class, i).len(),
        i <= words_from(t, class, i)[w].0 <= k < words_from(t, class, i)[w].1 <= t.len(),
    decreases t.len() - i,
{
    let s = lead_from(t, class, i);
    let e = until_from(t, class, s);
    lemma_lead(t, class, i);
    lemma_until(t, class, s);
    if k < e {
        0
    } else {
        let rest = words_from(t, class, e);
        let w = lemma_words_cover(t, class, e, k);
        assert((seq![(s, e)] + rest)[w + 1] == rest[w]);
        w + 1
    }
}

/// The first index from `i` on whose character is in `class`, or the length.
pub fn until_index(t: &[char], class: CharClass, i: usize) -> (r: usize)
    requires
        i <= t@.len(),
    ensures
        r == until_from(t@, class, i as int),
        i <= r <= t@.len(),
        i < t@.len() && !in_class(class, t@[i as int]) ==> i < r,
{
    let mut k: usize = i;
    while k < t.len() && !class_has(class, t[k])
        invariant
            i <= k <= t@.len(),
            until_from(t@, class, k as int) == until_from(t@, class, i as int),
        decreases t@.len() - k,
    {
        k += 1;
    }
    k
}

/// Whether word ranges and their machine representation agree.
pub open spec fn ranges_match(ranges: Seq<(usize, usize)>, words: Seq<(int, int)>) -> bool {
    &&& ranges.len() == words.len()
    &&& forall|k: int|
        0 <= k < ranges.len() ==> (#[trigger] ranges[k]).0 == words[k].0 && ranges[k].1
            == words[k].1
}

/// Word ranges lie in a text of length `n` and are not empty.
pub open spec fn ranges_inside(ranges: Seq<(usize, usize)>, n: int) -> bool {
    forall|k: int| 0 <= k < ranges.len() ==> (#[trigger] ranges[k]).0 < ranges[k].1 <= n
}

/// The ranges of the words of `t`.
pub fn split_words(t: &[char], class: CharClass) -> (r: Vec<(usize, usize)>)
    ensures
        ranges_match(r@, words_of(t@, class)),
        ranges_inside(r@, t@.len() as int),
{
    let mut out: Vec<(usize, usize)> = Vec::new();
    let mut i: usize = 0;
    let ghost mut done: Seq<(int, int)> = Seq::empty();
    assert(done + words_from(t@, class, 0) =~= words_of(t@, class));
    loop
        invariant
            i <= t@.len(),
            ranges_match(out@, done),
            ranges_inside(out@, t@.len() as int),
            done + words_from(t@, class, i as int) == words_of(t@, class),
        decreases t@.len() - i,
    {
        let s = lead_index(t, class, i);
        if s >= t.len() {
            assert(done =~= words_of(t@, class));
            return out;
        }
        proof {
            lemma_lead(t@, class, i as int);
        }
        let e = until_index(t, class, s);
        out.push((s, e));
        proof {
            let rest = words_from(t@, class, e as int);
            assert(done.push((s as int, e as int)) + rest =~= done + (seq![(s as int, e as int)]
                + rest));
            done = done.push((s as int, e as int));
        }
        i = e;
    }
}

/// The last index at which `p` occurs in `t[..e]`, or -1.
pub open spec fn rfind_seq(t: Seq<char>, p: Seq<char>, e: int) -> int
    decreases e,
{
    if e < p.len() || e <= 0 {
        if p.len() == 0 && e == 0 {
            0
        } else {
            -1
        }
    } else if t.subrange(e - p.len(), e) == p {
        e - p.len()
    } else {
        rfind_seq(t, p, e - 1)
    }
}

/// The last index at which `p`, which is not empty, occurs in `t`.
pub fn rfind_str(t: &[char], p: &[char]) -> (r: Option<usize>)
    requires
        p@.len() > 0,
    ensures
        match r {
            Some(k) => k == rfind_seq(t@, p@, t@.len() as int) && k + p@.len() <= t@.len(),
            None => rfind_seq(t@, p@, t@.len() as int) == -1,
        },
{
    let mut e: usize = t.len();
    while e >= p.len()
        invariant
            e <= t@.len(),
            p@.len() > 0,
            rfind_seq(t@, p@, e as int) == rfind_seq(t@, p@, t@.len() as int),
        decreases e,
    {
        if same_chars(slice_subrange(t, e - p.len(), e), p) {
            return Some(e - p.len());
        }
        e -= 1;
    }
    None
}

// ---------------------------------------------------------------------------
// Searching
// ---------------------------------------------------------------------------
/// The first index from `i` on that holds `c`, or the length.
pub open spec fn find_from(t: Seq<char>, c: char, i: int) -> int
    decreases t.len() - i,
{
    if i < 0 || i >= t.len() {
        t.len() as int
    } else if t[i] == c {
        i
    } else {
        find_from(t, c, i + 1)
    }
}

/// The last index before `e` that holds `c`, or -1.
pub open spec fn rfind_before(t: Seq<char>, c: char, e: int) -> int
    decreases e,
{
    if e <= 0 {
        -1
    } else if e <= t.len() && t[e - 1] == c {
        e - 1
    } else {
        rfind_before(t, c, e - 1)
    }
}

pub proof fn lemma_find(t: Seq<char>, c: char, i: int)
    requires
        0 <= i <= t.len(),
    ensures
        i <= find_from(t, c, i) <= t.len(),
        forall|k: int| i <= k < find_from(t, c, i) ==> #[trigger] t[k] != c,
        find_from(t, c, i) < t.len() ==> t[find_from(t, c, i)] == c,
    decreases t.len() - i,
{
    if i < t.len() && t[i] != c {
        lemma_find(t, c, i + 1);
    }
}

pub proof fn lemma_find_unique(t: Seq<char>, c: char, i: int, e: int)
    requires
        0 <= i <= e <= t.len(),
        forall|k: int| i <= k < e ==> #[trigger] t[k] != c,
        e < t.len() ==> t[e] == c,
    ensures
        find_from(t, c, i) == e,
    decreases e - i,
{
    if i < e {
        assert(t[i] != c);
        lemma_find_unique(t, c, i + 1, e);
    }
}

pub proof fn lemma_rfind(t: Seq<char>, c: char, e: int)
    requires
        0 <= e <= t.len(),
    ensures
        -1 <= rfind_before(t, c, e) < e || (e == 0 && rfind_before(t, c, e) == -1),
        forall|k: int| rfind_before(t, c, e) < k < e ==> #[trigger] t[k] != c,
        rfind_before(t, c, e) >= 0 ==> t[rfind_before(t, c, e)] == c,
    decreases e,
{
    if e > 0 && t[e - 1] != c {
        lemma_rfind(t, c, e - 1);
    }
}

pub proof fn lemma_rfind_unique(t: Seq<char>, c: char, s: int, e: int)
    requires
        -1 <= s < e <= t.len() || (e == 0 && s == -1),
        forall|k: int| s < k < e ==> #[trigger] t[k] != c,
        s >= 0 ==> t[s] == c,
    ensures
        rfind_before(t, c, e) == s,
    decreases e,
{
    if e > 0 && s < e - 1 {
        assert(t[e - 1] != c);
        lemma_rfind_unique(t, c, s, e - 1);
    }
}

/// The first index from `i` on that holds `c`, or the length.
pub fn find_char(t: &[char], c: char, i: usize) -> (r: usize)
    requires
        i <= t@.len(),
    ensures
        r == find_from(t@, c, i as int),
        i <= r <= t@.len(),
{
    let mut k: usize = i;
    while k < t.len() && t[k] != c
        invariant
            i <= k <= t@.len(),
            find_from(t@, c, k as int) == find_from(t@, c, i as int),
        decreases t@.len() - k,
    {
        k += 1;
    }
    k
}

/// The last index before `e` that holds `c`.
pub fn rfind_char(t: &[char], c: char, e: usize) -> (r: Option<usize>)
    requires
        e <= t@.len(),
    ensures
        match r {
            Some(k) => k == rfind_before(t@, c, e as int) && k < e,
            None => rfind_before(t@, c, e as int) == -1,
        },
{
    let mut k: usize = e;
    while k > 0
        invariant
            k <= e <= t@.len(),
            rfind_before(t@, c, k as int) == rfind_before(t@, c, e as int),
        decreases k,
    {
        if t[k - 1] == c {
            return Some(k - 1);
        }
        k -= 1;
    }
    None
}

/// Whether `t` holds `c`.
pub fn contains_char(t: &[char], c: char) -> (r: bool)
    ensures
        r == t@.contains(c),
{
    let k = find_char(t, c, 0);
    proof {
        lemma_find(t@, c, 0);
        if t@.contains(c) {
            let w = choose|w: int| 0 <= w < t@.len() && t@[w] == c;
            assert(t@[w] == c);
        }
    }
    k < t.len()
}

/// The first index from `i` on at which `p` occurs in `t`, or -1.
pub open spec fn find_seq(t: Seq<char>, p: Seq<char>, i: int) -> int
    decreases t.len() + 1 - i,
{
    if i < 0 || i + p.len() > t.len() {
        -1
    } else if t.subrange(i, i + p.len()) == p {
        i
    } else {
        find_seq(t, p, i + 1)
    }
}

/// The first index from `i` on at which `p` occurs in `t`.
pub fn find_str(t: &[char], p: &[char], i: usize) -> (r: Option<usize>)
    requires
        i <= t@.len(),
    ensures
        match r {
            Some(k) => k == find_seq(t@, p@, i as int) && i <= k && k + p@.len() <= t@.len(),
            None => find_seq(t@, p@, i as int) == -1,
        },
{
    let mut k: usize = i;
    while k <= t.len() && p.len() <= t.len() - k
        invariant
            i <= k <= t@.len() + 1,
            find_seq(t@, p@, k as int) == find_seq(t@, p@, i as int),
        decreases t@.len() + 1 - k,
    {
        if same_chars(slice_subrange(t, k, k + p.len()), p) {
            return Some(k);
        }
        proof {
            if k == t@.len() {
                assert(t@.subrange(k as int, k + p@.len()) =~= p@);
            }
        }
        k += 1;
    }
    None
}

// ---------------------------------------------------------------------------
// Lines
// ---------------------------------------------------------------------------
/// The index after the first line feed from `i` on, or the length.
pub open spec fn line_end(t: Seq<char>, i: int) -> int
    decreases t.len() - i,
{
    if i < 0 || i >= t.len() {
        t.len() as int
    } else if t[i] == '\n' {
        i + 1
    } else {
        line_end(t, i + 1)
    }
}

pub proof fn lemma_line_end(t: Seq<char>, i: int)
    requires
        0 <= i <= t.len(),
    ensures
        i <= line_end(t, i) <= t.len(),
        i < t.len() ==> i < line_end(t, i),
        forall|k: int| i <= k < line_end(t, i) - 1 ==> #[trigger] t[k] != '\n',
        i < line_end(t, i) < t.len() ==> t[line_end(t, i) - 1] == '\n',
    decreases t.len() - i,
{
    if i < t.len() && t[i] != '\n' {
        lemma_line_end(t, i + 1);
    }
}

pub proof fn lemma_line_end_unique(t: Seq<char>, i: int, e: int)
    requires
        0 <= i <= e <= t.len(),
        forall|k: int| i <= k < e - 1 ==> #[trigger] t[k] != '\n',
        e == t.len() || (i < e && t[e - 1] == '\n'),
    ensures
        line_end(t, i) == e,
    decreases e - i,
{
    if i < e {
        if i < e - 1 {
            assert(t[i] != '\n');
            lemma_line_end_unique(t, i + 1, e);
        } else if t[i] != '\n' {
            assert(line_end(t, i) == line_end(t, i + 1));
        }
    }
}

/// The index after the first line feed from `start` on, or the length.
pub fn next_line_end(t: &[char], start: usize) -> (r: usize)
    requires
        start <= t@.len(),
    ensures
        r == line_end(t@, start as int),
        start <= r <= t@.len(),
        start < t@.len() ==> start < r,
{
    let mut k: usize = start;
    while k < t.len()
        invariant
            start <= k <= t@.len(),
            line_end(t@, k as int) == line_end(t@, start as int),
        decreases t@.len() - k,
    {
        if t[k] == '\n' {
            return k + 1;
        }
        k += 1;
    }
    k
}

/// The length of `t` without a final `\r\n` or `\n`.
pub open spec fn content_len(t: Seq<char>) -> int {
    if t.len() >= 2 && t[t.len() - 2] == '\r' && t[t.len() - 1] == '\n' {
        t.len() - 2
    } else if t.len() >= 1 && t[t.len() - 1] == '\n' {
        t.len() - 1
    } else {
        t.len() as int
    }
}

/// `t` without a final line ending.
pub open spec fn line_content(t: Seq<char>) -> Seq<char> {
    t.take(content_len(t))
}

/// The final line ending of `t`: `\r\n`, `\n` or nothing.
pub open spec fn line_ending(t: Seq<char>) -> Seq<char> {
    t.skip(content_len(t))
}

/// The length of `t` without a final `\r\n` or `\n`.
pub fn content_length(t: &[char]) -> (r: usize)
    ensures
        r == content_len(t@),
        r <= t@.len(),
{
    let n = t.len();
    if n >= 2 && t[n - 2] == '\r' && t[n - 1] == '\n' {
        n - 2
    } else if n >= 1 && t[n - 1] == '\n' {
        n - 1
    } else {
        n
    }
}

/// Splits `line` into its content and its final line ending.
pub fn split_line_ending(line: &[char]) -> (r: (&[char], &[char]))
    ensures
        r.0@ == line_content(line@),
        r.1@ == line_ending(line@),
        r.0@.len() <= line@.len(),
{
    let n = content_length(line);
    assert(line@.subrange(0, n as int) =~= line@.take(n as int));
    assert(line@.subrange(n as int, line@.len() as int) =~= line@.skip(n as int));
    (slice_subrange(line, 0, n), slice_subrange(line, n, line.len()))
}

/// A line that holds nothing but spaces, tabs and carriage returns.
pub open spec fn blank_line(line: Seq<char>) -> bool {
    forall|k: int|
        0 <= k < content_len(line) ==> in_class(CharClass::LineBlank, #[trigger] line[k])
}

/// Whether `line` holds nothing but spaces, tabs and carriage returns.
pub fn is_blank_line(line: &[char]) -> (r: bool)
    ensures
        r == blank_line(line@),
{
    let n = content_length(line);
    let mut k: usize = 0;
    while k < n
        invariant
            k <= n <= line@.len(),
            n == content_len(line@),
            forall|j: int| 0 <= j < k ==> in_class(CharClass::LineBlank, #[trigger] line@[j]),
        decreases n - k,
    {
        if !class_has(CharClass::LineBlank, line[k]) {
            return false;
        }
        k += 1;
    }
    true
}

/// The lines of `t`, each with its line ending.
pub open spec fn lines_of(t: Seq<char>) -> Seq<Seq<char>>
    decreases t.len(),
{
    if t.len() == 0 {
        Seq::empty()
    } else {
        let e = line_end(t, 0);
        if 0 < e <= t.len() {
            seq![t.take(e)] + lines_of(t.skip(e))
        } else {
            Seq::empty()
        }
    }
}

/// The number of line feeds in `t`.
pub open spec fn newline_count(t: Seq<char>) -> nat
    decreases t.len(),
{
    if t.len() == 0 {
        0
    } else {
        newline_count(t.drop_last()) + if t.last() == '\n' {
            1nat
        } else {
            0nat
        }
    }
}

pub proof fn lemma_newline_count_bound(t: Seq<char>)
    ensures
        newline_count(t) <= t.len(),
    decreases t.len(),
{
    if t.len() > 0 {
        lemma_newline_count_bound(t.drop_last());
    }
}

pub proof fn lemma_newline_count_add(a: Seq<char>, b: Seq<char>)
    ensures
        newline_count(a + b) == newline_count(a) + newline_count(b),
    decreases b.len(),
{
    if b.len() == 0 {
        assert(a + b =~= a);
    } else {
        lemma_newline_count_add(a, b.drop_last());
        assert((a + b).drop_last() =~= a + b.drop_last());
    }
}

/// The number of line feeds in `t`.
pub fn count_newlines(t: &[char]) -> (r: usize)
    ensures
        r == newline_count(t@),
        r <= t@.len(),
{
    let mut k: usize = 0;
    let mut n: usize = 0;
    while k < t.len()
        invariant
            k <= t@.len(),
            n == newline_count(t@.take(k as int)),
            n <= k,
        decreases t@.len() - k,
    {
        if t[k] == '\n' {
            n += 1;
        }
        k += 1;
        assert(t@.take(k as int).drop_last() =~= t@.take(k - 1));
    }
    assert(t@.take(k as int) =~= t@);
    n
}

// ---------------------------------------------------------------------------
// Byte widths
// ---------------------------------------------------------------------------
/// The number of bytes in the UTF-8 encoding of `c`.
pub open spec fn width(c: char) -> nat {
    let u = c as u32;
    if u < 0x80 {
        1
    } else if u < 0x800 {
        2
    } else if u < 0x10000 {
        3
    } else {
        4
    }
}

/// The number of bytes in the UTF-8 encoding of `t`.
pub open spec fn byte_len(t: Seq<char>) -> nat
    decreases t.len(),
{
    if t.len() == 0 {
        0
    } else {
        byte_len(t.drop_last()) + width(t.last())
    }
}

pub proof fn lemma_byte_len_add(a: Seq<char>, b: Seq<char>)
    ensures
        byte_len(a + b) == byte_len(a) + byte_len(b),
    decreases b.len(),
{
    if b.len() == 0 {
        assert(a + b =~= a);
    } else {
        lemma_byte_len_add(a, b.drop_last());
        assert((a + b).drop_last() =~= a + b.drop_last());
    }
}

/// A subrange is as wide as the difference of the prefixes that end it.
pub proof fn lemma_byte_len_range(t: Seq<char>, a: int, b: int)
    requires
        0 <= a <= b <= t.len(),
    ensures
        byte_len(t.take(a)) + byte_len(t.subrange(a, b)) == byte_len(t.take(b)),
        byte_len(t.take(b)) <= byte_len(t),
        byte_len(t.take(a)) <= byte_len(t.take(b)),
{
    assert(t.take(b) =~= t.take(a) + t.subrange(a, b));
    lemma_byte_len_add(t.take(a), t.subrange(a, b));
    assert(t =~= t.take(b) + t.skip(b));
    lemma_byte_len_add(t.take(b), t.skip(b));
}

/// Every character takes at least one byte.
pub proof fn lemma_byte_len_at_least(t: Seq<char>)
    ensures
        t.len() <= byte_len(t),
    decreases t.len(),
{
    if t.len() > 0 {
        lemma_byte_len_at_least(t.drop_last());
    }
}

/// `byte_len` is the length of the UTF-8 encoding.
pub proof fn lemma_byte_len_is_encoding(t: Seq<char>)
    ensures
        byte_len(t) == vstd::utf8::encode_utf8(t).len(),
    decreases t.len(),
{
    if t.len() > 0 {
        lemma_byte_len_is_encoding(t.drop_first());
        assert(t =~= seq![t[0]] + t.drop_first());
        lemma_byte_len_add(seq![t[0]], t.drop_first());
        assert(seq![t[0]].drop_last() =~= Seq::empty());
        assert(byte_len(seq![t[0]]) == width(t[0])) by {
            assert(byte_len(Seq::<char>::empty()) == 0);
        }
        vstd::utf8::char_is_scalar(t[0]);
        assert(vstd::utf8::encode_scalar(t[0] as u32).len() == width(t[0]));
    }
}

/// The number of bytes in the UTF-8 encoding of `c`.
pub fn char_width(c: char) -> (r: usize)
    ensures
        r == width(c),
        1 <= r <= 4,
{
    let u = c as u32;
    if u < 0x80 {
        1
    } else if u < 0x800 {
        2
    } else if u < 0x10000 {
        3
    } else {
        4
    }
}

/// The number of bytes in the UTF-8 encoding of `t`.
pub fn byte_length(t: &[char]) -> (r: usize)
    requires
        byte_len(t@) <= usize::MAX,
    ensures
        r == byte_len(t@),
{
    let mut k: usize = 0;
    let mut n: usize = 0;
    while k < t.len()
        invariant
            k <= t@.len(),
            n == byte_len(t@.take(k as int)),
            byte_len(t@) <= usize::MAX,
        decreases t@.len() - k,
    {
        proof {
            lemma_byte_len_range(t@, k as int, k + 1);
            assert(t@.take(k + 1).drop_last() =~= t@.take(k as int));
        }
        n += char_width(t[k]);
        k += 1;
    }
    assert(t@.take(k as int) =~= t@);
    n
}

/// Text in memory has a byte length that fits in `usize`.
pub fn text_length(text: &str) -> (r: usize)
    ensures
        r == byte_len(text@),
{
    proof {
        lemma_byte_len_is_encoding(text@);
    }
    text.as_bytes().len()
}

/// The number of characters in the first `offset` bytes of `t`.
///
/// An offset inside a character counts that character.
pub open spec fn chars_before(t: Seq<char>, offset: int) -> int
    decreases t.len(),
{
    if offset <= 0 || t.len() == 0 {
        0
    } else {
        1 + chars_before(t.drop_first(), offset - width(t[0]))
    }
}

/// Whether `offset` is the byte offset of the start of a character of `t`, or of its end.
pub open spec fn at_boundary(t: Seq<char>, offset: int) -> bool {
    0 <= chars_before(t, offset) <= t.len() && byte_len(t.take(chars_before(t, offset))) == offset
}

pub proof fn lemma_chars_before(t: Seq<char>, k: int)
    requires
        0 <= k <= t.len(),
    ensures
        chars_before(t, byte_len(t.take(k)) as int) == k,
        at_boundary(t, byte_len(t.take(k)) as int),
    decreases t.len(),
{
    if k == 0 {
        assert(t.take(0) =~= Seq::empty());
    } else {
        lemma_byte_len_at_least(t.take(k));
        lemma_chars_before(t.drop_first(), k - 1);
        assert(t.take(k) =~= seq![t[0]] + t.drop_first().take(k - 1));
        lemma_byte_len_add(seq![t[0]], t.drop_first().take(k - 1));
        assert(seq![t[0]].drop_last() =~= Seq::<char>::empty());
        assert(byte_len(seq![t[0]]) == width(t[0])) by {
            assert(byte_len(Seq::<char>::empty()) == 0);
        }
    }
}

/// The number of characters in the first `offset` bytes of `t`.
pub fn char_index(t: &[char], offset: usize) -> (r: usize)
    ensures
        r == chars_before(t@, offset as int),
        r <= t@.len(),
{
    let mut k: usize = 0;
    let mut left: usize = offset;
    assert(t@.skip(0) =~= t@);
    while left > 0 && k < t.len()
        invariant
            k <= t@.len(),
            k + chars_before(t@.skip(k as int), left as int) == chars_before(t@, offset as int),
        decreases t@.len() - k,
    {
        let w = char_width(t[k]);
        assert(t@.skip(k as int).drop_first() =~= t@.skip(k + 1));
        if left <= w {
            assert(chars_before(t@.skip(k + 1), left - w) == 0);
            return k + 1;
        }
        left -= w;
        k += 1;
    }
    k
}

/// The index after the last line feed of `t[..k]`, or 0.
pub open spec fn line_start(t: Seq<char>, k: int) -> int {
    rfind_before(t, '\n', k) + 1
}

/// The line and the column of the character index `k` of `t`, both counted from 1.
pub open spec fn line_col_at(t: Seq<char>, k: int) -> (int, int) {
    (newline_count(t.take(k)) as int + 1, k - line_start(t, k) + 1)
}

/// The line and the column of a byte offset, both counted from 1.
pub open spec fn line_col(t: Seq<char>, offset: int) -> (int, int) {
    line_col_at(t, chars_before(t, offset))
}

/// The line and the column of the character index `k` of `t`, both counted from 1.
pub fn line_col_of(t: &[char], k: usize) -> (r: (usize, usize))
    requires
        k <= t@.len(),
        t@.len() < usize::MAX,
    ensures
        r.0 == line_col_at(t@, k as int).0,
        r.1 == line_col_at(t@, k as int).1,
{
    assert(t@.subrange(0, k as int) =~= t@.take(k as int));
    let lines = count_newlines(slice_subrange(t, 0, k));
    let start = match rfind_char(t, '\n', k) {
        Some(i) => i + 1,
        None => 0,
    };
    (lines + 1, k - start + 1)
}

/// The words of a text are its maximal runs of characters that are not in the
/// class, in their order: a word is not empty and holds no character of the
/// class, one stands before it unless it begins the text and one behind it
/// unless it ends the text, and the next word starts behind it.
pub proof fn law_words_are_maximal_runs(t: Seq<char>, class: CharClass, i: int, k: int)
    requires
        0 <= i <= t.len(),
        0 <= k < words_from(t, class, i).len(),
    ensures
        ({
            let words = words_from(t, class, i);
            let (s, e) = words[k];
            &&& i <= s < e <= t.len()
            &&& forall|j: int| s <= j < e ==> !in_class(class, #[trigger] t[j])
            &&& s == i || in_class(class, t[s - 1])
            &&& e == t.len() || in_class(class, t[e])
            &&& k + 1 < words.len() ==> e < words[k + 1].0
        }),
    decreases t.len() - i,
{
    let s = lead_from(t, class, i);
    let e = until_from(t, class, s);
    lemma_lead(t, class, i);
    lemma_until(t, class, s);
    let rest = words_from(t, class, e);
    let words = words_from(t, class, i);
    assert(words =~= seq![(s, e)] + rest);
    if k == 0 {
        if rest.len() > 0 {
            law_words_are_maximal_runs(t, class, e, 0);
            assert(words[1] == rest[0]);
            if rest[0].0 == e {
                assert(e < t.len());
                assert(in_class(class, t[e]));
                assert(!in_class(class, t[rest[0].0]));
            }
        }
        if s > i {
            assert(in_class(class, t[s - 1]));
        }
    } else {
        law_words_are_maximal_runs(t, class, e, k - 1);
        assert(words[k] == rest[k - 1]);
        if k + 1 < words.len() {
            assert(words[k + 1] == rest[k]);
        }
        if rest[k - 1].0 == e {
            assert(e < t.len() && in_class(class, t[e]));
        }
    }
}

/// Positions are counted from line one and column one; a line feed begins the
/// next line, and every other character is one more column.
pub proof fn law_positions_are_counted(t: Seq<char>, k: int)
    requires
        0 <= k < t.len(),
    ensures
        line_col_at(t, 0) == (1int, 1int),
        t[k] == '\n' ==> line_col_at(t, k + 1) == (line_col_at(t, k).0 + 1, 1int),
        t[k] != '\n' ==> line_col_at(t, k + 1) == (line_col_at(t, k).0, line_col_at(t, k).1 + 1),
{
    assert(t.take(0).len() == 0);
    let next = t.take(k + 1);
    assert(next.drop_last() =~= t.take(k));
    assert(next.last() == t[k]);
}

} // verus!
