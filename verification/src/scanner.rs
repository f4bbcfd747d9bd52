//! Recognition of the extent and the parts of top-level statements.
use crate::operator;
use crate::text;
use crate::operator::AssignmentOperator;
use crate::operator::is_pair_at;
use crate::operator::read_operator;
use crate::text::CharClass;
use crate::text::chars_of;
use crate::text::content_length;
use crate::text::find_char;
use crate::text::is_alphanumeric;
use crate::text::is_ascii_whitespace;
use crate::text::is_whitespace;
use crate::text::lead_index;
use crate::text::next_line_end;
use crate::text::rfind_char;
use crate::text::split_line_ending;
use crate::text::starts_with;
use crate::text::tail_index;
use crate::text::trim;
use crate::text::trim_end;
use crate::text::trim_start;
use vstd::prelude::*;
use vstd::slice::slice_subrange;

verus! {

// ---------------------------------------------------------------------------
// Comments and quotes on one line
// ---------------------------------------------------------------------------
pub open spec fn is_quote(c: char) -> bool {
    c == '\'' || c == '"'
}

/// The index of the first `#` outside quotes and escapes from `i` on, or the length.
pub open spec fn comment_from(t: Seq<char>, i: int, quote: Option<char>, escaped: bool) -> int
    decreases t.len() - i,
{
    if i < 0 || i >= t.len() {
        t.len() as int
    } else if escaped {
        comment_from(t, i + 1, quote, false)
    } else if t[i] == '\\' {
        comment_from(t, i + 1, quote, true)
    } else if quote is Some {
        comment_from(
            t,
            i + 1,
            if quote == Some(t[i]) {
                None
            } else {
                quote
            },
            false,
        )
    } else if is_quote(t[i]) {
        comment_from(t, i + 1, Some(t[i]), false)
    } else if t[i] == '#' {
        i
    } else {
        comment_from(t, i + 1, quote, false)
    }
}

/// The end of the code of a line: where its comment starts, or its length.
pub open spec fn code_end(t: Seq<char>) -> int {
    comment_from(t, 0, None, false)
}

/// The index of the first comment of `text`, or its length.
pub fn comment_start(text: &[char]) -> (r: usize)
    ensures
        r == code_end(text@),
        r <= text@.len(),
{
    let mut quote: Option<char> = None;
    let mut escaped = false;
    let mut i: usize = 0;
    while i < text.len()
        invariant
            i <= text@.len(),
            comment_from(text@, i as int, quote, escaped) == code_end(text@),
        decreases text@.len() - i,
    {
        let c = text[i];
        if escaped {
            escaped = false;
        } else if c == '\\' {
            escaped = true;
        } else if let Some(active) = quote {
            if c == active {
                quote = None;
            }
        } else if c == '\'' || c == '"' {
            quote = Some(c);
        } else if c == '#' {
            return i;
        }
        i += 1;
    }
    i
}

/// Whether every quote opened from `i` on is closed before a comment or the end.
pub open spec fn balanced_from(t: Seq<char>, i: int, quote: Option<char>, escaped: bool) -> bool
    decreases t.len() - i,
{
    if i < 0 || i >= t.len() {
        quote is None
    } else if escaped {
        balanced_from(t, i + 1, quote, false)
    } else if t[i] == '\\' {
        balanced_from(t, i + 1, quote, true)
    } else if quote is Some {
        balanced_from(
            t,
            i + 1,
            if quote == Some(t[i]) {
                None
            } else {
                quote
            },
            false,
        )
    } else if is_quote(t[i]) {
        balanced_from(t, i + 1, Some(t[i]), false)
    } else if t[i] == '#' {
        true
    } else {
        balanced_from(t, i + 1, quote, false)
    }
}

/// Whether every quote of `text` is closed before a comment or the end.
pub fn has_balanced_quotes(text: &[char]) -> (r: bool)
    ensures
        r == balanced_from(text@, 0, None, false),
{
    let mut quote: Option<char> = None;
    let mut escaped = false;
    let mut i: usize = 0;
    while i < text.len()
        invariant
            i <= text@.len(),
            balanced_from(text@, i as int, quote, escaped) == balanced_from(text@, 0, None, false),
        decreases text@.len() - i,
    {
        let c = text[i];
        if escaped {
            escaped = false;
        } else if c == '\\' {
            escaped = true;
        } else if let Some(active) = quote {
            if c == active {
                quote = None;
            }
        } else if c == '\'' || c == '"' {
            quote = Some(c);
        } else if c == '#' {
            return true;
        }
        i += 1;
    }
    quote.is_none()
}

// ---------------------------------------------------------------------------
// Function headers
// ---------------------------------------------------------------------------
/// The language of a function body.
#[derive(Clone, Copy, Debug, Eq, PartialEq, Hash, Structural)]
pub enum FunctionKind {
    Shell,
    Python,
}

/// `text` without a leading `keyword` that stands alone, or `None`.
pub open spec fn after_keyword(text: Seq<char>, keyword: Seq<char>) -> Option<Seq<char>> {
    if !text::has_prefix(text, keyword) {
        None
    } else {
        let rest = text.skip(keyword.len() as int);
        if rest.len() == 0 {
            Some(rest)
        } else if text::is_ws(rest[0]) {
            Some(text::trimmed_start(rest, CharClass::Whitespace))
        } else {
            None
        }
    }
}

/// `text` without a leading `keyword` that stands alone.
pub fn strip_keyword<'a>(text: &'a [char], keyword: &str) -> (r: Option<&'a [char]>)
    ensures
        match r {
            Some(rest) => after_keyword(text@, keyword@) == Some(rest@) && rest@.len()
                <= text@.len() - keyword@.len(),
            None => after_keyword(text@, keyword@) is None,
        },
{
    if !starts_with(text, keyword) {
        return None;
    }
    let n = chars_of(keyword).len();
    assert(text@.subrange(n as int, text@.len() as int) =~= text@.skip(n as int));
    let rest = slice_subrange(text, n, text.len());
    if rest.len() == 0 {
        Some(rest)
    } else if is_whitespace(rest[0]) {
        Some(trim_start(rest, CharClass::Whitespace))
    } else {
        None
    }
}

pub open spec fn python_word() -> Seq<char> {
    seq!['p', 'y', 't', 'h', 'o', 'n']
}

pub open spec fn fakeroot_word() -> Seq<char> {
    seq!['f', 'a', 'k', 'e', 'r', 'o', 'o', 't']
}

pub proof fn lemma_keyword_shorter(text: Seq<char>, keyword: Seq<char>)
    requires
        keyword.len() > 0,
    ensures
        after_keyword(text, keyword) matches Some(rest) ==> rest.len() < text.len(),
{
    if text::has_prefix(text, keyword) {
        text::lemma_lead(text.skip(keyword.len() as int), CharClass::Whitespace, 0);
    }
}

/// The name that a declaration gives a function once its modifiers are taken
/// off, and whether `python` was among them.
pub open spec fn strip_modifiers(name: Seq<char>, kind: FunctionKind) -> (Seq<char>, FunctionKind)
    decreases name.len(),
{
    proof {
        lemma_keyword_shorter(name, python_word());
        lemma_keyword_shorter(name, fakeroot_word());
    }
    match after_keyword(name, python_word()) {
        Some(rest) => strip_modifiers(rest, FunctionKind::Python),
        None => match after_keyword(name, fakeroot_word()) {
            Some(rest) => strip_modifiers(rest, kind),
            None => (name, kind),
        },
    }
}

/// A function name holds no ASCII white space, parenthesis or `#`.
pub open spec fn function_name(name: Seq<char>) -> bool {
    forall|k: int|
        0 <= k < name.len() ==> !text::is_ascii_ws(#[trigger] name[k]) && name[k] != '(' && name[k] != ')'
            && name[k] != '#'
}

/// Whether `name` can be the name of a function.
pub fn is_function_name(name: &[char]) -> (r: bool)
    ensures
        r == function_name(name@),
{
    let mut k: usize = 0;
    while k < name.len()
        invariant
            k <= name@.len(),
            forall|j: int|
                0 <= j < k ==> !text::is_ascii_ws(#[trigger] name@[j]) && name@[j] != '(' && name@[j]
                    != ')' && name@[j] != '#',
        decreases name@.len() - k,
    {
        let c = name[k];
        if is_ascii_whitespace(c) || c == '(' || c == ')' || c == '#' {
            return false;
        }
        k += 1;
    }
    true
}

/// The parts of a line that opens a function body.
pub struct FunctionHead {
    /// The index of the opening brace.
    pub brace: usize,
    /// The index of the parenthesis that follows the declaration.
    pub paren: usize,
    pub kind: FunctionKind,
}

/// The index of the last code character of a line, where that is `{`.
pub open spec fn head_brace(line: Seq<char>) -> int {
    text::tail_from(line, CharClass::Whitespace, code_end(text::line_content(line))) - 1
}

/// The index of the parenthesis that closes the signature before the brace.
pub open spec fn head_close(line: Seq<char>) -> int {
    text::tail_from(line, CharClass::Whitespace, head_brace(line)) - 1
}

/// The index of the parenthesis that opens the signature.
pub open spec fn head_paren(line: Seq<char>) -> int {
    text::rfind_before(line, '(', head_close(line))
}

/// The words before the parentheses of a signature.
pub open spec fn declaration(line: Seq<char>) -> Seq<char> {
    text::trimmed(line.take(head_paren(line)), CharClass::Whitespace)
}

/// The kind of the function whose body `line` opens.
///
/// The code of such a line is a declaration, an empty pair of parentheses and
/// an opening brace. The declaration is `python` and `fakeroot` in any number
/// and order, then a name, which only a Python function may leave out.
#[verifier::opaque]
pub open spec fn function_head(line: Seq<char>) -> Option<FunctionKind> {
    let brace = head_brace(line);
    let close = head_close(line);
    let paren = head_paren(line);
    if brace < 0 || line[brace] != '{' || close < 0 || line[close] != ')' || paren < 0 {
        None
    } else if exists|k: int| paren < k < close && !text::is_ws(#[trigger] line[k]) {
        None
    } else {
        let (name, kind) = strip_modifiers(declaration(line), FunctionKind::Shell);
        if (name.len() == 0 && kind != FunctionKind::Python) || !function_name(name) {
            None
        } else {
            Some(kind)
        }
    }
}

fn strip_all_modifiers<'a>(name: &'a [char]) -> (r: (&'a [char], FunctionKind))
    ensures
        (r.0@, r.1) == strip_modifiers(name@, FunctionKind::Shell),
{
    proof {
        reveal_strlit("python");
        reveal_strlit("fakeroot");
        assert("python"@ =~= python_word());
        assert("fakeroot"@ =~= fakeroot_word());
    }
    let mut kind = FunctionKind::Shell;
    let mut rest = name;
    loop
        invariant
            strip_modifiers(rest@, kind) == strip_modifiers(name@, FunctionKind::Shell),
            "python"@ == python_word(),
            "fakeroot"@ == fakeroot_word(),
        decreases rest@.len(),
    {
        if let Some(shorter) = strip_keyword(rest, "python") {
            kind = FunctionKind::Python;
            rest = shorter;
        } else if let Some(shorter) = strip_keyword(rest, "fakeroot") {
            rest = shorter;
        } else {
            return (rest, kind);
        }
    }
}

/// The parts of `line` if it opens a function body.
pub fn function_opening_brace(line: &[char]) -> (r: Option<FunctionHead>)
    ensures
        match r {
            Some(head) => {
                &&& function_head(line@) == Some(head.kind)
                &&& head.brace == head_brace(line@)
                &&& head.paren == head_paren(line@)
                &&& head.paren < head.brace < text::content_len(line@)
                &&& line@[head.brace as int] == '{'
            },
            None => function_head(line@) is None,
        },
{
    proof {
        reveal(function_head);
    }
    let (content, _) = split_line_ending(line);
    let code = comment_start(content);
    let end = tail_index(line, CharClass::Whitespace, code);
    if end == 0 || line[end - 1] != '{' {
        return None;
    }
    let brace = end - 1;
    let sig = tail_index(line, CharClass::Whitespace, brace);
    if sig == 0 || line[sig - 1] != ')' {
        return None;
    }
    let close = sig - 1;
    let paren = match rfind_char(line, '(', close) {
        Some(paren) => paren,
        None => {
            return None;
        },
    };
    let mut k: usize = paren + 1;
    while k < close
        invariant
            paren < k <= close < line@.len(),
            paren == head_paren(line@),
            close == head_close(line@),
            brace == head_brace(line@),
            forall|j: int| paren < j < k ==> text::is_ws(#[trigger] line@[j]),
        decreases close - k,
    {
        if !is_whitespace(line[k]) {
            proof {
                reveal(function_head);
            }
            return None;
        }
        k += 1;
    }
    assert(line@.subrange(0, paren as int) =~= line@.take(paren as int));
    let words = trim(slice_subrange(line, 0, paren), CharClass::Whitespace);
    let (name, kind) = strip_all_modifiers(words);
    let python = match kind {
        FunctionKind::Python => true,
        FunctionKind::Shell => false,
    };
    if (name.len() == 0 && !python) || !is_function_name(name) {
        return None;
    }
    Some(FunctionHead { brace, paren, kind })
}

// ---------------------------------------------------------------------------
// Python definitions
// ---------------------------------------------------------------------------
pub open spec fn def_word() -> Seq<char> {
    seq!['d', 'e', 'f', ' ']
}

/// The code of a line: what precedes its comment, without trailing white space.
pub open spec fn code_of(line: Seq<char>) -> Seq<char> {
    text::trimmed_end(text::line_content(line).take(code_end(text::line_content(line))), CharClass::Whitespace)
}

/// A line whose code starts with `def ` in the first column and ends with a colon.
#[verifier::opaque]
pub open spec fn python_def_start(line: Seq<char>) -> bool {
    let code = code_of(line);
    text::has_prefix(code, def_word()) && code[code.len() - 1] == ':'
}

/// Whether `line` starts a top-level Python definition.
pub fn is_python_def_start(line: &[char]) -> (r: bool)
    ensures
        r == python_def_start(line@),
{
    proof {
        reveal(python_def_start);
    }
    let (content, _) = split_line_ending(line);
    let end = comment_start(content);
    assert(content@.subrange(0, end as int) =~= content@.take(end as int));
    let code = trim_end(slice_subrange(content, 0, end), CharClass::Whitespace);
    proof {
        reveal_strlit("def ");
        assert("def "@ =~= def_word());
    }
    starts_with(code, "def ") && code[code.len() - 1] == ':'
}

/// The first start of a line from `offset` on that holds something other than
/// white space, or the length.
pub open spec fn python_def_end(t: Seq<char>, offset: int) -> int
    decreases t.len() - offset,
{
    proof {
        if 0 <= offset <= t.len() {
            text::lemma_line_end(t, offset);
        }
    }
    if offset < 0 || offset >= t.len() {
        t.len() as int
    } else if !text::is_ws(t[offset]) {
        offset
    } else {
        python_def_end(t, text::line_end(t, offset))
    }
}

/// The end of the indented body of a Python definition that starts at `offset`.
pub fn find_python_def_end(t: &[char], offset: usize) -> (r: usize)
    requires
        offset <= t@.len(),
    ensures
        r == python_def_end(t@, offset as int),
        offset <= r <= t@.len(),
{
    let mut k: usize = offset;
    while k < t.len() && is_whitespace(t[k])
        invariant
            offset <= k <= t@.len(),
            python_def_end(t@, k as int) == python_def_end(t@, offset as int),
        decreases t@.len() - k,
    {
        k = next_line_end(t, k);
    }
    k
}

// ---------------------------------------------------------------------------
// Continuation lines
// ---------------------------------------------------------------------------
/// The number of backslashes that end `t[..e]`.
pub open spec fn backslashes_before(t: Seq<char>, e: int) -> int
    decreases e,
{
    if 0 < e <= t.len() && t[e - 1] == '\\' {
        1 + backslashes_before(t, e - 1)
    } else {
        0
    }
}

/// A line that ends, but for blanks, with an odd number of backslashes.
pub open spec fn continued_line(line: Seq<char>) -> bool {
    backslashes_before(line, text::tail_from(line, CharClass::LineBlank, text::content_len(line))) % 2 == 1
}

/// Whether `line` continues on the next one.
pub fn has_line_continuation(line: &[char]) -> (r: bool)
    ensures
        r == continued_line(line@),
{
    let end = tail_index(line, CharClass::LineBlank, content_length(line));
    let mut k: usize = end;
    let mut n: usize = 0;
    while k > 0 && line[k - 1] == '\\'
        invariant
            k <= end <= line@.len(),
            n == end - k,
            n + backslashes_before(line@, k as int) == backslashes_before(line@, end as int),
        decreases k,
    {
        k -= 1;
        n += 1;
    }
    n % 2 == 1
}

/// The end of the first line from `offset` on that is not continued, or `None`
/// where the text ends in a continuation.
pub open spec fn continuation_end(t: Seq<char>, offset: int) -> Option<int>
    decreases t.len() - offset,
{
    let e = text::line_end(t, offset);
    proof {
        if 0 <= offset <= t.len() {
            text::lemma_line_end(t, offset);
        }
    }
    if !continued_line(t.subrange(offset, e)) {
        Some(e)
    } else if e >= t.len() {
        None
    } else {
        continuation_end(t, e)
    }
}

/// The end of the first line from `start` on that is not continued.
pub fn find_continuation_end(t: &[char], start: usize) -> (r: Option<usize>)
    requires
        start <= t@.len(),
    ensures
        match r {
            Some(e) => continuation_end(t@, start as int) == Some(e as int) && start <= e
                <= t@.len() && e >= text::line_end(t@, start as int),
            None => continuation_end(t@, start as int) is None,
        },
{
    let mut k: usize = start;
    let ghost first = text::line_end(t@, start as int);
    loop
        invariant
            start <= k <= t@.len(),
            k == start || k >= first,
            first == text::line_end(t@, start as int),
            continuation_end(t@, k as int) == continuation_end(t@, start as int),
        decreases t@.len() - k,
    {
        let e = next_line_end(t, k);
        if !has_line_continuation(slice_subrange(t, k, e)) {
            return Some(e);
        }
        if e == t.len() {
            return None;
        }
        k = e;
    }
}

// ---------------------------------------------------------------------------
// Assignments
// ---------------------------------------------------------------------------
/// The first operator from `i` on outside quotes, escapes and comments.
pub open spec fn operator_from(
    t: Seq<char>,
    i: int,
    quote: Option<char>,
    escaped: bool,
) -> Option<(int, AssignmentOperator)>
    decreases t.len() - i,
{
    if i < 0 || i >= t.len() {
        None
    } else if escaped {
        operator_from(t, i + 1, quote, false)
    } else if t[i] == '\\' {
        operator_from(t, i + 1, quote, true)
    } else if quote is Some {
        operator_from(
            t,
            i + 1,
            if quote == Some(t[i]) {
                None
            } else {
                quote
            },
            false,
        )
    } else if is_quote(t[i]) {
        operator_from(t, i + 1, Some(t[i]), false)
    } else if t[i] == '#' {
        None
    } else {
        match operator::operator_at(t, i) {
            Some(operator) => Some((i, operator)),
            None => operator_from(t, i + 1, quote, false),
        }
    }
}

/// The first operator of `content` outside quotes, escapes and comments.
pub fn find_assignment_operator(content: &[char]) -> (r: Option<(usize, AssignmentOperator)>)
    ensures
        match r {
            Some((i, operator)) => operator_from(content@, 0, None, false) == Some(
                (i as int, operator),
            ) && i + operator::operator_chars(operator).len() <= content@.len(),
            None => operator_from(content@, 0, None, false) is None,
        },
{
    let mut quote: Option<char> = None;
    let mut escaped = false;
    let mut i: usize = 0;
    while i < content.len()
        invariant
            i <= content@.len(),
            operator_from(content@, i as int, quote, escaped) == operator_from(
                content@,
                0,
                None,
                false,
            ),
        decreases content@.len() - i,
    {
        let c = content[i];
        if escaped {
            escaped = false;
        } else if c == '\\' {
            escaped = true;
        } else if let Some(active) = quote {
            if c == active {
                quote = None;
            }
        } else if c == '\'' || c == '"' {
            quote = Some(c);
        } else if c == '#' {
            return None;
        } else if let Some(operator) = read_operator(content, i) {
            return Some((i, operator));
        }
        i += 1;
    }
    None
}

/// The end of the reference `${..}` that starts at `i`, where it is well formed.
pub open spec fn reference_end(t: Seq<char>, i: int) -> Option<int> {
    let e = text::find_from(t, '}', i + 2);
    if !operator::pair_at(t, i, '$', '{') || e >= t.len() || e == i + 2 {
        None
    } else if exists|k: int| i + 2 <= k < e && text::is_ascii_ws(#[trigger] t[k]) {
        None
    } else {
        Some(e + 1)
    }
}

/// The end of the reference `${..}` that starts at `start`.
pub fn variable_reference_end(t: &[char], start: usize) -> (r: Option<usize>)
    requires
        start <= t@.len(),
    ensures
        match r {
            Some(e) => reference_end(t@, start as int) == Some(e as int) && start < e <= t@.len(),
            None => reference_end(t@, start as int) is None,
        },
{
    if !is_pair_at(t, start, '$', '{') {
        return None;
    }
    let n = t.len();
    assert(start + 2 <= n);
    let e = find_char(t, '}', start + 2);
    if e == n || e == start + 2 {
        return None;
    }
    let mut k: usize = start + 2;
    while k < e
        invariant
            start + 2 <= k <= e < t@.len(),
            e == text::find_from(t@, '}', start + 2),
            operator::pair_at(t@, start as int, '$', '{'),
            forall|j: int| start + 2 <= j < k ==> !text::is_ascii_ws(#[trigger] t@[j]),
        decreases e - k,
    {
        if is_ascii_whitespace(t[k]) {
            return None;
        }
        k += 1;
    }
    Some(e + 1)
}

/// The characters of a component of a variable name.
pub open spec fn is_name_char(c: char) -> bool {
    text::is_alnum(c) || c == '_' || c == '-' || c == '+' || c == '.'
}

/// Whether `c` can stand in a component of a variable name.
pub fn is_variable_char(c: char) -> (r: bool)
    ensures
        r == is_name_char(c),
{
    is_alphanumeric(c) || c == '_' || c == '-' || c == '+' || c == '.'
}

/// A flag in brackets: name characters, at least one, between `[` and `]`.
pub open spec fn flag_valid(flag: Seq<char>) -> bool {
    &&& flag.len() >= 3
    &&& flag[flag.len() - 1] == ']'
    &&& forall|k: int| 1 <= k < flag.len() - 1 ==> is_name_char(#[trigger] flag[k])
}

/// Whether `flag` is a flag in brackets.
pub fn variable_flag_is_valid(flag: &[char]) -> (r: bool)
    ensures
        r == flag_valid(flag@),
{
    if flag.len() < 3 || flag[flag.len() - 1] != ']' {
        return false;
    }
    let mut k: usize = 1;
    while k < flag.len() - 1
        invariant
            1 <= k <= flag@.len() - 1,
            flag@.len() >= 3,
            forall|j: int| 1 <= j < k ==> is_name_char(#[trigger] flag@[j]),
        decreases flag@.len() - k,
    {
        if !is_variable_char(flag[k]) {
            return false;
        }
        k += 1;
    }
    true
}

/// Whether `t[i..]` completes a variable name whose current component is
/// empty or not: components separated by colons, then an optional flag.
pub open spec fn name_from(t: Seq<char>, i: int, filled: bool) -> bool
    decreases t.len() - i,
{
    if i < 0 || i >= t.len() {
        filled
    } else if is_name_char(t[i]) {
        name_from(t, i + 1, true)
    } else if t[i] == '$' {
        match reference_end(t, i) {
            Some(e) => if e > i {
                name_from(t, e, true)
            } else {
                false
            },
            None => false,
        }
    } else if t[i] == ':' && filled {
        name_from(t, i + 1, false)
    } else if t[i] == '[' && filled {
        flag_valid(t.skip(i))
    } else {
        false
    }
}

/// A variable name: it starts with a letter, a digit, `_` or a reference.
pub open spec fn variable_name(name: Seq<char>) -> bool {
    name.len() > 0 && (text::is_alnum(name[0]) || name[0] == '_' || name[0] == '$') && name_from(
        name,
        0,
        false,
    )
}

/// Whether `name` is a variable name.
pub fn is_variable_name(name: &[char]) -> (r: bool)
    ensures
        r == variable_name(name@),
{
    if name.len() == 0 {
        return false;
    }
    if !(is_alphanumeric(name[0]) || name[0] == '_' || name[0] == '$') {
        return false;
    }
    let mut i: usize = 0;
    let mut filled = false;
    while i < name.len()
        invariant
            i <= name@.len(),
            name_from(name@, i as int, filled) == name_from(name@, 0, false),
            name@.len() > 0,
            text::is_alnum(name@[0]) || name@[0] == '_' || name@[0] == '$',
        decreases name@.len() - i,
    {
        let c = name[i];
        if is_variable_char(c) {
            filled = true;
            i += 1;
        } else if c == '$' {
            match variable_reference_end(name, i) {
                Some(e) => {
                    filled = true;
                    i = e;
                },
                None => {
                    return false;
                },
            }
        } else if c == ':' && filled {
            filled = false;
            i += 1;
        } else if c == '[' && filled {
            assert(name@.subrange(i as int, name@.len() as int) =~= name@.skip(i as int));
            return variable_flag_is_valid(slice_subrange(name, i, name.len()));
        } else {
            return false;
        }
    }
    filled
}

pub open spec fn export_word() -> Seq<char> {
    seq!['e', 'x', 'p', 'o', 'r', 't']
}

/// Whether the left-hand side of an assignment starts with the word `export`.
pub open spec fn is_exported(left: Seq<char>) -> bool {
    text::has_prefix(left, export_word()) && left.len() > 6 && text::is_ws(left[6])
}

/// The index at which the name starts in the left-hand side of an assignment.
pub open spec fn name_start(left: Seq<char>) -> int {
    if is_exported(left) {
        text::lead_from(left, CharClass::Whitespace, 6)
    } else {
        0
    }
}

/// The left-hand side of an assignment: a variable name, or `export` and one.
pub open spec fn assignment_left(left: Seq<char>) -> bool {
    variable_name(left.skip(name_start(left)))
}

/// The index at which the name starts in `left`, and whether it is exported.
pub fn export_prefix(left: &[char]) -> (r: (usize, bool))
    ensures
        r.0 == name_start(left@),
        r.0 <= left@.len(),
        r.1 == is_exported(left@),
{
    proof {
        reveal_strlit("export");
        assert("export"@ =~= export_word());
    }
    if starts_with(left, "export") && left.len() > 6 && is_whitespace(left[6]) {
        (lead_index(left, CharClass::Whitespace, 6), true)
    } else {
        (0, false)
    }
}

/// Whether `left` can stand on the left of an assignment operator.
pub fn is_assignment_left_hand_side(left: &[char]) -> (r: bool)
    ensures
        r == assignment_left(left@),
{
    let (start, _) = export_prefix(left);
    assert(left@.subrange(start as int, left@.len() as int) =~= left@.skip(start as int));
    is_variable_name(slice_subrange(left, start, left.len()))
}

} // verus!
