//! The extent of shell and Python function bodies in braces.
use crate::operator;
use crate::scanner;
use crate::text;
use crate::operator::is_at;
use crate::operator::is_pair_at;
use crate::scanner::FunctionKind;
use crate::text::CharClass;
use crate::text::append_chars;
use crate::text::find_char;
use crate::text::is_ascii_whitespace;
use crate::text::lead_index;
use crate::text::next_line_end;
use crate::text::same_chars;
use vstd::prelude::*;
use vstd::slice::slice_subrange;

verus! {

// ---------------------------------------------------------------------------
// Here documents
// ---------------------------------------------------------------------------
/// A here document that a shell command announces.
#[verifier::ext_equal]
pub struct HereDocView {
    pub delimiter: Seq<char>,
    pub strip_tabs: bool,
}

/// A here document that a shell command announces.
#[derive(Clone, Debug, Eq, PartialEq)]
pub struct ShellHereDoc {
    pub delimiter: Vec<char>,
    pub strip_tabs: bool,
}

impl View for ShellHereDoc {
    type V = HereDocView;

    open spec fn view(&self) -> HereDocView {
        HereDocView { delimiter: self.delimiter@, strip_tabs: self.strip_tabs }
    }
}

/// The views of a list of here documents.
pub open spec fn doc_views(docs: Seq<ShellHereDoc>) -> Seq<HereDocView> {
    docs.map_values(|d: ShellHereDoc| d@)
}

/// The characters that end an unquoted shell word.
pub open spec fn is_operator_char(c: char) -> bool {
    c == ';' || c == '|' || c == '&' || c == '<' || c == '>' || c == '(' || c == ')'
}

/// Whether `c` ends an unquoted shell word.
pub fn is_shell_operator(c: char) -> (r: bool)
    ensures
        r == is_operator_char(c),
{
    c == ';' || c == '|' || c == '&' || c == '<' || c == '>' || c == '(' || c == ')'
}

/// The unquoted shell word from `i` on, appended to `word`, and its end.
///
/// A backslash takes the next character as it is; at the end of the text it
/// leaves no word.
pub open spec fn shell_word(t: Seq<char>, i: int, word: Seq<char>) -> Option<(Seq<char>, int)>
    decreases t.len() - i,
{
    if i < 0 || i >= t.len() || text::is_ascii_ws(t[i]) || is_operator_char(t[i]) {
        Some((word, i))
    } else if t[i] == '\\' {
        if i + 1 >= t.len() {
            None
        } else {
            shell_word(t, i + 2, word.push(t[i + 1]))
        }
    } else {
        shell_word(t, i + 1, word.push(t[i]))
    }
}

/// Where the delimiter of the here document announced at `i` starts.
pub open spec fn delimiter_start(t: Seq<char>, i: int) -> int {
    text::lead_from(
        t,
        CharClass::Indent,
        if operator::at(t, i + 2, '-') {
            i + 3
        } else {
            i + 2
        },
    )
}

/// The delimiter of the here document announced at `i`, and its end.
pub open spec fn delimiter_at(t: Seq<char>, i: int) -> Option<(Seq<char>, int)> {
    let k = delimiter_start(t, i);
    if k >= t.len() {
        None
    } else if scanner::is_quote(t[k]) {
        let e = text::find_from(t, t[k], k + 1);
        if e >= t.len() {
            None
        } else {
            Some((t.subrange(k + 1, e), e + 1))
        }
    } else if t[k] == '\\' {
        if k + 1 >= t.len() {
            None
        } else {
            shell_word(t, k + 2, seq![t[k + 1]])
        }
    } else {
        shell_word(t, k, Seq::empty())
    }
}

/// The here document announced at `i`, and the end of its announcement.
pub open spec fn here_document(t: Seq<char>, i: int) -> Option<(HereDocView, int)> {
    if !operator::pair_at(t, i, '<', '<') || operator::at(t, i + 2, '<') {
        None
    } else {
        match delimiter_at(t, i) {
            Some((delimiter, end)) => if delimiter.len() == 0 {
                None
            } else {
                Some((HereDocView { delimiter, strip_tabs: operator::at(t, i + 2, '-') }, end))
            },
            None => None,
        }
    }
}

pub proof fn lemma_shell_word(t: Seq<char>, i: int, word: Seq<char>)
    requires
        0 <= i <= t.len(),
    ensures
        shell_word(t, i, word) matches Some((w, e)) ==> i <= e <= t.len() && w.len() - word.len()
            <= e - i,
    decreases t.len() - i,
{
    if i < t.len() && !text::is_ascii_ws(t[i]) && !is_operator_char(t[i]) {
        if t[i] == '\\' {
            if i + 1 < t.len() {
                lemma_shell_word(t, i + 2, word.push(t[i + 1]));
            }
        } else {
            lemma_shell_word(t, i + 1, word.push(t[i]));
        }
    }
}

/// The announcement of a here document ends after it starts.
pub proof fn lemma_here_document(t: Seq<char>, i: int)
    requires
        0 <= i,
    ensures
        here_document(t, i) matches Some((_, e)) ==> i + 2 < e <= t.len(),
{
    if operator::pair_at(t, i, '<', '<') {
        let k0 = if operator::at(t, i + 2, '-') {
            i + 3
        } else {
            i + 2
        };
        text::lemma_lead(t, CharClass::Indent, k0);
        let k = delimiter_start(t, i);
        if k < t.len() {
            if scanner::is_quote(t[k]) {
                text::lemma_find(t, t[k], k + 1);
            } else if t[k] == '\\' {
                if k + 1 < t.len() {
                    lemma_shell_word(t, k + 2, seq![t[k + 1]]);
                }
            } else {
                lemma_shell_word(t, k, Seq::empty());
            }
        }
    }
}

fn read_shell_word(t: &[char], start: usize, word: Vec<char>) -> (r: Option<(Vec<char>, usize)>)
    requires
        start <= t@.len(),
    ensures
        match r {
            Some((w, e)) => shell_word(t@, start as int, word@) == Some((w@, e as int)) && start
                <= e <= t@.len(),
            None => shell_word(t@, start as int, word@) is None,
        },
{
    let mut out = word;
    let mut i: usize = start;
    while i < t.len() && !is_ascii_whitespace(t[i]) && !is_shell_operator(t[i])
        invariant
            start <= i <= t@.len(),
            shell_word(t@, i as int, out@) == shell_word(t@, start as int, word@),
        decreases t@.len() - i,
    {
        if t[i] == '\\' {
            if t.len() - i < 2 {
                return None;
            }
            out.push(t[i + 1]);
            i += 2;
        } else {
            out.push(t[i]);
            i += 1;
        }
    }
    Some((out, i))
}

/// The here document announced at `start`, and the end of its announcement.
pub fn parse_shell_here_document(t: &[char], start: usize) -> (r: Option<(ShellHereDoc, usize)>)
    requires
        start <= t@.len(),
    ensures
        match r {
            Some((doc, e)) => here_document(t@, start as int) == Some((doc@, e as int)) && start < e
                <= t@.len(),
            None => here_document(t@, start as int) is None,
        },
{
    let n = t.len();
    if !is_pair_at(t, start, '<', '<') {
        return None;
    }
    assert(start + 2 <= n);
    if is_at(t, start + 2, '<') {
        return None;
    }
    let strip_tabs = is_at(t, start + 2, '-');
    let from = if strip_tabs {
        start + 3
    } else {
        start + 2
    };
    let k = lead_index(t, CharClass::Indent, from);
    if k >= n {
        return None;
    }
    proof {
        lemma_here_document(t@, start as int);
    }
    let c = t[k];
    if c == '\'' || c == '"' {
        let e = find_char(t, c, k + 1);
        if e >= n || e == k + 1 {
            return None;
        }
        let mut delimiter: Vec<char> = Vec::new();
        append_chars(&mut delimiter, slice_subrange(t, k + 1, e));
        assert(delimiter@ =~= t@.subrange(k + 1, e as int));
        return Some((ShellHereDoc { delimiter, strip_tabs }, e + 1));
    }
    let mut word: Vec<char> = Vec::new();
    let mut from: usize = k;
    if c == '\\' {
        if k + 1 >= n {
            return None;
        }
        word.push(t[k + 1]);
        assert(word@ =~= seq![t@[k + 1]]);
        from = k + 2;
    } else {
        assert(word@ =~= Seq::<char>::empty());
    }
    match read_shell_word(t, from, word) {
        Some((delimiter, e)) => {
            if delimiter.len() == 0 {
                None
            } else {
                Some((ShellHereDoc { delimiter, strip_tabs }, e))
            }
        },
        None => None,
    }
}

/// A line `t[offset..e]` as it is compared with a delimiter.
pub open spec fn doc_line(t: Seq<char>, offset: int, e: int, strip_tabs: bool) -> Seq<char> {
    let end = if offset < e && t[e - 1] == '\r' {
        e - 1
    } else {
        e
    };
    let line = t.subrange(offset, end);
    if strip_tabs {
        line.skip(tabs_from(line, 0))
    } else {
        line
    }
}

/// The first index from `i` on that holds no tab.
pub open spec fn tabs_from(t: Seq<char>, i: int) -> int
    decreases t.len() - i,
{
    if 0 <= i < t.len() && t[i] == '\t' {
        tabs_from(t, i + 1)
    } else {
        i
    }
}

/// The end of the here document whose text starts at `offset`: after the first
/// line that is its delimiter.
pub open spec fn doc_end(t: Seq<char>, offset: int, doc: HereDocView) -> Option<int>
    decreases t.len() - offset,
{
    let e = text::find_from(t, '\n', offset);
    proof {
        if 0 <= offset <= t.len() {
            text::lemma_find(t, '\n', offset);
        }
    }
    if doc_line(t, offset, e, doc.strip_tabs) == doc.delimiter {
        Some(
            if e < t.len() {
                e + 1
            } else {
                e
            },
        )
    } else if e >= t.len() {
        None
    } else {
        doc_end(t, e + 1, doc)
    }
}

/// The end of the here documents whose text starts at `offset`, one after the other.
pub open spec fn docs_end(t: Seq<char>, offset: int, docs: Seq<HereDocView>) -> Option<int>
    decreases docs.len(),
{
    if docs.len() == 0 {
        Some(offset)
    } else {
        match doc_end(t, offset, docs[0]) {
            Some(next) => docs_end(t, next, docs.drop_first()),
            None => None,
        }
    }
}

pub proof fn lemma_doc_end(t: Seq<char>, offset: int, doc: HereDocView)
    requires
        0 <= offset <= t.len(),
    ensures
        doc_end(t, offset, doc) matches Some(e) ==> offset <= e <= t.len(),
    decreases t.len() - offset,
{
    text::lemma_find(t, '\n', offset);
    let e = text::find_from(t, '\n', offset);
    if e < t.len() {
        lemma_doc_end(t, e + 1, doc);
    }
}

pub proof fn lemma_docs_end(t: Seq<char>, offset: int, docs: Seq<HereDocView>)
    requires
        0 <= offset <= t.len(),
    ensures
        docs_end(t, offset, docs) matches Some(e) ==> offset <= e <= t.len(),
    decreases docs.len(),
{
    if docs.len() > 0 {
        lemma_doc_end(t, offset, docs[0]);
        if doc_end(t, offset, docs[0]) is Some {
            lemma_docs_end(t, doc_end(t, offset, docs[0])->0, docs.drop_first());
        }
    }
}

fn skip_here_document(t: &[char], offset: usize, doc: &ShellHereDoc) -> (r: Option<usize>)
    requires
        offset <= t@.len(),
    ensures
        match r {
            Some(e) => doc_end(t@, offset as int, doc@) == Some(e as int) && offset <= e
                <= t@.len(),
            None => doc_end(t@, offset as int, doc@) is None,
        },
{
    let mut from: usize = offset;
    loop
        invariant
            offset <= from <= t@.len(),
            doc_end(t@, from as int, doc@) == doc_end(t@, offset as int, doc@),
        decreases t@.len() - from,
    {
        let e = find_char(t, '\n', from);
        let end = if from < e && t[e - 1] == '\r' {
            e - 1
        } else {
            e
        };
        let line = slice_subrange(t, from, end);
        let mut k: usize = 0;
        if doc.strip_tabs {
            while k < line.len() && line[k] == '\t'
                invariant
                    k <= line@.len(),
                    tabs_from(line@, k as int) == tabs_from(line@, 0),
                decreases line@.len() - k,
            {
                k += 1;
            }
        }
        assert(line@.subrange(k as int, line@.len() as int) =~= line@.skip(k as int));
        assert(line@.skip(0) =~= line@);
        if same_chars(slice_subrange(line, k, line.len()), doc.delimiter.as_slice()) {
            return Some(
                if e < t.len() {
                    e + 1
                } else {
                    e
                },
            );
        }
        if e == t.len() {
            return None;
        }
        from = e + 1;
    }
}

/// The end of the here documents whose text starts at `offset`.
pub fn skip_shell_here_documents(t: &[char], offset: usize, docs: &Vec<ShellHereDoc>) -> (r: Option<
    usize,
>)
    requires
        offset <= t@.len(),
    ensures
        match r {
            Some(e) => docs_end(t@, offset as int, doc_views(docs@)) == Some(e as int) && offset
                <= e <= t@.len(),
            None => docs_end(t@, offset as int, doc_views(docs@)) is None,
        },
{
    let mut from: usize = offset;
    let mut k: usize = 0;
    let ghost views = doc_views(docs@);
    assert(views.skip(0) =~= views);
    while k < docs.len()
        invariant
            k <= docs@.len(),
            offset <= from <= t@.len(),
            views == doc_views(docs@),
            docs_end(t@, from as int, views.skip(k as int)) == docs_end(t@, offset as int, views),
        decreases docs@.len() - k,
    {
        assert(views.skip(k as int)[0] == docs@[k as int]@);
        assert(views.skip(k as int).drop_first() =~= views.skip(k + 1));
        match skip_here_document(t, from, &docs[k]) {
            Some(e) => {
                from = e;
            },
            None => {
                return None;
            },
        }
        k += 1;
    }
    assert(views.skip(k as int).len() == 0);
    Some(from)
}

// ---------------------------------------------------------------------------
// Comments and command substitutions
// ---------------------------------------------------------------------------
/// Whether a `#` at `i` starts a comment: always in Python; in shell at the
/// start of a word.
pub open spec fn comment_at(t: Seq<char>, i: int, kind: FunctionKind) -> bool {
    kind == FunctionKind::Python || i <= 0 || text::is_ascii_ws(t[i - 1]) || t[i - 1] == ';' || t[i - 1]
        == '|' || t[i - 1] == '&' || t[i - 1] == '(' || t[i - 1] == ')' || t[i - 1] == '{' || t[i
        - 1] == '}'
}

/// Whether a `#` at `index` starts a comment.
pub fn is_comment_start_in_function(t: &[char], index: usize, kind: FunctionKind) -> (r: bool)
    requires
        index < t@.len(),
    ensures
        r == comment_at(t@, index as int, kind),
{
    if let FunctionKind::Python = kind {
        return true;
    }
    if index == 0 {
        return true;
    }
    let c = t[index - 1];
    is_ascii_whitespace(c) || c == ';' || c == '|' || c == '&' || c == '(' || c == ')' || c == '{'
        || c == '}'
}

/// What the scan of a command substitution has seen.
pub struct SubstState {
    pub depth: nat,
    pub quote: Option<char>,
    pub escaped: bool,
    pub comment: bool,
}

/// The state after the character at `i`.
pub open spec fn subst_step(t: Seq<char>, i: int, s: SubstState) -> SubstState {
    let c = t[i];
    if s.comment {
        SubstState { comment: c != '\n', ..s }
    } else if s.escaped {
        SubstState { escaped: false, ..s }
    } else if s.quote != Some('\'') && c == '\\' {
        SubstState { escaped: true, ..s }
    } else if s.quote is Some {
        SubstState {
            quote: if s.quote == Some(c) {
                None
            } else {
                s.quote
            },
            ..s
        }
    } else if scanner::is_quote(c) {
        SubstState { quote: Some(c), ..s }
    } else if c == '#' && comment_at(t, i, FunctionKind::Shell) {
        SubstState { comment: true, ..s }
    } else if c == '(' {
        SubstState { depth: s.depth + 1, ..s }
    } else if c == ')' && s.depth > 0 {
        SubstState { depth: (s.depth - 1) as nat, ..s }
    } else {
        s
    }
}

/// The index after the parenthesis that closes a command substitution.
pub open spec fn subst_from(t: Seq<char>, i: int, s: SubstState) -> Option<int>
    decreases t.len() - i,
{
    if i < 0 || i >= t.len() {
        None
    } else if subst_step(t, i, s).depth == 0 {
        Some(i + 1)
    } else {
        subst_from(t, i + 1, subst_step(t, i, s))
    }
}

pub open spec fn subst_start() -> SubstState {
    SubstState { depth: 1, quote: None, escaped: false, comment: false }
}

/// The index after the command substitution whose contents start at `i`.
pub open spec fn subst_end(t: Seq<char>, i: int) -> Option<int> {
    subst_from(t, i, subst_start())
}

pub proof fn lemma_subst_from(t: Seq<char>, i: int, s: SubstState)
    ensures
        subst_from(t, i, s) matches Some(e) ==> i < e <= t.len(),
    decreases t.len() - i,
{
    if 0 <= i < t.len() && subst_step(t, i, s).depth != 0 {
        lemma_subst_from(t, i + 1, subst_step(t, i, s));
    }
}

/// The index after the command substitution whose contents start at `start`.
pub fn skip_shell_command_substitution(t: &[char], start: usize) -> (r: Option<usize>)
    requires
        0 < start <= t@.len(),
    ensures
        match r {
            Some(e) => subst_end(t@, start as int) == Some(e as int) && start < e <= t@.len(),
            None => subst_end(t@, start as int) is None,
        },
{
    let mut depth: usize = 1;
    let mut quote: Option<char> = None;
    let mut escaped = false;
    let mut comment = false;
    let mut i: usize = start;
    let ghost s = subst_start();
    while i < t.len()
        invariant
            0 < start <= i <= t@.len(),
            0 < depth <= 1 + i - start,
            s == (SubstState { depth: depth as nat, quote, escaped, comment }),
            subst_from(t@, i as int, s) == subst_end(t@, start as int),
        decreases t@.len() - i,
    {
        let c = t[i];
        proof {
            s = subst_step(t@, i as int, s);
        }
        if comment {
            if c == '\n' {
                comment = false;
            }
        } else if escaped {
            escaped = false;
        } else if c == '\\' && !(quote.is_some() && quote.unwrap() == '\'') {
            escaped = true;
        } else if let Some(delimiter) = quote {
            if c == delimiter {
                quote = None;
            }
        } else if c == '\'' || c == '"' {
            quote = Some(c);
        } else if c == '#' && is_comment_start_in_function(t, i, FunctionKind::Shell) {
            comment = true;
        } else if c == '(' {
            depth += 1;
        } else if c == ')' {
            depth -= 1;
            if depth == 0 {
                return Some(i + 1);
            }
        }
        i += 1;
    }
    None
}

// ---------------------------------------------------------------------------
// Bodies in braces
// ---------------------------------------------------------------------------
/// A quote inside a function body.
#[derive(Clone, Copy, Debug, Eq, PartialEq, Structural)]
pub enum FunctionQuote {
    Single(char),
    Triple(char),
}

/// What the scan of a function body has seen.
#[verifier::ext_equal]
pub struct BraceState {
    pub depth: nat,
    pub quote: Option<FunctionQuote>,
    pub escaped: bool,
    pub comment: bool,
    pub docs: Seq<HereDocView>,
    pub arithmetic: nat,
}

/// What one step of the scan of a function body leads to.
pub enum BraceStep {
    /// The brace at this index closes the body.
    Close(int),
    /// The body cannot be closed.
    Fail,
    /// The scan goes on at this index.
    Next(int, BraceState),
}

pub open spec fn triple_at(t: Seq<char>, i: int, c: char) -> bool {
    operator::pair_at(t, i, c, c) && operator::at(t, i + 2, c)
}

/// The step that leaves a line after which here documents follow.
pub open spec fn after_docs(t: Seq<char>, i: int, s: BraceState) -> BraceStep {
    match docs_end(t, i, s.docs) {
        Some(e) => BraceStep::Next(e, BraceState { docs: Seq::empty(), ..s }),
        None => BraceStep::Fail,
    }
}

/// The step over the command substitution whose contents start at `i`.
pub open spec fn after_subst(t: Seq<char>, i: int, s: BraceState) -> BraceStep {
    match subst_end(t, i) {
        Some(e) => BraceStep::Next(e, s),
        None => BraceStep::Fail,
    }
}

/// The step at `i` inside the quote `q`.
pub open spec fn quoted_step(
    t: Seq<char>,
    i: int,
    kind: FunctionKind,
    s: BraceState,
    q: FunctionQuote,
) -> BraceStep {
    if kind == FunctionKind::Shell && q == FunctionQuote::Single('"') && operator::pair_at(t, i, '$', '(') {
        after_subst(t, i + 2, s)
    } else {
        match q {
            FunctionQuote::Single(d) => if t[i] == d {
                BraceStep::Next(i + 1, BraceState { quote: None, ..s })
            } else {
                BraceStep::Next(i + 1, s)
            },
            FunctionQuote::Triple(d) => if triple_at(t, i, d) {
                BraceStep::Next(i + 3, BraceState { quote: None, ..s })
            } else {
                BraceStep::Next(i + 1, s)
            },
        }
    }
}

/// The step at `i` over one plain character.
pub open spec fn plain_step(t: Seq<char>, i: int, kind: FunctionKind, s: BraceState) -> BraceStep {
    let c = t[i];
    if scanner::is_quote(c) {
        BraceStep::Next(i + 1, BraceState { quote: Some(FunctionQuote::Single(c)), ..s })
    } else if c == '#' && comment_at(t, i, kind) {
        BraceStep::Next(i + 1, BraceState { comment: true, ..s })
    } else if c == '\n' && s.docs.len() > 0 {
        after_docs(t, i + 1, s)
    } else if c == '{' {
        BraceStep::Next(i + 1, BraceState { depth: s.depth + 1, ..s })
    } else if c == '}' {
        if s.depth == 0 {
            BraceStep::Fail
        } else if s.depth == 1 {
            BraceStep::Close(i)
        } else {
            BraceStep::Next(i + 1, BraceState { depth: (s.depth - 1) as nat, ..s })
        }
    } else {
        BraceStep::Next(i + 1, s)
    }
}

/// The step at `i` outside quotes, comments and escapes.
pub open spec fn code_step(t: Seq<char>, i: int, kind: FunctionKind, s: BraceState) -> BraceStep {
    let c = t[i];
    if kind == FunctionKind::Python {
        if scanner::is_quote(c) && triple_at(t, i, c) {
            BraceStep::Next(i + 3, BraceState { quote: Some(FunctionQuote::Triple(c)), ..s })
        } else {
            plain_step(t, i, kind, s)
        }
    } else if operator::pair_at(t, i, '(', '(') {
        BraceStep::Next(i + 2, BraceState { arithmetic: s.arithmetic + 1, ..s })
    } else if operator::pair_at(t, i, '$', '(') {
        after_subst(t, i + 2, s)
    } else if s.arithmetic > 0 && operator::pair_at(t, i, ')', ')') {
        BraceStep::Next(i + 2, BraceState { arithmetic: (s.arithmetic - 1) as nat, ..s })
    } else if s.arithmetic == 0 && here_document(t, i) is Some {
        let (doc, e) = here_document(t, i)->0;
        BraceStep::Next(e, BraceState { docs: s.docs.push(doc), ..s })
    } else {
        plain_step(t, i, kind, s)
    }
}

/// The step at `i` of the scan of a function body.
pub open spec fn brace_step(t: Seq<char>, i: int, kind: FunctionKind, s: BraceState) -> BraceStep {
    let c = t[i];
    if s.comment {
        if c != '\n' {
            BraceStep::Next(i + 1, s)
        } else if s.docs.len() > 0 {
            after_docs(t, i + 1, BraceState { comment: false, ..s })
        } else {
            BraceStep::Next(i + 1, BraceState { comment: false, ..s })
        }
    } else if s.escaped {
        BraceStep::Next(i + 1, BraceState { escaped: false, ..s })
    } else if c == '\\' && !(kind == FunctionKind::Shell && s.quote == Some(
        FunctionQuote::Single('\''),
    )) {
        BraceStep::Next(i + 1, BraceState { escaped: true, ..s })
    } else if s.quote is Some {
        quoted_step(t, i, kind, s, s.quote->0)
    } else {
        code_step(t, i, kind, s)
    }
}

/// Every step moves forward and stays in the text.
pub proof fn lemma_brace_step(t: Seq<char>, i: int, kind: FunctionKind, s: BraceState)
    requires
        0 <= i < t.len(),
    ensures
        brace_step(t, i, kind, s) matches BraceStep::Next(j, _) ==> i < j <= t.len(),
        brace_step(t, i, kind, s) matches BraceStep::Close(j) ==> j == i && t[i] == '}',
{
    lemma_docs_end(t, i + 1, s.docs);
    if operator::pair_at(t, i, '$', '(') {
        lemma_subst_from(t, i + 2, subst_start());
    }
    lemma_here_document(t, i);
}

/// The index of the brace that closes the function body being scanned at `i`.
pub open spec fn brace_from(t: Seq<char>, i: int, kind: FunctionKind, s: BraceState) -> Option<int>
    decreases t.len() - i,
{
    proof {
        if 0 <= i < t.len() {
            lemma_brace_step(t, i, kind, s);
        }
    }
    if i < 0 || i >= t.len() {
        None
    } else {
        match brace_step(t, i, kind, s) {
            BraceStep::Close(j) => Some(j),
            BraceStep::Fail => None,
            BraceStep::Next(j, next) => brace_from(t, j, kind, next),
        }
    }
}

pub open spec fn brace_start() -> BraceState {
    BraceState {
        depth: 0,
        quote: None,
        escaped: false,
        comment: false,
        docs: Seq::empty(),
        arithmetic: 0,
    }
}

/// The index of the brace that closes the body opened at `open`.
pub open spec fn closing_brace(t: Seq<char>, open: int, kind: FunctionKind) -> Option<int> {
    brace_from(t, open, kind, brace_start())
}

pub proof fn lemma_brace_from(t: Seq<char>, i: int, kind: FunctionKind, s: BraceState)
    requires
        0 <= i,
    ensures
        brace_from(t, i, kind, s) matches Some(j) ==> i <= j < t.len() && t[j] == '}',
    decreases t.len() - i,
{
    if i < t.len() {
        lemma_brace_step(t, i, kind, s);
        match brace_step(t, i, kind, s) {
            BraceStep::Next(j, next) => {
                lemma_brace_from(t, j, kind, next);
            },
            _ => {},
        }
    }
}

fn is_triple_at(t: &[char], i: usize, c: char) -> (r: bool)
    requires
        i < t@.len(),
    ensures
        r == triple_at(t@, i as int, c),
{
    is_pair_at(t, i, c, c) && t.len() - i > 2 && t[i + 2] == c
}

/// The end of the last line of the function body opened at `opening_brace`,
/// and the index of its closing brace.
pub fn find_brace_block_end(t: &[char], opening_brace: usize, kind: FunctionKind) -> (r: Option<
    (usize, usize),
>)
    requires
        opening_brace <= t@.len(),
    ensures
        match r {
            Some((end, close)) => {
                &&& closing_brace(t@, opening_brace as int, kind) == Some(close as int)
                &&& end == text::line_end(t@, close as int)
                &&& opening_brace <= close < end <= t@.len()
                &&& t@[close as int] == '}'
            },
            None => closing_brace(t@, opening_brace as int, kind) is None,
        },
{
    let shell = match kind {
        FunctionKind::Shell => true,
        FunctionKind::Python => false,
    };
    let mut depth: usize = 0;
    let mut quote: Option<FunctionQuote> = None;
    let mut escaped = false;
    let mut comment = false;
    let mut docs: Vec<ShellHereDoc> = Vec::new();
    let mut arithmetic: usize = 0;
    let mut i: usize = opening_brace;
    let ghost s = brace_start();
    assert(doc_views(docs@) =~= Seq::empty());
    while i < t.len()
        invariant
            opening_brace <= i <= t@.len(),
            shell == (kind == FunctionKind::Shell),
            depth <= i - opening_brace,
            arithmetic <= i - opening_brace,
            s == (BraceState {
                depth: depth as nat,
                quote,
                escaped,
                comment,
                docs: doc_views(docs@),
                arithmetic: arithmetic as nat,
            }),
            brace_from(t@, i as int, kind, s) == closing_brace(t@, opening_brace as int, kind),
        decreases t@.len() - i,
    {
        let c = t[i];
        proof {
            lemma_brace_step(t@, i as int, kind, s);
            match brace_step(t@, i as int, kind, s) {
                BraceStep::Next(_, next) => {
                    s = next;
                },
                _ => {},
            }
        }
        if comment {
            i += 1;
            if c == '\n' {
                comment = false;
                if docs.len() > 0 {
                    match skip_shell_here_documents(t, i, &docs) {
                        Some(e) => {
                            i = e;
                        },
                        None => {
                            return None;
                        },
                    }
                    docs = Vec::new();
                    assert(doc_views(docs@) =~= Seq::empty());
                }
            }
            continue ;
        }
        if escaped {
            escaped = false;
            i += 1;
            continue ;
        }
        let raw = match quote {
            Some(FunctionQuote::Single(d)) => shell && d == '\'',
            _ => false,
        };
        if c == '\\' && !raw {
            escaped = true;
            i += 1;
            continue ;
        }
        if let Some(active) = quote {
            let expands = match active {
                FunctionQuote::Single(d) => shell && d == '"',
                _ => false,
            };
            if expands && is_pair_at(t, i, '$', '(') {
                match skip_shell_command_substitution(t, i + 2) {
                    Some(e) => {
                        i = e;
                    },
                    None => {
                        return None;
                    },
                }
                continue ;
            }
            match active {
                FunctionQuote::Single(d) => {
                    if c == d {
                        quote = None;
                    }
                    i += 1;
                },
                FunctionQuote::Triple(d) => {
                    if is_triple_at(t, i, d) {
                        quote = None;
                        i += 3;
                    } else {
                        i += 1;
                    }
                },
            }
            continue ;
        }
        if !shell && (c == '\'' || c == '"') && is_triple_at(t, i, c) {
            quote = Some(FunctionQuote::Triple(c));
            i += 3;
            continue ;
        }
        if shell && is_pair_at(t, i, '(', '(') {
            arithmetic += 1;
            i += 2;
            continue ;
        }
        if shell && is_pair_at(t, i, '$', '(') {
            match skip_shell_command_substitution(t, i + 2) {
                Some(e) => {
                    i = e;
                },
                None => {
                    return None;
                },
            }
            continue ;
        }
        if shell && arithmetic > 0 && is_pair_at(t, i, ')', ')') {
            arithmetic -= 1;
            i += 2;
            continue ;
        }
        if shell && arithmetic == 0 {
            if let Some((doc, e)) = parse_shell_here_document(t, i) {
                let ghost before = docs@;
                docs.push(doc);
                assert(doc_views(docs@) =~= doc_views(before).push(doc@));
                i = e;
                continue ;
            }
        }
        if c == '\'' || c == '"' {
            quote = Some(FunctionQuote::Single(c));
            i += 1;
        } else if c == '#' && is_comment_start_in_function(t, i, kind) {
            comment = true;
            i += 1;
        } else if c == '\n' && docs.len() > 0 {
            match skip_shell_here_documents(t, i + 1, &docs) {
                Some(e) => {
                    i = e;
                },
                None => {
                    return None;
                },
            }
            docs = Vec::new();
            assert(doc_views(docs@) =~= Seq::empty());
        } else if c == '{' {
            depth += 1;
            i += 1;
        } else if c == '}' {
            if depth == 0 {
                return None;
            }
            if depth == 1 {
                proof {
                    text::lemma_line_end(t@, i as int);
                }
                return Some((next_line_end(t, i), i));
            }
            depth -= 1;
            i += 1;
        } else {
            i += 1;
        }
    }
    None
}

} // verus!
