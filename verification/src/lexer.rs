//! The lexical structure of BitBake metadata.
use crate::operator;
use crate::scanner;
use crate::text;
use crate::tree;
use crate::operator::AssignmentOperator;
use crate::operator::is_at;
use crate::operator::is_pair_at;
use crate::operator::read_operator;
use crate::scanner::is_variable_char;
use crate::text::CharClass;
use crate::text::byte_length;
use crate::text::char_index;
use crate::text::chars_of;
use crate::text::eq_str;
use crate::text::is_alphanumeric;
use crate::text::is_ascii_whitespace;
use crate::text::lead_index;
use crate::text::line_col_of;
use crate::text::string_of;
use crate::text::text_length;
use crate::tree::TextRange;
use vstd::prelude::*;
use vstd::slice::slice_subrange;

verus! {

/// A token of BitBake metadata.
#[derive(Clone, Copy, Debug, Eq, PartialEq, Structural)]
pub enum Token {
    Whitespace,
    /// From `#` to the end of the line.
    Comment,
    IncludeKw,
    IncludeAllKw,
    RequireKw,
    InheritKw,
    InheritDeferKw,
    AddFragmentsKw,
    ExportKw,
    UnsetKw,
    AddtaskKw,
    DeltaskKw,
    AddHandlerKw,
    AddPyLibKw,
    ExportFunctionsKw,
    BeforeKw,
    AfterKw,
    PythonKw,
    FakerootKw,
    Assign,
    ImmediateAssign,
    DefaultAssign,
    WeakDefaultAssign,
    AppendAssign,
    PrependAssign,
    AppendNoSpaceAssign,
    PrependNoSpaceAssign,
    LParen,
    RParen,
    LBrace,
    RBrace,
    LBracket,
    RBracket,
    Colon,
    Slash,
    LineContinuation,
    /// A component of a variable, override, flag or function name, or a word of
    /// a directive. Colons and variable references are tokens of their own.
    Ident,
    /// A reference such as `${VAR}` or `${@python}`.
    VarRef,
    /// A value in double quotes, quotes included; it may span lines.
    DqString,
    /// A value in single quotes, quotes included; it may span lines.
    SqString,
}

/// The operator that a token spells.
pub open spec fn token_operator(token: Token) -> Option<AssignmentOperator> {
    match token {
        Token::Assign => Some(AssignmentOperator::Assign),
        Token::ImmediateAssign => Some(AssignmentOperator::Immediate),
        Token::DefaultAssign => Some(AssignmentOperator::Default),
        Token::WeakDefaultAssign => Some(AssignmentOperator::WeakDefault),
        Token::AppendAssign => Some(AssignmentOperator::AppendWithSpace),
        Token::PrependAssign => Some(AssignmentOperator::PrependWithSpace),
        Token::AppendNoSpaceAssign => Some(AssignmentOperator::AppendWithoutSpace),
        Token::PrependNoSpaceAssign => Some(AssignmentOperator::PrependWithoutSpace),
        _ => None,
    }
}

/// The token of an operator.
pub open spec fn operator_token(operator: AssignmentOperator) -> Token {
    match operator {
        AssignmentOperator::Assign => Token::Assign,
        AssignmentOperator::Immediate => Token::ImmediateAssign,
        AssignmentOperator::Default => Token::DefaultAssign,
        AssignmentOperator::WeakDefault => Token::WeakDefaultAssign,
        AssignmentOperator::AppendWithSpace => Token::AppendAssign,
        AssignmentOperator::PrependWithSpace => Token::PrependAssign,
        AssignmentOperator::AppendWithoutSpace => Token::AppendNoSpaceAssign,
        AssignmentOperator::PrependWithoutSpace => Token::PrependNoSpaceAssign,
    }
}

/// Operators and their tokens correspond one to one.
pub proof fn law_operator_tokens_correspond(operator: AssignmentOperator, token: Token)
    ensures
        token_operator(operator_token(operator)) == Some(operator),
        token_operator(token) matches Some(o) ==> operator_token(o) == token,
{
}

impl Token {
    /// The operator that this token spells.
    pub fn assignment_operator(self) -> (r: Option<AssignmentOperator>)
        ensures
            r == token_operator(self),
    {
        match self {
            Token::Assign => Some(AssignmentOperator::Assign),
            Token::ImmediateAssign => Some(AssignmentOperator::Immediate),
            Token::DefaultAssign => Some(AssignmentOperator::Default),
            Token::WeakDefaultAssign => Some(AssignmentOperator::WeakDefault),
            Token::AppendAssign => Some(AssignmentOperator::AppendWithSpace),
            Token::PrependAssign => Some(AssignmentOperator::PrependWithSpace),
            Token::AppendNoSpaceAssign => Some(AssignmentOperator::AppendWithoutSpace),
            Token::PrependNoSpaceAssign => Some(AssignmentOperator::PrependWithoutSpace),
            _ => None,
        }
    }

    /// A lexer at the start of `text`.
    pub fn lexer(text: &str) -> (r: Lexer)
        ensures
            r.text() == text@,
            r.start_index() == 0,
            r.end_index() == 0,
            r.wf(),
    {
        let size = text_length(text);
        assert(text@.take(0) =~= Seq::empty());
        Lexer { chars: chars_of(text), start: 0, end: 0, start_byte: 0, end_byte: 0 }
    }
}

pub open spec fn is_ident_start(c: char) -> bool {
    text::is_alnum(c) || c == '_'
}

/// The index from `i` on at which a run of identifier characters ends.
pub open spec fn ident_end(t: Seq<char>, i: int) -> int
    decreases t.len() - i,
{
    if 0 <= i < t.len() && scanner::is_name_char(t[i]) {
        ident_end(t, i + 1)
    } else {
        i
    }
}

/// The index from `i` on of the first carriage return or line feed.
pub open spec fn comment_end(t: Seq<char>, i: int) -> int
    decreases t.len() - i,
{
    if 0 <= i < t.len() && t[i] != '\r' && t[i] != '\n' {
        comment_end(t, i + 1)
    } else {
        i
    }
}

/// The index from `i` on of the first `}`, carriage return or line feed.
pub open spec fn reference_stop(t: Seq<char>, i: int) -> int
    decreases t.len() - i,
{
    if 0 <= i < t.len() && t[i] != '}' && t[i] != '\r' && t[i] != '\n' {
        reference_stop(t, i + 1)
    } else {
        i
    }
}

/// The index after the `quote` that closes the string being read at `i`; a
/// backslash takes the next character with it.
pub open spec fn string_end(t: Seq<char>, i: int, quote: char) -> Option<int>
    decreases t.len() + 1 - i,
{
    if i < 0 || i >= t.len() {
        None
    } else if t[i] == quote {
        Some(i + 1)
    } else if t[i] == '\\' {
        string_end(t, i + 2, quote)
    } else {
        string_end(t, i + 1, quote)
    }
}

/// The token that a word of identifier characters is.
pub open spec fn word_token(word: Seq<char>) -> Token {
    if word == "include"@ {
        Token::IncludeKw
    } else if word == "include_all"@ {
        Token::IncludeAllKw
    } else if word == "require"@ {
        Token::RequireKw
    } else if word == "inherit"@ {
        Token::InheritKw
    } else if word == "inherit_defer"@ {
        Token::InheritDeferKw
    } else if word == "addfragments"@ {
        Token::AddFragmentsKw
    } else if word == "export"@ {
        Token::ExportKw
    } else if word == "unset"@ {
        Token::UnsetKw
    } else if word == "addtask"@ {
        Token::AddtaskKw
    } else if word == "deltask"@ {
        Token::DeltaskKw
    } else if word == "addhandler"@ {
        Token::AddHandlerKw
    } else if word == "addpylib"@ {
        Token::AddPyLibKw
    } else if word == "EXPORT_FUNCTIONS"@ {
        Token::ExportFunctionsKw
    } else if word == "before"@ {
        Token::BeforeKw
    } else if word == "after"@ {
        Token::AfterKw
    } else if word == "python"@ {
        Token::PythonKw
    } else if word == "fakeroot"@ {
        Token::FakerootKw
    } else {
        Token::Ident
    }
}

/// The token of one punctuation character.
pub open spec fn punctuation(c: char) -> Option<Token> {
    if c == '(' {
        Some(Token::LParen)
    } else if c == ')' {
        Some(Token::RParen)
    } else if c == '{' {
        Some(Token::LBrace)
    } else if c == '}' {
        Some(Token::RBrace)
    } else if c == '[' {
        Some(Token::LBracket)
    } else if c == ']' {
        Some(Token::RBracket)
    } else if c == ':' {
        Some(Token::Colon)
    } else if c == '/' {
        Some(Token::Slash)
    } else if c == '\\' {
        Some(Token::LineContinuation)
    } else {
        None
    }
}

/// The longest token at `i` and its end, or, where no token starts at `i`, how
/// far the text could still have become one: at least one character.
pub open spec fn token_at(t: Seq<char>, i: int) -> (Option<Token>, int) {
    let c = t[i];
    if text::is_ascii_ws(c) {
        (Some(Token::Whitespace), text::lead_from(t, CharClass::Ascii, i))
    } else if c == '#' {
        (Some(Token::Comment), comment_end(t, i))
    } else if is_ident_start(c) {
        (Some(word_token(t.subrange(i, ident_end(t, i)))), ident_end(t, i))
    } else if c == '"' || c == '\'' {
        match string_end(t, i + 1, c) {
            Some(e) => (
                Some(
                    if c == '"' {
                        Token::DqString
                    } else {
                        Token::SqString
                    },
                ),
                e,
            ),
            None => (None, t.len() as int),
        }
    } else if c == '$' {
        if !operator::at(t, i + 1, '{') {
            (None, i + 1)
        } else {
            let e = reference_stop(t, i + 2);
            if operator::at(t, e, '}') {
                (Some(Token::VarRef), e + 1)
            } else {
                (None, e)
            }
        }
    } else {
        match operator::operator_at(t, i) {
            Some(operator) => (
                Some(operator_token(operator)),
                i + operator::operator_chars(operator).len(),
            ),
            None => match punctuation(c) {
                Some(token) => (Some(token), i + 1),
                None => (
                    None,
                    if operator::pair_at(t, i, '?', '?') {
                        i + 2
                    } else {
                        i + 1
                    },
                ),
            },
        }
    }
}

proof fn lemma_string_end(t: Seq<char>, i: int, quote: char)
    requires
        0 <= i,
    ensures
        string_end(t, i, quote) matches Some(e) ==> i < e <= t.len(),
    decreases t.len() + 1 - i,
{
    if i < t.len() && t[i] != quote {
        lemma_string_end(t, i + 1, quote);
        lemma_string_end(t, i + 2, quote);
    }
}

/// Every token and every error takes at least one character.
pub proof fn lemma_token_at(t: Seq<char>, i: int)
    requires
        0 <= i < t.len(),
    ensures
        i < token_at(t, i).1 <= t.len(),
{
    lemma_string_end(t, i + 1, t[i]);
    text::lemma_lead(t, CharClass::Ascii, i);
    lemma_runs(t, i);
    if operator::at(t, i + 1, '{') {
        lemma_runs(t, i + 2);
    }
    if text::is_ascii_ws(t[i]) {
        assert(text::in_class(CharClass::Ascii, t[i]));
    }
}

proof fn lemma_runs(t: Seq<char>, i: int)
    requires
        0 <= i <= t.len(),
    ensures
        i <= ident_end(t, i) <= t.len(),
        i <= comment_end(t, i) <= t.len(),
        i <= reference_stop(t, i) <= t.len(),
        i < t.len() && scanner::is_name_char(t[i]) ==> i < ident_end(t, i),
        i < t.len() && t[i] != '\r' && t[i] != '\n' ==> i < comment_end(t, i),
    decreases t.len() - i,
{
    if i < t.len() {
        lemma_runs(t, i + 1);
    }
}

fn read_word_token(word: &[char]) -> (r: Token)
    ensures
        r == word_token(word@),
{
    if eq_str(word, "include") {
        Token::IncludeKw
    } else if eq_str(word, "include_all") {
        Token::IncludeAllKw
    } else if eq_str(word, "require") {
        Token::RequireKw
    } else if eq_str(word, "inherit") {
        Token::InheritKw
    } else if eq_str(word, "inherit_defer") {
        Token::InheritDeferKw
    } else if eq_str(word, "addfragments") {
        Token::AddFragmentsKw
    } else if eq_str(word, "export") {
        Token::ExportKw
    } else if eq_str(word, "unset") {
        Token::UnsetKw
    } else if eq_str(word, "addtask") {
        Token::AddtaskKw
    } else if eq_str(word, "deltask") {
        Token::DeltaskKw
    } else if eq_str(word, "addhandler") {
        Token::AddHandlerKw
    } else if eq_str(word, "addpylib") {
        Token::AddPyLibKw
    } else if eq_str(word, "EXPORT_FUNCTIONS") {
        Token::ExportFunctionsKw
    } else if eq_str(word, "before") {
        Token::BeforeKw
    } else if eq_str(word, "after") {
        Token::AfterKw
    } else if eq_str(word, "python") {
        Token::PythonKw
    } else if eq_str(word, "fakeroot") {
        Token::FakerootKw
    } else {
        Token::Ident
    }
}

fn read_punctuation(c: char) -> (r: Option<Token>)
    ensures
        r == punctuation(c),
{
    if c == '(' {
        Some(Token::LParen)
    } else if c == ')' {
        Some(Token::RParen)
    } else if c == '{' {
        Some(Token::LBrace)
    } else if c == '}' {
        Some(Token::RBrace)
    } else if c == '[' {
        Some(Token::LBracket)
    } else if c == ']' {
        Some(Token::RBracket)
    } else if c == ':' {
        Some(Token::Colon)
    } else if c == '/' {
        Some(Token::Slash)
    } else if c == '\\' {
        Some(Token::LineContinuation)
    } else {
        None
    }
}

fn to_token(operator: AssignmentOperator) -> (r: Token)
    ensures
        r == operator_token(operator),
{
    match operator {
        AssignmentOperator::Assign => Token::Assign,
        AssignmentOperator::Immediate => Token::ImmediateAssign,
        AssignmentOperator::Default => Token::DefaultAssign,
        AssignmentOperator::WeakDefault => Token::WeakDefaultAssign,
        AssignmentOperator::AppendWithSpace => Token::AppendAssign,
        AssignmentOperator::PrependWithSpace => Token::PrependAssign,
        AssignmentOperator::AppendWithoutSpace => Token::AppendNoSpaceAssign,
        AssignmentOperator::PrependWithoutSpace => Token::PrependNoSpaceAssign,
    }
}

fn read_string(t: &[char], start: usize, quote: char) -> (r: Option<usize>)
    requires
        start <= t@.len(),
    ensures
        match r {
            Some(e) => string_end(t@, start as int, quote) == Some(e as int) && e <= t@.len(),
            None => string_end(t@, start as int, quote) is None,
        },
{
    let mut i: usize = start;
    while i < t.len()
        invariant
            start <= i <= t@.len(),
            string_end(t@, i as int, quote) == string_end(t@, start as int, quote),
        decreases t@.len() - i,
    {
        if t[i] == quote {
            return Some(i + 1);
        }
        if t[i] == '\\' {
            if t.len() - i < 2 {
                assert(string_end(t@, i + 2, quote) is None);
                return None;
            }
            i += 2;
        } else {
            i += 1;
        }
    }
    None
}

/// The longest token at `i` and its end.
fn read_token(t: &[char], i: usize) -> (r: (Option<Token>, usize))
    requires
        i < t@.len(),
    ensures
        r.0 == token_at(t@, i as int).0,
        r.1 == token_at(t@, i as int).1,
        i < r.1 <= t@.len(),
{
    proof {
        lemma_token_at(t@, i as int);
    }
    let n = t.len();
    let c = t[i];
    if is_ascii_whitespace(c) {
        return (Some(Token::Whitespace), lead_index(t, CharClass::Ascii, i));
    }
    if c == '#' {
        let mut e: usize = i;
        while e < t.len() && t[e] != '\r' && t[e] != '\n'
            invariant
                i <= e <= t@.len(),
                comment_end(t@, e as int) == comment_end(t@, i as int),
            decreases t@.len() - e,
        {
            e += 1;
        }
        return (Some(Token::Comment), e);
    }
    if is_alphanumeric(c) || c == '_' {
        let mut e: usize = i;
        while e < t.len() && is_variable_char(t[e])
            invariant
                i <= e <= t@.len(),
                ident_end(t@, e as int) == ident_end(t@, i as int),
            decreases t@.len() - e,
        {
            e += 1;
        }
        return (Some(read_word_token(slice_subrange(t, i, e))), e);
    }
    if c == '"' {
        return match read_string(t, i + 1, c) {
            Some(e) => (Some(Token::DqString), e),
            None => (None, n),
        };
    }
    if c == '\'' {
        return match read_string(t, i + 1, c) {
            Some(e) => (Some(Token::SqString), e),
            None => (None, n),
        };
    }
    if c == '$' {
        if !is_at(t, i + 1, '{') {
            return (None, i + 1);
        }
        let mut e: usize = i + 2;
        while e < t.len() && t[e] != '}' && t[e] != '\r' && t[e] != '\n'
            invariant
                i + 2 <= e <= t@.len(),
                reference_stop(t@, e as int) == reference_stop(t@, i + 2),
            decreases t@.len() - e,
        {
            e += 1;
        }
        if is_at(t, e, '}') {
            return (Some(Token::VarRef), e + 1);
        }
        return (None, e);
    }
    if let Some(operator) = read_operator(t, i) {
        let width = operator.width();
        return (Some(to_token(operator)), i + width);
    }
    if let Some(token) = read_punctuation(c) {
        return (Some(token), i + 1);
    }
    if is_pair_at(t, i, '?', '?') {
        (None, i + 2)
    } else {
        (None, i + 1)
    }
}

/// A lexer: the text, and the token that was read last.
pub struct Lexer {
    chars: Vec<char>,
    start: usize,
    end: usize,
    start_byte: usize,
    end_byte: usize,
}

impl Lexer {
    pub closed spec fn text(self) -> Seq<char> {
        self.chars@
    }

    /// The character index of the token that was read last.
    pub closed spec fn start_index(self) -> int {
        self.start as int
    }

    /// The character index after the token that was read last.
    pub closed spec fn end_index(self) -> int {
        self.end as int
    }

    pub closed spec fn wf(self) -> bool {
        &&& self.start <= self.end <= self.chars@.len()
        &&& self.start_byte == text::byte_len(self.chars@.take(self.start as int))
        &&& self.end_byte == text::byte_len(self.chars@.take(self.end as int))
        &&& text::byte_len(self.chars@) <= usize::MAX
    }

    /// Reads the next token; an error stands for text that starts no token.
    pub fn next(&mut self) -> (r: Option<Result<Token, ()>>)
        requires
            old(self).wf(),
        ensures
            final(self).wf(),
            final(self).text() == old(self).text(),
            final(self).start_index() == old(self).end_index(),
            r is None <==> old(self).end_index() == old(self).text().len(),
            r is None ==> final(self).end_index() == old(self).end_index(),
            r matches Some(token) ==> {
                let (read, end) = token_at(old(self).text(), old(self).end_index());
                &&& final(self).end_index() == end
                &&& match read {
                    Some(t) => token == Ok::<Token, ()>(t),
                    None => token == Err::<Token, ()>(()),
                }
            },
    {
        self.start = self.end;
        self.start_byte = self.end_byte;
        if self.end >= self.chars.len() {
            return None;
        }
        let (token, end) = read_token(self.chars.as_slice(), self.end);
        proof {
            text::lemma_byte_len_range(self.chars@, self.end as int, end as int);
        }
        let width = byte_length(slice_subrange(self.chars.as_slice(), self.end, end));
        self.end_byte = self.end_byte + width;
        self.end = end;
        match token {
            Some(token) => Some(Ok(token)),
            None => Some(Err(())),
        }
    }

    /// The text of the token that was read last.
    pub fn slice(&self) -> (r: String)
        requires
            self.wf(),
        ensures
            r@ == self.text().subrange(self.start_index(), self.end_index()),
    {
        string_of(slice_subrange(self.chars.as_slice(), self.start, self.end))
    }

    /// The bytes of the token that was read last.
    pub fn span(&self) -> (r: TextRange)
        requires
            self.wf(),
        ensures
            tree::covers(r, self.text(), self.start_index(), self.end_index()),
    {
        TextRange::new(self.start_byte, self.end_byte)
    }
}

/// Reading from any point makes progress and stays in the text, so the tokens
/// of a text cover it from its start to its end without gap or overlap.
pub proof fn law_tokens_cover_the_text(t: Seq<char>, i: int)
    requires
        0 <= i < t.len(),
    ensures
        i < token_at(t, i).1 <= t.len(),
{
    lemma_token_at(t, i);
}

/// The line and the column of the byte `index` of `text`, both counted from 1.
pub fn get_line_col(text: &str, index: usize) -> (r: (usize, usize))
    requires
        text::byte_len(text@) < usize::MAX,
        text::at_boundary(text@, index as int),
    ensures
        r.0 == text::line_col(text@, index as int).0,
        r.1 == text::line_col(text@, index as int).1,
{
    let chars = chars_of(text);
    proof {
        text::lemma_byte_len_at_least(text@);
    }
    let k = char_index(chars.as_slice(), index);
    line_col_of(chars.as_slice(), k)
}

} // verus!
