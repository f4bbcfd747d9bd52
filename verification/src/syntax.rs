//! The lossless top-level syntax tree of BitBake metadata.
use crate::braces;
use crate::operator;
use crate::scanner;
use crate::text;
use crate::operator::AssignmentOperator;
use crate::scanner::FunctionKind;
use crate::text::CharClass;
use vstd::prelude::*;

verus! {

// ---------------------------------------------------------------------------
// Grammar
// ---------------------------------------------------------------------------
/// The keyword of a directive.
#[derive(Clone, Copy, Debug, Eq, PartialEq, Hash, Structural)]
pub enum DirectiveKeyword {
    Include,
    IncludeAll,
    Require,
    Inherit,
    InheritDefer,
    AddFragments,
    AddPyLib,
    AddHandler,
    AddTask,
    DelTask,
    ExportFunctions,
    Export,
    Unset,
}

/// The characters of a keyword.
pub open spec fn keyword_chars(keyword: DirectiveKeyword) -> Seq<char> {
    match keyword {
        DirectiveKeyword::Include => "include"@,
        DirectiveKeyword::IncludeAll => "include_all"@,
        DirectiveKeyword::Require => "require"@,
        DirectiveKeyword::Inherit => "inherit"@,
        DirectiveKeyword::InheritDefer => "inherit_defer"@,
        DirectiveKeyword::AddFragments => "addfragments"@,
        DirectiveKeyword::AddPyLib => "addpylib"@,
        DirectiveKeyword::AddHandler => "addhandler"@,
        DirectiveKeyword::AddTask => "addtask"@,
        DirectiveKeyword::DelTask => "deltask"@,
        DirectiveKeyword::ExportFunctions => "EXPORT_FUNCTIONS"@,
        DirectiveKeyword::Export => "export"@,
        DirectiveKeyword::Unset => "unset"@,
    }
}

impl DirectiveKeyword {
    /// The source text of the keyword.
    pub fn lexeme(self) -> (r: &'static str)
        ensures
            r@ == keyword_chars(self),
    {
        match self {
            DirectiveKeyword::Include => "include",
            DirectiveKeyword::IncludeAll => "include_all",
            DirectiveKeyword::Require => "require",
            DirectiveKeyword::Inherit => "inherit",
            DirectiveKeyword::InheritDefer => "inherit_defer",
            DirectiveKeyword::AddFragments => "addfragments",
            DirectiveKeyword::AddPyLib => "addpylib",
            DirectiveKeyword::AddHandler => "addhandler",
            DirectiveKeyword::AddTask => "addtask",
            DirectiveKeyword::DelTask => "deltask",
            DirectiveKeyword::ExportFunctions => "EXPORT_FUNCTIONS",
            DirectiveKeyword::Export => "export",
            DirectiveKeyword::Unset => "unset",
        }
    }
}

/// Distinct keywords are spelled differently.
pub proof fn lemma_keywords_distinct(a: DirectiveKeyword, b: DirectiveKeyword)
    requires
        keyword_chars(a) == keyword_chars(b),
    ensures
        a == b,
{
    reveal_strlit("include");
    reveal_strlit("include_all");
    reveal_strlit("require");
    reveal_strlit("inherit");
    reveal_strlit("inherit_defer");
    reveal_strlit("addfragments");
    reveal_strlit("addpylib");
    reveal_strlit("addhandler");
    reveal_strlit("addtask");
    reveal_strlit("deltask");
    reveal_strlit("EXPORT_FUNCTIONS");
    reveal_strlit("export");
    reveal_strlit("unset");
    assert("include"@.len() == 7 && "include"@[0] == 'i' && "include"@[2] == 'c' && "include"@[3] == 'l');
    assert("include_all"@.len() == 11 && "include_all"@[0] == 'i' && "include_all"@[2] == 'c' && "include_all"@[3] == 'l');
    assert("require"@.len() == 7 && "require"@[0] == 'r' && "require"@[2] == 'q' && "require"@[3] == 'u');
    assert("inherit"@.len() == 7 && "inherit"@[0] == 'i' && "inherit"@[2] == 'h' && "inherit"@[3] == 'e');
    assert("inherit_defer"@.len() == 13 && "inherit_defer"@[0] == 'i' && "inherit_defer"@[2] == 'h' && "inherit_defer"@[3] == 'e');
    assert("addfragments"@.len() == 12 && "addfragments"@[0] == 'a' && "addfragments"@[2] == 'd' && "addfragments"@[3] == 'f');
    assert("addpylib"@.len() == 8 && "addpylib"@[0] == 'a' && "addpylib"@[2] == 'd' && "addpylib"@[3] == 'p');
    assert("addhandler"@.len() == 10 && "addhandler"@[0] == 'a' && "addhandler"@[2] == 'd' && "addhandler"@[3] == 'h');
    assert("addtask"@.len() == 7 && "addtask"@[0] == 'a' && "addtask"@[2] == 'd' && "addtask"@[3] == 't');
    assert("deltask"@.len() == 7 && "deltask"@[0] == 'd' && "deltask"@[2] == 'l' && "deltask"@[3] == 't');
    assert("EXPORT_FUNCTIONS"@.len() == 16 && "EXPORT_FUNCTIONS"@[0] == 'E' && "EXPORT_FUNCTIONS"@[2] == 'P' && "EXPORT_FUNCTIONS"@[3] == 'O');
    assert("export"@.len() == 6 && "export"@[0] == 'e' && "export"@[2] == 'p' && "export"@[3] == 'o');
    assert("unset"@.len() == 5 && "unset"@[0] == 'u' && "unset"@[2] == 's' && "unset"@[3] == 'e');
}

/// The parts of an assignment, as character indices into the text of its node.
pub struct AssignmentParts {
    /// The name is `text[name..name_end]`.
    pub name: int,
    pub name_end: int,
    pub operator: AssignmentOperator,
    pub operator_at: int,
    /// The value runs from the end of the operator to this index.
    pub value_end: int,
    pub exported: bool,
    pub continued: bool,
}

/// The parts of a directive, as character indices into the text of its node.
pub struct DirectiveParts {
    pub keyword: DirectiveKeyword,
    pub arguments: int,
    pub arguments_end: int,
    pub continued: bool,
}

/// The parts of a function, as character indices into the text of its node.
pub struct FunctionParts {
    pub kind: FunctionKind,
    pub name: Option<(int, int)>,
    pub body: int,
    pub body_end: int,
    pub fakeroot: bool,
}

/// The parts of a Python definition, as character indices into the text of its node.
pub struct PythonParts {
    pub name_end: int,
    pub body: int,
    pub body_end: int,
}

/// What a top-level node is.
pub enum NodeKind {
    Blank,
    Comment,
    Assignment(AssignmentParts),
    Directive(DirectiveParts),
    Function(FunctionParts),
    PythonDefinition(PythonParts),
    Unknown,
}

/// Why a text has no syntax tree.
pub enum ParseFault {
    OpenBody,
    OpenContinuation,
    OpenQuote,
}

/// The first line of `t`.
pub open spec fn first_line(t: Seq<char>) -> Seq<char> {
    t.take(text::line_end(t, 0))
}

/// The parts of the statement `text` if its first line has an operator after a
/// variable name.
#[verifier::opaque]
pub open spec fn assignment_parts(text: Seq<char>, continued: bool) -> Option<AssignmentParts> {
    let content = text::line_content(first_line(text));
    match scanner::operator_from(content, 0, None, false) {
        Some((i, operator)) => {
            let left = text::trimmed_end(content.take(i), CharClass::Whitespace);
            if scanner::assignment_left(left) {
                Some(
                    AssignmentParts {
                        name: scanner::name_start(left),
                        name_end: left.len() as int,
                        operator,
                        operator_at: i,
                        value_end: text::content_len(text),
                        exported: scanner::is_exported(left),
                        continued,
                    },
                )
            } else {
                None
            }
        },
        None => None,
    }
}

/// The index after the operator of an assignment.
pub open spec fn value_start(a: AssignmentParts) -> int {
    a.operator_at + operator::operator_chars(a.operator).len()
}

/// The value of an assignment: all that follows its operator.
pub open spec fn value_of(text: Seq<char>, a: AssignmentParts) -> Seq<char> {
    text.subrange(value_start(a), a.value_end)
}

/// The parts of the statement `text` if its first word is a keyword.
pub open spec fn directive_parts(text: Seq<char>, continued: bool) -> Option<DirectiveParts> {
    let content = text::line_content(text);
    let word = text::until_from(content, CharClass::Whitespace, 0);
    if exists|k: DirectiveKeyword| #[trigger] keyword_chars(k) == content.take(word) {
        Some(
            DirectiveParts {
                keyword: choose|k: DirectiveKeyword| #[trigger]
                    keyword_chars(k) == content.take(word),
                arguments: text::lead_from(content, CharClass::Whitespace, word),
                arguments_end: content.len() as int,
                continued,
            },
        )
    } else {
        None
    }
}

/// What the statement `text` is, apart from functions and definitions.
#[verifier::opaque]
pub open spec fn statement_kind(text: Seq<char>, continued: bool) -> Result<NodeKind, ParseFault> {
    let line = first_line(text);
    let content = text::line_content(line);
    let indent = text::lead_from(content, CharClass::Indent, 0);
    if text::blank_line(line) {
        Ok(NodeKind::Blank)
    } else if operator::at(content, indent, '#') {
        Ok(NodeKind::Comment)
    } else if text::is_ws(content[0]) {
        Ok(NodeKind::Unknown)
    } else {
        match assignment_parts(text, continued) {
            Some(a) => if scanner::balanced_from(value_of(text, a), 0, None, false) {
                Ok(NodeKind::Assignment(a))
            } else {
                Err(ParseFault::OpenQuote)
            },
            None => match directive_parts(text, continued) {
                Some(d) => Ok(NodeKind::Directive(d)),
                None => Ok(NodeKind::Unknown),
            },
        }
    }
}

/// Whether one of `words` is `word`.
pub open spec fn has_word(words: Seq<Seq<char>>, word: Seq<char>) -> bool {
    exists|k: int| 0 <= k < words.len() && #[trigger] words[k] == word
}

/// The index from `i` on of the first of `words` that is no function modifier,
/// or their number.
pub open spec fn first_name(words: Seq<Seq<char>>, i: int) -> int
    decreases words.len() - i,
{
    if i < 0 || i >= words.len() {
        words.len() as int
    } else if words[i] == scanner::python_word() || words[i] == scanner::fakeroot_word() {
        first_name(words, i + 1)
    } else {
        i
    }
}

/// The words of the declaration of a function.
pub open spec fn declared_words(line: Seq<char>) -> Seq<Seq<char>> {
    text::word_texts(scanner::declaration(line), CharClass::Ascii)
}

/// The range of the name in the line that opens a function body: the last
/// place before the parenthesis that spells its first word but for modifiers.
pub open spec fn function_name_range(line: Seq<char>) -> Option<(int, int)> {
    let words = declared_words(line);
    let k = first_name(words, 0);
    if k < words.len() {
        let start = text::rfind_seq(line.take(scanner::head_paren(line)), words[k], scanner::head_paren(line));
        Some((start, start + words[k].len()))
    } else {
        None
    }
}

/// The parts of the function whose body `line` opens and `close` ends.
pub open spec fn function_parts(line: Seq<char>, kind: FunctionKind, close: int) -> FunctionParts {
    FunctionParts {
        kind,
        name: function_name_range(line),
        body: scanner::head_brace(line) + 1,
        body_end: close,
        fakeroot: has_word(declared_words(line), scanner::fakeroot_word()),
    }
}

/// The end of the name in the line that starts a Python definition.
pub open spec fn definition_name_end(line: Seq<char>) -> int {
    let content = text::line_content(line);
    let paren = text::find_from(content, '(', 4);
    let end = if paren < content.len() {
        paren
    } else {
        text::find_from(content, ':', 4)
    };
    let trimmed = text::tail_from(content, CharClass::Whitespace, end);
    if trimmed < 4 {
        4
    } else {
        trimmed
    }
}

/// The length and the kind of the node at the start of `t`.
#[verifier::opaque]
pub open spec fn next_node(t: Seq<char>) -> Result<(int, NodeKind), ParseFault> {
    let line = first_line(t);
    let after = text::line_end(t, 0);
    match scanner::function_head(line) {
        Some(kind) => match braces::closing_brace(t, scanner::head_brace(line), kind) {
            Some(close) => Ok(
                (text::line_end(t, close), NodeKind::Function(function_parts(line, kind, close))),
            ),
            None => Err(ParseFault::OpenBody),
        },
        None => if scanner::python_def_start(line) {
            let end = scanner::python_def_end(t, after);
            Ok(
                (
                    end,
                    NodeKind::PythonDefinition(
                        PythonParts {
                            name_end: definition_name_end(line),
                            body: after,
                            body_end: end,
                        },
                    ),
                ),
            )
        } else if scanner::continued_line(line) {
            match scanner::continuation_end(t, 0) {
                Some(end) => match statement_kind(t.take(end), true) {
                    Ok(kind) => Ok((end, kind)),
                    Err(fault) => Err(fault),
                },
                None => Err(ParseFault::OpenContinuation),
            }
        } else {
            match statement_kind(line, false) {
                Ok(kind) => Ok((after, kind)),
                Err(fault) => Err(fault),
            }
        },
    }
}

/// A node of the tree of a text, by character indices.
pub struct NodeView {
    pub start: int,
    pub end: int,
    pub kind: NodeKind,
}

/// The nodes of `source` from index `i` on, or the start of the first node that
/// cannot be read and what is wrong with it.
pub open spec fn nodes_from(source: Seq<char>, i: int) -> Result<
    Seq<NodeView>,
    (int, ParseFault),
>
    decreases source.len() - i,
{
    if i < 0 || i >= source.len() {
        Ok(Seq::empty())
    } else {
        match next_node(source.skip(i)) {
            Ok((len, kind)) => if 0 < len <= source.len() - i {
                match nodes_from(source, i + len) {
                    Ok(rest) => Ok(seq![NodeView { start: i, end: i + len, kind }] + rest),
                    Err(fault) => Err(fault),
                }
            } else {
                Ok(Seq::empty())
            },
            Err(fault) => Err((i, fault)),
        }
    }
}

/// The nodes of `source`.
pub open spec fn nodes_of(source: Seq<char>) -> Result<Seq<NodeView>, (int, ParseFault)> {
    nodes_from(source, 0)
}

/// A node is never empty and never reaches past the text.
pub proof fn lemma_next_node(t: Seq<char>)
    requires
        t.len() > 0,
    ensures
        next_node(t) matches Ok((len, _)) ==> 0 < len <= t.len() && text::line_end(t, 0) <= len && (len
            == t.len() || t[len - 1] == '\n'),
{
    reveal(next_node);
    let line = first_line(t);
    let after = text::line_end(t, 0);
    text::lemma_line_end(t, 0);
    match scanner::function_head(line) {
        Some(kind) => {
            let brace = scanner::head_brace(line);
            lemma_function_head(line);
            braces::lemma_brace_from(t, brace, kind, braces::brace_start());
            if braces::closing_brace(t, brace, kind) is Some {
                let close = braces::closing_brace(t, brace, kind)->0;
                text::lemma_line_end(t, close);
                lemma_line_end_monotonic(t, 0, close);
            }
        },
        None => {
            if scanner::python_def_start(line) {
                lemma_python_def_end(t, after);
            } else if scanner::continued_line(line) {
                lemma_continuation_end(t, 0);
            }
        },
    }
}

/// The indices of a function header lie in the content of its line.
pub proof fn lemma_function_head(line: Seq<char>)
    requires
        scanner::function_head(line) is Some,
    ensures
        0 <= scanner::head_paren(line) < scanner::head_close(line) < scanner::head_brace(line) < text::content_len(line),
{
    reveal(scanner::function_head);
    lemma_code_end(text::line_content(line));
    text::lemma_tail(line, CharClass::Whitespace, scanner::code_end(text::line_content(line)));
    text::lemma_tail(line, CharClass::Whitespace, scanner::head_brace(line));
    text::lemma_rfind(line, '(', scanner::head_close(line));
}

pub proof fn lemma_code_end(t: Seq<char>)
    ensures
        0 <= scanner::code_end(t) <= t.len(),
{
    lemma_comment_from(t, 0, None, false);
}

pub proof fn lemma_comment_from(t: Seq<char>, i: int, quote: Option<char>, escaped: bool)
    requires
        0 <= i <= t.len(),
    ensures
        i <= scanner::comment_from(t, i, quote, escaped) <= t.len(),
    decreases t.len() - i,
{
    if i < t.len() {
        lemma_comment_from(t, i + 1, quote, false);
        lemma_comment_from(t, i + 1, quote, true);
        lemma_comment_from(t, i + 1, None, false);
        lemma_comment_from(t, i + 1, Some(t[i]), false);
    }
}

pub proof fn lemma_line_end_monotonic(t: Seq<char>, i: int, j: int)
    requires
        0 <= i <= j <= t.len(),
    ensures
        text::line_end(t, i) <= text::line_end(t, j),
    decreases j - i,
{
    text::lemma_line_end(t, i);
    text::lemma_line_end(t, j);
    if text::line_end(t, i) > text::line_end(t, j) {
        if j < t.len() {
            assert(t[text::line_end(t, j) - 1] != '\n');
        }
    }
}

/// The body of a definition ends at the end of a line, or where it starts.
pub proof fn lemma_python_def_end(t: Seq<char>, offset: int)
    requires
        0 <= offset <= t.len(),
        offset == t.len() || offset == 0 || t[offset - 1] == '\n',
    ensures
        offset <= scanner::python_def_end(t, offset) <= t.len(),
        scanner::python_def_end(t, offset) < t.len() ==> !text::is_ws(t[scanner::python_def_end(t, offset)]),
        scanner::python_def_end(t, offset) == t.len() || scanner::python_def_end(t, offset) == 0 || t[scanner::python_def_end(
            t,
            offset,
        ) - 1] == '\n',
    decreases t.len() - offset,
{
    text::lemma_line_end(t, offset);
    if offset < t.len() && text::is_ws(t[offset]) {
        lemma_python_def_end(t, text::line_end(t, offset));
    }
}

pub proof fn lemma_continuation_end(t: Seq<char>, offset: int)
    requires
        0 <= offset <= t.len(),
    ensures
        scanner::continuation_end(t, offset) matches Some(e) ==> text::line_end(t, offset) <= e <= t.len() && (e
            == t.len() || (e > 0 && t[e - 1] == '\n')),
    decreases t.len() - offset,
{
    text::lemma_line_end(t, offset);
    let e = text::line_end(t, offset);
    if scanner::continued_line(t.subrange(offset, e)) && e < t.len() {
        lemma_continuation_end(t, e);
        text::lemma_line_end(t, e);
    }
}

/// The nodes from `i` on cover the text from `i` to its end without gap or overlap.
pub open spec fn contiguous(nodes: Seq<NodeView>, i: int, end: int) -> bool {
    &&& nodes.len() == 0 ==> i == end
    &&& nodes.len() > 0 ==> nodes[0].start == i && nodes[nodes.len() - 1].end == end
    &&& forall|k: int| 0 <= k < nodes.len() ==> (#[trigger] nodes[k]).start < nodes[k].end
    &&& forall|k: int|
        #![trigger nodes[k]]
        0 <= k < nodes.len() - 1 ==> nodes[k].end == nodes[k + 1].start
}

pub proof fn lemma_nodes_contiguous(source: Seq<char>, i: int)
    requires
        0 <= i <= source.len(),
    ensures
        nodes_from(source, i) matches Ok(nodes) ==> contiguous(nodes, i, source.len() as int),
    decreases source.len() - i,
{
    if i < source.len() {
        lemma_next_node(source.skip(i));
        if let Ok((len, kind)) = next_node(source.skip(i)) {
            lemma_nodes_contiguous(source, i + len);
            if let Ok(rest) = nodes_from(source, i + len) {
                let nodes = seq![NodeView { start: i, end: i + len, kind }] + rest;
                assert forall|k: int|
                    #![trigger nodes[k]]
                    0 <= k < nodes.len() implies nodes[k].start < nodes[k].end && (k < nodes.len()
                    - 1 ==> nodes[k].end == nodes[k + 1].start) by {
                    if k > 0 {
                        assert(nodes[k] == rest[k - 1]);
                        if k < nodes.len() - 1 {
                            assert(nodes[k + 1] == rest[k]);
                        }
                    } else if nodes.len() > 1 {
                        assert(nodes[1] == rest[0]);
                    }
                }
            }
        }
    }
}

/// The texts of nodes, one after the other.
pub open spec fn joined_text(source: Seq<char>, nodes: Seq<NodeView>) -> Seq<char>
    decreases nodes.len(),
{
    if nodes.len() == 0 {
        Seq::empty()
    } else {
        joined_text(source, nodes.drop_last()) + source.subrange(
            nodes.last().start,
            nodes.last().end,
        )
    }
}

proof fn lemma_joined_text(source: Seq<char>, nodes: Seq<NodeView>, i: int, end: int)
    requires
        0 <= i <= end <= source.len(),
        contiguous(nodes, i, end),
    ensures
        joined_text(source, nodes) == source.subrange(i, end),
    decreases nodes.len(),
{
    if nodes.len() == 0 {
        assert(source.subrange(i, end) =~= Seq::empty());
    } else {
        let last = nodes.last();
        let rest = nodes.drop_last();
        lemma_contiguous_bounds(nodes, i, end, nodes.len() - 1);
        assert(contiguous(rest, i, last.start)) by {
            if rest.len() > 0 {
                assert(rest[rest.len() - 1] == nodes[nodes.len() - 2]);
            }
        }
        lemma_joined_text(source, rest, i, last.start);
        assert(source.subrange(i, last.start) + source.subrange(last.start, end)
            =~= source.subrange(i, end));
    }
}

/// Contiguous nodes lie between their outer bounds.
pub proof fn lemma_contiguous_bounds(nodes: Seq<NodeView>, i: int, end: int, k: int)
    requires
        contiguous(nodes, i, end),
        0 <= k < nodes.len(),
    ensures
        i <= nodes[k].start < nodes[k].end <= end,
    decreases nodes.len(),
{
    lemma_contiguous_low(nodes, i, end, k);
    lemma_contiguous_high(nodes, i, end, k);
}

proof fn lemma_contiguous_low(nodes: Seq<NodeView>, i: int, end: int, k: int)
    requires
        contiguous(nodes, i, end),
        0 <= k < nodes.len(),
    ensures
        i <= nodes[k].start < nodes[k].end,
    decreases k,
{
    if k > 0 {
        lemma_contiguous_low(nodes, i, end, k - 1);
        assert(nodes[k - 1].end == nodes[k].start);
    }
}

proof fn lemma_contiguous_high(nodes: Seq<NodeView>, i: int, end: int, k: int)
    requires
        contiguous(nodes, i, end),
        0 <= k < nodes.len(),
    ensures
        nodes[k].start < nodes[k].end <= end,
    decreases nodes.len() - k,
{
    if k < nodes.len() - 1 {
        lemma_contiguous_high(nodes, i, end, k + 1);
        assert(nodes[k].end == nodes[k + 1].start);
    }
}

/// Contiguous nodes are at most as many as the characters that they cover.
pub proof fn lemma_contiguous_count(nodes: Seq<NodeView>, i: int, end: int)
    requires
        contiguous(nodes, i, end),
        i <= end,
    ensures
        nodes.len() <= end - i,
    decreases nodes.len(),
{
    if nodes.len() > 0 {
        let last = nodes.last();
        let rest = nodes.drop_last();
        lemma_contiguous_bounds(nodes, i, end, nodes.len() - 1);
        assert(contiguous(rest, i, last.start)) by {
            if rest.len() > 0 {
                assert(rest[rest.len() - 1] == nodes[nodes.len() - 2]);
            }
        }
        lemma_contiguous_count(rest, i, last.start);
    }
}

/// The tree of a text is lossless: its nodes follow each other from the start
/// of the text to its end, none is empty, and their texts joined are the text.
pub proof fn law_tree_is_lossless(source: Seq<char>)
    requires
        nodes_of(source) is Ok,
    ensures
        contiguous(nodes_of(source)->Ok_0, 0, source.len() as int),
        joined_text(source, nodes_of(source)->Ok_0) == source,
{
    lemma_nodes_contiguous(source, 0);
    lemma_joined_text(source, nodes_of(source)->Ok_0, 0, source.len() as int);
    assert(source.subrange(0, source.len() as int) =~= source);
}

} // verus!
