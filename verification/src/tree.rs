//! Syntax trees as values, and the parser that builds them.
use crate::numbers;
use crate::scanner;
use crate::syntax;
use crate::text;
use crate::braces::find_brace_block_end;
use crate::numbers::decimal_chars;
use crate::operator::AssignmentOperator;
use crate::operator::is_at;
use crate::scanner::FunctionHead;
use crate::scanner::FunctionKind;
use crate::scanner::export_prefix;
use crate::scanner::find_assignment_operator;
use crate::scanner::find_continuation_end;
use crate::scanner::find_python_def_end;
use crate::scanner::function_opening_brace;
use crate::scanner::has_balanced_quotes;
use crate::scanner::has_line_continuation;
use crate::scanner::is_assignment_left_hand_side;
use crate::scanner::is_python_def_start;
use crate::syntax::AssignmentParts;
use crate::syntax::DirectiveKeyword;
use crate::syntax::DirectiveParts;
use crate::syntax::FunctionParts;
use crate::syntax::NodeKind;
use crate::syntax::NodeView;
use crate::syntax::ParseFault;
use crate::syntax::PythonParts;
use crate::text::CharClass;
use crate::text::append_chars;
use crate::text::byte_length;
use crate::text::chars_of;
use crate::text::content_length;
use crate::text::count_newlines;
use crate::text::eq_str;
use crate::text::find_char;
use crate::text::is_blank_line;
use crate::text::is_whitespace;
use crate::text::lead_index;
use crate::text::next_line_end;
use crate::text::rfind_str;
use crate::text::split_line_ending;
use crate::text::split_words;
use crate::text::string_of;
use crate::text::tail_index;
use crate::text::trim;
use crate::text::trim_end;
use crate::text::until_index;
use vstd::prelude::*;
use vstd::slice::slice_subrange;

verus! {

/// A half-open byte range in the original source text.
#[derive(Clone, Copy, Debug, Eq, PartialEq, Hash, Structural)]
pub struct TextRange {
    start: usize,
    end: usize,
}

impl TextRange {
    pub closed spec fn from(self) -> int {
        self.start as int
    }

    pub closed spec fn to(self) -> int {
        self.end as int
    }

    /// The range from `start` to `end`.
    pub fn new(start: usize, end: usize) -> (r: TextRange)
        ensures
            r.from() == start,
            r.to() == end,
    {
        TextRange { start, end }
    }

    /// The first byte of the range.
    pub fn start(self) -> (r: usize)
        ensures
            r == self.from(),
    {
        self.start
    }

    /// The byte after the range.
    pub fn end(self) -> (r: usize)
        ensures
            r == self.to(),
    {
        self.end
    }

    /// The number of bytes of the range.
    pub fn len(self) -> (r: usize)
        requires
            self.from() <= self.to(),
        ensures
            r == self.to() - self.from(),
    {
        self.end - self.start
    }

    /// Whether the range holds no byte.
    pub fn is_empty(self) -> (r: bool)
        ensures
            r == (self.from() == self.to()),
    {
        self.start == self.end
    }
}

impl Default for TextRange {
    fn default() -> (r: TextRange)
        ensures
            r.from() == 0,
            r.to() == 0,
    {
        TextRange { start: 0, end: 0 }
    }
}

/// The byte offset of the character index `k` of `source`.
pub open spec fn offset_of(source: Seq<char>, k: int) -> int {
    text::byte_len(source.take(k)) as int
}

/// Whether `range` covers the characters `a..b` of `source`.
pub open spec fn covers(range: TextRange, source: Seq<char>, a: int, b: int) -> bool {
    range.from() == offset_of(source, a) && range.to() == offset_of(source, b)
}

/// An error encountered while building a structurally complete syntax tree.
#[derive(Debug, Clone, PartialEq, Eq)]
pub struct FormatError {
    line: usize,
    message: String,
}

/// The same error, by the name that parsing clients use.
pub type SyntaxError = FormatError;

/// The message of a fault.
pub open spec fn fault_message(fault: ParseFault) -> Seq<char> {
    match fault {
        ParseFault::OpenBody => "function body has no closing brace"@,
        ParseFault::OpenContinuation => "statement ends with an unterminated continuation"@,
        ParseFault::OpenQuote => "top-level assignment contains an unclosed quote"@,
    }
}

impl FormatError {
    pub closed spec fn line_number(self) -> int {
        self.line as int
    }

    pub closed spec fn text(self) -> Seq<char> {
        self.message@
    }

    /// Whether this is the error for the fault of the node that starts at `i`.
    pub open spec fn reports(self, source: Seq<char>, i: int, fault: ParseFault) -> bool {
        &&& self.line_number() == text::newline_count(source.take(i)) + 1
        &&& self.text() == fault_message(fault)
    }

    fn new(line: usize, message: &str) -> (r: FormatError)
        ensures
            r.line_number() == line,
            r.text() == message@,
    {
        FormatError { line, message: message.to_owned() }
    }

    /// The line on which the incomplete structure starts.
    pub fn line(&self) -> (r: usize)
        ensures
            r == self.line_number(),
    {
        self.line
    }

    /// What is wrong.
    pub fn message(&self) -> (r: &str)
        ensures
            r@ == self.text(),
    {
        self.message.as_str()
    }

    /// The error in words.
    pub fn to_string(&self) -> (r: String)
        ensures
            r@ == "line "@ + numbers::decimal(self.line_number() as nat) + ": "@ + self.text(),
    {
        let mut out = chars_of("line ");
        append_chars(&mut out, decimal_chars(self.line as u64).as_slice());
        append_chars(&mut out, chars_of(": ").as_slice());
        append_chars(&mut out, chars_of(self.message.as_str()).as_slice());
        string_of(out.as_slice())
    }
}

/// Structured information retained for a top-level assignment.
#[derive(Clone, Debug, Eq, PartialEq)]
pub struct AssignmentSyntax {
    name: String,
    name_range: TextRange,
    operator: AssignmentOperator,
    operator_range: TextRange,
    operator_at: usize,
    value: String,
    value_range: TextRange,
    exported: bool,
    continued: bool,
}

impl AssignmentSyntax {
    /// Whether this holds the parts `a` of the node of `source` that starts at `start`.
    pub closed spec fn holds(self, source: Seq<char>, start: int, a: AssignmentParts) -> bool {
        &&& self.name@ == source.subrange(start + a.name, start + a.name_end)
        &&& covers(self.name_range, source, start + a.name, start + a.name_end)
        &&& self.operator == a.operator
        &&& self.operator_at == a.operator_at
        &&& covers(self.operator_range, source, start + a.operator_at, start + syntax::value_start(a))
        &&& self.value@ == source.subrange(start + syntax::value_start(a), start + a.value_end)
        &&& covers(self.value_range, source, start + syntax::value_start(a), start + a.value_end)
        &&& self.exported == a.exported
        &&& self.continued == a.continued
        &&& 0 <= start + a.name <= start + a.name_end <= source.len()
        &&& 0 <= start + a.operator_at <= start + syntax::value_start(a) <= start + a.value_end
            <= source.len()
    }

    pub closed spec fn name_text(self) -> Seq<char> {
        self.name@
    }

    pub closed spec fn value_text(self) -> Seq<char> {
        self.value@
    }

    pub closed spec fn spec_name_range(self) -> TextRange {
        self.name_range
    }

    pub closed spec fn spec_operator(self) -> AssignmentOperator {
        self.operator
    }

    pub closed spec fn spec_operator_range(self) -> TextRange {
        self.operator_range
    }

    pub closed spec fn spec_operator_at(self) -> int {
        self.operator_at as int
    }

    pub closed spec fn spec_value_range(self) -> TextRange {
        self.value_range
    }

    pub closed spec fn spec_exported(self) -> bool {
        self.exported
    }

    pub closed spec fn spec_continued(self) -> bool {
        self.continued
    }

    /// The parts that an assignment holds, by its accessors.
    pub proof fn lemma_holds(self, source: Seq<char>, start: int, a: AssignmentParts)
        requires
            self.holds(source, start, a),
        ensures
            self.name_text() == source.subrange(start + a.name, start + a.name_end),
            covers(self.spec_name_range(), source, start + a.name, start + a.name_end),
            self.spec_operator() == a.operator,
            self.spec_operator_at() == a.operator_at,
            covers(
                self.spec_operator_range(),
                source,
                start + a.operator_at,
                start + syntax::value_start(a),
            ),
            self.value_text() == source.subrange(start + syntax::value_start(a), start + a.value_end),
            covers(self.spec_value_range(), source, start + syntax::value_start(a), start + a.value_end),
            self.spec_exported() == a.exported,
            self.spec_continued() == a.continued,
            0 <= start + a.name <= start + a.name_end <= source.len(),
            0 <= start + a.operator_at <= start + syntax::value_start(a) <= start + a.value_end
                <= source.len(),
    {
    }

    /// The variable name, with its overrides and flag.
    pub fn name(&self) -> (r: &str)
        ensures
            r@ == self.name_text(),
    {
        self.name.as_str()
    }

    /// The bytes of the name.
    pub fn name_range(&self) -> (r: TextRange)
        ensures
            r == self.spec_name_range(),
    {
        self.name_range
    }

    /// The operator.
    pub fn operator(&self) -> (r: AssignmentOperator)
        ensures
            r == self.spec_operator(),
    {
        self.operator
    }

    /// The bytes of the operator.
    pub fn operator_range(&self) -> (r: TextRange)
        ensures
            r == self.spec_operator_range(),
    {
        self.operator_range
    }

    /// The character index of the operator in the text of the node.
    pub fn operator_at(&self) -> (r: usize)
        ensures
            r == self.spec_operator_at(),
    {
        self.operator_at
    }

    /// All that follows the operator, without the final line ending.
    pub fn value(&self) -> (r: &str)
        ensures
            r@ == self.value_text(),
    {
        self.value.as_str()
    }

    /// The bytes of the value.
    pub fn value_range(&self) -> (r: TextRange)
        ensures
            r == self.spec_value_range(),
    {
        self.value_range
    }

    /// Whether `export` precedes the name.
    pub fn is_exported(&self) -> (r: bool)
        ensures
            r == self.spec_exported(),
    {
        self.exported
    }

    /// Whether the assignment spans several lines.
    pub fn is_continued(&self) -> (r: bool)
        ensures
            r == self.spec_continued(),
    {
        self.continued
    }
}

/// Structured information retained for a top-level directive.
#[derive(Clone, Debug, Eq, PartialEq)]
pub struct DirectiveSyntax {
    keyword: DirectiveKeyword,
    keyword_range: TextRange,
    arguments: String,
    arguments_range: TextRange,
    continued: bool,
}

impl DirectiveSyntax {
    /// Whether this holds the parts `d` of the node of `source` that starts at `start`.
    pub closed spec fn holds(self, source: Seq<char>, start: int, d: DirectiveParts) -> bool {
        &&& self.keyword == d.keyword
        &&& covers(self.keyword_range, source, start, start + syntax::keyword_chars(d.keyword).len())
        &&& self.arguments@ == source.subrange(start + d.arguments, start + d.arguments_end)
        &&& covers(self.arguments_range, source, start + d.arguments, start + d.arguments_end)
        &&& self.continued == d.continued
        &&& 0 <= start <= start + syntax::keyword_chars(d.keyword).len() <= source.len()
        &&& 0 <= start + d.arguments <= start + d.arguments_end <= source.len()
    }

    pub closed spec fn spec_keyword(self) -> DirectiveKeyword {
        self.keyword
    }

    pub closed spec fn spec_keyword_range(self) -> TextRange {
        self.keyword_range
    }

    pub closed spec fn arguments_text(self) -> Seq<char> {
        self.arguments@
    }

    pub closed spec fn spec_arguments_range(self) -> TextRange {
        self.arguments_range
    }

    pub closed spec fn spec_continued(self) -> bool {
        self.continued
    }

    /// The parts that a directive holds, by its accessors.
    pub proof fn lemma_holds(self, source: Seq<char>, start: int, d: DirectiveParts)
        requires
            self.holds(source, start, d),
        ensures
            self.spec_keyword() == d.keyword,
            covers(
                self.spec_keyword_range(),
                source,
                start,
                start + syntax::keyword_chars(d.keyword).len(),
            ),
            self.arguments_text() == source.subrange(start + d.arguments, start + d.arguments_end),
            covers(
                self.spec_arguments_range(),
                source,
                start + d.arguments,
                start + d.arguments_end,
            ),
            self.spec_continued() == d.continued,
            0 <= start <= start + syntax::keyword_chars(d.keyword).len() <= source.len(),
            0 <= start + d.arguments <= start + d.arguments_end <= source.len(),
    {
    }

    /// The keyword.
    pub fn keyword(&self) -> (r: DirectiveKeyword)
        ensures
            r == self.spec_keyword(),
    {
        self.keyword
    }

    /// The bytes of the keyword.
    pub fn keyword_range(&self) -> (r: TextRange)
        ensures
            r == self.spec_keyword_range(),
    {
        self.keyword_range
    }

    /// All that follows the keyword, from the first argument on.
    pub fn arguments(&self) -> (r: &str)
        ensures
            r@ == self.arguments_text(),
    {
        self.arguments.as_str()
    }

    /// The bytes of the arguments.
    pub fn arguments_range(&self) -> (r: TextRange)
        ensures
            r == self.spec_arguments_range(),
    {
        self.arguments_range
    }

    /// Whether the directive spans several lines.
    pub fn is_continued(&self) -> (r: bool)
        ensures
            r == self.spec_continued(),
    {
        self.continued
    }
}

/// The declaration and source range of a shell or Python function body.
#[derive(Clone, Debug, Eq, PartialEq)]
pub struct FunctionSyntax {
    kind: FunctionKind,
    name: Option<String>,
    name_range: Option<TextRange>,
    body_range: TextRange,
    fakeroot: bool,
}

impl FunctionSyntax {
    /// Whether this holds the parts `f` of the node of `source` that starts at `start`.
    pub closed spec fn holds(self, source: Seq<char>, start: int, f: FunctionParts) -> bool {
        &&& self.kind == f.kind
        &&& self.fakeroot == f.fakeroot
        &&& covers(self.body_range, source, start + f.body, start + f.body_end)
        &&& 0 <= start + f.body <= start + f.body_end <= source.len()
        &&& match f.name {
            Some((a, b)) => {
                &&& self.name is Some
                &&& 0 <= start + a <= start + b <= source.len()
                &&& self.name->0@ == source.subrange(start + a, start + b)
                &&& self.name_range is Some
                &&& covers(self.name_range->0, source, start + a, start + b)
            },
            None => self.name is None && self.name_range is None,
        }
    }

    pub closed spec fn spec_kind(self) -> FunctionKind {
        self.kind
    }

    pub closed spec fn name_text(self) -> Option<Seq<char>> {
        match self.name {
            Some(name) => Some(name@),
            None => None,
        }
    }

    pub closed spec fn spec_name_range(self) -> Option<TextRange> {
        self.name_range
    }

    pub closed spec fn spec_body_range(self) -> TextRange {
        self.body_range
    }

    pub closed spec fn spec_fakeroot(self) -> bool {
        self.fakeroot
    }

    /// The parts that a function holds, by its accessors.
    pub proof fn lemma_holds(self, source: Seq<char>, start: int, f: FunctionParts)
        requires
            self.holds(source, start, f),
        ensures
            self.spec_kind() == f.kind,
            self.spec_fakeroot() == f.fakeroot,
            covers(self.spec_body_range(), source, start + f.body, start + f.body_end),
            0 <= start + f.body <= start + f.body_end <= source.len(),
            match f.name {
                Some((a, b)) => {
                    &&& self.name_text() == Some(source.subrange(start + a, start + b))
                    &&& 0 <= start + a <= start + b <= source.len()
                    &&& self.spec_name_range() is Some
                    &&& covers(self.spec_name_range()->0, source, start + a, start + b)
                },
                None => self.name_text() is None && self.spec_name_range() is None,
            },
    {
    }

    /// The language of the body.
    pub fn function_kind(&self) -> (r: FunctionKind)
        ensures
            r == self.spec_kind(),
    {
        self.kind
    }

    /// The name, where the function has one.
    pub fn name(&self) -> (r: Option<&str>)
        ensures
            match r {
                Some(name) => self.name_text() == Some(name@),
                None => self.name_text() is None,
            },
    {
        match &self.name {
            Some(name) => Some(name.as_str()),
            None => None,
        }
    }

    /// The bytes of the name.
    pub fn name_range(&self) -> (r: Option<TextRange>)
        ensures
            r == self.spec_name_range(),
    {
        self.name_range
    }

    /// The bytes of the body between the opening and the closing brace.
    pub fn body_range(&self) -> (r: TextRange)
        ensures
            r == self.spec_body_range(),
    {
        self.body_range
    }

    /// Whether the function runs under `fakeroot`.
    pub fn is_fakeroot(&self) -> (r: bool)
        ensures
            r == self.spec_fakeroot(),
    {
        self.fakeroot
    }
}

/// The declaration and source range of an indented top-level Python `def` body.
#[derive(Clone, Debug, Eq, PartialEq)]
pub struct PythonDefinitionSyntax {
    name: String,
    name_range: TextRange,
    body_range: TextRange,
}

impl PythonDefinitionSyntax {
    /// Whether this holds the parts `p` of the node of `source` that starts at `start`.
    pub closed spec fn holds(self, source: Seq<char>, start: int, p: PythonParts) -> bool {
        &&& self.name@ == source.subrange(start + 4, start + p.name_end)
        &&& covers(self.name_range, source, start + 4, start + p.name_end)
        &&& covers(self.body_range, source, start + p.body, start + p.body_end)
        &&& 0 <= start + p.body <= start + p.body_end <= source.len()
    }

    pub closed spec fn name_text(self) -> Seq<char> {
        self.name@
    }

    pub closed spec fn spec_name_range(self) -> TextRange {
        self.name_range
    }

    pub closed spec fn spec_body_range(self) -> TextRange {
        self.body_range
    }

    /// The parts that a definition holds, by its accessors.
    pub proof fn lemma_holds(self, source: Seq<char>, start: int, p: PythonParts)
        requires
            self.holds(source, start, p),
        ensures
            self.name_text() == source.subrange(start + 4, start + p.name_end),
            covers(self.spec_name_range(), source, start + 4, start + p.name_end),
            covers(self.spec_body_range(), source, start + p.body, start + p.body_end),
            0 <= start + p.body <= start + p.body_end <= source.len(),
    {
    }

    /// The name of the definition.
    pub fn name(&self) -> (r: &str)
        ensures
            r@ == self.name_text(),
    {
        self.name.as_str()
    }

    /// The bytes of the name.
    pub fn name_range(&self) -> (r: TextRange)
        ensures
            r == self.spec_name_range(),
    {
        self.name_range
    }

    /// The bytes of the indented body.
    pub fn body_range(&self) -> (r: TextRange)
        ensures
            r == self.spec_body_range(),
    {
        self.body_range
    }
}

/// The recognized kind of a top-level syntax node.
#[derive(Clone, Debug, Eq, PartialEq)]
pub enum SyntaxKind {
    Blank,
    Comment,
    Assignment(AssignmentSyntax),
    Directive(DirectiveSyntax),
    Function(FunctionSyntax),
    PythonDefinition(PythonDefinitionSyntax),
    Unknown,
}

/// Whether `kind` holds what `view` says of the node of `source` that starts at `start`.
pub open spec fn kind_holds(
    kind: SyntaxKind,
    source: Seq<char>,
    start: int,
    view: NodeKind,
) -> bool {
    match view {
        NodeKind::Blank => kind is Blank,
        NodeKind::Comment => kind is Comment,
        NodeKind::Assignment(a) => kind is Assignment && kind->Assignment_0.holds(source, start, a),
        NodeKind::Directive(d) => kind is Directive && kind->Directive_0.holds(source, start, d),
        NodeKind::Function(f) => kind is Function && kind->Function_0.holds(source, start, f),
        NodeKind::PythonDefinition(p) => kind is PythonDefinition
            && kind->PythonDefinition_0.holds(source, start, p),
        NodeKind::Unknown => kind is Unknown,
    }
}

/// A source-preserving top-level syntax node.
#[derive(Clone, Debug, Eq, PartialEq)]
pub struct SyntaxNode {
    kind: SyntaxKind,
    range: TextRange,
    text: String,
}

impl SyntaxNode {
    /// Whether this is the node `view` of `source`.
    pub closed spec fn holds(self, source: Seq<char>, view: NodeView) -> bool {
        &&& kind_holds(self.kind, source, view.start, view.kind)
        &&& covers(self.range, source, view.start, view.end)
        &&& self.text@ == source.subrange(view.start, view.end)
    }

    pub closed spec fn spec_kind(self) -> SyntaxKind {
        self.kind
    }

    pub closed spec fn spec_range(self) -> TextRange {
        self.range
    }

    pub closed spec fn spec_text(self) -> Seq<char> {
        self.text@
    }

    /// What a node holds, by its accessors.
    pub proof fn lemma_holds(self, source: Seq<char>, view: NodeView)
        requires
            self.holds(source, view),
        ensures
            kind_holds(self.spec_kind(), source, view.start, view.kind),
            covers(self.spec_range(), source, view.start, view.end),
            self.spec_text() == source.subrange(view.start, view.end),
    {
    }

    /// The kind of the node and its parts.
    pub fn kind(&self) -> (r: &SyntaxKind)
        ensures
            *r == self.spec_kind(),
    {
        &self.kind
    }

    /// The bytes of the node.
    pub fn range(&self) -> (r: TextRange)
        ensures
            r == self.spec_range(),
    {
        self.range
    }

    /// The source text of the node.
    pub fn text(&self) -> (r: &str)
        ensures
            r@ == self.spec_text(),
    {
        self.text.as_str()
    }
}

/// A lossless, top-level concrete syntax tree for BitBake metadata.
#[derive(Clone, Debug, Eq, PartialEq)]
pub struct SyntaxTree {
    source: String,
    nodes: Vec<SyntaxNode>,
}

/// Whether `nodes` are the nodes `views` of `source`.
pub open spec fn nodes_hold(
    nodes: Seq<SyntaxNode>,
    source: Seq<char>,
    views: Seq<NodeView>,
) -> bool {
    &&& nodes.len() == views.len()
    &&& forall|k: int| 0 <= k < nodes.len() ==> (#[trigger] nodes[k]).holds(source, views[k])
}

impl SyntaxTree {
    pub closed spec fn text(self) -> Seq<char> {
        self.source@
    }

    pub closed spec fn spec_nodes(self) -> Seq<SyntaxNode> {
        self.nodes@
    }

    /// The nodes of the source text, by character indices.
    pub open spec fn views(self) -> Seq<NodeView> {
        syntax::nodes_of(self.text())->Ok_0
    }

    /// The tree is the one of its source text.
    pub open spec fn wf(self) -> bool {
        &&& syntax::nodes_of(self.text()) is Ok
        &&& text::byte_len(self.text()) < usize::MAX
        &&& nodes_hold(self.spec_nodes(), self.text(), self.views())
    }

    /// The source text.
    pub fn source(&self) -> (r: &str)
        ensures
            r@ == self.text(),
    {
        self.source.as_str()
    }

    /// The nodes, in source order.
    pub fn nodes(&self) -> (r: &[SyntaxNode])
        ensures
            r@ == self.spec_nodes(),
    {
        self.nodes.as_slice()
    }
}

// ---------------------------------------------------------------------------
// The parser
// ---------------------------------------------------------------------------
/// The source text and the byte offset of the node being read.
struct Cursor<'a> {
    source: &'a [char],
    start: usize,
    offset: usize,
}

impl<'a> Cursor<'a> {
    spec fn wf(self) -> bool {
        &&& self.start <= self.source@.len()
        &&& self.offset == offset_of(self.source@, self.start as int)
        &&& text::byte_len(self.source@) < usize::MAX
    }

    /// The byte range of the characters `a..b` of the node.
    fn range(&self, a: usize, b: usize) -> (r: TextRange)
        requires
            self.wf(),
            a <= b,
            self.start + b <= self.source@.len(),
        ensures
            covers(r, self.source@, self.start + a, self.start + b),
    {
        proof {
            text::lemma_byte_len_range(self.source@, self.start as int, self.start + a);
            text::lemma_byte_len_range(self.source@, self.start + a, self.start + b);
            text::lemma_byte_len_range(self.source@, self.start + b, self.source@.len() as int);
        }
        let n = self.source.len();
        assert(self.start + b <= n);
        let from = self.offset + byte_length(
            slice_subrange(self.source, self.start, self.start + a),
        );
        let to = from + byte_length(
            slice_subrange(self.source, self.start + a, self.start + b),
        );
        TextRange::new(from, to)
    }

    /// The characters `a..b` of the node.
    fn string(&self, a: usize, b: usize) -> (r: String)
        requires
            self.wf(),
            a <= b,
            self.start + b <= self.source@.len(),
        ensures
            r@ == self.source@.subrange(self.start + a, self.start + b),
    {
        let n = self.source.len();
        assert(self.start + b <= n);
        string_of(slice_subrange(self.source, self.start + a, self.start + b))
    }
}

/// The content of a statement reaches at least as far as that of its first line.
proof fn lemma_content_len(text: Seq<char>)
    ensures
        0 <= text::content_len(syntax::first_line(text)) <= text::content_len(text) <= text.len(),
        text::content_len(syntax::first_line(text)) <= syntax::first_line(text).len() == text::line_end(text, 0),
{
    text::lemma_line_end(text, 0);
    let e = text::line_end(text, 0);
    if e < text.len() {
        assert(text[e - 1] == '\n');
    } else {
        assert(syntax::first_line(text) =~= text);
    }
}

/// The assignment that the statement `text` is, if any; an error where one of
/// its quotes is not closed.
fn parse_assignment(cursor: &Cursor, text: &[char], continued: bool) -> (r: Result<
    Option<AssignmentSyntax>,
    (),
>)
    requires
        cursor.wf(),
        cursor.start + text@.len() <= cursor.source@.len(),
        text@ == cursor.source@.subrange(cursor.start as int, cursor.start + text@.len()),
    ensures
        match syntax::assignment_parts(text@, continued) {
            Some(a) => if scanner::balanced_from(syntax::value_of(text@, a), 0, None, false) {
                r matches Ok(Some(s)) && s.holds(cursor.source@, cursor.start as int, a)
            } else {
                r is Err
            },
            None => r matches Ok(None),
        },
{
    proof {
        reveal(syntax::assignment_parts);
    }
    proof {
        lemma_content_len(text@);
    }
    let line_end = next_line_end(text, 0);
    assert(text@.subrange(0, line_end as int) =~= syntax::first_line(text@));
    let (content, _) = split_line_ending(slice_subrange(text, 0, line_end));
    let (operator_at, operator) = match find_assignment_operator(content) {
        Some(found) => found,
        None => {
            return Ok(None);
        },
    };
    assert(content@.subrange(0, operator_at as int) =~= content@.take(operator_at as int));
    let left = trim_end(slice_subrange(content, 0, operator_at), CharClass::Whitespace);
    if !is_assignment_left_hand_side(left) {
        return Ok(None);
    }
    let (name, exported) = export_prefix(left);
    let value = operator_at + operator.width();
    let end = content_length(text);
    if !has_balanced_quotes(slice_subrange(text, value, end)) {
        return Err(());
    }
    Ok(
        Some(
            AssignmentSyntax {
                name: cursor.string(name, left.len()),
                name_range: cursor.range(name, left.len()),
                operator,
                operator_range: cursor.range(operator_at, value),
                operator_at,
                value: cursor.string(value, end),
                value_range: cursor.range(value, end),
                exported,
                continued,
            },
        ),
    )
}

/// The keyword that `word` spells.
fn read_keyword(word: &[char]) -> (r: Option<DirectiveKeyword>)
    ensures
        match r {
            Some(k) => syntax::keyword_chars(k) == word@,
            None => forall|k: DirectiveKeyword| #[trigger] syntax::keyword_chars(k) != word@,
        },
{
    if eq_str(word, "include") {
        Some(DirectiveKeyword::Include)
    } else if eq_str(word, "include_all") {
        Some(DirectiveKeyword::IncludeAll)
    } else if eq_str(word, "require") {
        Some(DirectiveKeyword::Require)
    } else if eq_str(word, "inherit") {
        Some(DirectiveKeyword::Inherit)
    } else if eq_str(word, "inherit_defer") {
        Some(DirectiveKeyword::InheritDefer)
    } else if eq_str(word, "addfragments") {
        Some(DirectiveKeyword::AddFragments)
    } else if eq_str(word, "addpylib") {
        Some(DirectiveKeyword::AddPyLib)
    } else if eq_str(word, "addhandler") {
        Some(DirectiveKeyword::AddHandler)
    } else if eq_str(word, "addtask") {
        Some(DirectiveKeyword::AddTask)
    } else if eq_str(word, "deltask") {
        Some(DirectiveKeyword::DelTask)
    } else if eq_str(word, "EXPORT_FUNCTIONS") {
        Some(DirectiveKeyword::ExportFunctions)
    } else if eq_str(word, "export") {
        Some(DirectiveKeyword::Export)
    } else if eq_str(word, "unset") {
        Some(DirectiveKeyword::Unset)
    } else {
        None
    }
}

/// The directive that the statement `text` is, if any.
fn parse_directive(cursor: &Cursor, text: &[char], continued: bool) -> (r: Option<DirectiveSyntax>)
    requires
        cursor.wf(),
        cursor.start + text@.len() <= cursor.source@.len(),
        text@ == cursor.source@.subrange(cursor.start as int, cursor.start + text@.len()),
    ensures
        match syntax::directive_parts(text@, continued) {
            Some(d) => r matches Some(s) && s.holds(cursor.source@, cursor.start as int, d),
            None => r is None,
        },
{
    let (content, _) = split_line_ending(text);
    let word = until_index(content, CharClass::Whitespace, 0);
    assert(content@.subrange(0, word as int) =~= content@.take(word as int));
    match read_keyword(slice_subrange(content, 0, word)) {
        Some(keyword) => {
            let arguments = lead_index(content, CharClass::Whitespace, word);
            proof {
                assert(syntax::keyword_chars(keyword) == content@.take(word as int));
                syntax::lemma_keywords_distinct(keyword, syntax::directive_parts(text@, continued)->0.keyword);
            }
            Some(
                DirectiveSyntax {
                    keyword,
                    keyword_range: cursor.range(0, word),
                    arguments: cursor.string(arguments, content.len()),
                    arguments_range: cursor.range(arguments, content.len()),
                    continued,
                },
            )
        },
        None => None,
    }
}

/// What the statement `text` is, apart from functions and definitions; an
/// error where a quote of an assignment is not closed.
fn classify_statement(cursor: &Cursor, text: &[char], continued: bool) -> (r: Result<
    SyntaxKind,
    (),
>)
    requires
        cursor.wf(),
        text@.len() > 0,
        cursor.start + text@.len() <= cursor.source@.len(),
        text@ == cursor.source@.subrange(cursor.start as int, cursor.start + text@.len()),
    ensures
        match syntax::statement_kind(text@, continued) {
            Ok(kind) => r matches Ok(s) && kind_holds(
                s,
                cursor.source@,
                cursor.start as int,
                kind,
            ),
            Err(fault) => fault == ParseFault::OpenQuote && r is Err,
        },
{
    proof {
        reveal(syntax::statement_kind);
    }
    let line_end = next_line_end(text, 0);
    assert(text@.subrange(0, line_end as int) =~= syntax::first_line(text@));
    let line = slice_subrange(text, 0, line_end);
    if is_blank_line(line) {
        return Ok(SyntaxKind::Blank);
    }
    let (content, _) = split_line_ending(line);
    let indent = lead_index(content, CharClass::Indent, 0);
    if is_at(content, indent, '#') {
        return Ok(SyntaxKind::Comment);
    }
    proof {
        if content@.len() == 0 {
            assert(text::blank_line(line@));
        }
    }
    if is_whitespace(content[0]) {
        return Ok(SyntaxKind::Unknown);
    }
    match parse_assignment(cursor, text, continued) {
        Ok(Some(assignment)) => {
            return Ok(SyntaxKind::Assignment(assignment));
        },
        Ok(None) => {},
        Err(()) => {
            return Err(());
        },
    }
    match parse_directive(cursor, text, continued) {
        Some(directive) => Ok(SyntaxKind::Directive(directive)),
        None => Ok(SyntaxKind::Unknown),
    }
}

/// A word of the trimmed start of a text occurs in the text.
proof fn lemma_word_found(t: Seq<char>, e: int, w: int, n: int)
    requires
        0 <= w,
        0 < n,
        w + n <= e <= t.len(),
    ensures
        w <= text::rfind_seq(t, t.subrange(w, w + n), e) <= e - n,
    decreases e,
{
    let p = t.subrange(w, w + n);
    if t.subrange(e - n, e) != p {
        assert(w + n != e);
        lemma_word_found(t, e - 1, w, n);
    }
}

proof fn lemma_words_inside(t: Seq<char>, class: CharClass, i: int)
    requires
        0 <= i <= t.len(),
    ensures
        forall|k: int|
            0 <= k < text::words_from(t, class, i).len() ==> i <= (#[trigger] text::words_from(
                t,
                class,
                i,
            )[k]).0 < text::words_from(t, class, i)[k].1 <= t.len(),
    decreases t.len() - i,
{
    text::lemma_lead(t, class, i);
    let s = text::lead_from(t, class, i);
    text::lemma_until(t, class, s);
    let e = text::until_from(t, class, s);
    if s < e {
        lemma_words_inside(t, class, e);
        let rest = text::words_from(t, class, e);
        assert forall|k: int| 0 <= k < text::words_from(t, class, i).len() implies i <= (
        #[trigger] text::words_from(t, class, i)[k]).0 < text::words_from(t, class, i)[k].1 <= t.len() by {
            if k > 0 {
                assert(text::words_from(t, class, i)[k] == rest[k - 1]);
            }
        }
    }
}

/// The function whose body `line` opens.
fn parse_function(cursor: &Cursor, line: &[char], head: &FunctionHead, close: usize) -> (r:
    FunctionSyntax)
    requires
        cursor.wf(),
        cursor.start + line@.len() <= cursor.source@.len(),
        line@ == cursor.source@.subrange(cursor.start as int, cursor.start + line@.len()),
        scanner::function_head(line@) == Some(head.kind),
        head.brace == scanner::head_brace(line@),
        head.paren == scanner::head_paren(line@),
        head.paren < head.brace < line@.len(),
        head.brace < close,
        cursor.start + close <= cursor.source@.len(),
    ensures
        r.holds(
            cursor.source@,
            cursor.start as int,
            syntax::function_parts(line@, head.kind, close as int),
        ),
{
    assert(line@.subrange(0, head.paren as int) =~= line@.take(head.paren as int));
    let before = slice_subrange(line, 0, head.paren);
    let words = trim(before, CharClass::Whitespace);
    let ranges = split_words(words, CharClass::Ascii);
    let ghost texts = syntax::declared_words(line@);
    assert(texts == text::word_texts(words@, CharClass::Ascii));
    proof {
        reveal_strlit("python");
        reveal_strlit("fakeroot");
        assert("python"@ =~= scanner::python_word());
        assert("fakeroot"@ =~= scanner::fakeroot_word());
    }
    let mut fakeroot = false;
    let mut first: usize = ranges.len();
    let mut k: usize = 0;
    while k < ranges.len()
        invariant
            k <= ranges@.len(),
            text::ranges_match(ranges@, text::words_of(words@, CharClass::Ascii)),
            text::ranges_inside(ranges@, words@.len() as int),
            texts == text::word_texts(words@, CharClass::Ascii),
            "python"@ == scanner::python_word(),
            "fakeroot"@ == scanner::fakeroot_word(),
            first <= ranges@.len(),
            first < ranges@.len() ==> first < k && first == syntax::first_name(texts, 0),
            first == ranges@.len() ==> syntax::first_name(texts, k as int) == syntax::first_name(texts, 0),
            fakeroot == exists|j: int| 0 <= j < k && #[trigger] texts[j] == scanner::fakeroot_word(),
        decreases ranges@.len() - k,
    {
        let (a, b) = ranges[k];
        let word = slice_subrange(words, a, b);
        assert(word@ == texts[k as int]);
        let is_fakeroot = eq_str(word, "fakeroot");
        if is_fakeroot {
            fakeroot = true;
        } else if !eq_str(word, "python") && first == ranges.len() {
            first = k;
        }
        k += 1;
    }
    let body = head.brace + 1;
    let (name, name_range) = if first < ranges.len() {
        let (a, b) = ranges[first];
        let word = slice_subrange(words, a, b);
        assert(word@ == texts[first as int]);
        proof {
            let skip = text::lead_from(before@, CharClass::Whitespace, 0);
            text::lemma_lead(before@, CharClass::Whitespace, 0);
            text::lemma_tail(
                text::trimmed_start(before@, CharClass::Whitespace),
                CharClass::Whitespace,
                before@.len() - skip,
            );
            assert(before@.subrange(skip + a, skip + b) =~= word@);
            lemma_word_found(before@, before@.len() as int, skip + a, b - a);
        }
        match rfind_str(before, word) {
            Some(at) => (
                Some(cursor.string(at, at + word.len())),
                Some(cursor.range(at, at + word.len())),
            ),
            None => {
                assert(false);
                (None, None)
            },
        }
    } else {
        (None, None)
    };
    FunctionSyntax {
        kind: head.kind,
        name,
        name_range,
        body_range: cursor.range(body, close),
        fakeroot,
    }
}

/// The Python definition that `line` starts.
fn parse_python_definition(cursor: &Cursor, line: &[char], end: usize) -> (r:
    PythonDefinitionSyntax)
    requires
        cursor.wf(),
        cursor.start + end <= cursor.source@.len(),
        line@.len() <= end,
        line@ == cursor.source@.subrange(cursor.start as int, cursor.start + line@.len()),
        scanner::python_def_start(line@),
    ensures
        r.holds(
            cursor.source@,
            cursor.start as int,
            PythonParts {
                name_end: syntax::definition_name_end(line@),
                body: line@.len() as int,
                body_end: end as int,
            },
        ),
{
    proof {
        reveal(scanner::python_def_start);
    }
    let (content, _) = split_line_ending(line);
    proof {
        let code = scanner::code_of(line@);
        syntax::lemma_code_end(content@);
        text::lemma_tail(
            content@.take(scanner::code_end(content@)),
            CharClass::Whitespace,
            scanner::code_end(content@),
        );
        assert(content@[3] == code[3]);
        assert(content@[code.len() - 1] == ':');
        text::lemma_find(content@, ':', 4);
    }
    let paren = find_char(content, '(', 4);
    let stop = if paren < content.len() {
        paren
    } else {
        find_char(content, ':', 4)
    };
    let tail = tail_index(content, CharClass::Whitespace, stop);
    let name_end = if tail < 4 {
        4
    } else {
        tail
    };
    PythonDefinitionSyntax {
        name: cursor.string(4, name_end),
        name_range: cursor.range(4, name_end),
        body_range: cursor.range(line.len(), end),
    }
}

/// Reads the node at the cursor: its length and kind, or what is wrong with it.
#[verifier::spinoff_prover]
#[verifier::rlimit(50)]
fn read_node(cursor: &Cursor) -> (r: Result<(usize, SyntaxKind), &'static str>)
    requires
        cursor.wf(),
        cursor.start < cursor.source@.len(),
    ensures
        match syntax::next_node(cursor.source@.skip(cursor.start as int)) {
            Ok((len, kind)) => r matches Ok((n, s)) && n == len && kind_holds(
                s,
                cursor.source@,
                cursor.start as int,
                kind,
            ),
            Err(fault) => r matches Err(message) && message@ == fault_message(fault),
        },
{
    proof {
        reveal(syntax::next_node);
    }
    let ghost source = cursor.source@;
    let ghost start = cursor.start as int;
    assert(source.subrange(start, source.len() as int) =~= source.skip(start));
    let t = slice_subrange(cursor.source, cursor.start, cursor.source.len());
    let after = next_line_end(t, 0);
    let line = slice_subrange(t, 0, after);
    assert(line@ =~= syntax::first_line(t@));
    assert(line@ =~= source.subrange(start, start + line@.len()));
    if let Some(head) = function_opening_brace(line) {
        return match find_brace_block_end(t, head.brace, head.kind) {
            Some((end, close)) => {
                proof {
                    assert(line@[head.brace as int] == '{');
                    assert(t@[close as int] == '}');
                    assert(t@[head.brace as int] == line@[head.brace as int]);
                }
                Ok((end, SyntaxKind::Function(parse_function(cursor, line, &head, close))))
            },
            None => Err("function body has no closing brace"),
        };
    }
    if is_python_def_start(line) {
        let end = find_python_def_end(t, after);
        return Ok(
            (end, SyntaxKind::PythonDefinition(parse_python_definition(cursor, line, end))),
        );
    }
    let continued = has_line_continuation(line);
    let end = if continued {
        match find_continuation_end(t, 0) {
            Some(end) => end,
            None => {
                return Err("statement ends with an unterminated continuation");
            },
        }
    } else {
        after
    };
    let text = slice_subrange(t, 0, end);
    assert(text@ =~= source.subrange(start, start + text@.len()));
    assert(text@ =~= t@.take(end as int));
    match classify_statement(cursor, text, continued) {
        Ok(kind) => Ok((end, kind)),
        Err(()) => Err("top-level assignment contains an unclosed quote"),
    }
}

/// Parses BitBake metadata into a lossless top-level concrete syntax tree.
///
/// Every byte of `source` belongs to exactly one node. Unsupported syntax and
/// embedded function bodies are retained verbatim instead of being discarded.
pub fn parse(source: &str) -> (r: Result<SyntaxTree, SyntaxError>)
    requires
        text::byte_len(source@) < usize::MAX,
    ensures
        match syntax::nodes_of(source@) {
            Ok(_) => r matches Ok(tree) && tree.wf() && tree.text() == source@,
            Err((i, fault)) => r matches Err(error) && error.reports(source@, i, fault),
        },
{
    let chars = chars_of(source);
    let mut nodes: Vec<SyntaxNode> = Vec::new();
    let ghost mut views: Seq<NodeView> = Seq::empty();
    let mut start: usize = 0;
    let mut offset: usize = 0;
    let mut line: usize = 1;
    proof {
        text::lemma_byte_len_at_least(source@);
        assert(source@.take(0) =~= Seq::empty());
    }
    while start < chars.len()
        invariant
            start <= chars@.len(),
            chars@ == source@,
            text::byte_len(source@) < usize::MAX,
            source@.len() <= text::byte_len(source@),
            offset == offset_of(source@, start as int),
            line == text::newline_count(source@.take(start as int)) + 1,
            nodes_hold(nodes@, source@, views),
            match syntax::nodes_from(source@, start as int) {
                Ok(rest) => syntax::nodes_of(source@) == Ok::<Seq<NodeView>, (int, ParseFault)>(
                    views + rest,
                ),
                Err(fault) => syntax::nodes_of(source@) == Err::<Seq<NodeView>, (int, ParseFault)>(fault),
            },
        decreases chars@.len() - start,
    {
        let cursor = Cursor { source: chars.as_slice(), start, offset };
        proof {
            syntax::lemma_next_node(source@.skip(start as int));
        }
        let (len, kind) = match read_node(&cursor) {
            Ok(node) => node,
            Err(message) => {
                return Err(FormatError::new(line, message));
            },
        };
        let range = cursor.range(0, len);
        let end = start + len;
        let node = SyntaxNode { kind, range, text: cursor.string(0, len) };
        let newlines = count_newlines(slice_subrange(chars.as_slice(), start, end));
        proof {
            let view = NodeView {
                start: start as int,
                end: end as int,
                kind: syntax::next_node(source@.skip(start as int))->Ok_0.1,
            };
            assert(node.holds(source@, view));
            if let Ok(rest) = syntax::nodes_from(source@, end as int) {
                assert(views + (seq![view] + rest) =~= views.push(view) + rest);
            }
            views = views.push(view);
            assert(source@.take(end as int) =~= source@.take(start as int) + source@.subrange(
                start as int,
                end as int,
            ));
            text::lemma_newline_count_add(
                source@.take(start as int),
                source@.subrange(start as int, end as int),
            );
            text::lemma_newline_count_bound(source@.take(end as int));
        }
        nodes.push(node);
        line += newlines;
        offset = range.end();
        start = end;
    }
    assert(views + Seq::empty() =~= views);
    Ok(SyntaxTree { source: source.to_owned(), nodes })
}

} // verus!
