//! The statements of a syntax tree, by the positions of their characters.
use crate::operator;
use crate::syntax;
use crate::text;
use crate::tree;
use crate::operator::AssignmentOperator;
use crate::scanner::FunctionKind;
use crate::syntax::DirectiveKeyword;
use crate::syntax::NodeKind;
use crate::syntax::NodeView;
use crate::text::char_index;
use crate::text::chars_of;
use crate::tree::SyntaxKind;
use crate::tree::SyntaxNode;
use crate::tree::SyntaxTree;
use vstd::prelude::*;

verus! {

/// An assignment and where its parts stand.
#[verifier::ext_equal]
pub struct AssignmentView {
    pub name: Seq<char>,
    pub name_at: int,
    pub operator: AssignmentOperator,
    pub operator_at: int,
    pub value: Seq<char>,
    pub value_at: int,
}

/// A directive and where its parts stand.
#[verifier::ext_equal]
pub struct DirectiveView {
    pub keyword: DirectiveKeyword,
    pub at: int,
    pub arguments: Seq<char>,
    pub arguments_at: int,
}

/// A function and where its name and its body stand.
#[verifier::ext_equal]
pub struct FunctionView {
    pub kind: FunctionKind,
    pub name: Option<Seq<char>>,
    pub name_at: int,
    pub body_at: int,
    pub body_end: int,
}

/// A node of a syntax tree.
#[verifier::ext_equal]
pub enum StatementView {
    Assignment(AssignmentView),
    Directive(DirectiveView),
    Function(FunctionView),
    Definition { body_at: int, body_end: int },
    Other,
}

/// The statement that the node `node` of `source` is.
pub open spec fn statement_of(source: Seq<char>, node: NodeView) -> StatementView {
    match node.kind {
        NodeKind::Assignment(a) => StatementView::Assignment(
            AssignmentView {
                name: source.subrange(node.start + a.name, node.start + a.name_end),
                name_at: node.start + a.name,
                operator: a.operator,
                operator_at: node.start + a.operator_at,
                value: source.subrange(node.start + syntax::value_start(a), node.start + a.value_end),
                value_at: node.start + syntax::value_start(a),
            },
        ),
        NodeKind::Directive(d) => StatementView::Directive(
            DirectiveView {
                keyword: d.keyword,
                at: node.start,
                arguments: source.subrange(node.start + d.arguments, node.start + d.arguments_end),
                arguments_at: node.start + d.arguments,
            },
        ),
        NodeKind::Function(f) => StatementView::Function(
            FunctionView {
                kind: f.kind,
                name: match f.name {
                    Some((a, b)) => Some(source.subrange(node.start + a, node.start + b)),
                    None => None,
                },
                name_at: match f.name {
                    Some((a, _)) => node.start + a,
                    None => 0,
                },
                body_at: node.start + f.body,
                body_end: node.start + f.body_end,
            },
        ),
        NodeKind::PythonDefinition(p) => StatementView::Definition {
            body_at: node.start + p.body,
            body_end: node.start + p.body_end,
        },
        _ => StatementView::Other,
    }
}

/// The parts of a statement lie in `source`.
pub open spec fn statement_inside(source: Seq<char>, s: StatementView) -> bool {
    match s {
        StatementView::Assignment(a) => {
            &&& 0 <= a.name_at <= a.name_at + a.name.len() <= source.len()
            &&& 0 <= a.operator_at <= a.operator_at + operator::operator_chars(a.operator).len()
                <= source.len()
            &&& 0 <= a.value_at <= a.value_at + a.value.len() <= source.len()
        },
        StatementView::Directive(d) => {
            &&& 0 <= d.at <= d.at + syntax::keyword_chars(d.keyword).len() <= source.len()
            &&& 0 <= d.arguments_at <= d.arguments_at + d.arguments.len() <= source.len()
        },
        StatementView::Function(f) => {
            &&& 0 <= f.body_at <= f.body_end <= source.len()
            &&& f.name matches Some(name) ==> 0 <= f.name_at <= f.name_at + name.len()
                <= source.len()
        },
        StatementView::Definition { body_at, body_end } => 0 <= body_at <= body_end
            <= source.len(),
        StatementView::Other => true,
    }
}

pub open spec fn statements_inside(source: Seq<char>, s: Seq<StatementView>) -> bool {
    forall|k: int| 0 <= k < s.len() ==> statement_inside(source, #[trigger] s[k])
}

/// The statements of `nodes`.
pub open spec fn statements_of_nodes(source: Seq<char>, nodes: Seq<NodeView>) -> Seq<
    StatementView,
> {
    nodes.map_values(|node: NodeView| statement_of(source, node))
}

/// The statements of a text that has a syntax tree.
pub open spec fn statements_of(source: Seq<char>) -> Seq<StatementView> {
    statements_of_nodes(source, syntax::nodes_of(source)->Ok_0)
}

/// An assignment and where its parts stand.
pub struct AssignmentStatement {
    pub name: Vec<char>,
    pub name_at: usize,
    pub operator: AssignmentOperator,
    pub operator_at: usize,
    pub value: Vec<char>,
    pub value_at: usize,
}

impl AssignmentStatement {
    pub open spec fn view(&self) -> AssignmentView {
        AssignmentView {
            name: self.name@,
            name_at: self.name_at as int,
            operator: self.operator,
            operator_at: self.operator_at as int,
            value: self.value@,
            value_at: self.value_at as int,
        }
    }
}

/// A directive and where its parts stand.
pub struct DirectiveStatement {
    pub keyword: DirectiveKeyword,
    pub at: usize,
    pub arguments: Vec<char>,
    pub arguments_at: usize,
}

impl DirectiveStatement {
    pub open spec fn view(&self) -> DirectiveView {
        DirectiveView {
            keyword: self.keyword,
            at: self.at as int,
            arguments: self.arguments@,
            arguments_at: self.arguments_at as int,
        }
    }
}

/// A function and where its name and its body stand.
pub struct FunctionStatement {
    pub kind: FunctionKind,
    pub name: Option<Vec<char>>,
    pub name_at: usize,
    pub body_at: usize,
    pub body_end: usize,
}

impl FunctionStatement {
    pub open spec fn view(&self) -> FunctionView {
        FunctionView {
            kind: self.kind,
            name: match self.name {
                Some(name) => Some(name@),
                None => None,
            },
            name_at: self.name_at as int,
            body_at: self.body_at as int,
            body_end: self.body_end as int,
        }
    }
}

/// A node of a syntax tree.
pub enum Statement {
    Assignment(AssignmentStatement),
    Directive(DirectiveStatement),
    Function(FunctionStatement),
    Definition { body_at: usize, body_end: usize },
    Other,
}

impl Statement {
    pub open spec fn view(&self) -> StatementView {
        match self {
            Statement::Assignment(a) => StatementView::Assignment(a@),
            Statement::Directive(d) => StatementView::Directive(d@),
            Statement::Function(f) => StatementView::Function(f@),
            Statement::Definition { body_at, body_end } => StatementView::Definition {
                body_at: *body_at as int,
                body_end: *body_end as int,
            },
            Statement::Other => StatementView::Other,
        }
    }
}

/// The contents of a list of statements.
pub open spec fn statement_views(items: Seq<Statement>) -> Seq<StatementView> {
    items.map_values(|s: Statement| s@)
}

/// The position of the character at a byte offset of a text.
fn position_of(chars: &[char], offset: usize, Ghost(k): Ghost<int>) -> (r: usize)
    requires
        0 <= k <= chars@.len(),
        offset == tree::offset_of(chars@, k),
    ensures
        r == k,
{
    proof {
        text::lemma_chars_before(chars@, k);
    }
    char_index(chars, offset)
}

/// The statement that a node is.
fn statement(chars: &[char], node: &SyntaxNode, Ghost(view): Ghost<NodeView>) -> (r: Statement)
    requires
        node.holds(chars@, view),
    ensures
        r@ == statement_of(chars@, view),
        statement_inside(chars@, r@),
{
    proof {
        node.lemma_holds(chars@, view);
    }
    match node.kind() {
        SyntaxKind::Assignment(assignment) => {
            let ghost a = view.kind->Assignment_0;
            proof {
                assignment.lemma_holds(chars@, view.start, a);
            }
            Statement::Assignment(
                AssignmentStatement {
                    name: chars_of(assignment.name()),
                    name_at: position_of(
                        chars,
                        assignment.name_range().start(),
                        Ghost(view.start + a.name),
                    ),
                    operator: assignment.operator(),
                    operator_at: position_of(
                        chars,
                        assignment.operator_range().start(),
                        Ghost(view.start + a.operator_at),
                    ),
                    value: chars_of(assignment.value()),
                    value_at: position_of(
                        chars,
                        assignment.value_range().start(),
                        Ghost(view.start + syntax::value_start(a)),
                    ),
                },
            )
        },
        SyntaxKind::Directive(directive) => {
            let ghost d = view.kind->Directive_0;
            proof {
                directive.lemma_holds(chars@, view.start, d);
            }
            Statement::Directive(
                DirectiveStatement {
                    keyword: directive.keyword(),
                    at: position_of(chars, directive.keyword_range().start(), Ghost(view.start)),
                    arguments: chars_of(directive.arguments()),
                    arguments_at: position_of(
                        chars,
                        directive.arguments_range().start(),
                        Ghost(view.start + d.arguments),
                    ),
                },
            )
        },
        SyntaxKind::Function(function) => {
            let ghost f = view.kind->Function_0;
            proof {
                function.lemma_holds(chars@, view.start, f);
            }
            let name_at = match function.name_range() {
                Some(range) => {
                    let ghost (a, b) = f.name->0;
                    position_of(chars, range.start(), Ghost(view.start + a))
                },
                None => 0,
            };
            let name = match function.name() {
                Some(name) => Some(chars_of(name)),
                None => None,
            };
            Statement::Function(
                FunctionStatement {
                    kind: function.function_kind(),
                    name,
                    name_at,
                    body_at: position_of(
                        chars,
                        function.body_range().start(),
                        Ghost(view.start + f.body),
                    ),
                    body_end: position_of(
                        chars,
                        function.body_range().end(),
                        Ghost(view.start + f.body_end),
                    ),
                },
            )
        },
        SyntaxKind::PythonDefinition(definition) => {
            let ghost p = view.kind->PythonDefinition_0;
            proof {
                definition.lemma_holds(chars@, view.start, p);
            }
            Statement::Definition {
                body_at: position_of(
                    chars,
                    definition.body_range().start(),
                    Ghost(view.start + p.body),
                ),
                body_end: position_of(
                    chars,
                    definition.body_range().end(),
                    Ghost(view.start + p.body_end),
                ),
            }
        },
        SyntaxKind::Blank => Statement::Other,
        SyntaxKind::Comment => Statement::Other,
        SyntaxKind::Unknown => Statement::Other,
    }
}

/// The statements of a syntax tree.
pub fn statements(tree: &SyntaxTree) -> (r: Vec<Statement>)
    requires
        tree.wf(),
    ensures
        statement_views(r@) == statements_of(tree.text()),
        statements_inside(tree.text(), statement_views(r@)),
{
    let chars = chars_of(tree.source());
    let nodes = tree.nodes();
    let mut out: Vec<Statement> = Vec::new();
    let mut k: usize = 0;
    while k < nodes.len()
        invariant
            k <= nodes@.len(),
            tree.wf(),
            nodes@ == tree.spec_nodes(),
            chars@ == tree.text(),
            out@.len() == k,
            forall|j: int|
                0 <= j < k ==> (#[trigger] out@[j])@ == statement_of(tree.text(), tree.views()[j])
                    && statement_inside(tree.text(), out@[j]@),
        decreases nodes@.len() - k,
    {
        let next = statement(chars.as_slice(), &nodes[k], Ghost(tree.views()[k as int]));
        out.push(next);
        k += 1;
    }
    assert(statement_views(out@) =~= statements_of(tree.text()));
    out
}

} // verus!
