//! The assignment operators of BitBake metadata.
use vstd::prelude::*;

verus! {

/// An assignment operator, named by what it does to the variable.
#[derive(Clone, Copy, Debug, Eq, PartialEq, Structural)]
pub enum AssignmentOperator {
    Assign,
    Immediate,
    Default,
    WeakDefault,
    AppendWithSpace,
    PrependWithSpace,
    AppendWithoutSpace,
    PrependWithoutSpace,
}

/// The characters of an operator.
pub open spec fn operator_chars(operator: AssignmentOperator) -> Seq<char> {
    match operator {
        AssignmentOperator::Assign => seq!['='],
        AssignmentOperator::Immediate => seq![':', '='],
        AssignmentOperator::Default => seq!['?', '='],
        AssignmentOperator::WeakDefault => seq!['?', '?', '='],
        AssignmentOperator::AppendWithSpace => seq!['+', '='],
        AssignmentOperator::PrependWithSpace => seq!['=', '+'],
        AssignmentOperator::AppendWithoutSpace => seq!['.', '='],
        AssignmentOperator::PrependWithoutSpace => seq!['=', '.'],
    }
}

impl AssignmentOperator {
    /// The source text of the operator.
    pub fn lexeme(self) -> (r: &'static str)
        ensures
            r@ == operator_chars(self),
    {
        proof {
            reveal_strlit("=");
            reveal_strlit(":=");
            reveal_strlit("?=");
            reveal_strlit("??=");
            reveal_strlit("+=");
            reveal_strlit("=+");
            reveal_strlit(".=");
            reveal_strlit("=.");
        }
        let r = match self {
            AssignmentOperator::Assign => "=",
            AssignmentOperator::Immediate => ":=",
            AssignmentOperator::Default => "?=",
            AssignmentOperator::WeakDefault => "??=",
            AssignmentOperator::AppendWithSpace => "+=",
            AssignmentOperator::PrependWithSpace => "=+",
            AssignmentOperator::AppendWithoutSpace => ".=",
            AssignmentOperator::PrependWithoutSpace => "=.",
        };
        assert(r@ =~= operator_chars(self));
        r
    }

    /// The number of characters of the operator.
    pub fn width(self) -> (r: usize)
        ensures
            r == operator_chars(self).len(),
            1 <= r <= 3,
    {
        match self {
            AssignmentOperator::Assign => 1,
            AssignmentOperator::WeakDefault => 3,
            _ => 2,
        }
    }
}

/// Whether `t` holds `c` at index `i`.
pub open spec fn at(t: Seq<char>, i: int, c: char) -> bool {
    0 <= i < t.len() && t[i] == c
}

/// Whether `t` holds `a` and then `b` at index `i`.
pub open spec fn pair_at(t: Seq<char>, i: int, a: char, b: char) -> bool {
    at(t, i, a) && at(t, i + 1, b)
}

/// The operator at index `i` of `t`; a longer one is preferred to its own parts.
pub open spec fn operator_at(t: Seq<char>, i: int) -> Option<AssignmentOperator> {
    if pair_at(t, i, '?', '?') && at(t, i + 2, '=') {
        Some(AssignmentOperator::WeakDefault)
    } else if pair_at(t, i, ':', '=') {
        Some(AssignmentOperator::Immediate)
    } else if pair_at(t, i, '?', '=') {
        Some(AssignmentOperator::Default)
    } else if pair_at(t, i, '+', '=') {
        Some(AssignmentOperator::AppendWithSpace)
    } else if pair_at(t, i, '=', '+') {
        Some(AssignmentOperator::PrependWithSpace)
    } else if pair_at(t, i, '.', '=') {
        Some(AssignmentOperator::AppendWithoutSpace)
    } else if pair_at(t, i, '=', '.') {
        Some(AssignmentOperator::PrependWithoutSpace)
    } else if at(t, i, '=') {
        Some(AssignmentOperator::Assign)
    } else {
        None
    }
}

/// Whether `t` holds `c` at index `i`.
pub fn is_at(t: &[char], i: usize, c: char) -> (r: bool)
    ensures
        r == at(t@, i as int, c),
{
    i < t.len() && t[i] == c
}

/// Whether `t` holds `a` and then `b` at index `i`.
pub fn is_pair_at(t: &[char], i: usize, a: char, b: char) -> (r: bool)
    requires
        i <= t@.len(),
    ensures
        r == pair_at(t@, i as int, a, b),
{
    i < t.len() && t[i] == a && i + 1 < t.len() && t[i + 1] == b
}

/// The operator at index `i` of `t`.
pub fn read_operator(t: &[char], i: usize) -> (r: Option<AssignmentOperator>)
    requires
        i <= t@.len(),
    ensures
        r == operator_at(t@, i as int),
{
    if is_pair_at(t, i, '?', '?') && t.len() - i > 2 && t[i + 2] == '=' {
        Some(AssignmentOperator::WeakDefault)
    } else if is_pair_at(t, i, ':', '=') {
        Some(AssignmentOperator::Immediate)
    } else if is_pair_at(t, i, '?', '=') {
        Some(AssignmentOperator::Default)
    } else if is_pair_at(t, i, '+', '=') {
        Some(AssignmentOperator::AppendWithSpace)
    } else if is_pair_at(t, i, '=', '+') {
        Some(AssignmentOperator::PrependWithSpace)
    } else if is_pair_at(t, i, '.', '=') {
        Some(AssignmentOperator::AppendWithoutSpace)
    } else if is_pair_at(t, i, '=', '.') {
        Some(AssignmentOperator::PrependWithoutSpace)
    } else if is_at(t, i, '=') {
        Some(AssignmentOperator::Assign)
    } else {
        None
    }
}

} // verus!
