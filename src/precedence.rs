//! Operator precedence as a law over every parsed expression.
use vstd::prelude::*;
use crate::grammar::{climb_spec, expression_spec, parenthesized_spec, primary_spec, token_at};
use crate::lexer::WideToken;
use crate::span::{Span, Spanned};
use crate::tree::{binding_powers, operator_of, Binary, BinaryOperator, Expression, ParsedNode};

verus! {

/// The node is a binary expression whose operator is `+` or `-`.
pub open spec fn is_additive(n: ParsedNode<Expression>) -> bool {
    n.node matches Ok(Expression::Binary(b)) && (b.operator.node == Ok::<BinaryOperator, crate::tree::NodeError>(
        BinaryOperator::Add,
    ) || b.operator.node == Ok::<BinaryOperator, crate::tree::NodeError>(BinaryOperator::Subtract))
}

/// The node is a binary expression whose operator is `*` or `/`.
pub open spec fn is_multiplicative(n: ParsedNode<Expression>) -> bool {
    n.node matches Ok(Expression::Binary(b)) && (b.operator.node == Ok::<BinaryOperator, crate::tree::NodeError>(
        BinaryOperator::Multiply,
    ) || b.operator.node == Ok::<BinaryOperator, crate::tree::NodeError>(BinaryOperator::Divide))
}

/// No `+` or `-` stands directly as an operand of a `*` or `/`, anywhere in
/// the expression: a looser operation sits under a tighter one only inside
/// parentheses.
pub open spec fn tiers_respected(n: ParsedNode<Expression>) -> bool
    decreases n,
{
    match n.node {
        Ok(Expression::Binary(b)) => tiers_respected(*b.left) && tiers_respected(*b.right) && (
        is_multiplicative(n) ==> !is_additive(*b.left) && !is_additive(*b.right)),
        Ok(Expression::Parenthesized(p)) => tiers_respected(*p.inner),
        _ => true,
    }
}

/// Left binding power of the operator at the top of the node; 0 when the node
/// is not a binary expression.
pub open spec fn top_power(n: ParsedNode<Expression>) -> int {
    match n.node {
        Ok(Expression::Binary(b)) => match b.operator.node {
            Ok(op) => binding_powers(op).0 as int,
            Err(_) => 0,
        },
        _ => 0,
    }
}

/// No operator at `q` binds as tightly as `min`.
pub open spec fn stops_at(t: Seq<Spanned<WideToken>>, q: int, min: u8) -> bool {
    match token_at(t, q) {
        Some(x) => match operator_of(x.value) {
            Some(op) => binding_powers(op).0 < min,
            None => true,
        },
        None => true,
    }
}

proof fn lemma_primary_tiers(t: Seq<Spanned<WideToken>>, p: int)
    requires
        0 <= p <= t.len(),
        primary_spec(t, p).0 is Ok,
    ensures
        tiers_respected(primary_spec(t, p).0->Ok_0),
        top_power(primary_spec(t, p).0->Ok_0) == 0,
        p < primary_spec(t, p).1 <= t.len(),
    decreases t.len() - p, 1int,
{
    if t[p].value == WideToken::OpenRound {
        lemma_parenthesized_tiers(t, p);
    }
}

proof fn lemma_parenthesized_tiers(t: Seq<Spanned<WideToken>>, p: int)
    requires
        0 <= p < t.len(),
        parenthesized_spec(t, p).0 is Ok,
    ensures
        tiers_respected(parenthesized_spec(t, p).0->Ok_0),
        top_power(parenthesized_spec(t, p).0->Ok_0) == 0,
        p < parenthesized_spec(t, p).1 <= t.len(),
    decreases t.len() - p, 0int,
{
    lemma_expression_tiers(t, p + 1, 0);
}

/// Every expression the grammar parses respects the precedence tiers; its
/// top operator binds at least as tightly as `min`, and no operator that
/// binds as tightly follows it.
pub proof fn lemma_expression_tiers(t: Seq<Spanned<WideToken>>, p: int, min: u8)
    requires
        0 <= p <= t.len(),
        expression_spec(t, p, min).0 is Ok,
    ensures
        tiers_respected(expression_spec(t, p, min).0->Ok_0),
        top_power(expression_spec(t, p, min).0->Ok_0) == 0 || top_power(
            expression_spec(t, p, min).0->Ok_0,
        ) >= min,
        stops_at(t, expression_spec(t, p, min).1, min),
        p < expression_spec(t, p, min).1 <= t.len(),
    decreases t.len() - p, 2int,
{
    let (left, p1) = primary_spec(t, p);
    lemma_primary_tiers(t, p);
    if p < p1 <= t.len() {
        lemma_climb_tiers(t, p1, min, left->Ok_0);
    }
}

proof fn lemma_climb_tiers(
    t: Seq<Spanned<WideToken>>,
    q: int,
    min: u8,
    left: ParsedNode<Expression>,
)
    requires
        0 <= q <= t.len(),
        tiers_respected(left),
        top_power(left) == 0 || top_power(left) >= min,
        is_additive(left) ==> stops_at(t, q, 2),
        climb_spec(t, q, min, left).0 is Ok,
    ensures
        tiers_respected(climb_spec(t, q, min, left).0->Ok_0),
        top_power(climb_spec(t, q, min, left).0->Ok_0) == 0 || top_power(
            climb_spec(t, q, min, left).0->Ok_0,
        ) >= min,
        stops_at(t, climb_spec(t, q, min, left).1, min),
        q <= climb_spec(t, q, min, left).1 <= t.len(),
    decreases t.len() - q, 3int,
{
    match token_at(t, q) {
        Some(x) => match operator_of(x.value) {
            Some(op) => if binding_powers(op).0 >= min {
                let (right, p2) = expression_spec(t, q + 1, binding_powers(op).1);
                lemma_expression_tiers(t, q + 1, binding_powers(op).1);
                let r = right->Ok_0;
                let node = ParsedNode {
                    node: Ok(
                        Expression::Binary(
                            Binary {
                                left: Box::new(left),
                                operator: ParsedNode { node: Ok(op), span: x.span },
                                right: Box::new(r),
                            },
                        ),
                    ),
                    span: Span { start: left.span.start, end: r.span.end },
                };
                assert(tiers_respected(node));
                if q < p2 <= t.len() {
                    lemma_climb_tiers(t, p2, min, node);
                }
            },
            None => {},
        },
        None => {},
    }
}

} // verus!
