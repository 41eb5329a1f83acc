//! The grammar as spec functions over the significant tokens and a position.
//! Each returns what is parsed and the position after it.
use vstd::prelude::*;
use crate::lexer::{lexed_tokens, WideToken};
use crate::span::{Span, Spanned};
use crate::tree::{
    binding_powers, operator_of, Binary, Expression, FatalParserError, FunctionView, Identifier,
    Let, NodeError, Parenthesized, ParsedNode, Statement,
};

verus! {

pub open spec fn token_at(t: Seq<Spanned<WideToken>>, p: int) -> Option<Spanned<WideToken>> {
    if 0 <= p < t.len() {
        Some(t[p])
    } else {
        None
    }
}

/// Invisible and comment tokens carry nothing for the grammar.
pub open spec fn is_trivia(token: WideToken) -> bool {
    token == WideToken::Invisible || token == WideToken::Comment
}

pub open spec fn significant(tokens: Seq<Spanned<WideToken>>) -> Seq<Spanned<WideToken>> {
    tokens.filter(|t: Spanned<WideToken>| !is_trivia(t.value))
}

/// The tokens of source text `s` that the parser reads.
pub open spec fn parser_tokens(s: Seq<char>) -> Seq<Spanned<WideToken>> {
    significant(lexed_tokens(s))
}

/// Spans are well formed and in source order without overlap.
pub open spec fn ordered(t: Seq<Spanned<WideToken>>) -> bool {
    &&& forall|i: int| 0 <= i < t.len() ==> (#[trigger] t[i]).span.wf()
    &&& forall|i: int, j: int| 0 <= i < j < t.len() ==> (#[trigger] t[i]).span.end <= (#[trigger] t[j]).span.start
}

/// The span from the start of token `p` to the end of token `q - 1`.
pub open spec fn cover(t: Seq<Spanned<WideToken>>, p: int, q: int) -> Span {
    Span { start: t[p].span.start, end: t[q - 1].span.end }
}

/// The error for a token that stands where it does not fit.
pub open spec fn mismatch(token: WideToken) -> NodeError {
    match token {
        WideToken::HadError(e) => NodeError::Lexer(e),
        _ => NodeError::UnexpectedToken(token),
    }
}

/// One token where `kind` is expected.
pub open spec fn expect_spec(t: Seq<Spanned<WideToken>>, p: int, kind: WideToken) -> (
    Result<ParsedNode<WideToken>, FatalParserError>,
    int,
) {
    match token_at(t, p) {
        None => (Err(FatalParserError::UnexpectedEof), p),
        Some(x) => (
            Ok(
                ParsedNode {
                    node: if x.value == kind {
                        Ok(kind)
                    } else {
                        Err(mismatch(x.value))
                    },
                    span: x.span,
                },
            ),
            p + 1,
        ),
    }
}

/// One token where an identifier is expected.
pub open spec fn identifier_spec(t: Seq<Spanned<WideToken>>, p: int) -> (
    Result<ParsedNode<Identifier>, FatalParserError>,
    int,
) {
    match token_at(t, p) {
        None => (Err(FatalParserError::UnexpectedEof), p),
        Some(x) => (
            Ok(
                ParsedNode {
                    node: if x.value == WideToken::Identifier {
                        Ok(Identifier)
                    } else {
                        Err(mismatch(x.value))
                    },
                    span: x.span,
                },
            ),
            p + 1,
        ),
    }
}

/// An integer, a variable, a parenthesized expression, or an error node
/// that takes the one token in the way.
pub open spec fn primary_spec(t: Seq<Spanned<WideToken>>, p: int) -> (
    Result<ParsedNode<Expression>, FatalParserError>,
    int,
)
    decreases t.len() - p, 1int,
    when 0 <= p <= t.len()
{
    match token_at(t, p) {
        None => (Err(FatalParserError::UnexpectedEof), p),
        Some(x) => match x.value {
            WideToken::Integer => (Ok(ParsedNode { node: Ok(Expression::Integer), span: x.span }), p + 1),
            WideToken::Identifier => (
                Ok(ParsedNode { node: Ok(Expression::Variable(Identifier)), span: x.span }),
                p + 1,
            ),
            WideToken::OpenRound => parenthesized_spec(t, p),
            WideToken::HadError(e) => (Ok(ParsedNode { node: Err(NodeError::Lexer(e)), span: x.span }), p + 1),
            other => (
                Ok(ParsedNode { node: Err(NodeError::InvalidExpressionIntroducer(other)), span: x.span }),
                p + 1,
            ),
        },
    }
}

/// `(` expression `)`, starting at an open round bracket.
pub open spec fn parenthesized_spec(t: Seq<Spanned<WideToken>>, p: int) -> (
    Result<ParsedNode<Expression>, FatalParserError>,
    int,
)
    decreases t.len() - p, 0int,
    when 0 <= p < t.len()
{
    let open = ParsedNode { node: Ok(WideToken::OpenRound), span: t[p].span };
    let (inner, p1) = expression_spec(t, p + 1, 0);
    match inner {
        Err(f) => (Err(f), p1),
        Ok(inner) => {
            let (close, p2) = expect_spec(t, p1, WideToken::CloseRound);
            match close {
                Err(f) => (Err(f), p2),
                Ok(close) => (
                    Ok(
                        ParsedNode {
                            node: Ok(
                                Expression::Parenthesized(
                                    Parenthesized { open_round: open, inner: Box::new(inner), close_round: close },
                                ),
                            ),
                            span: Span { start: open.span.start, end: close.span.end },
                        },
                    ),
                    p2,
                ),
            }
        },
    }
}

/// An expression whose operators all have a left binding power of at least
/// `min`.
pub open spec fn expression_spec(t: Seq<Spanned<WideToken>>, p: int, min: u8) -> (
    Result<ParsedNode<Expression>, FatalParserError>,
    int,
)
    decreases t.len() - p, 2int,
    when 0 <= p <= t.len()
{
    let (left, p1) = primary_spec(t, p);
    match left {
        Err(f) => (Err(f), p1),
        Ok(left) => if p < p1 <= t.len() {
            climb_spec(t, p1, min, left)
        } else {
            (Ok(left), p1)
        },
    }
}

/// Folds operators and right operands into `left` while the operator at `q`
/// binds at least as tightly as `min`.
///
/// The parser's contracts show that positions only move forward; the tests
/// of position below keep the definition well founded.
pub open spec fn climb_spec(
    t: Seq<Spanned<WideToken>>,
    q: int,
    min: u8,
    left: ParsedNode<Expression>,
) -> (Result<ParsedNode<Expression>, FatalParserError>, int)
    decreases t.len() - q, 3int,
    when 0 <= q <= t.len()
{
    match token_at(t, q) {
        Some(x) => match operator_of(x.value) {
            Some(op) => if binding_powers(op).0 >= min {
                let (right, p2) = expression_spec(t, q + 1, binding_powers(op).1);
                match right {
                    Err(f) => (Err(f), p2),
                    Ok(right) => {
                        let node = ParsedNode {
                            node: Ok(
                                Expression::Binary(
                                    Binary {
                                        left: Box::new(left),
                                        operator: ParsedNode { node: Ok(op), span: x.span },
                                        right: Box::new(right),
                                    },
                                ),
                            ),
                            span: Span { start: left.span.start, end: right.span.end },
                        };
                        if q < p2 <= t.len() {
                            climb_spec(t, p2, min, node)
                        } else {
                            (Ok(node), p2)
                        }
                    },
                }
            } else {
                (Ok(left), q)
            },
            None => (Ok(left), q),
        },
        None => (Ok(left), q),
    }
}

/// The error of a token that cannot start a statement.
pub open spec fn invalid_statement(token: WideToken) -> NodeError {
    match token {
        WideToken::HadError(e) => NodeError::Lexer(e),
        _ => NodeError::InvalidStatementIntroducer(token),
    }
}

/// A statement: a `let`, or an error node for the one token that cannot
/// start a statement.
pub open spec fn statement_spec(t: Seq<Spanned<WideToken>>, p: int) -> (
    Result<ParsedNode<Statement>, FatalParserError>,
    int,
) {
    match token_at(t, p) {
        None => (Err(FatalParserError::UnexpectedEof), p),
        Some(x) => if x.value == WideToken::LetKeyword {
            let_spec(t, p)
        } else {
            (Ok(ParsedNode { node: Err(invalid_statement(x.value)), span: x.span }), p + 1)
        },
    }
}

/// Whether the token at `p` is a statement boundary: a `let` or an `end`.
pub open spec fn at_boundary(t: Seq<Spanned<WideToken>>, p: int) -> bool {
    0 <= p < t.len() && is_statement_boundary(t[p].value)
}

/// The error a node holds, with the node's span.
pub open spec fn node_error<T>(n: ParsedNode<T>) -> Option<Spanned<NodeError>> {
    match n.node {
        Err(e) => Some(Spanned { value: e, span: n.span }),
        Ok(_) => None,
    }
}

pub open spec fn first_error(
    a: Option<Spanned<NodeError>>,
    b: Option<Spanned<NodeError>>,
) -> Option<Spanned<NodeError>> {
    if a is Some {
        a
    } else {
        b
    }
}

/// A `let` that ran into the boundary at `q`, which is left for the next
/// statement or the enclosing `end`. The statement fails with the first error
/// of its slots, or with the boundary token's error when no slot held one.
pub open spec fn cut_short(t: Seq<Spanned<WideToken>>, q: int, earlier: Option<Spanned<NodeError>>) -> (
    Result<ParsedNode<Statement>, FatalParserError>,
    int,
) {
    let error = match earlier {
        Some(e) => e,
        None => Spanned { value: mismatch(t[q].value), span: t[q].span },
    };
    (Ok(ParsedNode { node: Err(error.value), span: error.span }), q)
}

/// `let` identifier `=` expression. A slot that holds an error keeps it and
/// parsing goes on with the next slot, but a slot never takes a `let` or an
/// `end`: the statement stops there as a failed one.
pub open spec fn let_spec(t: Seq<Spanned<WideToken>>, p: int) -> (
    Result<ParsedNode<Statement>, FatalParserError>,
    int,
) {
    let introducer = ParsedNode { node: Ok(WideToken::LetKeyword), span: t[p].span };
    if at_boundary(t, p + 1) {
        cut_short(t, p + 1, None)
    } else {
        let (identifier, p1) = identifier_spec(t, p + 1);
        match identifier {
            Err(f) => (Err(f), p1),
            Ok(identifier) => if at_boundary(t, p1) {
                cut_short(t, p1, node_error(identifier))
            } else {
                let (equal, p2) = expect_spec(t, p1, WideToken::Equal);
                match equal {
                    Err(f) => (Err(f), p2),
                    Ok(equal) => if at_boundary(t, p2) {
                        cut_short(t, p2, first_error(node_error(identifier), node_error(equal)))
                    } else {
                        let (value, p3) = expression_spec(t, p2, 0);
                        match value {
                            Err(f) => (Err(f), p3),
                            Ok(value) => (
                                Ok(
                                    ParsedNode {
                                        node: Ok(Statement::Let(Let { introducer, identifier, equal, value })),
                                        span: Span { start: introducer.span.start, end: value.span.end },
                                    },
                                ),
                                p3,
                            ),
                        }
                    },
                }
            },
        }
    }
}

/// No node of the expression holds an error.
pub open spec fn expression_clean(n: ParsedNode<Expression>) -> bool
    decreases n,
{
    match n.node {
        Err(_) => false,
        Ok(Expression::Binary(b)) => expression_clean(*b.left) && b.operator.node is Ok
            && expression_clean(*b.right),
        Ok(Expression::Parenthesized(p)) => p.open_round.node is Ok && expression_clean(*p.inner)
            && p.close_round.node is Ok,
        Ok(_) => true,
    }
}

/// No node of the statement holds an error.
pub open spec fn statement_clean(n: ParsedNode<Statement>) -> bool {
    match n.node {
        Ok(Statement::Let(l)) => l.introducer.node is Ok && l.identifier.node is Ok
            && l.equal.node is Ok && expression_clean(l.value),
        Err(_) => false,
    }
}

/// Where the parser may resume inside a function body.
pub open spec fn is_statement_boundary(token: WideToken) -> bool {
    token == WideToken::LetKeyword || token == WideToken::EndKeyword
}

/// Skips tokens up to the next statement boundary or the end of input.
pub open spec fn sync_statement_spec(t: Seq<Spanned<WideToken>>, p: int) -> int
    decreases t.len() - p,
    when 0 <= p <= t.len()
{
    if p < t.len() && !is_statement_boundary(t[p].value) {
        sync_statement_spec(t, p + 1)
    } else {
        p
    }
}

/// Statements up to the `end` keyword; after a statement that holds an error
/// the tokens up to the next boundary are skipped.
pub open spec fn body_spec(t: Seq<Spanned<WideToken>>, p: int) -> (
    Result<Seq<ParsedNode<Statement>>, FatalParserError>,
    int,
)
    decreases t.len() - p,
    when 0 <= p <= t.len()
{
    if p < t.len() && t[p].value == WideToken::EndKeyword {
        (Ok(Seq::empty()), p)
    } else {
        let (statement, p1) = statement_spec(t, p);
        match statement {
            Err(f) => (Err(f), p1),
            Ok(statement) => {
                let p2 = if !statement_clean(statement) {
                    sync_statement_spec(t, p1)
                } else {
                    p1
                };
                if p < p2 <= t.len() {
                    match body_spec(t, p2) {
                        (Ok(rest), p3) => (Ok(seq![statement] + rest), p3),
                        (Err(f), p3) => (Err(f), p3),
                    }
                } else {
                    (Ok(seq![statement]), p2)
                }
            },
        }
    }
}

/// `function` identifier `(` `)` body `end`.
pub open spec fn function_spec(t: Seq<Spanned<WideToken>>, p: int) -> (
    Result<ParsedNode<FunctionView>, FatalParserError>,
    int,
) {
    let introducer = ParsedNode { node: Ok(WideToken::FunctionKeyword), span: t[p].span };
    let (identifier, p1) = identifier_spec(t, p + 1);
    let (open_round, p2) = expect_spec(t, p1, WideToken::OpenRound);
    let (close_round, p3) = expect_spec(t, p2, WideToken::CloseRound);
    let (body, p4) = body_spec(t, p3);
    let (end, p5) = expect_spec(t, p4, WideToken::EndKeyword);
    if identifier is Err {
        (Err(identifier->Err_0), p1)
    } else if open_round is Err {
        (Err(open_round->Err_0), p2)
    } else if close_round is Err {
        (Err(close_round->Err_0), p3)
    } else if body is Err {
        (Err(body->Err_0), p4)
    } else if end is Err {
        (Err(end->Err_0), p5)
    } else {
        let end = end->Ok_0;
        (
            Ok(
                ParsedNode {
                    node: Ok(
                        FunctionView {
                            introducer,
                            identifier: identifier->Ok_0,
                            open_round: open_round->Ok_0,
                            close_round: close_round->Ok_0,
                            body: body->Ok_0,
                            end,
                        },
                    ),
                    span: Span { start: introducer.span.start, end: end.span.end },
                },
            ),
            p5,
        )
    }
}

pub open spec fn declaration_spec(t: Seq<Spanned<WideToken>>, p: int) -> (
    Result<ParsedNode<FunctionView>, FatalParserError>,
    int,
) {
    match token_at(t, p) {
        None => (Err(FatalParserError::UnexpectedEof), p),
        Some(x) => if x.value == WideToken::FunctionKeyword {
            function_spec(t, p)
        } else {
            (Err(FatalParserError::InvalidDeclarationIntroducer(x.value)), p + 1)
        },
    }
}

/// Skips tokens up to the next `function` keyword or the end of input.
pub open spec fn sync_declaration_spec(t: Seq<Spanned<WideToken>>, p: int) -> int
    decreases t.len() - p,
    when 0 <= p <= t.len()
{
    if p < t.len() && t[p].value != WideToken::FunctionKeyword {
        sync_declaration_spec(t, p + 1)
    } else {
        p
    }
}

/// One result per declaration until the tokens run out; after a fatal error
/// the tokens up to the next `function` keyword are skipped.
pub open spec fn program_spec(t: Seq<Spanned<WideToken>>, p: int) -> Seq<
    Result<ParsedNode<FunctionView>, FatalParserError>,
>
    decreases t.len() - p,
    when 0 <= p <= t.len()
{
    if p == t.len() {
        Seq::empty()
    } else {
        let (declaration, p1) = declaration_spec(t, p);
        let p2 = if declaration is Err {
            sync_declaration_spec(t, p1)
        } else {
            p1
        };
        if p < p2 <= t.len() {
            seq![declaration] + program_spec(t, p2)
        } else {
            seq![declaration]
        }
    }
}

} // verus!
