use vstd::prelude::*;
use crate::grammar::{climb_spec, cover, expression_spec, parenthesized_spec, primary_spec, token_at};
use crate::lexer::WideToken;
use crate::parser::Parser;
use crate::tree::{
    introducer_kind, operator_of, Binary, BinaryOperator, Expression, FatalParserError, Identifier,
    IntroducerKind, NodeError, Parenthesized, ParsedNode,
};

verus! {

/// Parses expressions by precedence climbing.
pub struct ExpressionParser;

impl ExpressionParser {
    /// Parses one expression at the parser's cursor.
    pub fn parse(parser: &mut Parser) -> (r: Result<ParsedNode<Expression>, FatalParserError>)
        requires
            old(parser).wf(),
        ensures
            final(parser).wf(),
            final(parser).toks() == old(parser).toks(),
            final(parser).pos() >= old(parser).pos(),
            (r, final(parser).pos()) == expression_spec(old(parser).toks(), old(parser).pos(), 0),
            r is Ok ==> old(parser).pos() < final(parser).pos() && r->Ok_0.span == cover(
                old(parser).toks(),
                old(parser).pos(),
                final(parser).pos(),
            ),
    {
        Self::parse_with_precedence(parser, 0)
    }

    fn parse_with_precedence(parser: &mut Parser, minimal_precedence: u8) -> (r: Result<
        ParsedNode<Expression>,
        FatalParserError,
    >)
        requires
            old(parser).wf(),
        ensures
            final(parser).wf(),
            final(parser).toks() == old(parser).toks(),
            final(parser).pos() >= old(parser).pos(),
            (r, final(parser).pos()) == expression_spec(
                old(parser).toks(),
                old(parser).pos(),
                minimal_precedence,
            ),
            r is Ok ==> old(parser).pos() < final(parser).pos() && r->Ok_0.span == cover(
                old(parser).toks(),
                old(parser).pos(),
                final(parser).pos(),
            ),
        decreases old(parser).remaining(), 3int,
    {
        let ghost t = parser.toks();
        let ghost p0 = parser.pos();
        proof {
            parser.lemma_wf();
        }
        let mut left = match Self::parse_primary(parser) {
            Ok(left) => left,
            Err(e) => {
                return Err(e);
            },
        };
        proof {
            parser.lemma_wf();
        }
        loop
            invariant
                parser.wf(),
                parser.toks() == t,
                t == old(parser).toks(),
                p0 == old(parser).pos(),
                0 <= p0,
                p0 < parser.pos() <= t.len(),
                left.span == cover(t, p0, parser.pos()),
                expression_spec(t, p0, minimal_precedence) == climb_spec(
                    t,
                    parser.pos(),
                    minimal_precedence,
                    left,
                ),
            decreases parser.remaining(),
        {
            let ghost q = parser.pos();
            proof {
                parser.lemma_wf();
            }
            let operator = match Self::peek_binary_operator(parser) {
                Some(operator) => operator,
                None => {
                    return Ok(left);
                },
            };
            let (left_precedence, right_precedence) = operator.precedence();
            if left_precedence < minimal_precedence {
                return Ok(left);
            }
            let operator = Self::parse_binary_operator(parser, operator);
            let right = match Self::parse_with_precedence(parser, right_precedence) {
                Ok(right) => right,
                Err(e) => {
                    return Err(e);
                },
            };
            proof {
                parser.lemma_wf();
                assert(t[q - 1].span.end <= t[q + 1].span.start);
                assert(t[p0].span.wf());
                assert(t[parser.pos() - 1].span.wf());
            }
            let span = left.span.join(right.span);
            left = ParsedNode::new(
                Ok(Expression::Binary(Binary { left: Box::new(left), operator, right: Box::new(right) })),
                span,
            );
        }
    }

    fn peek_binary_operator(parser: &Parser) -> (r: Option<BinaryOperator>)
        requires
            parser.wf(),
        ensures
            r == match token_at(parser.toks(), parser.pos()) {
                Some(x) => operator_of(x.value),
                None => None,
            },
    {
        match parser.tokens.peek() {
            Some(token) => BinaryOperator::from_token(&token.value),
            None => None,
        }
    }

    fn parse_binary_operator(parser: &mut Parser, peeked_operator: BinaryOperator) -> (r: ParsedNode<
        BinaryOperator,
    >)
        requires
            old(parser).wf(),
            old(parser).pos() < old(parser).toks().len(),
        ensures
            final(parser).wf(),
            final(parser).toks() == old(parser).toks(),
            final(parser).pos() == old(parser).pos() + 1,
            r == (ParsedNode {
                node: Ok(peeked_operator),
                span: old(parser).toks()[old(parser).pos()].span,
            }),
    {
        proof {
            parser.lemma_wf();
        }
        let token = parser.tokens.next().unwrap();
        ParsedNode::new(Ok(peeked_operator), token.span)
    }

    fn parse_primary(parser: &mut Parser) -> (r: Result<ParsedNode<Expression>, FatalParserError>)
        requires
            old(parser).wf(),
        ensures
            final(parser).wf(),
            final(parser).toks() == old(parser).toks(),
            final(parser).pos() >= old(parser).pos(),
            (r, final(parser).pos()) == primary_spec(old(parser).toks(), old(parser).pos()),
            r is Ok ==> old(parser).pos() < final(parser).pos() && r->Ok_0.span == cover(
                old(parser).toks(),
                old(parser).pos(),
                final(parser).pos(),
            ),
        decreases old(parser).remaining(), 2int,
    {
        proof {
            parser.lemma_wf();
        }
        match parser.token_introducer_kind() {
            IntroducerKind::Expression => Self::parse_primary_unchecked(parser),
            _ => Self::invalid_primary(parser),
        }
    }

    /// An error node for the one token that cannot start an expression.
    fn invalid_primary(parser: &mut Parser) -> (r: Result<ParsedNode<Expression>, FatalParserError>)
        requires
            old(parser).wf(),
            match token_at(old(parser).toks(), old(parser).pos()) {
                Some(x) => introducer_kind(x.value) != IntroducerKind::Expression,
                None => true,
            },
        ensures
            final(parser).wf(),
            final(parser).toks() == old(parser).toks(),
            final(parser).pos() >= old(parser).pos(),
            (r, final(parser).pos()) == primary_spec(old(parser).toks(), old(parser).pos()),
            r is Ok ==> old(parser).pos() < final(parser).pos() && r->Ok_0.span == cover(
                old(parser).toks(),
                old(parser).pos(),
                final(parser).pos(),
            ),
    {
        proof {
            parser.lemma_wf();
        }
        match parser.tokens.next() {
            Some(token) => {
                if NodeError::is_had_error(&token.value) {
                    Ok(ParsedNode::new(Err(NodeError::Lexer(token.value.as_error())), token.span))
                } else {
                    Ok(ParsedNode::new(Err(NodeError::InvalidExpressionIntroducer(token.value)), token.span))
                }
            },
            None => Err(FatalParserError::UnexpectedEof),
        }
    }

    /// Parses a primary whose first token is known to start an expression.
    fn parse_primary_unchecked(parser: &mut Parser) -> (r: Result<ParsedNode<Expression>, FatalParserError>)
        requires
            old(parser).wf(),
            token_at(old(parser).toks(), old(parser).pos()) matches Some(x) && introducer_kind(x.value)
                == IntroducerKind::Expression,
        ensures
            final(parser).wf(),
            final(parser).toks() == old(parser).toks(),
            final(parser).pos() >= old(parser).pos(),
            (r, final(parser).pos()) == primary_spec(old(parser).toks(), old(parser).pos()),
            r is Ok ==> old(parser).pos() < final(parser).pos() && r->Ok_0.span == cover(
                old(parser).toks(),
                old(parser).pos(),
                final(parser).pos(),
            ),
        decreases old(parser).remaining(), 1int,
    {
        proof {
            parser.lemma_wf();
        }
        match parser.tokens.peek() {
            Some(token) => {
                if token.value == WideToken::Integer {
                    parser.tokens.next();
                    Ok(ParsedNode::new(Ok(Expression::Integer), token.span))
                } else if token.value == WideToken::Identifier {
                    parser.tokens.next();
                    Ok(ParsedNode::new(Ok(Expression::Variable(Identifier)), token.span))
                } else if token.value == WideToken::OpenRound {
                    Self::parse_parenthesized(parser)
                } else {
                    Err(FatalParserError::CompilerBug)
                }
            },
            None => Err(FatalParserError::CompilerBug),
        }
    }

    fn parse_parenthesized(parser: &mut Parser) -> (r: Result<ParsedNode<Expression>, FatalParserError>)
        requires
            old(parser).wf(),
            token_at(old(parser).toks(), old(parser).pos()) matches Some(x) && x.value
                == WideToken::OpenRound,
        ensures
            final(parser).wf(),
            final(parser).toks() == old(parser).toks(),
            final(parser).pos() >= old(parser).pos(),
            (r, final(parser).pos()) == parenthesized_spec(old(parser).toks(), old(parser).pos()),
            r is Ok ==> old(parser).pos() < final(parser).pos() && r->Ok_0.span == cover(
                old(parser).toks(),
                old(parser).pos(),
                final(parser).pos(),
            ),
        decreases old(parser).remaining(), 0int,
    {
        let ghost t = parser.toks();
        let ghost p0 = parser.pos();
        proof {
            parser.lemma_wf();
        }
        let open_round = match parser.expect(WideToken::OpenRound) {
            Ok(open_round) => open_round,
            Err(e) => {
                return Err(e);
            },
        };
        let inner = match Self::parse_with_precedence(parser, 0) {
            Ok(inner) => inner,
            Err(e) => {
                return Err(e);
            },
        };
        let close_round = match parser.expect(WideToken::CloseRound) {
            Ok(close_round) => close_round,
            Err(e) => {
                return Err(e);
            },
        };
        proof {
            parser.lemma_wf();
            assert(t[p0].span.end <= t[parser.pos() - 1].span.start);
        }
        let span = open_round.span.join(close_round.span);
        Ok(
            ParsedNode::new(
                Ok(
                    Expression::Parenthesized(
                        Parenthesized { open_round, inner: Box::new(inner), close_round },
                    ),
                ),
                span,
            ),
        )
    }
}

} // verus!
