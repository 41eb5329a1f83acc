use vstd::prelude::*;
use crate::grammar::{at_boundary, cover, cut_short, let_spec, statement_spec, token_at};
use crate::span::Spanned;
use crate::lexer::WideToken;
use crate::parser::Parser;
use crate::tree::{introducer_kind, FatalParserError, IntroducerKind, Let, NodeError, ParsedNode, Statement};

verus! {

/// Parses statements of a function body.
pub struct StatementParser;

impl StatementParser {
    /// Parses one statement at the parser's cursor.
    pub fn parse(parser: &mut Parser) -> (r: Result<ParsedNode<Statement>, FatalParserError>)
        requires
            old(parser).wf(),
        ensures
            final(parser).wf(),
            final(parser).toks() == old(parser).toks(),
            final(parser).pos() >= old(parser).pos(),
            (r, final(parser).pos()) == statement_spec(old(parser).toks(), old(parser).pos()),
            r is Ok ==> old(parser).pos() < final(parser).pos(),
    {
        proof {
            parser.lemma_wf();
        }
        match parser.token_introducer_kind() {
            IntroducerKind::Statement => Self::parse_let(parser),
            _ => Self::invalid_introducer(parser),
        }
    }

    /// An error node for the one token that cannot start a statement.
    fn invalid_introducer(parser: &mut Parser) -> (r: Result<ParsedNode<Statement>, FatalParserError>)
        requires
            old(parser).wf(),
            match token_at(old(parser).toks(), old(parser).pos()) {
                Some(x) => introducer_kind(x.value) != IntroducerKind::Statement,
                None => true,
            },
        ensures
            final(parser).wf(),
            final(parser).toks() == old(parser).toks(),
            final(parser).pos() >= old(parser).pos(),
            (r, final(parser).pos()) == statement_spec(old(parser).toks(), old(parser).pos()),
            r is Ok ==> old(parser).pos() < final(parser).pos(),
    {
        match parser.tokens.next() {
            Some(token) => {
                if token.value.had_error() {
                    Ok(ParsedNode::new(Err(NodeError::Lexer(token.value.as_error())), token.span))
                } else {
                    Ok(ParsedNode::new(Err(NodeError::InvalidStatementIntroducer(token.value)), token.span))
                }
            },
            None => Err(FatalParserError::UnexpectedEof),
        }
    }

    /// `let` identifier `=` expression. A slot that holds an error keeps it
    /// and parsing goes on; a `let` or `end` where a slot stands ends the
    /// statement as a failed one and is left unconsumed.
    fn parse_let(parser: &mut Parser) -> (r: Result<ParsedNode<Statement>, FatalParserError>)
        requires
            old(parser).wf(),
            token_at(old(parser).toks(), old(parser).pos()) matches Some(x) && x.value
                == WideToken::LetKeyword,
        ensures
            final(parser).wf(),
            final(parser).toks() == old(parser).toks(),
            final(parser).pos() >= old(parser).pos(),
            (r, final(parser).pos()) == let_spec(old(parser).toks(), old(parser).pos()),
            r is Ok ==> old(parser).pos() < final(parser).pos(),
    {
        let ghost t = parser.toks();
        let ghost p0 = parser.pos();
        proof {
            parser.lemma_wf();
        }
        let introducer = match parser.expect(WideToken::LetKeyword) {
            Ok(introducer) => introducer,
            Err(e) => {
                return Err(e);
            },
        };
        if parser.at_statement_boundary() {
            return Ok(Self::cut_short(parser, None));
        }
        let identifier = match parser.parse_identifier() {
            Ok(identifier) => identifier,
            Err(e) => {
                return Err(e);
            },
        };
        if parser.at_statement_boundary() {
            return Ok(Self::cut_short(parser, node_error(&identifier)));
        }
        let equal = match parser.expect(WideToken::Equal) {
            Ok(equal) => equal,
            Err(e) => {
                return Err(e);
            },
        };
        if parser.at_statement_boundary() {
            let earlier = match node_error(&identifier) {
                Some(e) => Some(e),
                None => node_error(&equal),
            };
            return Ok(Self::cut_short(parser, earlier));
        }
        let ghost p2 = parser.pos();
        let value = match parser.parse_expression() {
            Ok(value) => value,
            Err(e) => {
                return Err(e);
            },
        };
        proof {
            parser.lemma_wf();
            assert(value.span == cover(t, p2, parser.pos()));
            assert(t[p0].span.end <= t[p2].span.start);
            assert(t[p2].span.wf());
            assert(t[parser.pos() - 1].span.wf());
        }
        let span = introducer.span.join(value.span);
        Ok(ParsedNode::new(Ok(Statement::Let(Let { introducer, identifier, equal, value })), span))
    }

    /// The failed statement of a `let` that ran into the boundary under the
    /// cursor.
    fn cut_short(parser: &Parser, earlier: Option<Spanned<NodeError>>) -> (r: ParsedNode<Statement>)
        requires
            parser.wf(),
            at_boundary(parser.toks(), parser.pos()),
        ensures
            (Ok::<ParsedNode<Statement>, FatalParserError>(r), parser.pos()) == cut_short(
                parser.toks(),
                parser.pos(),
                earlier,
            ),
    {
        let error = match earlier {
            Some(e) => e,
            None => {
                let token = parser.tokens.peek().unwrap();
                Spanned::new(NodeError::UnexpectedToken(token.value), token.span)
            },
        };
        ParsedNode::new(Err(error.value), error.span)
    }
}

/// The error a node holds, with the node's span.
fn node_error<T>(n: &ParsedNode<T>) -> (r: Option<Spanned<NodeError>>)
    ensures
        r == crate::grammar::node_error(*n),
{
    match &n.node {
        Err(e) => Some(Spanned::new(*e, n.span)),
        Ok(_) => None,
    }
}

} // verus!
