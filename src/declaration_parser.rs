use vstd::prelude::*;
use crate::grammar::{body_spec, declaration_spec, function_spec, token_at};
use crate::lexer::WideToken;
use crate::parser::{after_statement, Parser};
use crate::tree::{
    declaration_view, introducer_kind, Declaration, FatalParserError, Function, IntroducerKind,
    ParsedNode, Statement,
};

verus! {

/// Parses top-level declarations.
pub struct DeclarationParser;

/// The statements of `prefix` put in front of a parsed body.
pub open spec fn prepend(
    prefix: Seq<ParsedNode<Statement>>,
    parsed: (Result<Seq<ParsedNode<Statement>>, FatalParserError>, int),
) -> (Result<Seq<ParsedNode<Statement>>, FatalParserError>, int) {
    match parsed.0 {
        Ok(rest) => (Ok(prefix + rest), parsed.1),
        Err(e) => (Err(e), parsed.1),
    }
}

impl DeclarationParser {
    /// Parses one declaration at the parser's cursor.
    pub fn parse(parser: &mut Parser) -> (r: Result<ParsedNode<Declaration>, FatalParserError>)
        requires
            old(parser).wf(),
        ensures
            final(parser).wf(),
            final(parser).toks() == old(parser).toks(),
            final(parser).pos() >= old(parser).pos(),
            (declaration_view(r), final(parser).pos()) == declaration_spec(old(parser).toks(), old(parser).pos()),
            old(parser).pos() < old(parser).toks().len() ==> final(parser).pos() > old(parser).pos(),
    {
        proof {
            parser.lemma_wf();
        }
        match parser.token_introducer_kind() {
            IntroducerKind::Declaration => Self::parse_function(parser),
            _ => Self::invalid_introducer(parser),
        }
    }

    /// Consumes the token that cannot start a declaration; fatal.
    fn invalid_introducer(parser: &mut Parser) -> (r: Result<ParsedNode<Declaration>, FatalParserError>)
        requires
            old(parser).wf(),
            match token_at(old(parser).toks(), old(parser).pos()) {
                Some(x) => introducer_kind(x.value) != IntroducerKind::Declaration,
                None => true,
            },
        ensures
            final(parser).wf(),
            final(parser).toks() == old(parser).toks(),
            final(parser).pos() >= old(parser).pos(),
            (declaration_view(r), final(parser).pos()) == declaration_spec(old(parser).toks(), old(parser).pos()),
            old(parser).pos() < old(parser).toks().len() ==> final(parser).pos() > old(parser).pos(),
    {
        proof {
            parser.lemma_wf();
        }
        match parser.tokens.next() {
            Some(token) => Err(FatalParserError::InvalidDeclarationIntroducer(token.value)),
            None => Err(FatalParserError::UnexpectedEof),
        }
    }

    fn parse_function(parser: &mut Parser) -> (r: Result<ParsedNode<Declaration>, FatalParserError>)
        requires
            old(parser).wf(),
            token_at(old(parser).toks(), old(parser).pos()) matches Some(x) && x.value
                == WideToken::FunctionKeyword,
        ensures
            final(parser).wf(),
            final(parser).toks() == old(parser).toks(),
            final(parser).pos() >= old(parser).pos(),
            (declaration_view(r), final(parser).pos()) == function_spec(old(parser).toks(), old(parser).pos()),
            final(parser).pos() > old(parser).pos(),
    {
        let ghost t = parser.toks();
        let ghost p0 = parser.pos();
        proof {
            parser.lemma_wf();
        }
        let introducer = match parser.expect(WideToken::FunctionKeyword) {
            Ok(introducer) => introducer,
            Err(e) => {
                return Err(e);
            },
        };
        let identifier = match parser.parse_identifier() {
            Ok(identifier) => identifier,
            Err(e) => {
                return Err(e);
            },
        };
        let open_round = match parser.expect(WideToken::OpenRound) {
            Ok(open_round) => open_round,
            Err(e) => {
                return Err(e);
            },
        };
        let close_round = match parser.expect(WideToken::CloseRound) {
            Ok(close_round) => close_round,
            Err(e) => {
                return Err(e);
            },
        };
        let body = match Self::parse_function_body(parser) {
            Ok(body) => body,
            Err(e) => {
                return Err(e);
            },
        };
        let end = match parser.expect(WideToken::EndKeyword) {
            Ok(end) => end,
            Err(e) => {
                return Err(e);
            },
        };
        proof {
            parser.lemma_wf();
            assert(t[p0].span.end <= t[parser.pos() - 1].span.start);
            assert(t[p0].span.wf());
            assert(t[parser.pos() - 1].span.wf());
        }
        let span = introducer.span.join(end.span);
        let function = Function { introducer, identifier, open_round, close_round, body, end };
        Ok(ParsedNode::new(Ok(Declaration::Function(function)), span))
    }

    /// Statements up to, not including, the `end` keyword.
    fn parse_function_body(parser: &mut Parser) -> (r: Result<Vec<ParsedNode<Statement>>, FatalParserError>)
        requires
            old(parser).wf(),
        ensures
            final(parser).wf(),
            final(parser).toks() == old(parser).toks(),
            final(parser).pos() >= old(parser).pos(),
            body_spec(old(parser).toks(), old(parser).pos()) == (match r {
                Ok(body) => Ok(body@),
                Err(e) => Err(e),
            }, final(parser).pos()),
    {
        let ghost t = parser.toks();
        let ghost p0 = parser.pos();
        let mut body: Vec<ParsedNode<Statement>> = Vec::new();
        proof {
            parser.lemma_wf();
            assert(body_spec(t, p0) == prepend(body@, body_spec(t, p0))) by {
                match body_spec(t, p0).0 {
                    Ok(rest) => {
                        assert(body@ + rest =~= rest);
                    },
                    Err(e) => {},
                }
            }
        }
        while !Self::is_function_body_end(parser)
            invariant
                parser.wf(),
                parser.toks() == t,
                t == old(parser).toks(),
                p0 == old(parser).pos(),
                0 <= p0,
                p0 <= parser.pos() <= t.len(),
                body_spec(t, p0) == prepend(body@, body_spec(t, parser.pos())),
            decreases parser.remaining(),
        {
            let ghost p = parser.pos();
            let statement = match parser.parse_statement() {
                Ok(statement) => statement,
                Err(e) => {
                    return Err(e);
                },
            };
            proof {
                parser.lemma_wf();
                let p2 = parser.pos();
                assert(p2 == after_statement(t, p));
                assert(body_spec(t, p) == prepend(seq![statement], body_spec(t, p2)));
                match body_spec(t, p2).0 {
                    Ok(rest) => {
                        assert(body@ + (seq![statement] + rest) =~= body@.push(statement) + rest);
                    },
                    Err(e) => {},
                }
            }
            body.push(statement);
        }
        proof {
            parser.lemma_wf();
            assert(body@ + Seq::<ParsedNode<Statement>>::empty() =~= body@);
        }
        Ok(body)
    }

    fn is_function_body_end(parser: &Parser) -> (r: bool)
        requires
            parser.wf(),
        ensures
            r == (token_at(parser.toks(), parser.pos()) matches Some(x) && x.value == WideToken::EndKeyword),
    {
        match parser.tokens.peek() {
            Some(token) => token.value == WideToken::EndKeyword,
            None => false,
        }
    }
}

} // verus!
