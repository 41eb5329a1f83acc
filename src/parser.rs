use vstd::prelude::*;
use crate::declaration_parser::DeclarationParser;
use crate::expression_parser::ExpressionParser;
use crate::grammar::{
    at_boundary,
    declaration_spec, expect_spec, expression_clean, expression_spec, identifier_spec,
    ordered, program_spec, significant, statement_clean, statement_spec, sync_declaration_spec,
    sync_statement_spec, token_at,
};
use crate::lexer::WideToken;
use crate::span::Spanned;
use crate::statement_parser::StatementParser;
use crate::token_stream::TokenStream;
use crate::tree::{
    declaration_view, declaration_views, introducer_kind, Declaration, Expression, FatalParserError, Identifier,
    IntroducerKind, NodeError, ParsedNode, Statement,
};

verus! {

/// Error-tolerant recursive-descent parser over wide tokens.
pub struct Parser {
    pub(crate) tokens: TokenStream,
}

/// Where the statement after `p` starts: a statement that holds an error has
/// the tokens up to the next boundary skipped after it.
pub open spec fn after_statement(t: Seq<Spanned<WideToken>>, p: int) -> int {
    let (statement, p1) = statement_spec(t, p);
    if statement is Ok && !statement_clean(statement->Ok_0) {
        sync_statement_spec(t, p1)
    } else {
        p1
    }
}

/// Whether any node of the statement holds an error.
fn statement_holds_error(statement: &ParsedNode<Statement>) -> (r: bool)
    ensures
        r == !statement_clean(*statement),
{
    match &statement.node {
        Ok(Statement::Let(let_)) => let_.introducer.node.is_err() || let_.identifier.node.is_err()
            || let_.equal.node.is_err() || expression_holds_error(&let_.value),
        Err(_) => true,
    }
}

/// Whether any node of the expression holds an error.
fn expression_holds_error(expression: &ParsedNode<Expression>) -> (r: bool)
    ensures
        r == !expression_clean(*expression),
    decreases *expression,
{
    match &expression.node {
        Ok(Expression::Binary(binary)) => expression_holds_error(&binary.left)
            || binary.operator.node.is_err() || expression_holds_error(&binary.right),
        Ok(Expression::Parenthesized(parenthesized)) => parenthesized.open_round.node.is_err()
            || expression_holds_error(&parenthesized.inner) || parenthesized.close_round.node.is_err(),
        Ok(_) => false,
        Err(_) => true,
    }
}

impl Parser {
    pub open(crate) spec fn toks(&self) -> Seq<Spanned<WideToken>> {
        self.tokens.toks()
    }

    pub open(crate) spec fn pos(&self) -> int {
        self.tokens.pos()
    }

    pub open(crate) spec fn wf(&self) -> bool {
        self.tokens.wf()
    }

    pub open spec fn remaining(&self) -> int {
        self.toks().len() - self.pos()
    }

    pub proof fn lemma_wf(&self)
        requires
            self.wf(),
        ensures
            0 <= self.pos() <= self.toks().len(),
            ordered(self.toks()),
    {
        self.tokens.lemma_wf();
    }

    /// Parses every declaration in `tokens`, one result per declaration.
    /// Invisible and comment tokens are left out first.
    pub fn parse(tokens: Vec<Spanned<WideToken>>) -> (r: Vec<Result<ParsedNode<Declaration>, FatalParserError>>)
        requires
            ordered(tokens@),
        ensures
            declaration_views(r@) == program_spec(significant(tokens@), 0),
    {
        let mut parser = Parser::new(tokens);
        let ghost t = parser.toks();
        let mut out: Vec<Result<ParsedNode<Declaration>, FatalParserError>> = Vec::new();
        assert(declaration_views(out@) + program_spec(t, 0) =~= program_spec(t, 0));
        while !parser.tokens.is_eof()
            invariant
                parser.wf(),
                parser.toks() == t,
                t == significant(tokens@),
                declaration_views(out@) + program_spec(t, parser.pos()) == program_spec(t, 0),
            decreases parser.remaining(),
        {
            proof {
                parser.lemma_wf();
            }
            let ghost p = parser.pos();
            let declaration = parser.parse_declaration();
            proof {
                parser.lemma_wf();
                let d = declaration_view(declaration);
                assert(program_spec(t, p) == seq![d] + program_spec(t, parser.pos()));
                assert(declaration_views(out@.push(declaration)) =~= declaration_views(out@).push(d));
                assert(declaration_views(out@).push(d) + program_spec(t, parser.pos()) =~= declaration_views(
                    out@,
                ) + (seq![d] + program_spec(t, parser.pos())));
            }
            out.push(declaration);
        }
        proof {
            parser.lemma_wf();
        }
        assert(declaration_views(out@) =~= declaration_views(out@) + program_spec(t, parser.pos()));
        out
    }

    pub fn new(tokens: Vec<Spanned<WideToken>>) -> (r: Parser)
        requires
            ordered(tokens@),
        ensures
            r.wf(),
            r.toks() == significant(tokens@),
            r.pos() == 0,
    {
        Parser { tokens: TokenStream::new(tokens) }
    }

    /// Parses one declaration; after a fatal error, skips to the next
    /// `function` keyword or the end of input.
    pub(crate) fn parse_declaration(&mut self) -> (r: Result<ParsedNode<Declaration>, FatalParserError>)
        requires
            old(self).wf(),
        ensures
            final(self).wf(),
            final(self).toks() == old(self).toks(),
            declaration_view(r) == declaration_spec(old(self).toks(), old(self).pos()).0,
            r is Ok ==> final(self).pos() == declaration_spec(old(self).toks(), old(self).pos()).1,
            r is Err ==> final(self).pos() == sync_declaration_spec(
                old(self).toks(),
                declaration_spec(old(self).toks(), old(self).pos()).1,
            ),
            r is Err ==> final(self).pos() == final(self).toks().len()
                || final(self).toks()[final(self).pos()].value == WideToken::FunctionKeyword,
            old(self).pos() < old(self).toks().len() ==> final(self).pos() > old(self).pos(),
    {
        let declaration = DeclarationParser::parse(self);
        if declaration.is_err() {
            self.synchronize_declarations();
        }
        declaration
    }

    /// Parses one statement; after one that holds an error, skips to the next
    /// boundary.
    pub(crate) fn parse_statement(&mut self) -> (r: Result<ParsedNode<Statement>, FatalParserError>)
        requires
            old(self).wf(),
        ensures
            final(self).wf(),
            final(self).toks() == old(self).toks(),
            final(self).pos() >= old(self).pos(),
            r == statement_spec(old(self).toks(), old(self).pos()).0,
            r is Ok ==> final(self).pos() == after_statement(old(self).toks(), old(self).pos())
                && final(self).pos() > old(self).pos(),
            r is Err ==> final(self).pos() == statement_spec(old(self).toks(), old(self).pos()).1,
    {
        let statement = StatementParser::parse(self);
        let failed = match &statement {
            Ok(parsed) => statement_holds_error(parsed),
            Err(_) => false,
        };
        if failed {
            self.synchronize_statements();
        }
        statement
    }

    pub(crate) fn parse_expression(&mut self) -> (r: Result<ParsedNode<Expression>, FatalParserError>)
        requires
            old(self).wf(),
        ensures
            final(self).wf(),
            final(self).toks() == old(self).toks(),
            final(self).pos() >= old(self).pos(),
            (r, final(self).pos()) == expression_spec(old(self).toks(), old(self).pos(), 0),
            r is Ok ==> old(self).pos() < final(self).pos() && r->Ok_0.span == crate::grammar::cover(
                old(self).toks(),
                old(self).pos(),
                final(self).pos(),
            ),
    {
        ExpressionParser::parse(self)
    }

    /// What the next token can introduce; `Other` at the end of input.
    pub(crate) fn token_introducer_kind(&self) -> (r: IntroducerKind)
        requires
            self.wf(),
        ensures
            r == match token_at(self.toks(), self.pos()) {
                Some(x) => introducer_kind(x.value),
                None => IntroducerKind::Other,
            },
    {
        match self.tokens.peek() {
            Some(token) => IntroducerKind::of(&token.value),
            None => IntroducerKind::Other,
        }
    }

    /// Whether the next token is a `let` or an `end`.
    pub(crate) fn at_statement_boundary(&self) -> (r: bool)
        requires
            self.wf(),
        ensures
            r == at_boundary(self.toks(), self.pos()),
    {
        match self.tokens.peek() {
            Some(token) => token.value == WideToken::LetKeyword || token.value == WideToken::EndKeyword,
            None => false,
        }
    }

    pub(crate) fn parse_identifier(&mut self) -> (r: Result<ParsedNode<Identifier>, FatalParserError>)
        requires
            old(self).wf(),
        ensures
            final(self).wf(),
            final(self).toks() == old(self).toks(),
            (r, final(self).pos()) == identifier_spec(old(self).toks(), old(self).pos()),
    {
        match self.tokens.next() {
            Some(token) => {
                if token.value == WideToken::Identifier {
                    Ok(ParsedNode::new(Ok(Identifier), token.span))
                } else if token.value.had_error() {
                    Ok(ParsedNode::new(Err(NodeError::Lexer(token.value.as_error())), token.span))
                } else {
                    Ok(ParsedNode::new(Err(NodeError::UnexpectedToken(token.value)), token.span))
                }
            },
            None => Err(FatalParserError::UnexpectedEof),
        }
    }

    /// Consumes one token where `kind` is expected.
    pub(crate) fn expect(&mut self, kind: WideToken) -> (r: Result<ParsedNode<WideToken>, FatalParserError>)
        requires
            old(self).wf(),
        ensures
            final(self).wf(),
            final(self).toks() == old(self).toks(),
            (r, final(self).pos()) == expect_spec(old(self).toks(), old(self).pos(), kind),
    {
        match self.tokens.next() {
            Some(token) => {
                if token.value == kind {
                    Ok(ParsedNode::new(Ok(token.value), token.span))
                } else if token.value.had_error() {
                    Ok(ParsedNode::new(Err(NodeError::Lexer(token.value.as_error())), token.span))
                } else {
                    Ok(ParsedNode::new(Err(NodeError::UnexpectedToken(token.value)), token.span))
                }
            },
            None => Err(FatalParserError::UnexpectedEof),
        }
    }

    /// Skips tokens until a statement boundary or the end of input.
    fn synchronize_statements(&mut self)
        requires
            old(self).wf(),
        ensures
            final(self).wf(),
            final(self).toks() == old(self).toks(),
            final(self).pos() == sync_statement_spec(old(self).toks(), old(self).pos()),
            final(self).pos() >= old(self).pos(),
    {
        let ghost t = self.toks();
        let ghost p0 = self.pos();
        proof {
            self.lemma_wf();
        }
        loop
            invariant
                self.wf(),
                self.toks() == t,
                t == old(self).toks(),
                p0 == old(self).pos(),
                p0 <= self.pos() <= t.len(),
                sync_statement_spec(t, p0) == sync_statement_spec(t, self.pos()),
            decreases self.remaining(),
        {
            proof {
                self.lemma_wf();
            }
            match self.tokens.peek() {
                Some(token) => {
                    if token.value == WideToken::LetKeyword || token.value == WideToken::EndKeyword {
                        return;
                    }
                    self.tokens.next();
                },
                None => {
                    return;
                },
            }
        }
    }

    /// Skips tokens until a `function` keyword or the end of input.
    fn synchronize_declarations(&mut self)
        requires
            old(self).wf(),
        ensures
            final(self).wf(),
            final(self).toks() == old(self).toks(),
            final(self).pos() == sync_declaration_spec(old(self).toks(), old(self).pos()),
            final(self).pos() >= old(self).pos(),
            final(self).pos() == final(self).toks().len() || final(self).toks()[final(self).pos()].value
                == WideToken::FunctionKeyword,
    {
        let ghost t = self.toks();
        let ghost p0 = self.pos();
        proof {
            self.lemma_wf();
        }
        loop
            invariant
                self.wf(),
                self.toks() == t,
                t == old(self).toks(),
                p0 == old(self).pos(),
                p0 <= self.pos() <= t.len(),
                sync_declaration_spec(t, p0) == sync_declaration_spec(t, self.pos()),
            decreases self.remaining(),
        {
            proof {
                self.lemma_wf();
            }
            match self.tokens.peek() {
                Some(token) => {
                    if token.value == WideToken::FunctionKeyword {
                        return;
                    }
                    self.tokens.next();
                },
                None => {
                    return;
                },
            }
        }
    }
}

} // verus!
