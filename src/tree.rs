use vstd::prelude::*;
use crate::lexer::{LexerError, WideToken};
use crate::span::Span;

verus! {

/// An error that stops the parse of a declaration.
#[derive(Debug, Clone, Copy, PartialEq, Eq, Structural)]
pub enum FatalParserError {
    /// A top-level token that cannot start a declaration.
    InvalidDeclarationIntroducer(WideToken),
    /// An internal assumption of the parser failed.
    CompilerBug,
    /// A token was needed but the input had run out.
    UnexpectedEof,
}

/// An error held by one node of the tree; the rest of the tree is unaffected.
#[derive(Debug, Clone, Copy, PartialEq, Eq, Structural)]
pub enum NodeError {
    UnexpectedToken(WideToken),
    InvalidStatementIntroducer(WideToken),
    InvalidExpressionIntroducer(WideToken),
    /// A lexical error token met where a node was being parsed.
    Lexer(LexerError),
}

impl NodeError {
    pub fn is_had_error(token_kind: &WideToken) -> (r: bool)
        ensures
            r == (*token_kind is HadError),
    {
        matches!(token_kind, WideToken::HadError(_))
    }
}

/// What kind of construct a token can start.
#[derive(Debug, Clone, Copy, PartialEq, Eq, Structural)]
pub enum IntroducerKind {
    Declaration,
    Statement,
    Expression,
    Other,
}

pub open spec fn introducer_kind(token: WideToken) -> IntroducerKind {
    match token {
        WideToken::FunctionKeyword => IntroducerKind::Declaration,
        WideToken::LetKeyword => IntroducerKind::Statement,
        WideToken::Identifier | WideToken::Integer | WideToken::OpenRound => IntroducerKind::Expression,
        _ => IntroducerKind::Other,
    }
}

impl IntroducerKind {
    pub fn of(token: &WideToken) -> (r: IntroducerKind)
        ensures
            r == introducer_kind(*token),
    {
        match token {
            WideToken::FunctionKeyword => IntroducerKind::Declaration,
            WideToken::LetKeyword => IntroducerKind::Statement,
            WideToken::Identifier | WideToken::Integer | WideToken::OpenRound => IntroducerKind::Expression,
            _ => IntroducerKind::Other,
        }
    }
}

/// A node of the tree, or the error found in its place, with its span.
#[derive(Debug)]
pub struct ParsedNode<T> {
    pub node: Result<T, NodeError>,
    pub span: Span,
}

impl<T> ParsedNode<T> {
    pub fn new(node: Result<T, NodeError>, span: Span) -> (r: ParsedNode<T>)
        ensures
            r == (ParsedNode { node, span }),
    {
        ParsedNode { node, span }
    }
}

#[derive(Debug, Clone, Copy, PartialEq, Eq, Structural)]
pub struct Identifier;

#[derive(Debug)]
pub enum Declaration {
    Function(Function),
}

#[derive(Debug)]
pub struct Function {
    pub introducer: ParsedNode<WideToken>,
    pub identifier: ParsedNode<Identifier>,
    pub open_round: ParsedNode<WideToken>,
    pub close_round: ParsedNode<WideToken>,
    pub body: Vec<ParsedNode<Statement>>,
    pub end: ParsedNode<WideToken>,
}

/// A function declaration with its body as a sequence.
pub struct FunctionView {
    pub introducer: ParsedNode<WideToken>,
    pub identifier: ParsedNode<Identifier>,
    pub open_round: ParsedNode<WideToken>,
    pub close_round: ParsedNode<WideToken>,
    pub body: Seq<ParsedNode<Statement>>,
    pub end: ParsedNode<WideToken>,
}

impl Function {
    pub open spec fn view(&self) -> FunctionView {
        FunctionView {
            introducer: self.introducer,
            identifier: self.identifier,
            open_round: self.open_round,
            close_round: self.close_round,
            body: self.body@,
            end: self.end,
        }
    }
}

/// The view of one item of the parser's output.
pub open spec fn declaration_view(
    r: Result<ParsedNode<Declaration>, FatalParserError>,
) -> Result<ParsedNode<FunctionView>, FatalParserError> {
    match r {
        Ok(parsed) => Ok(
            ParsedNode {
                node: match parsed.node {
                    Ok(Declaration::Function(function)) => Ok(function.view()),
                    Err(e) => Err(e),
                },
                span: parsed.span,
            },
        ),
        Err(e) => Err(e),
    }
}

/// The views of a sequence of parser results.
pub open spec fn declaration_views(
    results: Seq<Result<ParsedNode<Declaration>, FatalParserError>>,
) -> Seq<Result<ParsedNode<FunctionView>, FatalParserError>> {
    results.map_values(|d: Result<ParsedNode<Declaration>, FatalParserError>| declaration_view(d))
}

#[derive(Debug)]
pub enum Statement {
    Let(Let),
}

#[derive(Debug)]
pub struct Let {
    pub introducer: ParsedNode<WideToken>,
    pub identifier: ParsedNode<Identifier>,
    pub equal: ParsedNode<WideToken>,
    pub value: ParsedNode<Expression>,
}

#[derive(Debug)]
pub enum Expression {
    Integer,
    Variable(Identifier),
    Binary(Binary),
    Parenthesized(Parenthesized),
}

#[derive(Debug)]
pub struct Binary {
    pub left: Box<ParsedNode<Expression>>,
    pub operator: ParsedNode<BinaryOperator>,
    pub right: Box<ParsedNode<Expression>>,
}

#[derive(Debug)]
pub struct Parenthesized {
    pub open_round: ParsedNode<WideToken>,
    pub inner: Box<ParsedNode<Expression>>,
    pub close_round: ParsedNode<WideToken>,
}

#[derive(Debug, Clone, Copy, PartialEq, Eq, Structural)]
pub enum BinaryOperator {
    Add,
    Subtract,
    Multiply,
    Divide,
}

pub open spec fn operator_of(token: WideToken) -> Option<BinaryOperator> {
    match token {
        WideToken::Plus => Some(BinaryOperator::Add),
        WideToken::Minus => Some(BinaryOperator::Subtract),
        WideToken::Asterisk => Some(BinaryOperator::Multiply),
        WideToken::Slash => Some(BinaryOperator::Divide),
        _ => None,
    }
}

/// Binding powers `(left, right)`: `+` and `-` bind looser than `*` and `/`,
/// and the right power above the left one makes each tier left-associative.
pub open spec fn binding_powers(op: BinaryOperator) -> (u8, u8) {
    match op {
        BinaryOperator::Add | BinaryOperator::Subtract => (1, 2),
        BinaryOperator::Multiply | BinaryOperator::Divide => (3, 4),
    }
}

impl BinaryOperator {
    pub fn from_token(kind: &WideToken) -> (r: Option<BinaryOperator>)
        ensures
            r == operator_of(*kind),
    {
        match kind {
            WideToken::Plus => Some(BinaryOperator::Add),
            WideToken::Minus => Some(BinaryOperator::Subtract),
            WideToken::Asterisk => Some(BinaryOperator::Multiply),
            WideToken::Slash => Some(BinaryOperator::Divide),
            _ => None,
        }
    }

    pub fn precedence(&self) -> (r: (u8, u8))
        ensures
            r == binding_powers(*self),
    {
        match self {
            BinaryOperator::Add | BinaryOperator::Subtract => (1, 2),
            BinaryOperator::Multiply | BinaryOperator::Divide => (3, 4),
        }
    }
}

} // verus!
