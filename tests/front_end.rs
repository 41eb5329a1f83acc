use emeraldc::checker::{ErrorUnroller, Report, TreeChecker};
use emeraldc::lexer::{Lexer, LexerError, WideToken};
use emeraldc::parse_tree;
use emeraldc::span::{Span, Spanned};
use emeraldc::tokenizer::{Token, TokenKind, Tokenizer};
use emeraldc::tree::{
    BinaryOperator, Declaration, Expression, FatalParserError, NodeError, ParsedNode, Statement,
};

fn lex(source: &str) -> Vec<Spanned<WideToken>> {
    Lexer::lex(source, Tokenizer::tokenize(source))
}

fn operator_name(operator: &ParsedNode<BinaryOperator>) -> &'static str {
    match operator.node {
        Ok(BinaryOperator::Add) => "Add",
        Ok(BinaryOperator::Subtract) => "Subtract",
        Ok(BinaryOperator::Multiply) => "Multiply",
        Ok(BinaryOperator::Divide) => "Divide",
        Err(_) => "?",
    }
}

/// Renders an expression tree with the source text of its leaves.
fn shape(source: &str, expression: &ParsedNode<Expression>) -> String {
    match &expression.node {
        Ok(Expression::Integer) | Ok(Expression::Variable(_)) => {
            source[expression.span.start..expression.span.end].to_string()
        }
        Ok(Expression::Binary(binary)) => format!(
            "{}({}, {})",
            operator_name(&binary.operator),
            shape(source, &binary.left),
            shape(source, &binary.right)
        ),
        Ok(Expression::Parenthesized(parenthesized)) => {
            format!("Parenthesized({})", shape(source, &parenthesized.inner))
        }
        Err(error) => format!("Error({:?})", error),
    }
}

fn single_let_value_shape(source: &str) -> String {
    let tree = parse_tree(source);
    assert_eq!(tree.len(), 1);
    let declaration = tree[0].as_ref().expect("declaration parses");
    let Ok(Declaration::Function(function)) = &declaration.node else {
        panic!("function expected");
    };
    assert_eq!(function.body.len(), 1);
    let Ok(Statement::Let(let_)) = &function.body[0].node else {
        panic!("let statement expected");
    };
    shape(source, &let_.value)
}

#[test]
fn tokenize_empty_input() {
    assert!(Tokenizer::tokenize("").is_empty());
}

#[test]
fn tokenize_only_invisible() {
    let tokens = Tokenizer::tokenize(" \t\n  ");
    assert_eq!(tokens, vec![Token::new(TokenKind::Invisible, 5)]);
}

#[test]
fn tokenize_covers_every_byte() {
    let source = "function f() # note é\n let x = 12 + y end";
    let tokens = Tokenizer::tokenize(source);
    let total: usize = tokens.iter().map(|t| t.length).sum();
    assert_eq!(total, source.len());
    assert!(tokens.iter().all(|t| t.length > 0));
}

#[test]
fn tokenize_runs_and_punctuation() {
    let tokens = Tokenizer::tokenize("ab1 12(");
    assert_eq!(
        tokens,
        vec![
            Token::new(TokenKind::IdentifierOrKeyword, 2),
            Token::new(TokenKind::Integer, 1),
            Token::new(TokenKind::Invisible, 1),
            Token::new(TokenKind::Integer, 2),
            Token::new(TokenKind::OpenRound, 1),
        ]
    );
}

#[test]
fn tokenize_comment_stops_at_newline() {
    let tokens = Tokenizer::tokenize("# a b\nx");
    assert_eq!(
        tokens,
        vec![
            Token::new(TokenKind::Comment, 5),
            Token::new(TokenKind::Invisible, 1),
            Token::new(TokenKind::IdentifierOrKeyword, 1),
        ]
    );
}

#[test]
fn tokenize_multibyte_unknown_character() {
    let tokens = Tokenizer::tokenize("é");
    assert_eq!(tokens, vec![Token::new(TokenKind::Unknown('é'), 2)]);
}

#[test]
fn lex_keyword_boundary() {
    let tokens = lex("functionx");
    assert_eq!(tokens.len(), 1);
    assert_eq!(tokens[0].value, WideToken::Identifier);
    assert_eq!(tokens[0].span, Span::new(0, 9));

    let tokens = lex("function");
    assert_eq!(tokens.len(), 1);
    assert_eq!(tokens[0].value, WideToken::FunctionKeyword);
}

#[test]
fn lex_all_keywords() {
    let kinds: Vec<WideToken> = lex("end let endx").into_iter().map(|t| t.value).collect();
    assert_eq!(
        kinds,
        vec![
            WideToken::EndKeyword,
            WideToken::Invisible,
            WideToken::LetKeyword,
            WideToken::Invisible,
            WideToken::Identifier,
        ]
    );
}

#[test]
fn lex_unknown_character_contained() {
    let tokens = lex("a @b");
    assert_eq!(tokens.len(), 4);
    assert_eq!(tokens[2].value, WideToken::HadError(LexerError::UnknownCharacter('@')));
    assert_eq!(tokens[2].span, Span::new(2, 3));
    assert_eq!(tokens[3].value, WideToken::Identifier);
    assert_eq!(tokens[3].span, Span::new(3, 4));
}

#[test]
fn lex_spans_are_contiguous() {
    let source = "let x=(1+2)*3 # done";
    let tokens = lex(source);
    assert_eq!(tokens[0].span.start, 0);
    for pair in tokens.windows(2) {
        assert_eq!(pair[0].span.end, pair[1].span.start);
    }
    assert_eq!(tokens.last().unwrap().span.end, source.len());
}

#[test]
fn wide_token_error_accessors() {
    let error = WideToken::HadError(LexerError::UnknownCharacter('$'));
    assert!(error.had_error());
    assert_eq!(error.as_error(), LexerError::UnknownCharacter('$'));
    assert!(!WideToken::Plus.had_error());
    assert!(NodeError::is_had_error(&error));
}

#[test]
fn precedence_multiplication_binds_tighter() {
    assert_eq!(
        single_let_value_shape("function f() let x = 1 + 2 * 3 end"),
        "Add(1, Multiply(2, 3))"
    );
}

#[test]
fn subtraction_is_left_associative() {
    assert_eq!(
        single_let_value_shape("function f() let x = 1 - 2 - 3 end"),
        "Subtract(Subtract(1, 2), 3)"
    );
}

#[test]
fn division_is_left_associative() {
    assert_eq!(
        single_let_value_shape("function f() let x = a / b * c end"),
        "Multiply(Divide(a, b), c)"
    );
}

#[test]
fn parentheses_override_precedence() {
    assert_eq!(
        single_let_value_shape("function f() let x = (1 + 2) * 3 end"),
        "Multiply(Parenthesized(Add(1, 2)), 3)"
    );
}

#[test]
fn binary_span_joins_operands() {
    let source = "function f() let x = 1 + 2 end";
    let tree = parse_tree(source);
    let declaration = tree[0].as_ref().unwrap();
    let Ok(Declaration::Function(function)) = &declaration.node else {
        panic!("function expected");
    };
    let Ok(Statement::Let(let_)) = &function.body[0].node else {
        panic!("let expected");
    };
    assert_eq!(&source[let_.value.span.start..let_.value.span.end], "1 + 2");
    assert_eq!(function.body[0].span, Span::new(13, 26));
    assert_eq!(declaration.span, Span::new(0, source.len()));
}

#[test]
fn error_locality_in_equals_slot() {
    let source = "function f() let x ? 1 let y = 2 end";
    let tree = parse_tree(source);
    assert_eq!(tree.len(), 1);
    let declaration = tree[0].as_ref().unwrap();
    let Ok(Declaration::Function(function)) = &declaration.node else {
        panic!("function expected");
    };
    assert_eq!(function.body.len(), 2);
    let Ok(Statement::Let(first)) = &function.body[0].node else {
        panic!("let statement expected");
    };
    assert!(first.introducer.node.is_ok());
    assert!(first.identifier.node.is_ok());
    assert_eq!(
        first.equal.node.as_ref().err(),
        Some(&NodeError::Lexer(LexerError::UnknownCharacter('?')))
    );
    assert_eq!(first.equal.span, Span::new(19, 20));
    assert_eq!(shape(source, &first.value), "1");
    let Ok(Statement::Let(second)) = &function.body[1].node else {
        panic!("let statement expected");
    };
    assert_eq!(shape(source, &second.value), "2");
    let reports = ErrorUnroller::unroll(parse_tree(source));
    assert_eq!(
        reports,
        vec![Report::Node(Spanned::new(
            NodeError::Lexer(LexerError::UnknownCharacter('?')),
            Span::new(19, 20)
        ))]
    );
}

#[test]
fn synchronization_resumes_at_end() {
    let source = "function f() let = end";
    let tree = parse_tree(source);
    assert_eq!(tree.len(), 1);
    let declaration = tree[0].as_ref().expect("no fatal error");
    assert_eq!(declaration.span, Span::new(0, 22));
    let Ok(Declaration::Function(function)) = &declaration.node else {
        panic!("function expected");
    };
    assert_eq!(function.body.len(), 1);
    assert_eq!(
        function.body[0].node.as_ref().err(),
        Some(&NodeError::UnexpectedToken(WideToken::Equal))
    );
    assert_eq!(function.body[0].span, Span::new(17, 18));
    assert_eq!(function.end.node.as_ref().ok(), Some(&WideToken::EndKeyword));
    assert_eq!(function.end.span, Span::new(19, 22));
    let reports = TreeChecker::check(parse_tree(source));
    assert_eq!(
        reports,
        vec![Report::Node(Spanned::new(
            NodeError::UnexpectedToken(WideToken::Equal),
            Span::new(17, 18)
        ))]
    );
}

#[test]
fn let_stops_at_following_let() {
    let source = "function f() let let y = 2 let z end";
    let tree = parse_tree(source);
    let declaration = tree[0].as_ref().expect("no fatal error");
    let Ok(Declaration::Function(function)) = &declaration.node else {
        panic!("function expected");
    };
    assert_eq!(function.body.len(), 3);
    assert_eq!(
        function.body[0].node.as_ref().err(),
        Some(&NodeError::UnexpectedToken(WideToken::LetKeyword))
    );
    assert_eq!(function.body[0].span, Span::new(17, 20));
    assert!(matches!(function.body[1].node, Ok(Statement::Let(_))));
    assert_eq!(
        function.body[2].node.as_ref().err(),
        Some(&NodeError::UnexpectedToken(WideToken::EndKeyword))
    );
    assert!(function.end.node.is_ok());
}

#[test]
fn synchronization_skips_to_next_statement() {
    let source = "function f() let x = 1 + ) 7 8 let y = 2 end";
    let tree = parse_tree(source);
    assert_eq!(tree.len(), 1);
    let declaration = tree[0].as_ref().expect("no fatal error");
    let Ok(Declaration::Function(function)) = &declaration.node else {
        panic!("function expected");
    };
    assert_eq!(function.body.len(), 2);
    let Ok(Statement::Let(first)) = &function.body[0].node else {
        panic!("let statement expected");
    };
    assert_eq!(
        shape(source, &first.value),
        "Add(1, Error(InvalidExpressionIntroducer(CloseRound)))"
    );
    let Ok(Statement::Let(second)) = &function.body[1].node else {
        panic!("let statement expected");
    };
    assert_eq!(shape(source, &second.value), "2");
    assert!(function.end.node.is_ok());
    let reports = TreeChecker::check(parse_tree(source));
    assert_eq!(
        reports,
        vec![Report::Node(Spanned::new(
            NodeError::InvalidExpressionIntroducer(WideToken::CloseRound),
            Span::new(25, 26)
        ))]
    );
}

#[test]
fn invalid_statement_introducer_is_skipped() {
    let source = "function f() 5 6 let y = 2 end";
    let tree = parse_tree(source);
    let declaration = tree[0].as_ref().unwrap();
    let Ok(Declaration::Function(function)) = &declaration.node else {
        panic!("function expected");
    };
    assert_eq!(function.body.len(), 2);
    assert_eq!(
        function.body[0].node.as_ref().err(),
        Some(&NodeError::InvalidStatementIntroducer(WideToken::Integer))
    );
    assert!(function.body[1].node.is_ok());
}

#[test]
fn malformed_identifier_keeps_function() {
    let source = "function 1() end";
    let tree = parse_tree(source);
    let declaration = tree[0].as_ref().unwrap();
    let Ok(Declaration::Function(function)) = &declaration.node else {
        panic!("function expected");
    };
    assert_eq!(
        function.identifier.node.as_ref().err(),
        Some(&NodeError::UnexpectedToken(WideToken::Integer))
    );
    assert!(function.body.is_empty());
}

#[test]
fn invalid_expression_introducer() {
    let source = "function f() let x = ) end";
    let tree = parse_tree(source);
    let declaration = tree[0].as_ref().unwrap();
    let Ok(Declaration::Function(function)) = &declaration.node else {
        panic!("function expected");
    };
    let Ok(Statement::Let(let_)) = &function.body[0].node else {
        panic!("let statement expected");
    };
    assert_eq!(
        let_.value.node.as_ref().err(),
        Some(&NodeError::InvalidExpressionIntroducer(WideToken::CloseRound))
    );
    assert_eq!(let_.value.span, Span::new(21, 22));
}

#[test]
fn invalid_declaration_introducer_is_fatal() {
    let tree = parse_tree("let x = 1 function g() end");
    assert_eq!(tree.len(), 2);
    assert_eq!(
        tree[0].as_ref().err(),
        Some(&FatalParserError::InvalidDeclarationIntroducer(WideToken::LetKeyword))
    );
    assert!(tree[1].is_ok());
}

#[test]
fn unexpected_eof_is_fatal() {
    let tree = parse_tree("function f(");
    assert_eq!(tree.len(), 1);
    assert_eq!(tree[0].as_ref().err(), Some(&FatalParserError::UnexpectedEof));
}

#[test]
fn empty_source_has_no_declarations() {
    assert!(parse_tree("").is_empty());
    assert!(parse_tree("  # only a comment\n").is_empty());
}

#[test]
fn unroll_reports_in_source_order() {
    let source = "function 1() let x = @ end let";
    let reports = ErrorUnroller::unroll(parse_tree(source));
    assert_eq!(
        reports,
        vec![
            Report::Node(Spanned::new(
                NodeError::UnexpectedToken(WideToken::Integer),
                Span::new(9, 10)
            )),
            Report::Node(Spanned::new(
                NodeError::Lexer(LexerError::UnknownCharacter('@')),
                Span::new(21, 22)
            )),
            Report::Fatal(FatalParserError::InvalidDeclarationIntroducer(WideToken::LetKeyword)),
        ]
    );
}

#[test]
fn nul_inside_text_is_an_unknown_character() {
    let tokens = Tokenizer::tokenize("a\0b");
    assert_eq!(
        tokens,
        vec![
            Token::new(TokenKind::IdentifierOrKeyword, 1),
            Token::new(TokenKind::Unknown('\0'), 1),
            Token::new(TokenKind::IdentifierOrKeyword, 1),
        ]
    );
}

#[test]
fn four_byte_character_span() {
    let tokens = lex("x😀y");
    assert_eq!(tokens.len(), 3);
    assert_eq!(tokens[1].value, WideToken::HadError(LexerError::UnknownCharacter('😀')));
    assert_eq!(tokens[1].span, Span::new(1, 5));
    assert_eq!(tokens[2].span, Span::new(5, 6));
}
