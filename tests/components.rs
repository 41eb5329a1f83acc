use emeraldc::checker::{Report, TreeChecker};
use emeraldc::lexer::{Lexer, LexerError, WideToken};
use emeraldc::parse_tree;
use emeraldc::source::{CharClassifier, CharGroup, SourceBuffer, EOF_CHAR};
use emeraldc::span::{IntoSpanned, Span, Spanned};
use emeraldc::token_stream::TokenStream;
use emeraldc::tokenizer::{Token, TokenKind, Tokenizer};
use emeraldc::tree::{BinaryOperator, IntroducerKind, NodeError, ParsedNode};
use emeraldc::utf8::char_width;

#[test]
fn classify_characters() {
    assert_eq!(CharClassifier::group('q'), CharGroup::Alphabetic);
    assert_eq!(CharClassifier::group('_'), CharGroup::Alphabetic);
    assert_eq!(CharClassifier::group('7'), CharGroup::Numeric);
    assert_eq!(CharClassifier::group(' '), CharGroup::Invisible { newline: false });
    assert_eq!(CharClassifier::group('\t'), CharGroup::Invisible { newline: false });
    assert_eq!(CharClassifier::group('\n'), CharGroup::Invisible { newline: true });
    assert_eq!(CharClassifier::group('#'), CharGroup::CommentStart);
    assert_eq!(CharClassifier::group('+'), CharGroup::MaybePunctuation);
    assert_eq!(CharClassifier::group('ж'), CharGroup::MaybePunctuation);
    assert!(CharClassifier::group(EOF_CHAR).is_eof());
    assert!(!CharClassifier::group('a').is_eof());
}

#[test]
fn utf8_widths() {
    assert_eq!(char_width('a'), 1);
    assert_eq!(char_width('é'), 2);
    assert_eq!(char_width('€'), 3);
    assert_eq!(char_width('😀'), 4);
}

#[test]
fn source_buffer_cursor() {
    let mut buffer = SourceBuffer::new("aé1");
    assert_eq!(buffer.text(), "aé1");
    assert_eq!(buffer.length(), 4);
    assert_eq!(buffer.cursor(), 0);
    assert_eq!(buffer.peek(), Some('a'));
    buffer.mark_token_start();
    assert_eq!(buffer.eat(), 'a');
    assert_eq!(buffer.current(), 'é');
    buffer.advance();
    assert_eq!(buffer.token_length(), 3);
    assert!(!buffer.advance_if(|c| c.is_alphabetic()));
    assert!(buffer.advance_if(|c| c.is_ascii_digit()));
    assert!(buffer.is_eof());
    assert_eq!(buffer.current(), EOF_CHAR);
    assert_eq!(buffer.peek(), None);
    assert_eq!(buffer.token_length(), 4);
    assert_eq!(buffer.substring(1, 4), "é1");
    assert_eq!(buffer.substring(3, 4), "1");
    assert_eq!(buffer.substring(0, 0), "");
}

#[test]
fn source_buffer_eat_while() {
    let mut buffer = SourceBuffer::new("abc12");
    buffer.eat_while(|g| g == CharGroup::Alphabetic);
    assert_eq!(buffer.cursor(), 3);
    buffer.eat_while(|g| g == CharGroup::Alphabetic);
    assert_eq!(buffer.cursor(), 3);
    buffer.eat_while(|_| true);
    assert!(buffer.is_eof());
}

#[test]
fn tokenizer_one_token_at_a_time() {
    let mut tokenizer = Tokenizer::new("x-");
    assert_eq!(tokenizer.maybe_token(), Some(Token::new(TokenKind::IdentifierOrKeyword, 1)));
    assert_eq!(tokenizer.maybe_token(), Some(Token::new(TokenKind::Minus, 1)));
    assert_eq!(tokenizer.maybe_token(), None);
}

#[test]
fn tokenizer_punctuation_table() {
    let kinds: Vec<TokenKind> = Tokenizer::tokenize("()=+-*/?").into_iter().map(|t| t.kind).collect();
    assert_eq!(
        kinds,
        vec![
            TokenKind::OpenRound,
            TokenKind::CloseRound,
            TokenKind::Equal,
            TokenKind::Plus,
            TokenKind::Minus,
            TokenKind::Asterisk,
            TokenKind::Slash,
            TokenKind::Unknown('?'),
        ]
    );
}

#[test]
fn lexer_widens_one_token() {
    let mut lexer = Lexer::new("let x");
    let first = lexer.wide_token(Token::new(TokenKind::IdentifierOrKeyword, 3));
    assert_eq!(first, Spanned::new(WideToken::LetKeyword, Span::new(0, 3)));
    let second = lexer.wide_token(Token::new(TokenKind::Invisible, 1));
    assert_eq!(second, Spanned::new(WideToken::Invisible, Span::new(3, 4)));
    let third = lexer.wide_token(Token::new(TokenKind::Unknown('x'), 1));
    assert_eq!(
        third,
        Spanned::new(WideToken::HadError(LexerError::UnknownCharacter('x')), Span::new(4, 5))
    );
}

#[test]
fn span_join_covers_both() {
    let left = Span::new(2, 4);
    let right = Span::new(4, 9);
    assert_eq!(left.join(right), Span::new(2, 9));
    assert_eq!(Span::new(0, 1).join(Span::new(5, 6)), Span::new(0, 6));
}

#[test]
fn token_stream_filters_and_walks() {
    let source = "a # note\n b";
    let tokens = Lexer::lex(source, Tokenizer::tokenize(source));
    assert_eq!(tokens.len(), 5);
    let mut stream = TokenStream::new(tokens);
    assert_eq!(stream.peek(), Some(Spanned::new(WideToken::Identifier, Span::new(0, 1))));
    assert_eq!(stream.next(), Some(Spanned::new(WideToken::Identifier, Span::new(0, 1))));
    assert_eq!(stream.take_previous(), Spanned::new(WideToken::Identifier, Span::new(0, 1)));
    assert_eq!(stream.next(), Some(Spanned::new(WideToken::Identifier, Span::new(10, 11))));
    assert!(stream.is_eof());
    assert_eq!(stream.next(), None);
}

#[test]
fn operator_table_and_binding_powers() {
    assert_eq!(BinaryOperator::from_token(&WideToken::Plus), Some(BinaryOperator::Add));
    assert_eq!(BinaryOperator::from_token(&WideToken::Minus), Some(BinaryOperator::Subtract));
    assert_eq!(BinaryOperator::from_token(&WideToken::Asterisk), Some(BinaryOperator::Multiply));
    assert_eq!(BinaryOperator::from_token(&WideToken::Slash), Some(BinaryOperator::Divide));
    assert_eq!(BinaryOperator::from_token(&WideToken::Equal), None);
    assert_eq!(BinaryOperator::Add.precedence(), (1, 2));
    assert_eq!(BinaryOperator::Subtract.precedence(), (1, 2));
    assert_eq!(BinaryOperator::Multiply.precedence(), (3, 4));
    assert_eq!(BinaryOperator::Divide.precedence(), (3, 4));
}

#[test]
fn introducer_kinds() {
    assert_eq!(IntroducerKind::of(&WideToken::FunctionKeyword), IntroducerKind::Declaration);
    assert_eq!(IntroducerKind::of(&WideToken::LetKeyword), IntroducerKind::Statement);
    assert_eq!(IntroducerKind::of(&WideToken::Identifier), IntroducerKind::Expression);
    assert_eq!(IntroducerKind::of(&WideToken::Integer), IntroducerKind::Expression);
    assert_eq!(IntroducerKind::of(&WideToken::OpenRound), IntroducerKind::Expression);
    assert_eq!(IntroducerKind::of(&WideToken::EndKeyword), IntroducerKind::Other);
}

#[test]
fn parsed_node_keeps_span_of_error() {
    let node: ParsedNode<BinaryOperator> =
        ParsedNode::new(Err(NodeError::UnexpectedToken(WideToken::Equal)), Span::new(3, 4));
    assert_eq!(node.span, Span::new(3, 4));
    assert!(node.node.is_err());
}

#[test]
fn preview_shows_whole_line() {
    let source = "function f()\n  let x = @\nend";
    let reports = TreeChecker::check(parse_tree(source));
    assert_eq!(reports.len(), 1);
    assert_eq!(reports[0].preview(source), "  let x = @");
    let full = reports[0].with_preview(source);
    assert_eq!(full.source, source);
    assert_eq!(full.report, reports[0]);
}

#[test]
fn preview_after_multibyte_text() {
    let source = "# é\nfunction f() let 1 = 2 end";
    let reports = TreeChecker::check(parse_tree(source));
    assert_eq!(reports.len(), 1);
    let Report::Node(error) = reports[0] else {
        panic!("node error expected");
    };
    assert_eq!(error.span, Span::new(22, 23));
    assert_eq!(reports[0].preview(source), "function f() let 1 = 2 end");
}

#[test]
fn into_spanned_pairs_value_and_span() {
    let spanned = WideToken::Plus.into_spanned(Span::new(7, 8));
    assert_eq!(spanned, Spanned::new(WideToken::Plus, Span::new(7, 8)));
}
