//! Front end of a small imperative language: tokenizer, lexer and an
//! error-tolerant recursive-descent parser.
pub mod span;
pub mod utf8;
pub mod source;
pub mod tokenizer;
pub mod lexer;
pub mod tree;
pub mod grammar;
pub mod token_stream;
pub mod parser;
pub mod expression_parser;
pub mod statement_parser;
pub mod declaration_parser;
pub mod leaves;
pub mod precedence;
pub mod checker;

use vstd::prelude::*;
use vstd::utf8::encode_utf8;
use crate::grammar::{parser_tokens, program_spec};
use crate::lexer::{lemma_lexed_ordered, lemma_lexed_source_covered, Lexer, WideToken};
use crate::span::Spanned;
use crate::tokenizer::{tokenize_chars, Tokenizer};
use crate::utf8::byte_len;
use crate::tree::{declaration_views, Declaration, FatalParserError, ParsedNode};
use crate::parser::Parser;

verus! {

/// The whole front end: tokenizes `source`, widens the tokens and parses
/// every declaration in it.
pub fn parse_tree(source: &str) -> (r: Vec<Result<ParsedNode<Declaration>, FatalParserError>>)
    ensures
        declaration_views(r@) == program_spec(parser_tokens(source@), 0),
{
    let byte_length = source.as_bytes().len();
    proof {
        assert(byte_len(source@) == byte_length);
        lemma_lexed_source_covered(source@);
        lemma_lexed_ordered(encode_utf8(source@), tokenize_chars(source@));
    }
    let thin_tokens = Tokenizer::tokenize(source);
    let tokens: Vec<Spanned<WideToken>> = Lexer::lex(source, thin_tokens);
    Parser::parse(tokens)
}

} // verus!
