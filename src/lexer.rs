use vstd::prelude::*;
use vstd::string::StrSliceExecFns;
use vstd::utf8::encode_utf8;
use crate::grammar::ordered;
use crate::span::{Span, Spanned};
use crate::tokenizer::{
    lemma_token_offset_next, lemma_tokens_cover, lemma_total_length_concat, token_offset,
    tokenize_chars, total_length, Token, TokenKind,
};
use crate::utf8::byte_len;

verus! {

/// A lexical error, carried inside the token stream rather than raised.
#[derive(Debug, Clone, Copy, PartialEq, Eq, Structural)]
pub enum LexerError {
    UnknownCharacter(char),
}

/// Kind of a wide token: fully resolved, keywords told apart from identifiers.
#[derive(Debug, Clone, Copy, PartialEq, Eq, Structural)]
pub enum WideToken {
    Identifier,
    FunctionKeyword,
    EndKeyword,
    LetKeyword,
    Integer,
    OpenRound,
    CloseRound,
    Equal,
    Plus,
    Minus,
    Asterisk,
    Slash,
    Invisible,
    Comment,
    /// A token that is itself a lexical error.
    HadError(LexerError),
}

impl WideToken {
    pub fn had_error(&self) -> (r: bool)
        ensures
            r == (*self is HadError),
    {
        matches!(self, WideToken::HadError(_))
    }

    /// The error that an error token carries.
    pub fn as_error(self) -> (r: LexerError)
        requires
            self is HadError,
        ensures
            self == WideToken::HadError(r),
    {
        match self {
            WideToken::HadError(error) => error,
            _ => LexerError::UnknownCharacter('\0'),
        }
    }
}

/// The keyword table.
pub open spec fn keyword_of(lexeme: Seq<u8>) -> Option<WideToken> {
    if lexeme == encode_utf8("function"@) {
        Some(WideToken::FunctionKeyword)
    } else if lexeme == encode_utf8("end"@) {
        Some(WideToken::EndKeyword)
    } else if lexeme == encode_utf8("let"@) {
        Some(WideToken::LetKeyword)
    } else {
        None
    }
}

/// The wide kind of a thin token whose text is `lexeme`.
pub open spec fn wide_kind(kind: TokenKind, lexeme: Seq<u8>) -> WideToken {
    match kind {
        TokenKind::IdentifierOrKeyword => match keyword_of(lexeme) {
            Some(keyword) => keyword,
            None => WideToken::Identifier,
        },
        TokenKind::Integer => WideToken::Integer,
        TokenKind::OpenRound => WideToken::OpenRound,
        TokenKind::CloseRound => WideToken::CloseRound,
        TokenKind::Equal => WideToken::Equal,
        TokenKind::Plus => WideToken::Plus,
        TokenKind::Minus => WideToken::Minus,
        TokenKind::Asterisk => WideToken::Asterisk,
        TokenKind::Slash => WideToken::Slash,
        TokenKind::Invisible => WideToken::Invisible,
        TokenKind::Comment => WideToken::Comment,
        TokenKind::Unknown(c) => WideToken::HadError(LexerError::UnknownCharacter(c)),
    }
}

/// The `i`-th wide token made from `tokens` over the source bytes `bytes`:
/// its span starts where the previous token ended.
pub open spec fn lexed(bytes: Seq<u8>, tokens: Seq<Token>, i: int) -> Spanned<WideToken> {
    let start = token_offset(tokens, i);
    let end = token_offset(tokens, i + 1);
    Spanned {
        value: wide_kind(tokens[i].kind, bytes.subrange(start as int, end as int)),
        span: Span { start: start as usize, end: end as usize },
    }
}

pub open spec fn lexed_all(bytes: Seq<u8>, tokens: Seq<Token>) -> Seq<Spanned<WideToken>> {
    Seq::new(tokens.len(), |i: int| lexed(bytes, tokens, i))
}

/// The wide tokens of source text `s`.
pub open spec fn lexed_tokens(s: Seq<char>) -> Seq<Spanned<WideToken>> {
    lexed_all(encode_utf8(s), tokenize_chars(s))
}

/// What `lex` asks of its thin tokens: none is empty, and together they fit
/// in the source.
pub open spec fn tokens_fit(bytes: Seq<u8>, tokens: Seq<Token>) -> bool {
    &&& forall|i: int| 0 <= i < tokens.len() ==> #[trigger] tokens[i].length > 0
    &&& total_length(tokens) <= bytes.len()
}

pub proof fn lemma_token_offset_bound(tokens: Seq<Token>, i: int)
    requires
        0 <= i <= tokens.len(),
    ensures
        token_offset(tokens, i) <= total_length(tokens),
{
    assert(tokens =~= tokens.take(i) + tokens.skip(i));
    lemma_total_length_concat(tokens.take(i), tokens.skip(i));
}

/// The wide tokens' spans are well formed and follow each other with no gap
/// and no overlap, from offset 0 to the total length of the thin tokens.
pub proof fn lemma_spans_contiguous(bytes: Seq<u8>, tokens: Seq<Token>)
    requires
        tokens_fit(bytes, tokens),
        bytes.len() <= usize::MAX,
    ensures
        forall|i: int| 0 <= i < tokens.len() ==> (#[trigger] lexed_all(bytes, tokens)[i]).span.wf(),
        tokens.len() > 0 ==> lexed_all(bytes, tokens)[0].span.start == 0,
        forall|i: int|
            0 <= i < tokens.len() - 1 ==> (#[trigger] lexed_all(bytes, tokens)[i]).span.end
                == lexed_all(bytes, tokens)[i + 1].span.start,
        tokens.len() > 0 ==> lexed_all(bytes, tokens)[tokens.len() - 1].span.end == total_length(
            tokens,
        ),
{
    assert forall|i: int| 0 <= i < tokens.len() implies (#[trigger] lexed_all(
        bytes,
        tokens,
    )[i]).span.wf() by {
        lemma_token_offset_next(tokens, i);
        lemma_token_offset_bound(tokens, i + 1);
        assert(tokens[i].length > 0);
    }
    if tokens.len() > 0 {
        assert(tokens.take(0) =~= Seq::<Token>::empty());
        assert(tokens.take(tokens.len() as int) =~= tokens);
        lemma_token_offset_bound(tokens, tokens.len() as int);
        lemma_token_offset_bound(tokens, tokens.len() - 1);
        lemma_token_offset_next(tokens, tokens.len() - 1);
    }
    assert forall|i: int| 0 <= i < tokens.len() - 1 implies (#[trigger] lexed_all(
        bytes,
        tokens,
    )[i]).span.end == lexed_all(bytes, tokens)[i + 1].span.start by {
        lemma_token_offset_bound(tokens, i + 1);
    }
}

pub proof fn lemma_token_offset_monotone(tokens: Seq<Token>, a: int, b: int)
    requires
        0 <= a <= b <= tokens.len(),
    ensures
        token_offset(tokens, a) <= token_offset(tokens, b),
{
    assert(tokens.take(b) =~= tokens.take(a) + tokens.take(b).skip(a));
    lemma_total_length_concat(tokens.take(a), tokens.take(b).skip(a));
}

/// Wide tokens come out in source order: every span ends before the spans of
/// later tokens start.
pub proof fn lemma_lexed_ordered(bytes: Seq<u8>, tokens: Seq<Token>)
    requires
        tokens_fit(bytes, tokens),
        bytes.len() <= usize::MAX,
    ensures
        ordered(lexed_all(bytes, tokens)),
{
    lemma_spans_contiguous(bytes, tokens);
    let w = lexed_all(bytes, tokens);
    assert forall|i: int, j: int| 0 <= i < j < w.len() implies (#[trigger] w[i]).span.end <= (
    #[trigger] w[j]).span.start by {
        lemma_token_offset_monotone(tokens, i + 1, j);
        lemma_token_offset_bound(tokens, j);
        lemma_token_offset_bound(tokens, i + 1);
    }
}

/// Tokenizing and then lexing any text gives well-formed spans that cover
/// every byte of it exactly once, in order.
pub proof fn lemma_lexed_source_covered(s: Seq<char>)
    requires
        byte_len(s) <= usize::MAX,
    ensures
        tokens_fit(encode_utf8(s), tokenize_chars(s)),
        forall|i: int|
            0 <= i < tokenize_chars(s).len() ==> (#[trigger] lexed_all(
                encode_utf8(s),
                tokenize_chars(s),
            )[i]).span.wf(),
        s.len() > 0 ==> lexed_all(encode_utf8(s), tokenize_chars(s))[0].span.start == 0,
        forall|i: int|
            0 <= i < tokenize_chars(s).len() - 1 ==> (#[trigger] lexed_all(
                encode_utf8(s),
                tokenize_chars(s),
            )[i]).span.end == lexed_all(encode_utf8(s), tokenize_chars(s))[i + 1].span.start,
        s.len() > 0 ==> lexed_all(encode_utf8(s), tokenize_chars(s))[tokenize_chars(s).len()
            - 1].span.end == byte_len(s),
{
    lemma_tokens_cover(s);
    crate::utf8::lemma_byte_len_prefix(s, 0);
    lemma_spans_contiguous(encode_utf8(s), tokenize_chars(s));
    if s.len() > 0 {
        assert(tokenize_chars(s).len() > 0);
    }
}

/// Widens thin tokens: resolves keywords and gives each token its span.
pub struct Lexer {
    source: Vec<u8>,
    previous_token_end: usize,
}

impl Lexer {
    pub closed spec fn bytes(&self) -> Seq<u8> {
        self.source@
    }

    pub closed spec fn wf(&self) -> bool {
        self.source@.len() <= usize::MAX
    }

    /// End of the previously widened token: where the next one starts.
    pub closed spec fn previous_end(&self) -> nat {
        self.previous_token_end as nat
    }

    /// Widens `token_stream`, a sequence of thin tokens made from `source`.
    /// No token is dropped; order is kept.
    pub fn lex(source: &str, token_stream: Vec<Token>) -> (r: Vec<Spanned<WideToken>>)
        requires
            tokens_fit(encode_utf8(source@), token_stream@),
        ensures
            r@ == lexed_all(encode_utf8(source@), token_stream@),
    {
        let mut lexer = Lexer::new(source);
        let mut out: Vec<Spanned<WideToken>> = Vec::new();
        let ghost tokens = token_stream@;
        assert(tokens.take(0) =~= Seq::<Token>::empty());
        for i in 0..token_stream.len()
            invariant
                tokens == token_stream@,
                tokens_fit(encode_utf8(source@), tokens),
                lexer.bytes() == encode_utf8(source@),
                lexer.wf(),
                lexer.previous_end() == token_offset(tokens, i as int),
                out@ == lexed_all(encode_utf8(source@), tokens).take(i as int),
        {
            proof {
                lemma_token_offset_next(tokens, i as int);
                lemma_token_offset_bound(tokens, i + 1);
            }
            let wide = lexer.wide_token(token_stream[i]);
            out.push(wide);
            proof {
                assert(out@ =~= lexed_all(encode_utf8(source@), tokens).take(i + 1));
            }
        }
        assert(out@ =~= lexed_all(encode_utf8(source@), tokens));
        out
    }

    pub fn new(source: &str) -> (r: Lexer)
        ensures
            r.wf(),
            r.bytes() == encode_utf8(source@),
            r.previous_end() == 0,
    {
        let bytes = source.as_bytes_vec();
        assert(bytes@.len() == bytes.len());
        Lexer { source: bytes, previous_token_end: 0 }
    }

    /// Makes the wide token of `thin_token`, which starts where the previous
    /// one ended.
    pub fn wide_token(&mut self, thin_token: Token) -> (r: Spanned<WideToken>)
        requires
            old(self).wf(),
            thin_token.length > 0,
            old(self).previous_end() + thin_token.length <= old(self).bytes().len(),
        ensures
            final(self).wf(),
            final(self).bytes() == old(self).bytes(),
            final(self).previous_end() == old(self).previous_end() + thin_token.length,
            r.span == (Span {
                start: old(self).previous_end() as usize,
                end: final(self).previous_end() as usize,
            }),
            r.value == wide_kind(
                thin_token.kind,
                old(self).bytes().subrange(
                    old(self).previous_end() as int,
                    final(self).previous_end() as int,
                ),
            ),
    {
        let span = self.span(thin_token.length);
        let value = self.wide_kind(thin_token.kind, span);
        Spanned::new(value, span)
    }

    fn span(&mut self, token_length: usize) -> (r: Span)
        requires
            old(self).wf(),
            token_length > 0,
            old(self).previous_end() + token_length <= old(self).bytes().len(),
        ensures
            final(self).wf(),
            final(self).bytes() == old(self).bytes(),
            final(self).previous_end() == old(self).previous_end() + token_length,
            r == (Span { start: old(self).previous_end() as usize, end: final(self).previous_end() as usize }),
    {
        let start = self.previous_token_end;
        let end = start + token_length;
        self.previous_token_end = end;
        Span::new(start, end)
    }

    fn wide_kind(&self, thin_kind: TokenKind, span: Span) -> (r: WideToken)
        requires
            span.start <= span.end <= self.bytes().len(),
        ensures
            r == wide_kind(thin_kind, self.bytes().subrange(span.start as int, span.end as int)),
    {
        match thin_kind {
            TokenKind::IdentifierOrKeyword => match self.maybe_keyword(span) {
                Some(keyword) => keyword,
                None => WideToken::Identifier,
            },
            TokenKind::Integer => WideToken::Integer,
            TokenKind::OpenRound => WideToken::OpenRound,
            TokenKind::CloseRound => WideToken::CloseRound,
            TokenKind::Equal => WideToken::Equal,
            TokenKind::Plus => WideToken::Plus,
            TokenKind::Minus => WideToken::Minus,
            TokenKind::Asterisk => WideToken::Asterisk,
            TokenKind::Slash => WideToken::Slash,
            TokenKind::Invisible => WideToken::Invisible,
            TokenKind::Comment => WideToken::Comment,
            TokenKind::Unknown(c) => WideToken::HadError(LexerError::UnknownCharacter(c)),
        }
    }

    fn maybe_keyword(&self, span: Span) -> (r: Option<WideToken>)
        requires
            span.start <= span.end <= self.bytes().len(),
        ensures
            r == keyword_of(self.bytes().subrange(span.start as int, span.end as int)),
    {
        if self.lexeme_is(span, "function") {
            Some(WideToken::FunctionKeyword)
        } else if self.lexeme_is(span, "end") {
            Some(WideToken::EndKeyword)
        } else if self.lexeme_is(span, "let") {
            Some(WideToken::LetKeyword)
        } else {
            None
        }
    }

    /// Whether the source text under `span` is `word`.
    fn lexeme_is(&self, span: Span, word: &str) -> (r: bool)
        requires
            span.start <= span.end <= self.bytes().len(),
        ensures
            r == (self.bytes().subrange(span.start as int, span.end as int) == encode_utf8(word@)),
    {
        let w = word.as_bytes();
        let ghost lexeme = self.bytes().subrange(span.start as int, span.end as int);
        if span.end - span.start != w.len() {
            assert(lexeme.len() != w@.len());
            return false;
        }
        let mut i: usize = 0;
        while i < w.len()
            invariant
                span.start <= span.end <= self.bytes().len(),
                span.end - span.start == w@.len(),
                lexeme == self.bytes().subrange(span.start as int, span.end as int),
                w@ == encode_utf8(word@),
                i <= w@.len(),
                forall|k: int| 0 <= k < i ==> lexeme[k] == w@[k],
            decreases w.len() - i,
        {
            if self.source[span.start + i] != w[i] {
                assert(lexeme[i as int] != w@[i as int]);
                return false;
            }
            i = i + 1;
        }
        assert(lexeme =~= w@);
        true
    }
}

} // verus!
