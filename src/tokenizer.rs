use vstd::prelude::*;
use crate::source::{char_group, CharGroup, SourceBuffer};
use crate::utf8::{byte_len, lemma_byte_len_prefix};

verus! {

/// Kind of a thin token: a tag, with no resolved meaning and no position.
#[derive(Debug, Clone, Copy, PartialEq, Eq, Structural)]
pub enum TokenKind {
    IdentifierOrKeyword,
    Integer,
    OpenRound,
    CloseRound,
    Equal,
    Plus,
    Minus,
    Asterisk,
    Slash,
    Invisible,
    Comment,
    Unknown(char),
}

/// A thin token: its kind and its length in bytes.
#[derive(Debug, Clone, Copy, PartialEq, Eq, Structural)]
pub struct Token {
    pub kind: TokenKind,
    pub length: usize,
}

impl Token {
    pub fn new(kind: TokenKind, length: usize) -> (r: Token)
        ensures
            r == (Token { kind, length }),
    {
        Token { kind, length }
    }
}

/// Whether a run of the given kind goes on over a character of group `g`.
pub open spec fn run_continues(kind: TokenKind, g: CharGroup) -> bool {
    match kind {
        TokenKind::IdentifierOrKeyword => g == CharGroup::Alphabetic,
        TokenKind::Integer => g == CharGroup::Numeric,
        TokenKind::Invisible => g is Invisible,
        TokenKind::Comment => g != (CharGroup::Invisible { newline: true }),
        _ => false,
    }
}

/// Kinds whose tokens are maximal runs of characters.
pub open spec fn is_run_kind(kind: TokenKind) -> bool {
    kind == TokenKind::IdentifierOrKeyword || kind == TokenKind::Integer || kind
        == TokenKind::Invisible || kind == TokenKind::Comment
}

/// The punctuation table; any other single character is unknown.
pub open spec fn punctuation_kind(c: char) -> TokenKind {
    if c == '(' {
        TokenKind::OpenRound
    } else if c == ')' {
        TokenKind::CloseRound
    } else if c == '=' {
        TokenKind::Equal
    } else if c == '+' {
        TokenKind::Plus
    } else if c == '-' {
        TokenKind::Minus
    } else if c == '*' {
        TokenKind::Asterisk
    } else if c == '/' {
        TokenKind::Slash
    } else {
        TokenKind::Unknown(c)
    }
}

/// The kind of the token that starts with character `c`.
pub open spec fn kind_starting_with(c: char) -> TokenKind {
    match char_group(c) {
        CharGroup::Alphabetic => TokenKind::IdentifierOrKeyword,
        CharGroup::Numeric => TokenKind::Integer,
        CharGroup::Invisible { .. } => TokenKind::Invisible,
        CharGroup::CommentStart => TokenKind::Comment,
        _ => punctuation_kind(c),
    }
}

/// Length, in characters, of the longest prefix of `s` over which a run of
/// `kind` goes on.
pub open spec fn run_len(kind: TokenKind, s: Seq<char>) -> nat
    decreases s.len(),
{
    if s.len() > 0 && run_continues(kind, char_group(s[0])) {
        1 + run_len(kind, s.drop_first())
    } else {
        0
    }
}

/// Number of characters that the first token of a non-empty `s` covers.
pub open spec fn first_token_chars(s: Seq<char>) -> nat {
    let kind = kind_starting_with(s[0]);
    if is_run_kind(kind) {
        1 + run_len(kind, s.drop_first())
    } else {
        1
    }
}

pub proof fn lemma_run_len_bound(kind: TokenKind, s: Seq<char>)
    ensures
        run_len(kind, s) <= s.len(),
        forall|i: int| 0 <= i < run_len(kind, s) ==> run_continues(kind, char_group(#[trigger] s[i])),
        run_len(kind, s) < s.len() ==> !run_continues(kind, char_group(s[run_len(kind, s) as int])),
    decreases s.len(),
{
    if s.len() > 0 && run_continues(kind, char_group(s[0])) {
        lemma_run_len_bound(kind, s.drop_first());
        assert forall|i: int| 0 <= i < run_len(kind, s) implies run_continues(
            kind,
            char_group(#[trigger] s[i]),
        ) by {
            if i > 0 {
                assert(s[i] == s.drop_first()[i - 1]);
            }
        }
    }
}

/// A run whose every character continues and which then stops has exactly the
/// length `run_len` gives.
pub proof fn lemma_run_len_exact(kind: TokenKind, s: Seq<char>, n: int)
    requires
        0 <= n <= s.len(),
        forall|i: int| 0 <= i < n ==> run_continues(kind, char_group(#[trigger] s[i])),
        n < s.len() ==> !run_continues(kind, char_group(s[n])),
    ensures
        run_len(kind, s) == n,
    decreases n,
{
    if n > 0 {
        assert(run_continues(kind, char_group(s[0])));
        assert forall|i: int| 0 <= i < n - 1 implies run_continues(
            kind,
            char_group(#[trigger] s.drop_first()[i]),
        ) by {
            assert(s.drop_first()[i] == s[i + 1]);
        }
        if n - 1 < s.drop_first().len() {
            assert(s.drop_first()[n - 1] == s[n]);
        }
        lemma_run_len_exact(kind, s.drop_first(), n - 1);
    }
}

pub proof fn lemma_first_token_chars_bound(s: Seq<char>)
    requires
        s.len() > 0,
    ensures
        1 <= first_token_chars(s) <= s.len(),
{
    lemma_run_len_bound(kind_starting_with(s[0]), s.drop_first());
}

/// The thin tokens of `s`, front to back: each is a maximal run of its kind
/// or a single character, and its length is the byte count of what it covers.
pub open spec fn tokenize_chars(s: Seq<char>) -> Seq<Token>
    decreases s.len(),
{
    if s.len() == 0 {
        Seq::empty()
    } else {
        let n = first_token_chars(s);
        proof {
            lemma_first_token_chars_bound(s);
        }
        let first = Token { kind: kind_starting_with(s[0]), length: byte_len(s.take(n as int)) as usize };
        seq![first] + tokenize_chars(s.skip(n as int))
    }
}

/// Sum of the lengths of `tokens`.
pub open spec fn total_length(tokens: Seq<Token>) -> nat
    decreases tokens.len(),
{
    if tokens.len() == 0 {
        0
    } else {
        tokens[0].length as nat + total_length(tokens.drop_first())
    }
}

pub proof fn lemma_total_length_concat(a: Seq<Token>, b: Seq<Token>)
    ensures
        total_length(a + b) == total_length(a) + total_length(b),
    decreases a.len(),
{
    if a.len() == 0 {
        assert(a + b =~= b);
    } else {
        assert((a + b).drop_first() =~= a.drop_first() + b);
        lemma_total_length_concat(a.drop_first(), b);
    }
}

pub proof fn lemma_total_length_single(t: Token)
    ensures
        total_length(seq![t]) == t.length,
{
    assert(seq![t].drop_first() =~= Seq::<Token>::empty());
    assert(total_length(Seq::<Token>::empty()) == 0);
}

/// Byte offset at which token `i` starts.
pub open spec fn token_offset(tokens: Seq<Token>, i: int) -> nat {
    total_length(tokens.take(i))
}

pub proof fn lemma_token_offset_next(tokens: Seq<Token>, i: int)
    requires
        0 <= i < tokens.len(),
    ensures
        token_offset(tokens, i + 1) == token_offset(tokens, i) + tokens[i].length,
{
    assert(tokens.take(i + 1) =~= tokens.take(i) + seq![tokens[i]]);
    lemma_total_length_concat(tokens.take(i), seq![tokens[i]]);
    lemma_total_length_single(tokens[i]);
}

/// Every character of the input is covered by exactly one thin token: each
/// token covers at least one byte, and the lengths add up to the byte length
/// of the input.
pub proof fn lemma_tokens_cover(s: Seq<char>)
    requires
        byte_len(s) <= usize::MAX,
    ensures
        total_length(tokenize_chars(s)) == byte_len(s),
        forall|i: int| 0 <= i < tokenize_chars(s).len() ==> #[trigger] tokenize_chars(s)[i].length > 0,
    decreases s.len(),
{
    if s.len() > 0 {
        let n = first_token_chars(s) as int;
        lemma_first_token_chars_bound(s);
        lemma_byte_len_prefix(s, n);
        lemma_byte_len_prefix(s, 1);
        lemma_byte_len_prefix(s.take(n), 1);
        assert(s.take(n).take(1) =~= s.take(1));
        assert(byte_len(s.take(1)) > 0) by {
            assert(s.take(1).drop_first() =~= Seq::<char>::empty());
        }
        lemma_tokens_cover(s.skip(n));
        let first = Token { kind: kind_starting_with(s[0]), length: byte_len(s.take(n)) as usize };
        lemma_total_length_concat(seq![first], tokenize_chars(s.skip(n)));
        lemma_total_length_single(first);
        assert forall|i: int| 0 <= i < tokenize_chars(s).len() implies #[trigger] tokenize_chars(
            s,
        )[i].length > 0 by {
            if i > 0 {
                assert(tokenize_chars(s)[i] == tokenize_chars(s.skip(n))[i - 1]);
            }
        }
    }
}

fn is_alphabetic(g: CharGroup) -> (b: bool)
    ensures
        b == run_continues(TokenKind::IdentifierOrKeyword, g),
{
    matches!(g, CharGroup::Alphabetic)
}

fn is_numeric(g: CharGroup) -> (b: bool)
    ensures
        b == run_continues(TokenKind::Integer, g),
{
    matches!(g, CharGroup::Numeric)
}

fn is_invisible(g: CharGroup) -> (b: bool)
    ensures
        b == run_continues(TokenKind::Invisible, g),
{
    matches!(g, CharGroup::Invisible { .. })
}

/// A comment runs up to, not including, the next newline.
fn is_within_line(g: CharGroup) -> (b: bool)
    ensures
        b == run_continues(TokenKind::Comment, g),
{
    !matches!(g, CharGroup::Invisible { newline: true })
}

/// Single-character tokens continue over nothing.
fn is_nothing(g: CharGroup) -> (b: bool)
    ensures
        !b,
{
    false
}

/// Token `i` of `tokens` starts at character `k` of `s`: its byte offset is
/// where character `k` starts, and, unless `i` is one past the last token, its
/// kind is the kind of a token starting with that character.
pub open spec fn starts_at(s: Seq<char>, tokens: Seq<Token>, i: int, k: int) -> bool {
    &&& 0 <= k <= s.len()
    &&& token_offset(tokens, i) == byte_len(s.take(k))
    &&& i < tokens.len() ==> k < s.len() && tokens[i].kind == kind_starting_with(s[k])
}

pub open spec fn starts_on_boundary(s: Seq<char>, tokens: Seq<Token>, i: int) -> bool {
    exists|k: int| #[trigger] starts_at(s, tokens, i, k)
}

/// Every thin token starts on a character boundary, with the kind that its
/// first character calls for (an unrecognized character gives an `Unknown`
/// token of its own), and there are no more tokens than bytes.
pub proof fn lemma_token_starts(s: Seq<char>)
    requires
        byte_len(s) <= usize::MAX,
    ensures
        tokenize_chars(s).len() <= byte_len(s),
        forall|i: int|
            0 <= i <= tokenize_chars(s).len() ==> #[trigger] starts_on_boundary(s, tokenize_chars(s), i),
    decreases s.len(),
{
    let toks = tokenize_chars(s);
    assert(toks.take(0) =~= Seq::<Token>::empty());
    assert(s.take(0) =~= Seq::<char>::empty());
    if s.len() == 0 {
        assert(starts_at(s, toks, 0, 0));
        assert(starts_on_boundary(s, toks, 0));
    } else {
        let n = first_token_chars(s) as int;
        lemma_first_token_chars_bound(s);
        lemma_byte_len_prefix(s, n);
        let rest = s.skip(n);
        let r = tokenize_chars(rest);
        let first = Token { kind: kind_starting_with(s[0]), length: byte_len(s.take(n)) as usize };
        assert(toks == seq![first] + r);
        lemma_tokens_cover(s);
        assert(toks[0].length > 0);
        lemma_token_starts(rest);
        assert(starts_at(s, toks, 0, 0));
        assert forall|i: int| 0 <= i <= toks.len() implies #[trigger] starts_on_boundary(s, toks, i) by {
            if i == 0 {
                assert(starts_at(s, toks, 0, 0));
            } else {
                assert(starts_on_boundary(rest, r, i - 1));
                let k1 = choose|k1: int| #[trigger] starts_at(rest, r, i - 1, k1);
                assert(toks.take(i) =~= seq![first] + r.take(i - 1));
                lemma_total_length_concat(seq![first], r.take(i - 1));
                lemma_total_length_single(first);
                assert(s.take(n + k1) =~= s.take(n) + rest.take(k1));
                crate::utf8::lemma_encode_concat(s.take(n), rest.take(k1));
                if i < toks.len() {
                    assert(toks[i] == r[i - 1]);
                    assert(rest[k1] == s[n + k1]);
                }
                assert(starts_at(s, toks, i, n + k1));
            }
        }
    }
}

/// Splits source text into thin tokens.
pub struct Tokenizer {
    source_buffer: SourceBuffer,
}

impl Tokenizer {
    pub closed spec fn wf(&self) -> bool {
        self.source_buffer.wf()
    }

    /// Text that is still to be split.
    pub closed spec fn rest(&self) -> Seq<char> {
        self.source_buffer.rest()
    }

    pub closed spec fn text_view(&self) -> Seq<char> {
        self.source_buffer.text_view()
    }

    /// Splits `source` into thin tokens. Never fails; unknown characters
    /// become tokens of their own.
    pub fn tokenize(source: &str) -> (r: Vec<Token>)
        ensures
            r@ == tokenize_chars(source@),
    {
        let mut tokenizer = Tokenizer::new(source);
        let mut tokens: Vec<Token> = Vec::new();
        loop
            invariant
                tokenizer.wf(),
                tokenizer.text_view() == source@,
                tokens@ + tokenize_chars(tokenizer.rest()) == tokenize_chars(source@),
            decreases tokenizer.rest().len(),
        {
            let ghost before = tokenizer.rest();
            match tokenizer.maybe_token() {
                Some(token) => {
                    proof {
                        assert(tokens@.push(token) + tokenize_chars(tokenizer.rest()) =~= tokens@ + (
                        seq![token] + tokenize_chars(tokenizer.rest())));
                    }
                    tokens.push(token);
                },
                None => {
                    assert(tokens@ + tokenize_chars(tokenizer.rest()) =~= tokens@);
                    return tokens;
                },
            }
        }
    }

    pub fn new(source: &str) -> (r: Tokenizer)
        ensures
            r.wf(),
            r.text_view() == source@,
            r.rest() == source@,
    {
        let source_buffer = SourceBuffer::new(source);
        let r = Tokenizer { source_buffer };
        assert(r.rest() =~= source@);
        r
    }

    /// The next thin token, or `None` at the end of the text.
    pub fn maybe_token(&mut self) -> (r: Option<Token>)
        requires
            old(self).wf(),
        ensures
            final(self).wf(),
            final(self).text_view() == old(self).text_view(),
            old(self).rest().len() == 0 ==> r is None && final(self).rest() == old(self).rest(),
            old(self).rest().len() > 0 ==> r is Some && seq![r->Some_0] + tokenize_chars(final(self).rest())
                == tokenize_chars(old(self).rest()) && final(self).rest().len() < old(self).rest().len(),
    {
        if self.source_buffer.is_eof() {
            None
        } else {
            Some(self.token())
        }
    }

    /// Splits off one token; the text must not be exhausted.
    fn token(&mut self) -> (r: Token)
        requires
            old(self).wf(),
            old(self).rest().len() > 0,
        ensures
            final(self).wf(),
            final(self).text_view() == old(self).text_view(),
            seq![r] + tokenize_chars(final(self).rest()) == tokenize_chars(old(self).rest()),
            final(self).rest().len() < old(self).rest().len(),
    {
        let ghost s = self.rest();
        let ghost cur = self.source_buffer.cursor_view();
        let ghost text = self.text_view();
        proof {
            self.source_buffer.lemma_wf();
        }
        let ch = self.source_buffer.current();
        let group = crate::source::CharClassifier::group(ch);
        self.source_buffer.mark_token_start();
        let kind = self.token_kind_starting_with(ch, group);
        assert(kind == kind_starting_with(s[0]));
        if self.is_run(kind) {
            self.source_buffer.advance();
            self.eat_run(kind);
            proof {
                self.source_buffer.lemma_wf();
                let n = self.source_buffer.cursor_view() - cur;
                let tail = s.drop_first();
                assert forall|i: int| 0 <= i < n - 1 implies run_continues(
                    kind,
                    char_group(#[trigger] tail[i]),
                ) by {
                    assert(tail[i] == text[cur + 1 + i]);
                }
                if n - 1 < tail.len() {
                    assert(tail[n - 1] == self.rest()[0]);
                }
                lemma_run_len_exact(kind, tail, n - 1);
                self.lemma_step(s, cur, n);
            }
        } else {
            self.source_buffer.advance();
            proof {
                self.lemma_step(s, cur, 1);
            }
        }
        Token::new(kind, self.source_buffer.token_length())
    }

    /// Consumes the longest run of characters over which `kind` goes on.
    fn eat_run(&mut self, kind: TokenKind)
        requires
            old(self).wf(),
        ensures
            final(self).wf(),
            final(self).text_view() == old(self).text_view(),
            final(self).source_buffer.token_start_view() == old(self).source_buffer.token_start_view(),
            old(self).source_buffer.cursor_view() <= final(self).source_buffer.cursor_view(),
            forall|i: int|
                old(self).source_buffer.cursor_view() <= i < final(self).source_buffer.cursor_view()
                    ==> run_continues(kind, char_group(#[trigger] old(self).text_view()[i])),
            final(self).rest().len() > 0 ==> !run_continues(kind, char_group(final(self).rest()[0])),
    {
        match kind {
            TokenKind::IdentifierOrKeyword => self.source_buffer.eat_while(is_alphabetic),
            TokenKind::Integer => self.source_buffer.eat_while(is_numeric),
            TokenKind::Invisible => self.source_buffer.eat_while(is_invisible),
            TokenKind::Comment => self.source_buffer.eat_while(is_within_line),
            _ => self.source_buffer.eat_while(is_nothing),
        }
    }

    proof fn lemma_step(&self, s: Seq<char>, cur: nat, n: int)
        requires
            self.wf(),
            0 < n <= s.len(),
            s.len() > 0,
            n == first_token_chars(s),
            cur + s.len() == self.text_view().len(),
            s == self.text_view().skip(cur as int),
            self.source_buffer.cursor_view() == cur + n,
        ensures
            self.rest() == s.skip(n),
            self.source_buffer.byte_offset() == byte_len(self.text_view().take(cur as int)) + byte_len(
                s.take(n),
            ),
            tokenize_chars(s) == seq![
                Token { kind: kind_starting_with(s[0]), length: byte_len(s.take(n)) as usize },
            ] + tokenize_chars(s.skip(n)),
    {
        let text = self.text_view();
        assert(self.rest() =~= s.skip(n));
        assert(text.take(cur + n) =~= text.take(cur as int) + s.take(n));
        crate::utf8::lemma_encode_concat(text.take(cur as int), s.take(n));
    }

    fn is_run(&self, kind: TokenKind) -> (r: bool)
        ensures
            r == is_run_kind(kind),
    {
        match kind {
            TokenKind::IdentifierOrKeyword | TokenKind::Integer | TokenKind::Invisible
            | TokenKind::Comment => true,
            _ => false,
        }
    }

    fn token_kind_starting_with(&self, ch: char, group: CharGroup) -> (r: TokenKind)
        requires
            group == char_group(ch),
        ensures
            r == kind_starting_with(ch),
    {
        match group {
            CharGroup::Alphabetic => TokenKind::IdentifierOrKeyword,
            CharGroup::Numeric => TokenKind::Integer,
            CharGroup::Invisible { .. } => TokenKind::Invisible,
            CharGroup::CommentStart => TokenKind::Comment,
            _ => Self::punctuation_or_unknown_token_kind(ch),
        }
    }

    fn punctuation_or_unknown_token_kind(ch: char) -> (r: TokenKind)
        ensures
            r == punctuation_kind(ch),
    {
        match ch {
            '(' => TokenKind::OpenRound,
            ')' => TokenKind::CloseRound,
            '=' => TokenKind::Equal,
            '+' => TokenKind::Plus,
            '-' => TokenKind::Minus,
            '*' => TokenKind::Asterisk,
            '/' => TokenKind::Slash,
            other => TokenKind::Unknown(other),
        }
    }
}

} // verus!
