use vstd::prelude::*;
use crate::grammar::{is_trivia, ordered, significant, token_at};
use crate::lexer::WideToken;
use crate::span::Spanned;

verus! {

/// The parser's view of the tokens: invisible and comment tokens left out,
/// with a cursor that only moves forward.
#[derive(Debug)]
pub struct TokenStream {
    tokens: Vec<Spanned<WideToken>>,
    position: usize,
    previous: Option<Spanned<WideToken>>,
}

impl TokenStream {
    pub closed spec fn toks(&self) -> Seq<Spanned<WideToken>> {
        self.tokens@
    }

    pub closed spec fn pos(&self) -> int {
        self.position as int
    }

    pub closed spec fn previous_view(&self) -> Option<Spanned<WideToken>> {
        self.previous
    }

    pub closed spec fn wf(&self) -> bool {
        &&& self.position <= self.tokens.len()
        &&& ordered(self.tokens@)
        &&& self.previous is Some ==> self.position > 0 && self.previous == Some(
            self.tokens@[self.position - 1],
        )
    }

    pub proof fn lemma_wf(&self)
        requires
            self.wf(),
        ensures
            0 <= self.pos() <= self.toks().len(),
            ordered(self.toks()),
    {
    }

    pub fn new(tokens: Vec<Spanned<WideToken>>) -> (r: TokenStream)
        requires
            ordered(tokens@),
        ensures
            r.wf(),
            r.toks() == significant(tokens@),
            r.pos() == 0,
    {
        let mut kept: Vec<Spanned<WideToken>> = Vec::new();
        let ghost all = tokens@;
        assert(significant(all.take(0)) =~= Seq::<Spanned<WideToken>>::empty()) by {
            reveal(Seq::filter);
        }
        let mut i: usize = 0;
        while i < tokens.len()
            invariant
                all == tokens@,
                ordered(all),
                i <= all.len(),
                kept@ == significant(all.take(i as int)),
                ordered(kept@),
                forall|k: int| 0 <= k < kept@.len() ==> exists|j: int| 0 <= j < i && #[trigger] kept@[k] == all[j],
            decreases all.len() - i,
        {
            let token = tokens[i];
            proof {
                assert(all.take(i + 1) =~= all.take(i as int).push(token));
                assert(all.take(i + 1).drop_last() =~= all.take(i as int));
                assert(significant(all.take(i + 1)) == if !is_trivia(token.value) {
                    significant(all.take(i as int)).push(token)
                } else {
                    significant(all.take(i as int))
                }) by {
                    reveal(Seq::filter);
                }
            }
            if !matches!(token.value, WideToken::Invisible | WideToken::Comment) {
                proof {
                    assert forall|a: int, b: int| 0 <= a < b < kept@.len() + 1 implies (#[trigger] kept@.push(token)[a]).span.end
                        <= (#[trigger] kept@.push(token)[b]).span.start by {
                        if b == kept@.len() {
                            assert(kept@.push(token)[a] == kept@[a]);
                            let j = choose|j: int| 0 <= j < i && kept@[a] == all[j];
                            assert(all[j].span.end <= all[i as int].span.start);
                        }
                    }
                    assert forall|k: int| 0 <= k < kept@.len() + 1 implies exists|j: int|
                        0 <= j < i + 1 && #[trigger] kept@.push(token)[k] == all[j] by {
                        if k == kept@.len() {
                            assert(kept@.push(token)[k] == all[i as int]);
                        } else {
                            let j = choose|j: int| 0 <= j < i && kept@[k] == all[j];
                            assert(kept@.push(token)[k] == all[j]);
                        }
                    }
                }
                kept.push(token);
            }
            i = i + 1;
        }
        assert(all.take(tokens.len() as int) =~= all);
        TokenStream { tokens: kept, position: 0, previous: None }
    }

    /// The next token, without consuming it.
    pub fn peek(&self) -> (r: Option<Spanned<WideToken>>)
        requires
            self.wf(),
        ensures
            r == token_at(self.toks(), self.pos()),
    {
        if self.position < self.tokens.len() {
            Some(self.tokens[self.position])
        } else {
            None
        }
    }

    /// Consumes the next token.
    pub fn next(&mut self) -> (r: Option<Spanned<WideToken>>)
        requires
            old(self).wf(),
        ensures
            final(self).wf(),
            final(self).toks() == old(self).toks(),
            r == token_at(old(self).toks(), old(self).pos()),
            r is Some ==> final(self).pos() == old(self).pos() + 1 && final(self).previous_view() == r,
            r is None ==> final(self).pos() == old(self).pos(),
    {
        if self.position < self.tokens.len() {
            let token = self.tokens[self.position];
            self.position = self.position + 1;
            self.previous = Some(token);
            Some(token)
        } else {
            None
        }
    }

    /// Whether every token has been consumed.
    pub fn is_eof(&self) -> (r: bool)
        requires
            self.wf(),
        ensures
            r == (self.pos() == self.toks().len()),
    {
        self.position == self.tokens.len()
    }

    /// The token that `next` last consumed; it can be taken once.
    pub fn take_previous(&mut self) -> (r: Spanned<WideToken>)
        requires
            old(self).wf(),
            old(self).previous_view() is Some,
        ensures
            final(self).wf(),
            final(self).toks() == old(self).toks(),
            final(self).pos() == old(self).pos(),
            Some(r) == old(self).previous_view(),
            old(self).pos() > 0 && r == old(self).toks()[old(self).pos() - 1],
            final(self).previous_view() is None,
    {
        self.previous.take().unwrap()
    }
}

} // verus!
