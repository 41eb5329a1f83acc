use vstd::prelude::*;
use vstd::string::StrSliceExecFns;
use vstd::utf8::encode_utf8;
use crate::utf8::{
    byte_len, char_width, chars_of, lemma_byte_len_prefix, lemma_byte_len_take,
    lemma_byte_len_take_increasing, lemma_encode_concat, width,
};

verus! {

/// The class of a single character, as the tokenizer sees it.
#[derive(Debug, Clone, Copy, PartialEq, Eq, Structural)]
pub enum CharGroup {
    /// ASCII letters and `_`.
    Alphabetic,
    /// ASCII digits.
    Numeric,
    /// Space, tab and newline; `newline` tells the newline apart.
    Invisible { newline: bool },
    /// `#`, which opens a comment running to the end of the line.
    CommentStart,
    /// Anything else; the punctuation table decides.
    MaybePunctuation,
    /// The end-of-input sentinel.
    Eof,
}

/// The end-of-input sentinel character.
pub const EOF_CHAR: char = '\0';

pub open spec fn char_group(c: char) -> CharGroup {
    if ('a' <= c && c <= 'z') || ('A' <= c && c <= 'Z') || c == '_' {
        CharGroup::Alphabetic
    } else if '0' <= c && c <= '9' {
        CharGroup::Numeric
    } else if c == ' ' || c == '\t' {
        CharGroup::Invisible { newline: false }
    } else if c == '\n' {
        CharGroup::Invisible { newline: true }
    } else if c == '#' {
        CharGroup::CommentStart
    } else if c == EOF_CHAR {
        CharGroup::Eof
    } else {
        CharGroup::MaybePunctuation
    }
}

/// Classifies characters; a total function with no failure mode.
pub struct CharClassifier;

impl CharClassifier {
    pub fn group(c: char) -> (g: CharGroup)
        ensures
            g == char_group(c),
    {
        if ('a' <= c && c <= 'z') || ('A' <= c && c <= 'Z') || c == '_' {
            CharGroup::Alphabetic
        } else if '0' <= c && c <= '9' {
            CharGroup::Numeric
        } else if c == ' ' || c == '\t' {
            CharGroup::Invisible { newline: false }
        } else if c == '\n' {
            CharGroup::Invisible { newline: true }
        } else if c == '#' {
            CharGroup::CommentStart
        } else if c == EOF_CHAR {
            CharGroup::Eof
        } else {
            CharGroup::MaybePunctuation
        }
    }
}

impl CharGroup {
    pub fn is_eof(&self) -> (r: bool)
        ensures
            r == (*self == CharGroup::Eof),
    {
        match self {
            CharGroup::Eof => true,
            _ => false,
        }
    }
}

/// The source text with a cursor over its characters.
///
/// The cursor counts characters; `offset` is the byte offset of the cursor
/// and `token_start` the byte offset marked as the start of the current token.
pub struct SourceBuffer {
    text: String,
    chars: Vec<char>,
    length: usize,
    cursor: usize,
    offset: usize,
    token_start: usize,
}

impl SourceBuffer {
    pub closed spec fn text_view(&self) -> Seq<char> {
        self.chars@
    }

    pub closed spec fn cursor_view(&self) -> nat {
        self.cursor as nat
    }

    pub closed spec fn token_start_view(&self) -> nat {
        self.token_start as nat
    }

    /// The characters not yet consumed.
    pub open spec fn rest(&self) -> Seq<char> {
        self.text_view().skip(self.cursor_view() as int)
    }

    /// Byte offset of the cursor.
    pub open spec fn byte_offset(&self) -> nat {
        byte_len(self.text_view().take(self.cursor_view() as int))
    }

    pub closed spec fn wf(&self) -> bool {
        &&& self.chars@ == self.text@
        &&& self.cursor <= self.chars.len()
        &&& self.offset == byte_len(self.chars@.take(self.cursor as int))
        &&& byte_len(self.chars@) <= usize::MAX
        &&& self.length == byte_len(self.chars@)
        &&& self.token_start <= self.offset
    }

    pub proof fn lemma_wf(&self)
        requires
            self.wf(),
        ensures
            self.cursor_view() <= self.text_view().len(),
            self.token_start_view() <= self.byte_offset(),
            self.byte_offset() <= byte_len(self.text_view()),
            byte_len(self.text_view()) <= usize::MAX,
    {
        lemma_byte_len_prefix(self.chars@, self.cursor as int);
    }

    pub fn new(text: &str) -> (r: SourceBuffer)
        ensures
            r.wf(),
            r.text_view() == text@,
            r.cursor_view() == 0,
            r.token_start_view() == 0,
    {
        let total = text.as_bytes().len();
        let chars = chars_of(text);
        assert(chars@.take(0) =~= Seq::<char>::empty());
        assert(byte_len(chars@) == total);
        SourceBuffer { text: text.to_owned(), chars, length: total, cursor: 0, offset: 0, token_start: 0 }
    }

    pub fn text(&self) -> (r: &str)
        requires
            self.wf(),
        ensures
            r@ == self.text_view(),
    {
        self.text.as_str()
    }

    /// The cursor, counted in characters.
    pub fn cursor(&self) -> (r: usize)
        ensures
            r == self.cursor_view(),
    {
        self.cursor
    }

    /// Length of the text in bytes.
    pub fn length(&self) -> (r: usize)
        requires
            self.wf(),
        ensures
            r == byte_len(self.text_view()),
    {
        self.length
    }

    pub fn is_eof(&self) -> (r: bool)
        requires
            self.wf(),
        ensures
            r == (self.rest().len() == 0),
    {
        self.cursor == self.chars.len()
    }

    /// The character under the cursor, or the end-of-input sentinel.
    pub fn current(&self) -> (c: char)
        requires
            self.wf(),
        ensures
            self.rest().len() > 0 ==> c == self.rest()[0],
            self.rest().len() == 0 ==> c == EOF_CHAR,
    {
        if self.cursor == self.chars.len() {
            EOF_CHAR
        } else {
            self.chars[self.cursor]
        }
    }

    /// The character under the cursor, if any, without moving.
    pub fn peek(&self) -> (r: Option<char>)
        requires
            self.wf(),
        ensures
            self.rest().len() > 0 ==> r == Some(self.rest()[0]),
            self.rest().len() == 0 ==> r is None,
    {
        if self.cursor == self.chars.len() {
            None
        } else {
            Some(self.chars[self.cursor])
        }
    }

    /// Moves the cursor one character forward.
    pub fn advance(&mut self)
        requires
            old(self).wf(),
            old(self).rest().len() > 0,
        ensures
            final(self).wf(),
            final(self).text_view() == old(self).text_view(),
            final(self).cursor_view() == old(self).cursor_view() + 1,
            final(self).token_start_view() == old(self).token_start_view(),
            final(self).byte_offset() == old(self).byte_offset() + width(old(self).rest()[0]),
    {
        let c = self.chars[self.cursor];
        proof {
            lemma_byte_len_take(self.chars@, self.cursor as int);
            lemma_byte_len_prefix(self.chars@, self.cursor + 1);
        }
        let w = char_width(c);
        self.offset = self.offset + w;
        self.cursor = self.cursor + 1;
    }

    /// Returns the character under the cursor and moves past it.
    pub fn eat(&mut self) -> (c: char)
        requires
            old(self).wf(),
            old(self).rest().len() > 0,
        ensures
            c == old(self).rest()[0],
            final(self).wf(),
            final(self).text_view() == old(self).text_view(),
            final(self).cursor_view() == old(self).cursor_view() + 1,
            final(self).token_start_view() == old(self).token_start_view(),
            final(self).byte_offset() == old(self).byte_offset() + width(c),
    {
        let c = self.chars[self.cursor];
        self.advance();
        c
    }

    /// Moves past the character under the cursor when `f` accepts it.
    pub fn advance_if<F: Fn(char) -> bool>(&mut self, f: F) -> (moved: bool)
        requires
            old(self).wf(),
            forall|c: char| f.requires((c,)),
        ensures
            final(self).wf(),
            final(self).text_view() == old(self).text_view(),
            final(self).token_start_view() == old(self).token_start_view(),
            moved ==> old(self).rest().len() > 0 && f.ensures((old(self).rest()[0],), true)
                && final(self).cursor_view() == old(self).cursor_view() + 1,
            !moved ==> final(self).cursor_view() == old(self).cursor_view()
                && (old(self).rest().len() > 0 ==> f.ensures((old(self).rest()[0],), false)),
    {
        if self.cursor == self.chars.len() {
            return false;
        }
        let c = self.chars[self.cursor];
        if f(c) {
            self.advance();
            true
        } else {
            false
        }
    }

    /// Moves past characters while `predicate` accepts their group.
    pub fn eat_while<F: Fn(CharGroup) -> bool>(&mut self, predicate: F)
        requires
            old(self).wf(),
            forall|g: CharGroup| predicate.requires((g,)),
        ensures
            final(self).wf(),
            final(self).text_view() == old(self).text_view(),
            final(self).token_start_view() == old(self).token_start_view(),
            old(self).cursor_view() <= final(self).cursor_view(),
            forall|i: int|
                old(self).cursor_view() <= i < final(self).cursor_view() ==> predicate.ensures(
                    (char_group(#[trigger] old(self).text_view()[i]),),
                    true,
                ),
            final(self).rest().len() > 0 ==> predicate.ensures(
                (char_group(final(self).rest()[0]),),
                false,
            ),
    {
        let ghost start = self.cursor_view();
        while self.cursor < self.chars.len()
            invariant
                self.wf(),
                self.text_view() == old(self).text_view(),
                self.token_start_view() == old(self).token_start_view(),
                start == old(self).cursor_view(),
                start <= self.cursor_view(),
                forall|g: CharGroup| predicate.requires((g,)),
                forall|i: int|
                    start <= i < self.cursor_view() ==> predicate.ensures(
                        (char_group(#[trigger] self.text_view()[i]),),
                        true,
                    ),
            decreases self.chars.len() - self.cursor,
        {
            let c = self.chars[self.cursor];
            let group = CharClassifier::group(c);
            if !predicate(group) {
                return;
            }
            self.advance();
        }
    }

    /// Marks the cursor as the start of a new token.
    pub fn mark_token_start(&mut self)
        requires
            old(self).wf(),
        ensures
            final(self).wf(),
            final(self).text_view() == old(self).text_view(),
            final(self).cursor_view() == old(self).cursor_view(),
            final(self).token_start_view() == old(self).byte_offset(),
    {
        self.token_start = self.offset;
    }

    /// Bytes consumed since the token start was marked.
    pub fn token_length(&self) -> (r: usize)
        requires
            self.wf(),
        ensures
            r == self.byte_offset() - self.token_start_view(),
    {
        self.offset - self.token_start
    }

    /// The text between byte offsets `start` and `end`, both on character
    /// boundaries.
    pub fn substring(&self, start: usize, end: usize) -> (r: &str)
        requires
            self.wf(),
            start <= end,
            is_boundary(self.text_view(), start as int),
            is_boundary(self.text_view(), end as int),
        ensures
            encode_utf8(r@) == encode_utf8(self.text_view()).subrange(start as int, end as int),
    {
        let first = self.char_position(start);
        let last = self.char_position(end);
        let ghost s = self.chars@;
        proof {
            if last < first {
                lemma_byte_len_take_increasing(s, last as int, first as int);
            }
            assert(s =~= s.take(first as int) + s.subrange(first as int, last as int) + s.skip(last as int));
            assert(s.take(last as int) =~= s.take(first as int) + s.subrange(first as int, last as int));
            lemma_encode_concat(s.take(first as int), s.subrange(first as int, last as int));
            lemma_encode_concat(s.take(last as int), s.skip(last as int));
            assert(s.take(last as int) + s.skip(last as int) =~= s);
            assert(encode_utf8(s).subrange(start as int, end as int) =~= encode_utf8(
                s.subrange(first as int, last as int),
            ));
        }
        self.text.as_str().substring_char(first, last)
    }

    /// The position of the character that starts at byte offset `offset`.
    fn char_position(&self, offset: usize) -> (i: usize)
        requires
            self.wf(),
            is_boundary(self.text_view(), offset as int),
        ensures
            i <= self.text_view().len(),
            byte_len(self.text_view().take(i as int)) == offset,
    {
        let ghost s = self.chars@;
        let ghost k = choose|k: int| 0 <= k <= s.len() && byte_len(s.take(k)) == offset;
        let mut i: usize = 0;
        let mut bytes: usize = 0;
        assert(s.take(0) =~= Seq::<char>::empty());
        while i < self.chars.len() && bytes < offset
            invariant
                s == self.chars@,
                0 <= k <= s.len(),
                byte_len(s.take(k)) == offset,
                i <= s.len(),
                bytes == byte_len(s.take(i as int)),
                bytes <= offset,
            decreases s.len() - i,
        {
            proof {
                if k <= i {
                    if k < i {
                        lemma_byte_len_take_increasing(s, k, i as int);
                    }
                }
                lemma_byte_len_take(s, i as int);
                lemma_byte_len_take_increasing(s, i as int, i + 1);
                if i + 1 < k {
                    lemma_byte_len_take_increasing(s, i + 1, k);
                }
            }
            let w = char_width(self.chars[i]);
            bytes = bytes + w;
            i = i + 1;
        }
        proof {
            if bytes < offset {
                assert(s.take(i as int) =~= s);
                if k < i {
                    lemma_byte_len_take_increasing(s, k, i as int);
                }
            }
        }
        i
    }
}

/// Byte offset `b` of `s` is the start of a character or the end of the text.
pub open spec fn is_boundary(s: Seq<char>, b: int) -> bool {
    exists|k: int| 0 <= k <= s.len() && byte_len(s.take(k)) == b
}

} // verus!
