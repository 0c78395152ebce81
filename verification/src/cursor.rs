//! A position in an input text, with one character of lookahead.

use crate::grammar::{char_at, scan, word_at, CharClass};
use vstd::prelude::*;
use vstd::std_specs::iter::IteratorSpec;

verus! {

/// The input text together with the offset of the next unconsumed character.
pub struct Cursor {
    chars: Vec<char>,
    pos: usize,
}

impl Cursor {
    #[verifier::type_invariant]
    spec fn in_bounds(self) -> bool {
        self.pos <= self.chars@.len()
    }

    /// The whole input, consumed or not.
    pub closed spec fn text(self) -> Seq<char> {
        self.chars@
    }

    /// The offset of the next unconsumed character.
    pub closed spec fn offset(self) -> int {
        self.pos as int
    }

    /// A cursor at the start of `input`.
    pub fn new(input: &str) -> (cursor: Cursor)
        ensures
            cursor.text() == input@,
            cursor.offset() == 0,
    {
        broadcast use vstd::string::group_string_axioms;

        let mut chars: Vec<char> = Vec::new();
        let mut it = input.chars();
        loop
            invariant
                chars@ + it.remaining() == input@,
                it.obeys_prophetic_iter_laws(),
                it.decrease() is Some,
            ensures
                chars@ == input@,
            decreases it.decrease()->0,
        {
            match it.next() {
                Some(c) => {
                    chars.push(c);
                },
                None => {
                    break ;
                },
            }
        }
        Cursor { chars, pos: 0 }
    }

    /// The offset of the next unconsumed character.
    pub fn position(&self) -> (p: usize)
        ensures
            p == self.offset(),
            p <= self.text().len(),
    {
        proof {
            use_type_invariant(self);
        }
        self.pos
    }

    /// The next unconsumed character, or `None` at the end of the input.
    pub fn peek(&self) -> (next: Option<char>)
        ensures
            next == char_at(self.text(), self.offset()),
    {
        if self.pos < self.chars.len() {
            Some(self.chars[self.pos])
        } else {
            None
        }
    }

    /// Whether the next unconsumed character is `c`.
    pub fn next_is(&self, c: char) -> (found: bool)
        ensures
            found == (char_at(self.text(), self.offset()) == Some(c)),
    {
        match self.peek() {
            Some(next) => next == c,
            None => false,
        }
    }

    /// Whether the characters of `word` are the next unconsumed ones.
    pub fn looking_at(&self, word: &[char]) -> (found: bool)
        ensures
            found == word_at(self.text(), self.offset(), word@),
    {
        proof {
            use_type_invariant(self);
        }
        if word.len() > self.chars.len() - self.pos {
            return false;
        }
        let mut i: usize = 0;
        while i < word.len()
            invariant
                i <= word@.len(),
                self.pos + word@.len() <= self.chars@.len() <= usize::MAX,
                forall|j: int| 0 <= j < i ==> self.chars@[self.pos + j] == word@[j],
            decreases word@.len() - i,
        {
            if self.chars[self.pos + i] != word[i] {
                assert(self.chars@.subrange(self.pos as int, self.pos + word@.len())[i as int]
                    != word@[i as int]);
                return false;
            }
            i += 1;
        }
        assert(self.chars@.subrange(self.pos as int, self.pos + word@.len()) =~= word@);
        true
    }

    /// Moves past the next `n` characters.
    pub(crate) fn advance(&mut self, n: usize)
        requires
            old(self).offset() + n <= old(self).text().len(),
        ensures
            final(self).text() == old(self).text(),
            final(self).offset() == old(self).offset() + n,
    {
        assert(self.chars@.len() == self.chars.len());
        self.pos = self.pos + n;
    }

    /// Moves past the longest run of `class` characters that starts at the
    /// cursor.
    pub fn skip_while(&mut self, class: CharClass)
        ensures
            final(self).text() == old(self).text(),
            final(self).offset() == scan(old(self).text(), old(self).offset(), class),
    {
        proof {
            use_type_invariant(&*self);
        }
        let mut end: usize = self.pos;
        while end < self.chars.len() && class.contains(self.chars[end])
            invariant
                self.pos <= end <= self.chars@.len(),
                scan(self.chars@, end as int, class) == scan(self.chars@, self.pos as int, class),
            decreases self.chars@.len() - end,
        {
            end += 1;
        }
        self.pos = end;
    }

    /// Moves past the longest run of `class` characters that starts at the
    /// cursor, and returns the run.
    pub fn consume_while(&mut self, class: CharClass) -> (run: String)
        ensures
            final(self).text() == old(self).text(),
            final(self).offset() == scan(old(self).text(), old(self).offset(), class),
            old(self).offset() <= final(self).offset() <= old(self).text().len(),
            run@ == old(self).text().subrange(old(self).offset(), final(self).offset()),
    {
        proof {
            use_type_invariant(&*self);
        }
        let start: usize = self.pos;
        let mut end: usize = self.pos;
        let mut run = String::new();
        while end < self.chars.len() && class.contains(self.chars[end])
            invariant
                self.pos == start,
                start <= end <= self.chars@.len(),
                scan(self.chars@, end as int, class) == scan(self.chars@, start as int, class),
                run@ == self.chars@.subrange(start as int, end as int),
            decreases self.chars@.len() - end,
        {
            push_char(&mut run, self.chars[end]);
            end += 1;
        }
        self.pos = end;
        run
    }
}

/// Appends `c` to `s` by `String::push`. Taken on trust: that the string
/// then holds the characters it held before, in their order, and `c` after
/// them.
#[verifier::external_body]
fn push_char(s: &mut String, c: char)
    ensures
        final(s)@ == old(s)@.push(c),
{
    s.push(c)
}

} // verus!
