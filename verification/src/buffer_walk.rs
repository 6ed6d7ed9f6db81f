//! A cursor that walks the characters of a borrowed text buffer, tracking
//! the character most recently produced and its index, and offering
//! zero-copy substring extraction.

use vstd::prelude::*;
use vstd::string::StrSliceExecFns;
use vstd::utf8::encode_utf8;
use crate::grammar::{is_ws_char, skip_ws_idx};

verus! {

pub struct CharIter<'a> {
    previous: Option<char>,
    buffer: &'a str,
    total: usize,
    pos: usize,
}

impl<'a> CharIter<'a> {
    /// The characters of the underlying buffer.
    pub closed spec fn text(self) -> Seq<char> {
        self.buffer@
    }

    /// The advance count: how many times `next` has pulled on the input.
    /// It grows by one on every advance, even past exhaustion; the
    /// character most recently produced, if any, sits at index `at() - 1`.
    pub closed spec fn at(self) -> int {
        self.pos as int
    }

    /// The character most recently produced, if any.
    pub closed spec fn cur(self) -> Option<char> {
        self.previous
    }

    /// The byte length of the underlying buffer: what its characters take
    /// up in UTF-8.
    pub open spec fn byte_len(self) -> nat {
        encode_utf8(self.text()).len()
    }

    /// The stored character count agrees with the buffer.
    pub closed spec fn total_ok(self) -> bool {
        self.total == self.text().len()
    }

    /// The cursor's internal consistency: the recorded character is the
    /// one at index `at() - 1`, absent exactly before the first advance or
    /// once the advance count has passed the end of the input.
    pub open spec fn wf(self) -> bool {
        &&& self.total_ok()
        &&& self.text().len() < usize::MAX
        &&& match self.cur() {
            Some(c) => 1 <= self.at() <= self.text().len() && c == self.text()[self.at() - 1],
            None => self.at() == 0 || self.at() > self.text().len(),
        }
    }

    /// The index of the current character, or the buffer length when there
    /// is none.
    pub open spec fn idx(self) -> int {
        if self.cur() is Some {
            self.at() - 1
        } else {
            self.text().len() as int
        }
    }

    /// The cursor has just produced the character at index `j`, or, with `j`
    /// the buffer length, has run one advance past the end of the input.
    pub open spec fn landed(self, j: int) -> bool {
        if j < self.text().len() {
            &&& self.cur() == Some(self.text()[j])
            &&& self.at() == j + 1
        } else {
            &&& j == self.text().len()
            &&& self.cur() is None
            &&& self.at() == j + 1
        }
    }

    /// Creates a cursor over `s` with no character yet produced. A buffer
    /// of `usize::MAX` characters could not exist in memory; ruling it out
    /// keeps every later advance free of overflow.
    pub fn new(s: &'a str) -> (r: CharIter<'a>)
        requires
            s@.len() < usize::MAX,
        ensures
            r.wf(),
            r.text() == s@,
            r.at() == 0,
            r.cur() is None,
    {
        CharIter { previous: None, buffer: s, total: s.unicode_len(), pos: 0 }
    }

    /// Returns the character most recently produced.
    pub fn current(&self) -> (r: Option<char>)
        ensures
            r == self.cur(),
    {
        self.previous
    }

    /// The index of the character most recently produced; meaningful only
    /// after the first advance.
    pub fn position(&self) -> (r: usize)
        requires
            self.at() >= 1,
        ensures
            r == self.at() - 1,
    {
        self.pos - 1
    }

    /// The byte length of the buffer, independent of progress.
    pub fn len(&self) -> (r: usize)
        ensures
            r == self.byte_len() as usize,
    {
        self.buffer.len()
    }

    /// Whether the buffer is empty, independent of progress.
    pub fn is_empty(&self) -> (r: bool)
        ensures
            r == (self.text().len() == 0),
    {
        self.buffer.is_empty()
    }

    /// Returns the whole underlying buffer.
    pub fn get_buffer(&self) -> (r: &'a str)
        ensures
            r@ == self.text(),
    {
        self.buffer
    }

    /// Returns the text in `[start, end)` of the buffer, counted in
    /// characters, as a borrowed slice.
    pub fn get_sub_string(&self, start: usize, end: usize) -> (r: &'a str)
        requires
            start <= end <= self.text().len(),
        ensures
            r@ == self.text().subrange(start as int, end as int),
    {
        self.buffer.substring_char(start, end)
    }

    /// Produces the next character, or nothing once the input is
    /// exhausted; the advance count grows by one either way. The count
    /// would overflow where a debug build of the arithmetic panics; that
    /// point is excluded.
    pub fn next(&mut self) -> (r: Option<char>)
        requires
            old(self).wf(),
            old(self).at() < usize::MAX,
        ensures
            final(self).wf(),
            final(self).text() == old(self).text(),
            final(self).at() == old(self).at() + 1,
            old(self).at() < old(self).text().len() ==> final(self).cur() == Some(
                old(self).text()[old(self).at()],
            ),
            old(self).at() >= old(self).text().len() ==> final(self).cur() is None,
            r == final(self).cur(),
    {
        if self.pos < self.total {
            let c = self.buffer.get_char(self.pos);
            self.previous = Some(c);
        } else {
            self.previous = None;
        }
        self.pos = self.pos + 1;
        self.previous
    }

    /// Advances until a character that is not white space is produced,
    /// returning it, or nothing when only white space remained.
    pub fn skip_whitespace(&mut self) -> (r: Option<char>)
        requires
            old(self).wf(),
            old(self).at() < usize::MAX,
        ensures
            final(self).wf(),
            final(self).text() == old(self).text(),
            old(self).at() <= old(self).text().len() ==> final(self).landed(
                skip_ws_idx(old(self).text(), old(self).at()),
            ),
            old(self).at() > old(self).text().len() ==> final(self).cur() is None
                && final(self).at() == old(self).at() + 1,
            r == final(self).cur(),
    {
        loop
            invariant
                self.wf(),
                self.text() == old(self).text(),
                self.at() < usize::MAX,
                old(self).at() <= old(self).text().len() ==> {
                    &&& self.at() <= self.text().len()
                    &&& skip_ws_idx(old(self).text(), old(self).at()) == skip_ws_idx(
                        self.text(),
                        self.at(),
                    )
                },
                old(self).at() > old(self).text().len() ==> *self == *old(self),
            decreases self.text().len() + 1 - self.at(),
        {
            match self.next() {
                Some(x) => {
                    if !is_ws_char(x) {
                        return Some(x);
                    }
                },
                None => {
                    return None;
                },
            }
        }
    }
}

} // verus!
