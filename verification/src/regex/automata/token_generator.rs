//! Splits a pattern string into its atomic units: a backslash followed by
//! one character is a two-character unit, everything else a one-character
//! unit.

use std::ops::Range;
use vstd::prelude::*;

verus! {

/// The number of characters the unit starting at the front of `s` spans.
pub open spec fn unit_len(s: Seq<char>) -> int {
    if s.len() >= 2 && s[0] == '\\' {
        2
    } else {
        1
    }
}

/// A pattern-unit scanner over the characters of one pattern string.
/// `current` is what remains; `position` counts the characters already
/// handed out.
pub struct TokenGenerator<'a> {
    pub current: &'a str,
    pub position: usize,
}

/// One unit of a pattern string and the character span it came from.
#[derive(Debug, PartialEq)]
pub struct Token<'a> {
    pub value: &'a str,
    pub span: Range<usize>,
}

impl<'a> TokenGenerator<'a> {
    /// Start scanning `current` from its beginning.
    pub fn new(current: &'a str) -> (r: Self)
        ensures
            r.current@ == current@,
            r.position == 0,
    {
        Self { current, position: 0 }
    }

    /// Hand out the next unit, or `None` once the pattern is exhausted.
    pub fn next(&mut self) -> (r: Option<Token<'a>>)
        requires
            old(self).position + old(self).current@.len() <= usize::MAX,
        ensures
            match r {
                None => old(self).current@.len() == 0 && *final(self) == *old(self),
                Some(t) => {
                    let k = unit_len(old(self).current@);
                    &&& old(self).current@.len() > 0
                    &&& t.value@ == old(self).current@.subrange(0, k)
                    &&& t.span.start == old(self).position
                    &&& t.span.end == old(self).position + k
                    &&& final(self).current@ == old(self).current@.subrange(
                        k,
                        old(self).current@.len() as int,
                    )
                    &&& final(self).position == old(self).position + k
                },
            },
    {
        let len = self.current.unicode_len();
        if len == 0 {
            None
        } else {
            let first = self.current.get_char(0);
            let k: usize = if first == '\\' && len >= 2 {
                2
            } else {
                1
            };
            let value = self.current.substring_char(0, k);
            let span = self.position..(self.position + k);
            self.current = self.current.substring_char(k, len);
            self.position = self.position + k;
            Some(Token { value, span })
        }
    }
}

} // verus!
