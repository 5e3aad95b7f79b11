//! The tokenizer driver: a pull-based scan over one input string that
//! hands out classified tokens one at a time, skipping separator matches
//! and stopping at the first unrecognized offset.

pub mod matcher;

use matcher::Matcher;
use matcher::ScanModel;
use matcher::ScanStep;
use matcher::Token;
use matcher::TokenizeError;
use matcher::scan_at;
use vstd::prelude::*;

verus! {

/// An in-progress scan: the text, the matcher driving it, the character
/// offset the next step starts at, and whether the scan already failed
/// (a failed scan hands out nothing more).
pub struct TokenGenerator<'a, 'b, TypeEnum> {
    pub query: &'b str,
    pub matcher: &'a Matcher<TypeEnum>,
    pub current_position: usize,
    pub failed: bool,
}

impl<'a, 'b, TypeEnum: Copy> TokenGenerator<'a, 'b, TypeEnum> {
    /// One step of the scan: the next classified token, the error at the
    /// first stuck offset (after which nothing more is handed out), or
    /// `None` at the clean end of the input.
    pub fn next(&mut self) -> (r: Option<Result<Token<TypeEnum>, TokenizeError>>)
        requires
            old(self).current_position <= old(self).query@.len(),
        ensures
            final(self).query == old(self).query,
            final(self).matcher == old(self).matcher,
            final(self).current_position <= final(self).query@.len(),
            old(self).failed ==> r is None && *final(self) == *old(self),
            !old(self).failed ==> match (
                r,
                scan_at(
                    old(self).matcher@,
                    old(self).query@,
                    old(self).current_position as int,
                ),
            ) {
                (None, ScanModel::Done) => *final(self) == *old(self),
                (Some(step), ScanModel::Stuck(p)) => {
                    &&& step matches Err(e) && e.position == p && e.remainder@
                        == old(self).query@.subrange(p, old(self).query@.len() as int)
                    &&& final(self).failed
                    &&& final(self).current_position == old(self).current_position
                },
                (Some(step), ScanModel::Tok(st, end, ty)) => {
                    &&& step matches Ok(tok) && tok.position == st && tok.value@
                        == old(self).query@.subrange(st, end) && tok.type_ == ty
                    &&& old(self).current_position <= st <= end <= old(self).query@.len()
                    &&& final(self).current_position == end
                    &&& !final(self).failed
                },
                _ => false,
            },
    {
        if self.failed {
            return None;
        }
        let len = self.query.unicode_len();
        match self.matcher.scan(self.query, self.current_position) {
            ScanStep::Finished => None,
            ScanStep::Blocked(p) => {
                self.failed = true;
                let remainder = String::from_str(self.query.substring_char(p, len));
                Some(Err(TokenizeError { position: p, remainder }))
            },
            ScanStep::Matched(tok) => {
                let end = tok.position + tok.value.as_str().unicode_len();
                self.current_position = end;
                Some(Ok(tok))
            },
        }
    }
}

/// Anything that can open a scan over a string.
pub trait Tokenizer<'a, 'b, TypeEnum> {
    /// Prepare a scan that extracts tokens from `data`, starting at its
    /// beginning.
    fn tokenize(&'a self, data: &'b str) -> (r: TokenGenerator<'a, 'b, TypeEnum>)
        ensures
            r.query == data,
            r.current_position == 0,
            !r.failed,
    ;
}

impl<'a, 'b, TypeEnum: Copy> Tokenizer<'a, 'b, TypeEnum> for Matcher<TypeEnum> {
    fn tokenize(&'a self, data: &'b str) -> (r: TokenGenerator<'a, 'b, TypeEnum>)
        ensures
            r.matcher == self,
    {
        TokenGenerator { query: data, matcher: self, current_position: 0, failed: false }
    }
}

} // verus!
