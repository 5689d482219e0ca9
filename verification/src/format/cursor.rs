//! Byte cursor shared by the single-pass parsers: tracks the position,
//! the line starts met so far and the progress threshold.

use vstd::prelude::*;

use crate::ascii::LF;
use crate::bytes::{is_ws_byte, line_starts_in, skip_ws_from};
use crate::format::{progress_due, Offset, ParseError, ParseErrorKind, ProgressSink, PROGRESS_GRANULARITY};

verus! {

/// The byte at `i`, if there is one.
pub open spec fn byte_at(s: Seq<u8>, i: int) -> Option<u8> {
    if 0 <= i < s.len() {
        Some(s[i])
    } else {
        None
    }
}

/// The byte at `i`, or zero past the end.
pub open spec fn byte_or_zero(s: Seq<u8>, i: int) -> u8 {
    if 0 <= i < s.len() {
        s[i]
    } else {
        0
    }
}

pub struct Cursor<'a> {
    pub input: &'a [u8],
    pub pos: usize,
    pub line_starts: Vec<Offset>,
    pub progress: Option<&'a ProgressSink>,
    /// Next `pos` at which progress is published; `usize::MAX` without a
    /// sink.
    pub next_progress_at: usize,
}

impl<'a> Cursor<'a> {
    /// The position is in the input, offsets fit, and `line_starts` holds
    /// exactly the line starts of the consumed part.
    pub open spec fn wf(&self) -> bool {
        &&& self.input@.len() < u32::MAX
        &&& self.pos <= self.input@.len()
        &&& self.line_starts@ == line_starts_in(self.input@, self.pos as int)
    }

    pub fn new(input: &'a [u8], progress: Option<&'a ProgressSink>) -> (r: Self)
        requires
            input@.len() < u32::MAX,
        ensures
            r.wf(),
            r.input@ == input@,
            r.pos == 0,
    {
        let next_progress_at: usize = if progress.is_some() {
            PROGRESS_GRANULARITY
        } else {
            usize::MAX
        };
        let mut line_starts: Vec<Offset> = Vec::new();
        line_starts.push(0);
        assert(line_starts@ =~= line_starts_in(input@, 0));
        Cursor { input, pos: 0, line_starts, progress, next_progress_at }
    }

    pub fn peek(&self) -> (r: Option<u8>)
        requires
            self.wf(),
        ensures
            r == byte_at(self.input@, self.pos as int),
    {
        if self.pos < self.input.len() {
            Some(self.input[self.pos])
        } else {
            None
        }
    }

    /// The byte at the position, or zero at the end of the input.
    pub fn peek_or_zero(&self) -> (r: u8)
        requires
            self.wf(),
        ensures
            r == byte_or_zero(self.input@, self.pos as int),
    {
        if self.pos < self.input.len() {
            self.input[self.pos]
        } else {
            0
        }
    }

    /// Steps over one byte, if any is left.
    pub fn advance(&mut self)
        requires
            old(self).wf(),
        ensures
            final(self).wf(),
            final(self).input@ == old(self).input@,
            final(self).pos == if old(self).pos < old(self).input@.len() {
                old(self).pos + 1
            } else {
                old(self).pos as int
            },
    {
        if self.pos < self.input.len() {
            if self.input[self.pos] == LF {
                self.line_starts.push((self.pos + 1) as u32);
            }
            self.pos += 1;
            if self.pos >= self.next_progress_at {
                self.flush_progress();
            }
        }
    }

    /// Publishes the position to the sink, if there is one, and puts the
    /// next time off by a granule. Nothing else changes.
    fn flush_progress(&mut self)
        requires
            old(self).wf(),
        ensures
            final(self).wf(),
            *final(self) == (Cursor { next_progress_at: progress_due(old(self).pos), ..*old(self) }),
    {
        if let Some(p) = self.progress {
            p.publish(self.pos as u64);
        }
        self.next_progress_at = if self.pos > usize::MAX - PROGRESS_GRANULARITY {
            usize::MAX
        } else {
            self.pos + PROGRESS_GRANULARITY
        };
    }

    /// Steps over `n` bytes.
    pub fn advance_by(&mut self, n: usize)
        requires
            old(self).wf(),
            old(self).pos + n <= old(self).input@.len(),
        ensures
            final(self).wf(),
            final(self).input@ == old(self).input@,
            final(self).pos == old(self).pos + n,
    {
        let mut k: usize = 0;
        while k < n
            invariant
                self.wf(),
                self.input@ == old(self).input@,
                k <= n,
                self.pos == old(self).pos + k,
                old(self).pos + n <= old(self).input@.len(),
            decreases n - k,
        {
            self.advance();
            k += 1;
        }
    }

    /// Steps ahead to position `to`.
    pub fn advance_to(&mut self, to: usize)
        requires
            old(self).wf(),
            old(self).pos <= to <= old(self).input@.len(),
        ensures
            final(self).wf(),
            final(self).input@ == old(self).input@,
            final(self).pos == to,
    {
        let n: usize = to - self.pos;
        self.advance_by(n);
    }

    pub fn skip_ws(&mut self)
        requires
            old(self).wf(),
        ensures
            final(self).wf(),
            final(self).input@ == old(self).input@,
            final(self).pos == skip_ws_from(old(self).input@, old(self).pos as int),
            old(self).pos <= final(self).pos,
    {
        while self.pos < self.input.len() && is_ws_byte(self.input[self.pos])
            invariant
                self.wf(),
                self.input@ == old(self).input@,
                old(self).pos <= self.pos,
                skip_ws_from(self.input@, self.pos as int) == skip_ws_from(
                    old(self).input@,
                    old(self).pos as int,
                ),
            decreases self.input@.len() - self.pos,
        {
            self.advance();
        }
    }

    pub fn err(&self, kind: ParseErrorKind) -> (r: ParseError)
        requires
            self.wf(),
        ensures
            r == (ParseError { offset: self.pos as u32, kind }),
    {
        ParseError { offset: self.pos as u32, kind }
    }
}

} // verus!
