//! A character stream with one-character lookahead: the scanner reads the
//! current character and advances one position at a time.

use vstd::prelude::*;
use vstd::string::StrSliceExecFns;

verus! {

/// The source text as a sequence of characters together with the position of
/// the next character to read. Positions run from zero to the length of the
/// text; at the length, the stream is exhausted and stays exhausted.
pub struct SourceStream {
    pub source: Vec<char>,
    pub idx: usize,
}

impl SourceStream {
    /// The characters of the source text.
    pub open spec fn chars(&self) -> Seq<char> {
        self.source@
    }

    /// The position of the next character to read.
    pub open spec fn position(&self) -> int {
        self.idx as int
    }

    /// The position never runs past the end of the text.
    pub open spec fn wf(&self) -> bool {
        self.idx <= self.source.len()
    }

    pub fn new(source: &str) -> (s: SourceStream)
        ensures
            s.wf(),
            s.chars() == source@,
            s.position() == 0,
    {
        let n = source.unicode_len();
        let mut chars: Vec<char> = Vec::new();
        let mut i: usize = 0;
        while i < n
            invariant
                n == source@.len(),
                i <= n,
                chars@ == source@.subrange(0, i as int),
            decreases n - i,
        {
            chars.push(source.get_char(i));
            i = i + 1;
            proof {
                assert(chars@ =~= source@.subrange(0, i as int));
            }
        }
        proof {
            assert(chars@ =~= source@);
        }
        SourceStream { source: chars, idx: 0 }
    }

    /// The character at the current position, or `None` once the text is
    /// exhausted. Reading does not advance the stream.
    pub fn cur_char(&self) -> (c: Option<char>)
        requires
            self.wf(),
        ensures
            c == if self.position() < self.chars().len() {
                Some(self.chars()[self.position()])
            } else {
                None::<char>
            },
    {
        if self.idx == self.source.len() {
            return None;
        }
        Some(self.source[self.idx])
    }

    /// Moves one character forward; at the end of the text it stays put.
    pub fn advance(&mut self)
        requires
            old(self).wf(),
        ensures
            final(self).wf(),
            final(self).chars() == old(self).chars(),
            final(self).position() == if old(self).position() < old(self).chars().len() {
                old(self).position() + 1
            } else {
                old(self).position()
            },
    {
        if self.idx < self.source.len() {
            self.idx = self.idx + 1;
        }
    }
}

} // verus!
