//! A position in a buffer of bytes.

use crate::text::copy_range;
use crate::text::end_of;
use crate::text::find;
use crate::text::lemma_index_of;
use vstd::prelude::*;

verus! {

/// What a cursor is: the bytes it reads from, and how many of them it has
/// passed.
pub struct Stream {
    pub bytes: Seq<u8>,
    pub pos: int,
}

impl Stream {
    /// The same bytes, read from `pos`.
    pub open spec fn at(self, pos: int) -> Stream {
        Stream { bytes: self.bytes, pos }
    }

    /// The position lies in the bytes or at their end.
    pub open spec fn wf(self) -> bool {
        0 <= self.pos <= self.bytes.len()
    }

    /// The byte at the position, where one is left.
    pub open spec fn next(self) -> Option<u8> {
        if 0 <= self.pos < self.bytes.len() {
            Some(self.bytes[self.pos])
        } else {
            None
        }
    }

    /// The place after the byte at the position, or the end where no byte is
    /// left.
    pub open spec fn past_one(self) -> int {
        if self.pos < self.bytes.len() {
            self.pos + 1
        } else {
            self.pos
        }
    }

    /// The place `pos`, or the end where `pos` lies past it.
    pub open spec fn clamp(self, pos: int) -> int {
        if pos <= self.bytes.len() {
            pos
        } else {
            self.bytes.len() as int
        }
    }
}

/// A buffer of bytes with a position in it. Reading moves the position
/// forward; `seek` puts it back. The position is never past the end.
pub struct Cursor {
    data: Vec<u8>,
    pos: usize,
}

impl View for Cursor {
    type V = Stream;

    closed spec fn view(&self) -> Stream {
        Stream {
            bytes: self.data@,
            pos: if self.pos <= self.data@.len() {
                self.pos as int
            } else {
                self.data@.len() as int
            },
        }
    }
}

impl Cursor {
    #[verifier::type_invariant]
    spec fn within(self) -> bool {
        self.pos <= self.data@.len()
    }

    /// The position of a cursor lies in its bytes or at their end.
    pub proof fn lemma_wf(&self)
        ensures
            self@.wf(),
    {
    }

    /// A cursor at the start of `data`.
    pub fn new(data: Vec<u8>) -> (cursor: Cursor)
        ensures
            cursor@.bytes == data@,
            cursor@.pos == 0,
    {
        Cursor { data, pos: 0 }
    }

    /// The number of bytes passed.
    pub fn position(&self) -> (pos: u64)
        ensures
            pos == self@.pos,
            pos <= self@.bytes.len(),
    {
        proof {
            use_type_invariant(self);
        }
        self.pos as u64
    }

    /// Moves to the absolute position `pos`, or to the end where `pos` lies
    /// past it.
    pub fn seek(&mut self, pos: u64)
        ensures
            final(self)@.bytes == old(self)@.bytes,
            final(self)@.pos == old(self)@.clamp(pos as int),
    {
        proof {
            use_type_invariant(&*self);
        }
        if pos <= self.data.len() as u64 {
            self.pos = pos as usize;
        } else {
            self.pos = self.data.len();
        }
    }

    /// Reads one byte, where one is left.
    pub fn read_byte(&mut self) -> (byte: Option<u8>)
        ensures
            final(self)@.bytes == old(self)@.bytes,
            byte == old(self)@.next(),
            final(self)@.pos == old(self)@.past_one(),
    {
        proof {
            use_type_invariant(&*self);
        }
        if self.pos < self.data.len() {
            let byte: u8 = self.data[self.pos];
            self.pos += 1;
            Some(byte)
        } else {
            None
        }
    }

    /// Reads up to and including the next `delim`, or up to the end where no
    /// `delim` is left, and returns the bytes read.
    pub fn read_until(&mut self, delim: u8) -> (line: Vec<u8>)
        ensures
            final(self)@.bytes == old(self)@.bytes,
            final(self)@.pos == end_of(old(self)@.bytes, old(self)@.pos, delim),
            line@ == old(self)@.bytes.subrange(old(self)@.pos, final(self)@.pos),
            old(self)@.pos <= final(self)@.pos <= old(self)@.bytes.len(),
    {
        proof {
            use_type_invariant(&*self);
            lemma_index_of(self.data@, self.pos as int, delim);
        }
        let at: usize = find(self.data.as_slice(), self.pos, delim);
        let end: usize = if at < self.data.len() {
            at + 1
        } else {
            at
        };
        let line = copy_range(self.data.as_slice(), self.pos, end);
        self.pos = end;
        line
    }
}

} // verus!
