use vstd::prelude::*;

use crate::error::DecodeError;

verus! {

/// Little-endian 16-bit value held in two consecutive bytes.
pub open spec fn u16_le(lo: u8, hi: u8) -> int {
    lo + 256 * hi
}

/// Sequential, forward-only reader over an in-memory byte stream.
///
/// This is the only component that touches the raw bytes of the
/// source; every other parser consumes the stream through it. There
/// is no seeking: the position only moves forward, matching the
/// stream-oriented structure of the format.
pub struct ByteCursor<'a> {
    data: &'a Vec<u8>,
    pos: usize,
}

impl<'a> ByteCursor<'a> {
    /// The whole underlying byte stream.
    pub closed spec fn bytes(&self) -> Seq<u8> {
        self.data@
    }

    /// The next byte to be read.
    pub closed spec fn position(&self) -> int {
        self.pos as int
    }

    /// How many bytes remain unread.
    pub open spec fn remaining(&self) -> int {
        self.bytes().len() - self.position()
    }

    /// The position never runs past the end of the stream.
    pub open spec fn wf(&self) -> bool {
        0 <= self.position() <= self.bytes().len()
    }

    /// A cursor at the start of `data`.
    pub fn new(data: &'a Vec<u8>) -> (c: ByteCursor<'a>)
        ensures
            c.bytes() == data@,
            c.position() == 0,
            c.wf(),
    {
        ByteCursor { data, pos: 0 }
    }

    /// A cursor resuming at byte `pos` of `data`.
    pub fn new_at(data: &'a Vec<u8>, pos: usize) -> (c: ByteCursor<'a>)
        requires
            pos <= data@.len(),
        ensures
            c.bytes() == data@,
            c.position() == pos,
            c.wf(),
    {
        ByteCursor { data, pos }
    }

    /// How far the cursor has advanced into the stream.
    pub fn offset(&self) -> (n: usize)
        ensures
            n == self.position(),
    {
        self.pos
    }

    /// How many bytes remain unread, as a count.
    pub fn remaining_len(&self) -> (n: usize)
        requires
            self.wf(),
        ensures
            n == self.remaining(),
    {
        self.data.len() - self.pos
    }

    /// Reads one byte; fails with `TruncatedInput` at end of stream,
    /// leaving the cursor unchanged.
    pub fn read_u8(&mut self) -> (r: Result<u8, DecodeError>)
        requires
            old(self).wf(),
        ensures
            final(self).wf(),
            final(self).bytes() == old(self).bytes(),
            old(self).remaining() >= 1 ==> r == Ok::<u8, DecodeError>(
                old(self).bytes()[old(self).position()],
            ) && final(self).position() == old(self).position() + 1,
            old(self).remaining() < 1 ==> r == Err::<u8, DecodeError>(DecodeError::TruncatedInput)
                && final(self).position() == old(self).position(),
    {
        if self.pos < self.data.len() {
            let b = self.data[self.pos];
            self.pos = self.pos + 1;
            Ok(b)
        } else {
            Err(DecodeError::TruncatedInput)
        }
    }

    /// Reads a little-endian 16-bit value; fails with `TruncatedInput`
    /// when fewer than two bytes remain, leaving the cursor unchanged.
    pub fn read_u16_le(&mut self) -> (r: Result<u16, DecodeError>)
        requires
            old(self).wf(),
        ensures
            final(self).wf(),
            final(self).bytes() == old(self).bytes(),
            old(self).remaining() >= 2 ==> r == Ok::<u16, DecodeError>(
                u16_le(
                    old(self).bytes()[old(self).position()],
                    old(self).bytes()[old(self).position() + 1],
                ) as u16,
            ) && final(self).position() == old(self).position() + 2,
            old(self).remaining() < 2 ==> r == Err::<u16, DecodeError>(DecodeError::TruncatedInput)
                && final(self).position() == old(self).position(),
    {
        if self.data.len() - self.pos >= 2 {
            let lo = self.data[self.pos];
            let hi = self.data[self.pos + 1];
            self.pos = self.pos + 2;
            Ok(lo as u16 + (hi as u16) * 256)
        } else {
            Err(DecodeError::TruncatedInput)
        }
    }

    /// Reads exactly `n` bytes; fails with `TruncatedInput` when fewer
    /// remain, leaving the cursor unchanged.
    pub fn read_exact(&mut self, n: usize) -> (r: Result<Vec<u8>, DecodeError>)
        requires
            old(self).wf(),
        ensures
            final(self).wf(),
            final(self).bytes() == old(self).bytes(),
            old(self).remaining() >= n ==> r is Ok && r.unwrap()@ == old(self).bytes().subrange(
                old(self).position(),
                old(self).position() + n,
            ) && final(self).position() == old(self).position() + n,
            old(self).remaining() < n ==> r == Err::<Vec<u8>, DecodeError>(
                DecodeError::TruncatedInput,
            ) && final(self).position() == old(self).position(),
    {
        if n <= self.data.len() - self.pos {
            let mut out: Vec<u8> = Vec::new();
            let mut i: usize = 0;
            while i < n
                invariant
                    i <= n,
                    self.pos + n <= self.data.len(),
                    out@ == self.data@.subrange(self.pos as int, self.pos + i),
                decreases n - i,
            {
                out.push(self.data[self.pos + i]);
                assert(out@ =~= self.data@.subrange(self.pos as int, self.pos + i + 1));
                i = i + 1;
            }
            self.pos = self.pos + n;
            Ok(out)
        } else {
            Err(DecodeError::TruncatedInput)
        }
    }
}

} // verus!
