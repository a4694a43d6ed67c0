//! Reading through bytes in memory, from the first towards the last.

use vstd::prelude::*;
use vstd::slice::slice_subrange;
use crate::endian::{le_value, read_u32};
use crate::error::Error;

verus! {

/// The little-endian number that stands at `at`.
pub open spec fn u32_at(bytes: Seq<u8>, at: int) -> u32 {
    le_value(bytes.subrange(at, at + 4)) as u32
}

/// Bytes, and how far they have been read.
pub struct Cursor<'a> {
    buf: &'a [u8],
    pos: usize,
}

impl<'a> Cursor<'a> {
    /// All the bytes, read or not.
    pub closed spec fn bytes(self) -> Seq<u8> {
        self.buf@
    }

    /// How many bytes have been read.
    pub closed spec fn position(self) -> int {
        self.pos as int
    }

    #[verifier::type_invariant]
    pub closed spec fn wf(self) -> bool {
        self.pos <= self.buf@.len()
    }

    /// Start reading `buf` at its first byte.
    pub fn new(buf: &'a [u8]) -> (c: Cursor<'a>)
        ensures
            c.wf(),
            c.bytes() == buf@,
            c.position() == 0,
    {
        Cursor { buf: buf, pos: 0 }
    }

    /// Start reading `buf` at `pos`, or at its end where `pos` lies beyond.
    pub fn at(buf: &'a [u8], pos: usize) -> (c: Cursor<'a>)
        ensures
            c.wf(),
            c.bytes() == buf@,
            c.position() == if pos <= buf@.len() { pos as int } else { buf@.len() as int },
    {
        Cursor { buf: buf, pos: if pos <= buf.len() { pos } else { buf.len() } }
    }

    /// All the bytes that the cursor reads in.
    pub fn whole(&self) -> (r: &'a [u8])
        ensures
            r@ == self.bytes(),
    {
        self.buf
    }

    /// How far the reading has come.
    pub fn pos(&self) -> (p: usize)
        ensures
            p == self.position(),
            p <= self.bytes().len(),
    {
        proof {
            use_type_invariant(self);
        }
        self.pos
    }

    /// The next `n` bytes.  Where fewer are left, nothing is read.
    pub fn read_exact(&mut self, n: usize) -> (r: Result<&'a [u8], Error>)
        ensures
            final(self).wf(),
            final(self).bytes() == old(self).bytes(),
            0 <= old(self).position() <= old(self).bytes().len(),
            match r {
                Ok(s) => {
                    &&& old(self).position() + n <= old(self).bytes().len()
                    &&& final(self).position() == old(self).position() + n
                    &&& s@ == old(self).bytes().subrange(
                        old(self).position(),
                        old(self).position() + n,
                    )
                },
                Err(e) => {
                    &&& old(self).position() + n > old(self).bytes().len()
                    &&& final(self).position() == old(self).position()
                    &&& e matches Error::Io(f) && f.unexpected_eof
                },
            },
    {
        proof {
            use_type_invariant(&*self);
        }
        if n > self.buf.len() - self.pos {
            return Err(Error::unexpected_eof());
        }
        let start = self.pos;
        let s = slice_subrange(self.buf, start, start + n);
        self.pos = start + n;
        Ok(s)
    }

    /// The next four bytes, as a little-endian number.
    pub fn read_u32(&mut self) -> (r: Result<u32, Error>)
        ensures
            final(self).wf(),
            final(self).bytes() == old(self).bytes(),
            0 <= old(self).position() <= old(self).bytes().len(),
            match r {
                Ok(x) => {
                    &&& old(self).position() + 4 <= old(self).bytes().len()
                    &&& final(self).position() == old(self).position() + 4
                    &&& x == u32_at(old(self).bytes(), old(self).position())
                },
                Err(e) => {
                    &&& old(self).position() + 4 > old(self).bytes().len()
                    &&& final(self).position() == old(self).position()
                    &&& e matches Error::Io(f) && f.unexpected_eof
                },
            },
    {
        match self.read_exact(4) {
            Ok(s) => Ok(read_u32(s)),
            Err(e) => Err(e),
        }
    }
}

} // verus!
