//! A forward-only cursor over a byte slice.

use vstd::prelude::*;
use vstd::slice::slice_subrange;

verus! {

/// Why a value could not be decoded.
#[derive(Clone, Copy, Debug, PartialEq, Eq, Structural)]
pub enum DecodeError {
    /// The input ended inside a value.
    UnexpectedEof,
    /// The bytes do not encode a value of the expected type.
    InvalidData,
}

/// The unread part of an input buffer.
pub struct Reader<'a> {
    rest: &'a [u8],
}

impl<'a> View for Reader<'a> {
    type V = Seq<u8>;

    /// The bytes that have not been read yet.
    closed spec fn view(&self) -> Seq<u8> {
        self.rest@
    }
}

impl<'a> Reader<'a> {
    /// Starts reading at the first byte of `buf`.
    pub fn new(buf: &'a [u8]) -> (reader: Reader<'a>)
        ensures
            reader@ == buf@,
    {
        Reader { rest: buf }
    }

    /// Number of bytes left.
    pub fn remaining(&self) -> (n: usize)
        ensures
            n == self@.len(),
    {
        self.rest.len()
    }

    /// Whether every byte has been read.
    pub fn is_empty(&self) -> (b: bool)
        ensures
            b == (self@.len() == 0),
    {
        self.rest.len() == 0
    }

    /// Takes one byte, or reports the end of the input and leaves the reader
    /// where it was.
    pub fn read_u8(&mut self) -> (r: Result<u8, DecodeError>)
        ensures
            match r {
                Ok(b) => old(self)@.len() > 0 && b == old(self)@[0] && final(self)@ == old(
                    self,
                )@.skip(1),
                Err(e) => e == DecodeError::UnexpectedEof && old(self)@.len() == 0 && final(self)@
                    == old(self)@,
            },
    {
        let len = self.rest.len();
        if len == 0 {
            return Err(DecodeError::UnexpectedEof);
        }
        let b = self.rest[0];
        let tail = slice_subrange(self.rest, 1, len);
        proof {
            assert(tail@ =~= self.rest@.skip(1));
        }
        self.rest = tail;
        Ok(b)
    }

    /// Takes the next `n` bytes, or reports the end of the input and leaves
    /// the reader where it was.
    pub fn read_exact(&mut self, n: usize) -> (r: Result<&'a [u8], DecodeError>)
        ensures
            match r {
                Ok(bytes) => n <= old(self)@.len() && bytes@ == old(self)@.take(n as int)
                    && final(self)@ == old(self)@.skip(n as int),
                Err(e) => e == DecodeError::UnexpectedEof && old(self)@.len() < n && final(self)@
                    == old(self)@,
            },
    {
        let len = self.rest.len();
        if len < n {
            return Err(DecodeError::UnexpectedEof);
        }
        let head = slice_subrange(self.rest, 0, n);
        let tail = slice_subrange(self.rest, n, len);
        proof {
            assert(head@ =~= self.rest@.take(n as int));
            assert(tail@ =~= self.rest@.skip(n as int));
        }
        self.rest = tail;
        Ok(head)
    }
}

} // verus!
