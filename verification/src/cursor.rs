//! A reader that walks a byte buffer from front to back, and a writer that
//! only appends.

use crate::endian::{
    read_u16_be, read_u32_be, u16_be_bytes, u16_from_be, u16_to_be, u32_be_bytes, u32_from_be,
    u32_to_be,
};
use crate::error::FormatError;
use vstd::prelude::*;
use vstd::slice::slice_subrange;

verus! {

/// A position in a byte buffer. Every read takes bytes from the front of what
/// is left, or fails and leaves the reader where it was.
pub struct ByteReader<'a> {
    bytes: &'a [u8],
    pos: usize,
}

impl<'a> ByteReader<'a> {
    #[verifier::type_invariant]
    spec fn in_bounds(self) -> bool {
        self.pos <= self.bytes@.len()
    }

    /// The whole buffer that is being read.
    pub closed spec fn buffer(self) -> Seq<u8> {
        self.bytes@
    }

    /// The number of bytes read so far.
    pub closed spec fn position(self) -> nat {
        self.pos as nat
    }

    /// The bytes that have not been read yet.
    pub open spec fn remaining(self) -> Seq<u8> {
        self.buffer().skip(self.position() as int)
    }

    /// The state after `n` more bytes have been read.
    pub open spec fn advanced(self, other: Self, n: int) -> bool {
        &&& other.buffer() == self.buffer()
        &&& other.position() == self.position() + n
        &&& other.remaining() == self.remaining().skip(n)
    }

    /// A reader at the start of `bytes`.
    pub fn new(bytes: &'a [u8]) -> (r: Self)
        ensures
            r.buffer() == bytes@,
            r.position() == 0,
            r.remaining() == bytes@,
    {
        let r = ByteReader { bytes, pos: 0 };
        assert(r.remaining() =~= bytes@);
        r
    }

    /// How many bytes are left.
    pub fn remaining_len(&self) -> (n: usize)
        ensures
            n == self.remaining().len(),
            self.position() + n == self.buffer().len(),
    {
        proof {
            use_type_invariant(self);
        }
        self.bytes.len() - self.pos
    }

    /// Takes the next `n` bytes, or fails with `Truncated` where fewer are left.
    pub fn read_exact(&mut self, n: usize) -> (r: Result<&'a [u8], FormatError>)
        ensures
            match r {
                Ok(taken) => {
                    &&& n <= old(self).remaining().len()
                    &&& taken@ == old(self).remaining().take(n as int)
                    &&& old(self).advanced(*final(self), n as int)
                },
                Err(e) => {
                    &&& e == FormatError::Truncated
                    &&& n > old(self).remaining().len()
                    &&& *final(self) == *old(self)
                },
            },
    {
        proof {
            use_type_invariant(&*self);
        }
        if n > self.bytes.len() - self.pos {
            return Err(FormatError::Truncated);
        }
        let start = self.pos;
        let taken = slice_subrange(self.bytes, start, start + n);
        self.pos = start + n;
        proof {
            assert(taken@ =~= old(self).remaining().take(n as int));
            assert(self.remaining() =~= old(self).remaining().skip(n as int));
        }
        Ok(taken)
    }

    /// Takes the next byte.
    pub fn read_u8(&mut self) -> (r: Result<u8, FormatError>)
        ensures
            match r {
                Ok(b) => {
                    &&& 1 <= old(self).remaining().len()
                    &&& b == old(self).remaining()[0]
                    &&& old(self).advanced(*final(self), 1)
                },
                Err(e) => {
                    &&& e == FormatError::Truncated
                    &&& old(self).remaining().len() < 1
                    &&& *final(self) == *old(self)
                },
            },
    {
        match self.read_exact(1) {
            Ok(taken) => Ok(taken[0]),
            Err(e) => Err(e),
        }
    }

    /// Takes the next two bytes as a big-endian number.
    pub fn read_u16(&mut self) -> (r: Result<u16, FormatError>)
        ensures
            match r {
                Ok(n) => {
                    &&& 2 <= old(self).remaining().len()
                    &&& n == u16_from_be(old(self).remaining()[0], old(self).remaining()[1])
                    &&& old(self).advanced(*final(self), 2)
                },
                Err(e) => {
                    &&& e == FormatError::Truncated
                    &&& old(self).remaining().len() < 2
                    &&& *final(self) == *old(self)
                },
            },
    {
        match self.read_exact(2) {
            Ok(taken) => Ok(read_u16_be(taken)),
            Err(e) => Err(e),
        }
    }

    /// Takes the next four bytes as a big-endian number.
    pub fn read_u32(&mut self) -> (r: Result<u32, FormatError>)
        ensures
            match r {
                Ok(n) => {
                    &&& 4 <= old(self).remaining().len()
                    &&& n == u32_from_be(
                        old(self).remaining()[0],
                        old(self).remaining()[1],
                        old(self).remaining()[2],
                        old(self).remaining()[3],
                    )
                    &&& old(self).advanced(*final(self), 4)
                },
                Err(e) => {
                    &&& e == FormatError::Truncated
                    &&& old(self).remaining().len() < 4
                    &&& *final(self) == *old(self)
                },
            },
    {
        match self.read_exact(4) {
            Ok(taken) => Ok(read_u32_be(taken)),
            Err(e) => Err(e),
        }
    }

    /// Takes everything that is left.
    pub fn read_to_end(&mut self) -> (rest: &'a [u8])
        ensures
            rest@ == old(self).remaining(),
            final(self).buffer() == old(self).buffer(),
            final(self).position() == old(self).buffer().len(),
            final(self).remaining() == Seq::<u8>::empty(),
    {
        proof {
            use_type_invariant(&*self);
        }
        let start = self.pos;
        let end = self.bytes.len();
        let rest = slice_subrange(self.bytes, start, end);
        self.pos = end;
        proof {
            assert(rest@ =~= old(self).remaining());
            assert(self.remaining() =~= Seq::<u8>::empty());
        }
        rest
    }
}

/// A growing output buffer. Nothing that was written is ever changed.
pub struct ByteWriter {
    buf: Vec<u8>,
}

impl View for ByteWriter {
    type V = Seq<u8>;

    /// The bytes written so far.
    closed spec fn view(&self) -> Seq<u8> {
        self.buf@
    }
}

impl ByteWriter {
    /// An empty writer.
    pub fn new() -> (w: Self)
        ensures
            w@ == Seq::<u8>::empty(),
    {
        ByteWriter { buf: Vec::new() }
    }

    /// Appends one byte.
    pub fn write_u8(&mut self, b: u8)
        ensures
            final(self)@ == old(self)@.push(b),
    {
        self.buf.push(b);
    }

    /// Appends `n` as two bytes, most significant first.
    pub fn write_u16(&mut self, n: u16)
        ensures
            final(self)@ == old(self)@ + u16_to_be(n),
    {
        let bytes = u16_be_bytes(n);
        self.buf.extend_from_slice(bytes.as_slice());
    }

    /// Appends `n` as four bytes, most significant first.
    pub fn write_u32(&mut self, n: u32)
        ensures
            final(self)@ == old(self)@ + u32_to_be(n),
    {
        let bytes = u32_be_bytes(n);
        self.buf.extend_from_slice(bytes.as_slice());
    }

    /// Appends `bytes` as they are.
    pub fn write_all(&mut self, bytes: &[u8])
        ensures
            final(self)@ == old(self)@ + bytes@,
    {
        self.buf.extend_from_slice(bytes);
    }

    /// Hands out what was written.
    pub fn into_bytes(self) -> (bytes: Vec<u8>)
        ensures
            bytes@ == self@,
    {
        self.buf
    }
}

} // verus!
