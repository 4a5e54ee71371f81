//! The byte-granular sub-stream: an append-only writer over an owned buffer
//! and a bounds-checked sequential reader over a borrowed slice.

use vstd::prelude::*;

use crate::error::Error;

verus! {

/// Byte-granular sequential reader. Borrows the caller's buffer for its whole
/// lifetime and tracks a monotonically increasing absolute offset.
#[derive(Clone, Debug, PartialEq)]
pub struct Reader<'a> {
    pub buf: &'a [u8],
    pub offset: usize,
}

/// Byte-granular append-only writer over an owned, growing buffer.
#[derive(Clone, Debug, PartialEq)]
pub struct Writer {
    pub buf: Vec<u8>,
}

impl<'a> Reader<'a> {
    /// The cursor never exceeds the buffer.
    pub open spec fn wf(self) -> bool {
        self.offset <= self.buf@.len()
    }

    pub open spec fn spec_position(self) -> int {
        self.offset as int
    }

    /// The bytes not yet consumed.
    pub open spec fn remaining(self) -> Seq<u8> {
        self.buf@.skip(self.offset as int)
    }

    pub fn new(buf: &'a [u8]) -> (r: Self)
        ensures
            r.wf(),
            r.buf@ == buf@,
            r.spec_position() == 0,
    {
        Self { buf, offset: 0 }
    }

    /// Read the next `n` bytes, or fail with `MalformedEncoding` if fewer
    /// remain. Succeeds if and only if `n` bytes remain; on failure the
    /// cursor does not move.
    pub fn read(&mut self, n: usize) -> (r: Result<&'a [u8], Error>)
        requires
            old(self).wf(),
        ensures
            final(self).wf(),
            final(self).buf@ == old(self).buf@,
            r is Ok <==> n <= old(self).remaining().len(),
            r matches Ok(bytes) ==> {
                &&& bytes@ == old(self).remaining().take(n as int)
                &&& final(self).spec_position() == old(self).spec_position() + n
            },
            r is Err ==> r == Err::<&[u8], Error>(Error::MalformedEncoding) && *final(self)
                == *old(self),
    {
        if n <= self.buf.len() - self.offset {
            let res = vstd::slice::slice_subrange(self.buf, self.offset, self.offset + n);
            self.offset = self.offset + n;
            proof {
                assert(res@ =~= old(self).remaining().take(n as int));
            }
            Ok(res)
        } else {
            Err(Error::MalformedEncoding)
        }
    }

    /// Read one byte; the `n == 1` case of `read`.
    pub fn read_byte(&mut self) -> (r: Result<u8, Error>)
        requires
            old(self).wf(),
        ensures
            final(self).wf(),
            final(self).buf@ == old(self).buf@,
            r is Ok <==> old(self).remaining().len() >= 1,
            r matches Ok(b) ==> {
                &&& b == old(self).remaining()[0]
                &&& final(self).spec_position() == old(self).spec_position() + 1
            },
            r is Err ==> r == Err::<u8, Error>(Error::MalformedEncoding) && *final(self) == *old(self),
    {
        if self.offset < self.buf.len() {
            let res = *vstd::slice::slice_index_get(self.buf, self.offset);
            self.offset = self.offset + 1;
            Ok(res)
        } else {
            Err(Error::MalformedEncoding)
        }
    }

    /// Position of the internal cursor.
    pub fn position(&self) -> (r: usize)
        ensures
            r == self.spec_position(),
    {
        self.offset
    }

    /// True if and only if the whole buffer is consumed.
    pub fn empty(&self) -> (r: bool)
        requires
            self.wf(),
        ensures
            r <==> self.remaining().len() == 0,
    {
        self.buf.len() == self.offset
    }
}

impl Writer {
    pub fn new(buf: Vec<u8>) -> (r: Self)
        ensures
            r.buf@ == buf@,
    {
        Self { buf }
    }

    /// Append one byte to the buffer.
    pub fn write_byte(&mut self, b: u8)
        ensures
            final(self).buf@ == old(self).buf@ + seq![b],
    {
        self.buf.push(b);
        proof {
            assert(old(self).buf@ + seq![b] =~= old(self).buf@.push(b));
        }
    }

    /// Append the bytes to the buffer; raw append, no framing.
    pub fn write(&mut self, v: &[u8])
        ensures
            final(self).buf@ == old(self).buf@ + v@,
    {
        let mut i: usize = 0;
        while i < v.len()
            invariant
                i <= v@.len(),
                self.buf@ == old(self).buf@ + v@.take(i as int),
            decreases v@.len() - i,
        {
            self.buf.push(*vstd::slice::slice_index_get(v, i));
            i = i + 1;
            proof {
                assert(old(self).buf@ + v@.take(i as int) =~= (old(self).buf@ + v@.take(
                    i - 1,
                )).push(v@[i - 1]));
            }
        }
        proof {
            assert(v@.take(v@.len() as int) =~= v@);
        }
    }
}

} // verus!
