//! Byte-level framing for the wire: an encoder that grows a buffer and a
//! decoder that walks one. The choice of the message codec itself lives
//! outside the library; these carry its bytes.

use vstd::prelude::*;

verus! {

/// A growing byte buffer for outgoing messages.
pub struct Encoder(pub Vec<u8>);

impl Encoder {
    /// An empty buffer.
    pub fn new() -> (r: Self)
        ensures
            r.0@ == Seq::<u8>::empty(),
    {
        Encoder(Vec::new())
    }

    /// Appends one byte.
    pub fn write_u8(&mut self, value: u8)
        ensures
            final(self).0@ == old(self).0@.push(value),
    {
        self.0.push(value);
    }

    /// Appends a run of bytes.
    pub fn write(&mut self, buf: &[u8])
        ensures
            final(self).0@ == old(self).0@ + buf@,
    {
        let mut i: usize = 0;
        while i < buf.len()
            invariant
                i <= buf@.len(),
                self.0@ == old(self).0@ + buf@.subrange(0, i as int),
            decreases buf@.len() - i,
        {
            proof {
                assert(buf@.subrange(0, i as int).push(buf@[i as int]) =~= buf@.subrange(
                    0,
                    i as int + 1,
                ));
            }
            let b = *vstd::slice::slice_index_get(buf, i);
            self.0.push(b);
            i = i + 1;
        }
        proof {
            assert(buf@.subrange(0, buf@.len() as int) =~= buf@);
        }
    }

    /// Hands the buffer out.
    pub fn into_bytes(self) -> (r: Vec<u8>)
        ensures
            r@ == self.0@,
    {
        self.0
    }
}

/// A cursor over incoming bytes.
pub struct Decoder<'a> {
    /// The bytes being read.
    pub buf: &'a [u8],
    /// How many bytes have been read.
    pub pos: usize,
}

impl<'a> Decoder<'a> {
    /// A cursor at the start of the buffer.
    pub fn new(buf: &'a [u8]) -> (r: Self)
        ensures
            r.buf@ == buf@,
            r.pos == 0,
    {
        Decoder { buf, pos: 0 }
    }

    /// Reads one byte and advances.
    pub fn read_u8(&mut self) -> (r: u8)
        requires
            old(self).pos < old(self).buf@.len(),
        ensures
            r == old(self).buf@[old(self).pos as int],
            final(self).buf@ == old(self).buf@,
            final(self).pos == old(self).pos + 1,
    {
        let n = self.buf.len();
        let b = *vstd::slice::slice_index_get(self.buf, self.pos);
        self.pos = self.pos + 1;
        b
    }

    /// Reads a run of `len` bytes and advances past them.
    pub fn read(&mut self, len: usize) -> (r: &'a [u8])
        requires
            old(self).pos + len <= old(self).buf@.len(),
        ensures
            r@ == old(self).buf@.subrange(old(self).pos as int, old(self).pos + len),
            final(self).buf@ == old(self).buf@,
            final(self).pos == old(self).pos + len,
    {
        let n = self.buf.len();
        let out = vstd::slice::slice_subrange(self.buf, self.pos, self.pos + len);
        self.pos = self.pos + len;
        out
    }
}

} // verus!
