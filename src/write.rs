//! Outgoing bytes that may take several writes to leave.
use vstd::prelude::*;
use crate::bytes::push_all;

verus! {

/// Bytes to write, with how many of them are already written.
pub struct WriteBuf {
    pub bytes: Vec<u8>,
    pub pos: usize,
}

impl WriteBuf {
    pub fn new(bytes: Vec<u8>) -> (r: WriteBuf)
        ensures
            r.bytes@ == bytes@,
            r.pos == 0,
    {
        WriteBuf { bytes, pos: 0 }
    }

    /// Whether every byte has been written.
    pub fn is_written(&self) -> (r: bool)
        ensures
            r == (self.pos >= self.bytes@.len()),
    {
        self.pos >= self.bytes.len()
    }

    /// The bytes not yet written.
    pub fn remaining(&self) -> (r: &[u8])
        ensures
            self.pos <= self.bytes@.len() ==> r@ == self.bytes@.skip(self.pos as int),
            self.pos > self.bytes@.len() ==> r@.len() == 0,
    {
        if self.pos >= self.bytes.len() {
            let e: &[u8] = &self.bytes.as_slice()[0..0];
            return e;
        }
        let r = &self.bytes.as_slice()[self.pos..self.bytes.len()];
        assert(r@ =~= self.bytes@.skip(self.pos as int));
        r
    }

    /// Records that a sink took the next `n` bytes.
    pub fn advance(&mut self, n: usize)
        requires
            old(self).pos + n <= old(self).bytes.len(),
        ensures
            final(self).bytes@ == old(self).bytes@,
            final(self).pos == old(self).pos + n,
    {
        self.pos = self.pos + n;
    }

    /// Writes the bytes not yet written to `dst`, which takes them all, and
    /// returns how many there were.
    pub fn write_to(&mut self, dst: &mut Vec<u8>) -> (r: usize)
        ensures
            final(self).bytes@ == old(self).bytes@,
            old(self).pos <= old(self).bytes@.len() ==> r == old(self).bytes@.len() - old(self).pos
                && final(self).pos == old(self).bytes@.len() && final(dst)@ == old(dst)@ + old(
                self).bytes@.skip(old(self).pos as int),
            old(self).pos > old(self).bytes@.len() ==> r == 0 && final(self).pos == old(self).pos
                && final(dst)@ == old(dst)@,
    {
        if self.pos >= self.bytes.len() {
            return 0;
        }
        let n = self.bytes.len() - self.pos;
        push_all(dst, &self.bytes.as_slice()[self.pos..self.bytes.len()]);
        assert(self.bytes@.subrange(self.pos as int, self.bytes@.len() as int) =~= self.bytes@.skip(self.pos as int));
        self.pos = self.bytes.len();
        n
    }
}

/// The concatenation of `bs`, in order.
pub open spec fn concat_slices(bs: Seq<&[u8]>) -> Seq<u8>
    decreases bs.len(),
{
    if bs.len() == 0 {
        Seq::empty()
    } else {
        concat_slices(bs.drop_last()) + bs.last()@
    }
}

/// A sink that takes several buffers in one write.
pub trait AtomicWrite {
    /// What the sink holds.
    spec fn written(&self) -> Seq<u8>;

    /// Writes all of `bufs`, in order, as one write, and returns how many bytes.
    fn write_atomic(&mut self, bufs: &[&[u8]]) -> (r: usize)
        ensures
            final(self).written() == old(self).written() + concat_slices(bufs@),
            r == concat_slices(bufs@).len(),
    ;
}

impl AtomicWrite for Vec<u8> {
    open spec fn written(&self) -> Seq<u8> {
        self@
    }

    fn write_atomic(&mut self, bufs: &[&[u8]]) -> (r: usize) {
        let start = self.len();
        let mut i: usize = 0;
        while i < bufs.len()
            invariant
                0 <= i <= bufs@.len(),
                start == old(self)@.len(),
                self@ == old(self)@ + concat_slices(bufs@.take(i as int)),
            decreases bufs@.len() - i,
        {
            push_all(self, bufs[i]);
            proof {
                assert(bufs@.take(i as int + 1).drop_last() =~= bufs@.take(i as int));
            }
            i += 1;
            assert(self@ =~= old(self)@ + concat_slices(bufs@.take(i as int)));
        }
        assert(bufs@.take(bufs@.len() as int) =~= bufs@);
        self.len() - start
    }
}

} // verus!
