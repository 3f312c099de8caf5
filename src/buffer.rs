//! A bounded byte buffer with a consumed/unconsumed split.
use vstd::prelude::*;

verus! {

/// Bytes read from a transport and not yet parsed. The write cursor only grows
/// until `reset`, and never past the ceiling given at creation.
pub struct TransportBuffer {
    data: Vec<u8>,
    read: usize,
    max: usize,
}

impl TransportBuffer {
    /// The cursors lie within the storage, and the storage within the ceiling.
    pub closed spec fn wf(&self) -> bool {
        self.read <= self.data@.len() <= self.max
    }

    /// The unconsumed bytes, in order.
    pub closed spec fn pending(&self) -> Seq<u8> {
        self.data@.skip(self.read as int)
    }

    /// The write cursor: storage used since the last reset.
    pub closed spec fn used(&self) -> nat {
        self.data@.len()
    }

    /// The most storage the buffer will use.
    pub closed spec fn ceiling(&self) -> nat {
        self.max as nat
    }

    pub fn new(max: usize) -> (r: TransportBuffer)
        ensures
            r.wf(),
            r.pending() == Seq::<u8>::empty(),
            r.used() == 0,
            r.ceiling() == max,
    {
        let r = TransportBuffer { data: Vec::new(), read: 0, max };
        assert(r.pending() =~= Seq::<u8>::empty());
        r
    }

    /// How many unconsumed bytes there are.
    pub fn len(&self) -> (r: usize)
        requires
            self.wf(),
        ensures
            r == self.pending().len(),
    {
        self.data.len() - self.read
    }

    /// The unconsumed bytes.
    pub fn bytes(&self) -> (r: &[u8])
        requires
            self.wf(),
        ensures
            r@ == self.pending(),
    {
        let s = self.data.as_slice();
        let r = &s[self.read..self.data.len()];
        assert(r@ =~= self.pending());
        r
    }

    /// How many more bytes fit before the ceiling.
    pub fn free_capacity(&self) -> (r: usize)
        requires
            self.wf(),
        ensures
            r == self.ceiling() - self.used(),
    {
        self.max - self.data.len()
    }

    /// Takes as many bytes from the front of `src` as fit, and returns how many.
    pub fn read_from(&mut self, src: &[u8]) -> (r: usize)
        requires
            old(self).wf(),
        ensures
            final(self).wf(),
            r == if src@.len() < old(self).ceiling() - old(self).used() {
                src@.len() as int
            } else {
                old(self).ceiling() - old(self).used()
            },
            final(self).pending() == old(self).pending() + src@.take(r as int),
            final(self).used() == old(self).used() + r,
            final(self).ceiling() == old(self).ceiling(),
    {
        let free = self.max - self.data.len();
        let k = if src.len() < free {
            src.len()
        } else {
            free
        };
        let mut i: usize = 0;
        while i < k
            invariant
                k <= src@.len(),
                0 <= i <= k,
                k <= old(self).max - old(self).data@.len(),
                self.read == old(self).read,
                self.max == old(self).max,
                self.data@ == old(self).data@ + src@.take(i as int),
            decreases k - i,
        {
            self.data.push(src[i]);
            i += 1;
            assert(self.data@ =~= old(self).data@ + src@.take(i as int));
        }
        assert(final(self).pending() =~= old(self).pending() + src@.take(k as int));
        k
    }

    /// Marks the first `n` unconsumed bytes as consumed.
    pub fn consume(&mut self, n: usize)
        requires
            old(self).wf(),
            n <= old(self).pending().len(),
        ensures
            final(self).wf(),
            final(self).pending() == old(self).pending().skip(n as int),
            final(self).used() == old(self).used(),
            final(self).ceiling() == old(self).ceiling(),
    {
        self.read = self.read + n;
        assert(final(self).pending() =~= old(self).pending().skip(n as int));
    }

    /// Collapses the cursors when everything is consumed, so that the storage can
    /// be used again; otherwise changes nothing.
    pub fn reset(&mut self)
        requires
            old(self).wf(),
        ensures
            final(self).wf(),
            final(self).pending() == old(self).pending(),
            final(self).ceiling() == old(self).ceiling(),
            final(self).used() == if old(self).pending().len() == 0 {
                0
            } else {
                old(self).used()
            },
    {
        if self.read == self.data.len() {
            self.data.clear();
            self.read = 0;
            assert(final(self).pending() =~= old(self).pending());
        }
    }

    /// Whether the used storage has reached the ceiling.
    pub fn is_max_size(&self) -> (r: bool)
        requires
            self.wf(),
        ensures
            r == (self.used() >= self.ceiling()),
    {
        self.data.len() >= self.max
    }
}

} // verus!
