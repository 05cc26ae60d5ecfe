use vstd::prelude::*;

verus! {

/// A resizable byte staging area with a consumed front region and a readable
/// back region. Bytes are appended at the back and consumed from the front;
/// the space of the consumed front region is reclaimed by compaction once it
/// dominates the allocation, so repeated append/consume cycles stay amortized
/// linear.
pub struct GrowBuf {
    buf: Vec<u8>,
    read: usize,
}

impl View for GrowBuf {
    type V = Seq<u8>;

    closed spec fn view(&self) -> Seq<u8> {
        self.buf@.skip(self.read as int)
    }
}

impl GrowBuf {
    /// The read cursor never passes the write cursor (the end of `buf`).
    pub closed spec fn wf(&self) -> bool {
        self.read <= self.buf.len()
    }

    /// An empty staging buffer.
    pub fn new() -> (r: GrowBuf)
        ensures
            r.wf(),
            r@ == Seq::<u8>::empty(),
    {
        let r = GrowBuf { buf: Vec::new(), read: 0 };
        proof {
            assert(r@ =~= Seq::<u8>::empty());
        }
        r
    }

    /// Number of readable (unconsumed) bytes.
    pub fn len(&self) -> (n: usize)
        requires
            self.wf(),
        ensures
            n == self@.len(),
    {
        self.buf.len() - self.read
    }

    pub fn is_empty(&self) -> (b: bool)
        requires
            self.wf(),
        ensures
            b == (self@.len() == 0),
    {
        self.len() == 0
    }

    /// The readable bytes, as a slice.
    pub fn data(&self) -> (s: &[u8])
        requires
            self.wf(),
        ensures
            s@ == self@,
    {
        vstd::slice::slice_subrange(self.buf.as_slice(), self.read, self.buf.len())
    }

    /// Drop `n` bytes from the front of the readable region.
    pub fn consume(&mut self, n: usize)
        requires
            old(self).wf(),
            n <= old(self)@.len(),
        ensures
            final(self).wf(),
            final(self)@ == old(self)@.skip(n as int),
    {
        self.read = self.read + n;
        proof {
            assert(final(self)@ =~= old(self)@.skip(n as int));
        }
    }

    /// Append bytes at the back of the readable region, compacting the
    /// consumed front region away first when it has grown past half of the
    /// allocation.
    pub fn append(&mut self, bytes: &[u8])
        requires
            old(self).wf(),
        ensures
            final(self).wf(),
            final(self)@ == old(self)@ + bytes@,
    {
        if self.read > 0 && self.read >= self.buf.len() / 2 {
            let tail = self.buf.split_off(self.read);
            self.buf = tail;
            self.read = 0;
            proof {
                assert(self@ =~= old(self)@);
            }
        }
        let ghost before = self@;
        self.buf.extend_from_slice(bytes);
        proof {
            assert(self@ =~= before + bytes@);
        }
    }
}

} // verus!
