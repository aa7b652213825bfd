//! A pool of reusable byte buffers.

use vstd::prelude::*;

use std::collections::VecDeque;

verus! {

/// `Vec::shrink_to`: lowers the vector's capacity towards `min_capacity`;
/// as its documentation says, the contents stay as they are.
#[verifier::external_body]
fn shrink_to(v: &mut Vec<u8>, min_capacity: usize)
    ensures
        final(v)@ == old(v)@,
{
    v.shrink_to(min_capacity);
}

/// Buffers kept for reuse, at most `max_buffers` of them, each empty.
pub struct MemoryPool {
    buffers: VecDeque<Vec<u8>>,
    buffer_size: usize,
    max_buffers: usize,
}

impl MemoryPool {
    /// The pooled buffers' contents, oldest first.
    pub closed spec fn pooled(&self) -> Seq<Seq<u8>> {
        self.buffers@.map_values(|b: Vec<u8>| b@)
    }

    /// The capacity that new buffers get.
    pub closed spec fn buffer_capacity(&self) -> usize {
        self.buffer_size
    }

    /// The most buffers the pool keeps.
    pub closed spec fn limit(&self) -> usize {
        self.max_buffers
    }

    /// Every pooled buffer is empty and the pool holds no more than its limit.
    pub open spec fn wf(&self) -> bool {
        &&& self.pooled().len() <= self.limit()
        &&& forall|i: int| 0 <= i < self.pooled().len() ==> #[trigger] self.pooled()[i].len() == 0
    }

    /// An empty pool of up to 1000 buffers of 8 KiB.
    pub fn init() -> (p: Self)
        ensures
            p.wf(),
            p.pooled() == Seq::<Seq<u8>>::empty(),
            p.buffer_capacity() == 8192,
            p.limit() == 1000,
    {
        let p = MemoryPool { buffers: VecDeque::new(), buffer_size: 8192, max_buffers: 1000 };
        assert(p.pooled() =~= Seq::<Seq<u8>>::empty());
        p
    }

    /// An empty buffer: the oldest pooled one, or a new one.
    pub fn get_buffer(&mut self) -> (b: Vec<u8>)
        requires
            old(self).wf(),
        ensures
            final(self).wf(),
            b@ == Seq::<u8>::empty(),
            final(self).limit() == old(self).limit(),
            final(self).buffer_capacity() == old(self).buffer_capacity(),
            final(self).pooled() == if old(self).pooled().len() > 0 {
                old(self).pooled().drop_first()
            } else {
                old(self).pooled()
            },
    {
        let ghost before = self.buffers@;
        match self.buffers.pop_front() {
            Some(b) => {
                assert(self.pooled() =~= before.map_values(|b: Vec<u8>| b@).drop_first());
                assert(before.map_values(|b: Vec<u8>| b@)[0] == b@);
                b
            },
            None => Vec::with_capacity(self.buffer_size),
        }
    }

    /// Takes a buffer back, emptied, unless the pool is full.
    pub fn return_buffer(&mut self, buffer: Vec<u8>)
        requires
            old(self).wf(),
        ensures
            final(self).wf(),
            final(self).limit() == old(self).limit(),
            final(self).buffer_capacity() == old(self).buffer_capacity(),
            final(self).pooled() == if old(self).pooled().len() < old(self).limit() {
                old(self).pooled().push(Seq::<u8>::empty())
            } else {
                old(self).pooled()
            },
    {
        let mut buffer = buffer;
        if self.buffers.len() < self.max_buffers {
            buffer.clear();
            shrink_to(&mut buffer, self.buffer_size);
            let ghost before = self.buffers@;
            let ghost bv = buffer@;
            self.buffers.push_back(buffer);
            assert(self.pooled() =~= before.map_values(|b: Vec<u8>| b@).push(bv));
        }
    }
}

} // verus!
