//! A bounded pool of buffers for reuse.
use vstd::prelude::*;

verus! {

/// Keeps up to a number of empty buffers.
pub struct BufferPool {
    items: Vec<Vec<u8>>,
    max_items: usize,
    cap_hint: usize,
}

impl BufferPool {
    /// Number of buffers in the pool.
    pub closed spec fn count(self) -> int {
        self.items@.len() as int
    }

    /// Largest number of buffers that the pool keeps.
    pub closed spec fn limit(self) -> int {
        self.max_items as int
    }

    /// The pool holds no more than its limit, and empty buffers only.
    pub closed spec fn wf(self) -> bool {
        &&& self.items@.len() <= self.max_items
        &&& forall|i: int| 0 <= i < self.items@.len() ==> (#[trigger] self.items@[i])@.len() == 0
    }

    /// An empty pool for up to `max_items` buffers; new buffers get room for
    /// `cap_hint` bytes.
    pub fn new(max_items: usize, cap_hint: usize) -> (p: BufferPool)
        ensures
            p.wf(),
            p.count() == 0,
            p.limit() == max_items,
    {
        BufferPool { items: Vec::new(), max_items, cap_hint }
    }

    /// An empty buffer, from the pool if there is one.
    pub fn acquire(&mut self) -> (buf: Vec<u8>)
        requires
            old(self).wf(),
        ensures
            final(self).wf(),
            final(self).limit() == old(self).limit(),
            final(self).count() == if old(self).count() > 0 {
                old(self).count() - 1
            } else {
                0
            },
            buf@ == Seq::<u8>::empty(),
    {
        match self.items.pop() {
            Some(buf) => {
                assert(buf@ =~= seq![]);
                buf
            },
            None => Vec::with_capacity(self.cap_hint),
        }
    }

    /// Empties the buffer and puts it into the pool, or drops it if the pool is full.
    pub fn release(&mut self, buf: Vec<u8>)
        requires
            old(self).wf(),
        ensures
            final(self).wf(),
            final(self).limit() == old(self).limit(),
            final(self).count() == if old(self).count() < old(self).limit() {
                old(self).count() + 1
            } else {
                old(self).count()
            },
    {
        let mut buf: Vec<u8> = buf;
        buf.clear();
        if self.items.len() < self.max_items {
            self.items.push(buf);
        }
    }
}

} // verus!
