//! Bump (arena) allocator: hands out consecutive addresses from a fixed range
//! and never reclaims anything.
use vstd::prelude::*;

verus! {

/// Allocator over the addresses `[start, end)` that only moves forward.
pub struct BumpAllocator {
    start: usize,
    end: usize,
    offset: usize,
}

impl BumpAllocator {
    /// First address of the range.
    pub closed spec fn start(&self) -> int {
        self.start as int
    }

    /// One past the last address of the range.
    pub closed spec fn end(&self) -> int {
        self.end as int
    }

    /// Bytes handed out so far.
    pub closed spec fn offset(&self) -> int {
        self.offset as int
    }

    /// The range and the offset are machine-sized, so a request that would
    /// carry `start + offset + size` past `usize::MAX` is one that the range
    /// cannot hold.
    pub proof fn lemma_bounds(&self)
        ensures
            0 <= self.start() <= usize::MAX,
            0 <= self.end() <= usize::MAX,
            0 <= self.offset() <= usize::MAX,
    {
    }

    /// Everything handed out lies inside the range.
    pub closed spec fn wf(&self) -> bool {
        self.offset == 0 || self.start + self.offset <= self.end
    }

    /// An allocator over `[start, end)` with nothing handed out yet.
    pub fn new(start: usize, end: usize) -> (r: BumpAllocator)
        ensures
            r.wf(),
            r.start() == start,
            r.end() == end,
            r.offset() == 0,
    {
        BumpAllocator { start, end, offset: 0 }
    }

    /// Hands out the next `size` bytes, or `None` when they would run past the
    /// end of the range, in which case nothing changes.
    pub fn allocate(&mut self, size: usize) -> (r: Option<usize>)
        requires
            old(self).wf(),
        ensures
            final(self).wf(),
            final(self).start() == old(self).start(),
            final(self).end() == old(self).end(),
            old(self).start() + old(self).offset() + size > old(self).end() ==> {
                &&& r is None
                &&& final(self).offset() == old(self).offset()
            },
            old(self).start() + old(self).offset() + size <= old(self).end() ==> {
                &&& r == Some((old(self).start() + old(self).offset()) as usize)
                &&& final(self).offset() == old(self).offset() + size
            },
    {
        if self.offset != 0 {
            assert(self.start + self.offset <= self.end);
        }
        let heap_start = self.start + self.offset;
        if heap_start > self.end || size > self.end - heap_start {
            return None;
        }
        self.offset = self.offset + size;
        Some(heap_start)
    }

    /// Releasing memory is a no-op: nothing is ever reused.
    pub fn free(&self, ptr: usize, size: usize) {
    }
}

} // verus!
