//! Bump allocation: the arithmetic of the simplest allocators of the system.
//!
//! A bump allocator hands out memory from a run of addresses in rising order
//! and never takes any back.  Here is what it decides; the memory itself is
//! with whoever owns the run.

use vstd::prelude::*;

verus! {

/// The first address at or after `start` that is a multiple of `align`.
pub open spec fn aligned_up(start: int, align: int) -> int {
    if start % align == 0 {
        start
    } else {
        start + align - start % align
    }
}

/// A bump allocator over the addresses from `heap_start` up to `heap_end`.
#[derive(Clone, Copy, PartialEq, Eq, Structural, Debug)]
pub struct BumpAllocator {
    pub heap_start: usize,
    pub heap_end: usize,
    pub next: usize,
}

impl BumpAllocator {
    /// An allocator without memory.
    pub fn new() -> (a: Self)
        ensures
            a == (BumpAllocator { heap_start: 0, heap_end: 0, next: 0 }),
    {
        BumpAllocator { heap_start: 0, heap_end: 0, next: 0 }
    }

    /// Gives the allocator the addresses from `start` up to `end`.
    pub fn init(&mut self, start: usize, end: usize)
        ensures
            *final(self) == (BumpAllocator { heap_start: start, heap_end: end, next: start }),
    {
        self.heap_start = start;
        self.heap_end = end;
        self.next = start;
    }

    /// The address of a block of `size` bytes at a multiple of `align`, if
    /// it fits: the first such multiple at or after the last block.
    pub open spec fn fits(self, size: usize, align: usize) -> Option<usize> {
        if align > 0 && aligned_up(self.next as int, align as int) + size <= self.heap_end {
            Some(aligned_up(self.next as int, align as int) as usize)
        } else {
            None
        }
    }

    /// Allocates a block of `size` bytes at a multiple of `align`.  `None`,
    /// with nothing changed, if the block does not fit.
    pub fn allocate(&mut self, size: usize, align: usize) -> (r: Option<usize>)
        ensures
            r == old(self).fits(size, align),
            final(self).heap_start == old(self).heap_start,
            final(self).heap_end == old(self).heap_end,
            final(self).next == match r {
                Some(start) => (start + size) as usize,
                None => old(self).next,
            },
    {
        if align == 0 {
            return None;
        }
        let offset = self.next % align;
        let padding = if offset == 0 {
            0
        } else {
            align - offset
        };
        let start = match self.next.checked_add(padding) {
            Some(start) => start,
            None => {
                return None;
            },
        };
        let end = match start.checked_add(size) {
            Some(end) => end,
            None => {
                return None;
            },
        };
        if end > self.heap_end {
            return None;
        }
        self.next = end;
        Some(start)
    }
}

/// The number of bytes of a page of memory for devices.
pub const DMA_PAGE: usize = 4096;

/// Where a block of `pages` pages lies in a pool of `pool` bytes of which
/// the first `head` are taken: right behind them, if it fits.
pub open spec fn dma_fits(head: usize, pages: usize, pool: usize) -> Option<usize> {
    if head + pages * DMA_PAGE <= pool {
        Some(head)
    } else {
        None
    }
}

/// Takes `pages` pages from a pool of `pool` bytes of which the first
/// `head` are taken.  `Some` holds the offset of the block and the number
/// of bytes that are taken afterwards.  `None` if the block does not fit.
pub fn dma_alloc(head: usize, pages: usize, pool: usize) -> (r: Option<(usize, usize)>)
    ensures
        match r {
            Some((offset, taken)) => dma_fits(head, pages, pool) == Some(offset) && taken == head
                + pages * DMA_PAGE,
            None => dma_fits(head, pages, pool) is None,
        },
{
    let size = match pages.checked_mul(DMA_PAGE) {
        Some(size) => size,
        None => {
            return None;
        },
    };
    let taken = match head.checked_add(size) {
        Some(taken) => taken,
        None => {
            return None;
        },
    };
    if taken > pool {
        None
    } else {
        Some((head, taken))
    }
}

} // verus!
