use vstd::prelude::*;

use crate::pow2::lemma_pow2_pos;
use crate::region::{Layout, Region};

verus! {

/// An allocator of fixed size blocks; it holds no state yet.
#[derive(Debug)]
pub struct BlockAllocator {}

impl BlockAllocator {
    /// Creates the allocator.
    pub fn new() -> (r: Self)
        ensures
            r == (BlockAllocator {}),
    {
        Self {}
    }

    /// Returns a block to the allocator; it holds nothing to update.
    pub fn dealloc(&mut self)
        ensures
            *final(self) == *old(self),
    {
    }
}

/// A region of memory tracked by a free list allocator.
#[derive(Copy, Clone, Debug)]
struct Chunk {
    offset: usize,
    size: usize,
    is_free: bool,
}

/// A free list allocator; only its construction is defined so far.
#[derive(Clone, Debug)]
pub struct FreeListAllocator {
    chunks: Vec<Chunk>,
}

impl FreeListAllocator {
    /// The chunks as `(offset, recorded size, is_free)` triples.
    pub closed spec fn chunks(&self) -> Seq<(usize, usize, bool)> {
        self.chunks@.map_values(|c: Chunk| (c.offset, c.size, c.is_free))
    }

    /// Creates the allocator with one free chunk at the region's offset whose recorded size
    /// is the region's end.
    pub fn new(region: Region) -> (r: Self)
        requires
            region.offset + region.size <= usize::MAX,
        ensures
            r.chunks() == seq![(region.offset, (region.offset + region.size) as usize, true)],
    {
        let r = Self {
            chunks: vec![Chunk { offset: region.offset, size: region.offset + region.size, is_free: true }],
        };
        proof {
            assert(r.chunks() =~= seq![(region.offset, (region.offset + region.size) as usize, true)]);
        }
        r
    }

    /// Returns a region to the allocator; nothing is recorded.
    pub fn dealloc(&mut self, region: Region)
        ensures
            final(self).chunks() == old(self).chunks(),
    {
    }
}

/// An allocator that hands out memory in increasing order and frees it only all at once.
#[derive(Copy, Clone, Debug)]
pub struct BumpAllocator {
    region: Region,
    next: usize,
}

impl BumpAllocator {
    /// The managed region.
    pub closed spec fn region(&self) -> Region {
        self.region
    }

    /// The offset at which the next allocation is placed, before alignment.
    pub closed spec fn next(&self) -> usize {
        self.next
    }

    /// Creates an allocator that starts handing out memory at the region's offset.
    pub fn new(region: Region) -> (r: Self)
        ensures
            r.region() == region,
            r.next() == region.offset,
    {
        Self { region, next: region.offset }
    }

    /// Makes the whole region available again.
    pub fn reset(&mut self)
        ensures
            final(self).region() == old(self).region(),
            final(self).next() == old(self).region().offset,
    {
        self.next = self.region.offset;
    }

    /// Allocates `layout` after the previous allocation, at the first offset from `next`
    /// that is a multiple of the alignment. Returns `None` if the allocation would end past
    /// the region.
    pub fn allocate(&mut self, layout: Layout) -> (r: Option<Region>)
        requires
            old(self).next() + layout.align_spec() + layout.size_spec() <= usize::MAX,
            old(self).region().offset + old(self).region().size <= usize::MAX,
        ensures
            ({
                let a = layout.align_spec() as int;
                let n = old(self).next() as int;
                let start = n + (a - n % a) % a;
                let end = start + layout.size_spec();
                &&& start % a == 0
                &&& n <= start < n + a
                &&& end > old(self).region().offset + old(self).region().size ==> {
                    &&& r is None
                    &&& *final(self) == *old(self)
                }
                &&& end <= old(self).region().offset + old(self).region().size ==> {
                    &&& r == Some(Region { offset: start as usize, size: layout.size_spec() })
                    &&& final(self).next() == end
                    &&& final(self).region() == old(self).region()
                }
            }),
    {
        let align = layout.align();
        proof {
            lemma_pow2_pos(align as int);
            let n = self.next as int;
            let a = align as int;
            assert((n + (a - n % a) % a) % a == 0 && (a - n % a) % a < a) by (nonlinear_arith)
                requires
                    a > 0,
                    n >= 0,
            {
                vstd::arithmetic::div_mod::lemma_fundamental_div_mod(n, a);
                vstd::arithmetic::div_mod::lemma_mod_bound(n, a);
                vstd::arithmetic::div_mod::lemma_mod_bound(a - n % a, a);
            }
        }
        let offset = (align - (self.next % align)) % align;
        let start = self.next + offset;
        let end = start + layout.size();
        if end > self.region.end() {
            return None;
        }
        self.next = end;
        Some(Region { offset: start, size: layout.size() })
    }
}

} // verus!
