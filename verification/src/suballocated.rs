use vstd::prelude::*;

use std::collections::BTreeMap;

use crate::buddy::BuddyAllocator;
use crate::memory::next_power_of_two_u64;
use crate::pow2::{
    is_next_pow2, is_pow2, lemma_next_pow2_unique, lemma_pow2_le, lemma_pow2_pos, next_power_of_two,
};
use crate::region::{Layout, Region};

verus! {

broadcast use {vstd::std_specs::btree::group_btree_axioms, vstd::laws_cmp::group_laws_cmp};

/// Where an array was placed in the buffer: the index of its first element, the bytes to
/// write it to, and, when the buffer had to grow first, its old and its new size in bytes.
#[derive(Copy, Clone, Debug, PartialEq, Eq)]
pub struct Placement {
    pub index: u64,
    pub start: u64,
    pub end: u64,
    pub grown: Option<(u64, u64)>,
}

/// The bookkeeping of a GPU buffer that holds arrays of fixed-size elements at stable
/// indices: a buddy allocator over the buffer's bytes and the region of each array by the
/// index of its first element. The buffer doubles, at least, when an array does not fit.
#[derive(Debug)]
pub struct SubAllocatedGrowableBuffer {
    allocator: BuddyAllocator,
    allocations: BTreeMap<u64, Region>,
    size: u64,
    elem_size: usize,
    usage: u32,
}

/// The smallest power of two that is at least `n`.
pub open spec fn next_pow2_of(n: int) -> int {
    choose|p: int| is_next_pow2(p, n)
}

/// The size the buffer grows to from `old` bytes for an array of `size` bytes: the next power
/// of two of twice the old size, or of the old size plus the array's size rounded up to a
/// power of two, whichever is larger.
pub open spec fn grown_size(old: int, size: int) -> int {
    let p = next_pow2_of(size);
    next_pow2_of(if 2 * old >= old + p {
        2 * old
    } else {
        old + p
    })
}

/// Whether the allocator has no place for an array of `size` bytes aligned to `align`.
pub open spec fn no_room(a: BuddyAllocator, size: int, align: int) -> bool {
    forall|p: int| #[trigger] is_next_pow2(p, size) ==> a.placement(p, align) is None
}

proof fn lemma_next_pow2_of(p: int, n: int)
    requires
        is_next_pow2(p, n),
    ensures
        next_pow2_of(n) == p,
{
    let q = next_pow2_of(n);
    assert(is_next_pow2(q, n));
    lemma_next_pow2_unique(p, q, n);
}

impl SubAllocatedGrowableBuffer {
    /// The allocator of the buffer's bytes.
    pub closed spec fn allocator(&self) -> BuddyAllocator {
        self.allocator
    }

    /// The region of each array, by the index of its first element.
    pub closed spec fn allocations(&self) -> Map<u64, Region> {
        self.allocations@
    }

    /// The size of the buffer in bytes.
    pub closed spec fn size_spec(&self) -> u64 {
        self.size
    }

    /// The size of an element in bytes.
    pub closed spec fn elem(&self) -> usize {
        self.elem_size
    }

    /// The usage the buffer is created with.
    pub closed spec fn usage_spec(&self) -> u32 {
        self.usage
    }

    /// The allocator covers the buffer, and the recorded arrays are exactly its regions,
    /// each under the index of its first element.
    pub closed spec fn wf(&self) -> bool {
        &&& self.allocator.wf()
        &&& self.allocator.capacity() == self.size
        &&& is_pow2(self.size as int)
        &&& is_pow2(self.elem_size as int)
        &&& forall|i: u64|
            #[trigger] self.allocations@.contains_key(i) ==> {
                let r = self.allocations@[i];
                &&& self.allocator.allocated().contains(r)
                &&& r.offset == i * self.elem_size
                &&& r.size >= 1
            }
        &&& forall|r: Region|
            #[trigger] self.allocator.allocated().contains(r) ==> {
                &&& r.offset % self.elem_size == 0
                &&& self.allocations@.contains_key((r.offset / self.elem_size) as u64)
                &&& self.allocations@[(r.offset / self.elem_size) as u64] == r
            }
    }

    /// Creates the bookkeeping of a one-byte buffer for elements of `elem_size` bytes, a power
    /// of two; the buffer will also be usable as a transfer source and destination.
    pub fn new(elem_size: usize, usage: u32) -> (r: Self)
        requires
            is_pow2(elem_size as int),
        ensures
            r.wf(),
            r.size_spec() == 1,
            r.elem() == elem_size,
            r.allocations().is_empty(),
            r.allocator().allocated().is_empty(),
            r.usage_spec() == usage | 3,
    {
        assert(usage | 1u32 | 2u32 == usage | 3u32) by (bit_vector);
        let r = Self {
            allocator: BuddyAllocator::new(Region::new(0, 1)),
            allocations: BTreeMap::new(),
            size: 1,
            elem_size,
            usage: usage | 1 | 2,
        };
        proof {
            assert(r.allocations@ =~= Map::<u64, Region>::empty());
        }
        r
    }

    /// The size of the buffer in bytes.
    pub fn size(&self) -> (r: u64)
        ensures
            r == self.size_spec(),
    {
        self.size
    }

    /// The usage the buffer is created with.
    pub fn usage(&self) -> (r: u32)
        ensures
            r == self.usage_spec(),
    {
        self.usage
    }

    /// Records the region `reg`, just allocated, under the index of its first element.
    fn record(&mut self, reg: Region, ghost_allocated: Ghost<Set<Region>>) -> (index: u64)
        requires
            old(self).allocator.wf(),
            old(self).allocator.capacity() == old(self).size,
            is_pow2(old(self).size as int),
            is_pow2(old(self).elem_size as int),
            reg.offset % old(self).elem_size == 0,
            reg.size >= 1,
            !ghost_allocated@.contains(reg),
            forall|q: Region| #[trigger] ghost_allocated@.contains(q) ==> !q.overlaps(reg),
            old(self).allocator.allocated() == ghost_allocated@.insert(reg),
            forall|i: u64|
                #[trigger] old(self).allocations@.contains_key(i) ==> {
                    let r = old(self).allocations@[i];
                    &&& ghost_allocated@.contains(r)
                    &&& r.offset == i * old(self).elem_size
                    &&& r.size >= 1
                },
            forall|r: Region|
                #[trigger] ghost_allocated@.contains(r) ==> {
                    &&& r.offset % old(self).elem_size == 0
                    &&& old(self).allocations@.contains_key((r.offset / old(self).elem_size) as u64)
                    &&& old(self).allocations@[(r.offset / old(self).elem_size) as u64] == r
                },
        ensures
            final(self).wf(),
            index * old(self).elem_size == reg.offset,
            !old(self).allocations@.contains_key(index),
            final(self).allocations@ == old(self).allocations@.insert(index, reg),
            final(self).allocator == old(self).allocator,
            final(self).size == old(self).size,
            final(self).elem_size == old(self).elem_size,
            final(self).usage == old(self).usage,
    {
        let e = self.elem_size;
        proof {
            lemma_pow2_pos(e as int);
        }
        let index = (reg.start() / e) as u64;
        proof {
            let o = reg.offset as int;
            assert(o == (o / e as int) * e as int) by (nonlinear_arith)
                requires
                    o % e as int == 0,
                    e > 0,
            ;
            assert(index * e == reg.offset);
            if self.allocations@.contains_key(index) {
                let r = self.allocations@[index];
                assert(r.offset == reg.offset);
                assert(r.overlaps(reg));
            }
        }
        let ghost before = self.allocations@;
        self.allocations.insert(index, reg);
        proof {
            let m = self.allocations@;
            assert forall|r: Region| #[trigger] self.allocator.allocated().contains(r) implies {
                &&& r.offset % e == 0
                &&& m.contains_key((r.offset / e) as u64)
                &&& m[(r.offset / e) as u64] == r
            } by {
                if r != reg {
                    let k = (r.offset / e) as u64;
                    assert(before.contains_key(k) && before[k] == r);
                    if k == index {
                        assert(r.offset == k * e);
                        assert(r.overlaps(reg));
                    }
                }
            }
        }
        index
    }

    /// Places an array of `len` elements: where the allocator has room, or else after growing
    /// the buffer (see `grown_size`). An empty array takes no room and gets index 0. Returns
    /// `None` exactly when the buffer would have to grow but its allocator refuses to (see
    /// `BuddyAllocator::can_grow`).
    pub fn allocate(&mut self, len: usize) -> (r: Option<Placement>)
        requires
            old(self).wf(),
            len * old(self).elem() + old(self).elem() - 1 <= isize::MAX,
            4 * (old(self).size_spec() + len * old(self).elem()) <= usize::MAX,
        ensures
            final(self).wf(),
            final(self).elem() == old(self).elem(),
            final(self).usage_spec() == old(self).usage_spec(),
            ({
                let size = len * old(self).elem();
                let e = old(self).elem() as int;
                let needs_growth = no_room(old(self).allocator(), size, e);
                let new_size = grown_size(old(self).size_spec() as int, size);
                match r {
                    None => {
                        &&& size > 0
                        &&& needs_growth
                        &&& !old(self).allocator().can_grow_to(Region { offset: 0, size: new_size as usize })
                        &&& final(self).allocations() == old(self).allocations()
                        &&& final(self).size_spec() == old(self).size_spec()
                    },
                    Some(p) => if size == 0 {
                        &&& p == Placement { index: 0, start: 0, end: 0, grown: None }
                        &&& final(self).allocations() == old(self).allocations()
                        &&& final(self).size_spec() == old(self).size_spec()
                    } else {
                        let reg = final(self).allocations()[p.index];
                        &&& (p.grown is Some) == needs_growth
                        &&& p.grown is None ==> final(self).size_spec() == old(self).size_spec()
                        &&& p.grown matches Some((o, n)) ==> o == old(self).size_spec() && n == new_size
                            && final(self).size_spec() == n
                        &&& !old(self).allocations().contains_key(p.index)
                        &&& final(self).allocations() == old(self).allocations().insert(p.index, reg)
                        &&& p.start == reg.offset
                        &&& p.index * e == p.start
                        &&& p.end == p.start + size
                        &&& is_next_pow2(reg.size as int, size)
                        &&& reg.offset + reg.size <= final(self).size_spec()
                    },
                }
            }),
    {
        let e = self.elem_size;
        proof {
            lemma_pow2_pos(e as int);
            assert(len * e <= len * e + e - 1);
        }
        let size = len * e;
        if size == 0 {
            return Some(Placement { index: 0, start: 0, end: 0, grown: None });
        }
        let layout = match Layout::from_size_align(size, e) {
            Some(l) => l,
            None => {
                return None;
            },
        };
        let ghost allocated0 = self.allocator.allocated();
        let ghost a0 = self.allocator;
        match self.allocator.allocate(layout) {
            Some(reg) => {
                proof {
                    lemma_pow2_pos(reg.size as int);
                    if no_room(a0, size as int, e as int) {
                        assert(is_next_pow2(reg.size as int, size as int));
                    }
                }
                let index = self.record(reg, Ghost(allocated0));
                return Some(Placement { index, start: reg.start() as u64, end: (reg.start() + size) as u64, grown: None });
            },
            None => {},
        }
        let old_size = self.size;
        let p = next_power_of_two(size);
        let doubled = old_size * 2;
        let wanted = if doubled >= old_size + p as u64 {
            doubled
        } else {
            old_size + p as u64
        };
        let new_size = next_power_of_two_u64(wanted);
        proof {
            lemma_next_pow2_of(p as int, size as int);
            lemma_next_pow2_of(new_size as int, wanted as int);
            lemma_pow2_pos(old_size as int);
            lemma_pow2_pos(new_size as int);
            // The grown buffer has room for the array in its upper half.
            if p as int <= old_size as int {
                assert(new_size >= 2 * p);
            } else {
                assert(new_size > p);
                lemma_pow2_le(p as int, new_size as int);
            }
            assert(new_size >= 2 * old_size);
        }
        let new_region = Region::new(0, new_size as usize);
        if !self.allocator.can_grow(new_region) {
            return None;
        }
        self.allocator.grow(new_region);
        self.size = new_size;
        let ghost allocated1 = self.allocator.allocated();
        proof {
            assert(size <= p);
            assert(e <= size) by (nonlinear_arith)
                requires
                    size == len * e,
                    size > 0,
                    e > 0,
            ;
            assert(self.allocator.placement(p as int, e as int) is Some);
        }
        match self.allocator.allocate(layout) {
            Some(reg) => {
                proof {
                    lemma_pow2_pos(reg.size as int);
                }
                let index = self.record(reg, Ghost(allocated1));
                Some(
                    Placement {
                        index,
                        start: reg.start() as u64,
                        end: (reg.start() + size) as u64,
                        grown: Some((old_size, new_size)),
                    },
                )
            },
            None => {
                proof {
                    assert(is_next_pow2(p as int, size as int));
                }
                None
            },
        }
    }

    /// Frees the array at `index`, if one is recorded there.
    pub fn remove(&mut self, index: u64)
        requires
            old(self).wf(),
        ensures
            final(self).wf(),
            final(self).allocations() == old(self).allocations().remove(index),
            final(self).size_spec() == old(self).size_spec(),
            final(self).elem() == old(self).elem(),
            final(self).usage_spec() == old(self).usage_spec(),
    {
        let ghost m = self.allocations@;
        match self.allocations.remove(&index) {
            Some(region) => {
                let ghost allocated0 = self.allocator.allocated();
                self.allocator.dealloc(region);
                proof {
                    let e = self.elem_size as int;
                    lemma_pow2_pos(e);
                    assert forall|i: u64| #[trigger] self.allocations@.contains_key(i) implies {
                        let r = self.allocations@[i];
                        &&& self.allocator.allocated().contains(r)
                        &&& r.offset == i * self.elem_size
                        &&& r.size >= 1
                    } by {
                        if m[i] == region {
                            assert(i * e == index * e);
                            assert(i == index) by (nonlinear_arith)
                                requires
                                    i * e == index * e,
                                    e > 0,
                            ;
                        }
                    }
                }
            },
            None => {
                proof {
                    assert(self.allocations@ =~= m.remove(index));
                }
            },
        }
    }
}


/// Two arrays in the buffer never share a byte, and each lies within the buffer.
pub proof fn law_arrays_disjoint(b: SubAllocatedGrowableBuffer, i: u64, j: u64)
    requires
        b.wf(),
        b.allocations().contains_key(i),
        b.allocations().contains_key(j),
        i != j,
    ensures
        !b.allocations()[i].overlaps(b.allocations()[j]),
        b.allocations()[i].offset + b.allocations()[i].size <= b.size_spec(),
{
    let e = b.elem() as int;
    lemma_pow2_pos(e);
    let ri = b.allocations()[i];
    let rj = b.allocations()[j];
    if ri == rj {
        assert(i * e == j * e);
        assert(i == j) by (nonlinear_arith)
            requires
                i * e == j * e,
                e > 0,
        ;
    }
    crate::buddy::law_allocations_disjoint(b.allocator(), ri, rj);
    crate::buddy::law_allocations_within(b.allocator(), ri);
}

} // verus!
