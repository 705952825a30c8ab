use vstd::prelude::*;

use crate::sorted::{increasing, sorted_insert, sorted_remove};

verus! {

/// A pending change to the GPU buffer backing a [`BlockBuffer`].
#[derive(Clone, Debug, PartialEq)]
pub enum BufferWrite {
    /// The buffer must be reallocated to the current size, keeping its contents.
    BufferExpand,
    /// Block `src` must be copied to block `dst`.
    BufferCopy { src: u32, dst: u32 },
    /// The bytes must be written to the given block.
    Data(u32, Vec<u8>),
}

/// The bookkeeping of a buffer of fixed size blocks: which blocks are occupied, which are
/// free, and the writes that still have to reach the GPU buffer.
#[derive(Debug)]
pub struct BlockBuffer {
    has_buffer: bool,
    buffer_size: usize,
    block_size: usize,
    occupied_blocks: Vec<u32>,
    free_blocks: Vec<u32>,
    writes_queued: Vec<BufferWrite>,
    usage: u32,
}

/// The set of the integers `0..n`.
pub open spec fn index_set(n: int) -> Set<u32> {
    Set::new(|i: u32| i < n)
}

/// The `t`-th largest element of the increasing sequence `occ`.
pub open spec fn nth_largest(occ: Seq<u32>, t: int) -> u32 {
    occ[occ.len() - 1 - t]
}

/// Compaction moves the `t`-th largest occupied block into the `t`-th smallest free block.
pub open spec fn move_ok(occ: Seq<u32>, free: Seq<u32>, t: int) -> bool {
    0 <= t < occ.len() && t < free.len() && free[t] < nth_largest(occ, t)
}

/// The first `k` moves of a compaction, as `(source, destination)` pairs.
pub open spec fn moves_spec(occ: Seq<u32>, free: Seq<u32>, k: int) -> Seq<(u32, u32)> {
    Seq::new(k as nat, |t: int| (nth_largest(occ, t), free[t]))
}

/// The blocks that the moves copy from.
pub open spec fn sources(moves: Seq<(u32, u32)>) -> Set<u32> {
    Set::new(|x: u32| exists|t: int| 0 <= t < moves.len() && moves[t].0 == x)
}

/// The blocks that the moves copy to.
pub open spec fn dests(moves: Seq<(u32, u32)>) -> Set<u32> {
    Set::new(|x: u32| exists|t: int| 0 <= t < moves.len() && moves[t].1 == x)
}

/// The GPU copies that carry out the moves, in order.
pub open spec fn copies(moves: Seq<(u32, u32)>) -> Seq<BufferWrite> {
    moves.map_values(|m: (u32, u32)| BufferWrite::BufferCopy { src: m.0, dst: m.1 })
}

impl BlockBuffer {
    /// The occupied blocks, in increasing order.
    pub closed spec fn occupied(&self) -> Seq<u32> {
        self.occupied_blocks@
    }

    /// The free blocks, in increasing order.
    pub closed spec fn free(&self) -> Seq<u32> {
        self.free_blocks@
    }

    /// The number of blocks the buffer has room for.
    pub closed spec fn capacity(&self) -> nat {
        self.buffer_size as nat
    }

    /// The size of each block in bytes.
    pub closed spec fn block_size_spec(&self) -> usize {
        self.block_size
    }

    /// The writes that still have to be applied to the GPU buffer.
    pub closed spec fn writes(&self) -> Seq<BufferWrite> {
        self.writes_queued@
    }

    /// Whether the GPU buffer has been created.
    pub closed spec fn buffer_created(&self) -> bool {
        self.has_buffer
    }

    /// The usage flags of the GPU buffer.
    pub closed spec fn usage_spec(&self) -> u32 {
        self.usage
    }

    /// Every block is either occupied or free, and the block count fits in `u32`.
    pub closed spec fn wf(&self) -> bool {
        &&& increasing(self.occupied_blocks@)
        &&& increasing(self.free_blocks@)
        &&& self.buffer_size <= u32::MAX
        &&& forall|i: u32|
            #![trigger self.occupied_blocks@.contains(i)]
            #![trigger self.free_blocks@.contains(i)]
            (i < self.buffer_size) == (self.occupied_blocks@.contains(i)
                || self.free_blocks@.contains(i))
        &&& forall|i: u32|
            #![trigger self.occupied_blocks@.contains(i), self.free_blocks@.contains(i)]
            !(self.occupied_blocks@.contains(i) && self.free_blocks@.contains(i))
    }

    /// Creates an empty buffer of blocks of `block_size` bytes; the GPU buffer will also be
    /// usable as a transfer source and destination.
    pub fn new(block_size: usize, usage: u32) -> (r: Self)
        ensures
            r.wf(),
            r.capacity() == 0,
            r.block_size_spec() == block_size,
            r.occupied().len() == 0,
            r.free().len() == 0,
            r.writes().len() == 0,
            !r.buffer_created(),
            r.usage_spec() == usage | 3,
    {
        assert(usage | 1u32 | 2u32 == usage | 3u32) by (bit_vector);
        Self {
            has_buffer: false,
            block_size,
            free_blocks: Vec::new(),
            buffer_size: 0,
            usage: usage | 1 | 2,
            occupied_blocks: Vec::new(),
            writes_queued: Vec::new(),
        }
    }

    /// The size of each block in bytes.
    pub fn block_size(&self) -> (r: usize)
        ensures
            r == self.block_size_spec(),
    {
        self.block_size
    }

    /// The usage the GPU buffer is created with.
    pub fn usage(&self) -> (r: u32)
        ensures
            r == self.usage_spec(),
    {
        self.usage
    }

    /// The number of blocks the buffer has room for.
    pub fn buffer_size(&self) -> (r: usize)
        ensures
            r == self.capacity(),
    {
        self.buffer_size
    }

    /// Records that the GPU buffer now exists.
    pub fn set_buffer_created(&mut self)
        ensures
            final(self).buffer_created(),
            final(self).occupied() == old(self).occupied(),
            final(self).free() == old(self).free(),
            final(self).capacity() == old(self).capacity(),
            final(self).writes() == old(self).writes(),
            final(self).block_size_spec() == old(self).block_size_spec(),
            old(self).wf() ==> final(self).wf(),
    {
        self.has_buffer = true;
    }

    /// Removes and returns the queued writes, oldest first.
    pub fn take_writes(&mut self) -> (r: Vec<BufferWrite>)
        ensures
            r@ == old(self).writes(),
            final(self).writes().len() == 0,
            final(self).occupied() == old(self).occupied(),
            final(self).free() == old(self).free(),
            final(self).capacity() == old(self).capacity(),
            final(self).buffer_created() == old(self).buffer_created(),
            final(self).block_size_spec() == old(self).block_size_spec(),
            old(self).wf() ==> final(self).wf(),
    {
        let mut w = Vec::new();
        std::mem::swap(&mut w, &mut self.writes_queued);
        w
    }

    /// Doubles the number of blocks (from at least one), making the new blocks free, and
    /// queues an expansion of an existing GPU buffer unless one is already queued first.
    fn grow(&mut self)
        requires
            old(self).wf(),
            old(self).free_blocks@.len() == 0,
            (if old(self).buffer_size == 0 {
                1
            } else {
                old(self).buffer_size
            }) * 2 <= u32::MAX,
        ensures
            final(self).wf(),
            final(self).buffer_size == (if old(self).buffer_size == 0 {
                1
            } else {
                old(self).buffer_size
            }) * 2,
            final(self).free_blocks@.len() > 0,
            final(self).occupied_blocks == old(self).occupied_blocks,
            final(self).block_size == old(self).block_size,
            final(self).has_buffer == old(self).has_buffer,
            final(self).writes_queued@ == if old(self).has_buffer && !(old(
                self,
            ).writes_queued@.len() > 0 && old(self).writes_queued@[0] is BufferExpand) {
                seq![BufferWrite::BufferExpand] + old(self).writes_queued@
            } else {
                old(self).writes_queued@
            },
    {
        let old_size = self.buffer_size;
        let base = if self.buffer_size == 0 {
            1
        } else {
            self.buffer_size
        };
        let new_size = base * 2;
        self.buffer_size = new_size;
        let mut index = old_size;
        let ghost occ0 = self.occupied_blocks@;
        proof {
            assert forall|i: u32| #![trigger occ0.contains(i)] (i < old_size) == occ0.contains(i) by {
                assert(!self.free_blocks@.contains(i));
            }
        }
        while index < new_size
            invariant
                old_size <= index <= new_size,
                self.occupied_blocks@ == occ0,
                self.buffer_size == new_size,
                self.writes_queued == old(self).writes_queued,
                self.has_buffer == old(self).has_buffer,
                self.block_size == old(self).block_size,
                self.occupied_blocks == old(self).occupied_blocks,
                increasing(occ0),
                forall|i: u32| #![trigger occ0.contains(i)] (i < old_size) == occ0.contains(i),
                new_size <= u32::MAX,
                self.free_blocks@.len() == index - old_size,
                forall|k: int| #![trigger self.free_blocks@[k]]
                    0 <= k < self.free_blocks@.len() ==> self.free_blocks@[k] == old_size + k,
            decreases new_size - index,
        {
            self.free_blocks.push(index as u32);
            index = index + 1;
        }
        proof {
            let occ = self.occupied_blocks@;
            let free = self.free_blocks@;
            assert(increasing(free));
            assert forall|i: u32| #![trigger occ.contains(i)] #![trigger free.contains(i)]
                (i < new_size) == (occ.contains(i) || free.contains(i)) by {
                if i >= old_size && i < new_size {
                    assert(free[i - old_size] == i);
                }
                if free.contains(i) {
                    let k = choose|k: int| 0 <= k < free.len() && free[k] == i;
                    assert(free[k] == old_size + k);
                }
            }
            assert forall|i: u32| #![trigger occ.contains(i), free.contains(i)]
                !(occ.contains(i) && free.contains(i)) by {
                if free.contains(i) {
                    let k = choose|k: int| 0 <= k < free.len() && free[k] == i;
                    assert(free[k] == old_size + k);
                }
            }
        }
        let expand_queued = self.writes_queued.len() > 0 && matches!(self.writes_queued[0], BufferWrite::BufferExpand);
        if self.has_buffer && !expand_queued {
            self.writes_queued.insert(0, BufferWrite::BufferExpand);
            proof {
                assert(self.writes_queued@ =~= seq![BufferWrite::BufferExpand] + old(
                    self,
                ).writes_queued@);
            }
        }
    }
}


/// Copies a byte slice into a new vector.
fn copy_bytes(bytes: &[u8]) -> (v: Vec<u8>)
    ensures
        v@ == bytes@,
{
    let mut v: Vec<u8> = Vec::with_capacity(bytes.len());
    let mut i: usize = 0;
    while i < bytes.len()
        invariant
            i <= bytes@.len(),
            v@ == bytes@.subrange(0, i as int),
        decreases bytes@.len() - i,
    {
        v.push(bytes[i]);
        i = i + 1;
    }
    v
}

/// The first element of an increasing sequence is its least element.
proof fn lemma_first_is_min(s: Seq<u32>, x: u32)
    requires
        increasing(s),
        s.contains(x),
    ensures
        s[0] <= x,
{
    let k = choose|k: int| 0 <= k < s.len() && s[k] == x;
    if k > 0 {
        assert(s[0] < s[k]);
    }
}

impl BlockBuffer {
    /// Stores `bytes` in the lowest free block, growing the buffer if no block is free, and
    /// returns the block's index.
    pub fn insert(&mut self, bytes: &[u8]) -> (r: u32)
        requires
            old(self).wf(),
            bytes@.len() <= old(self).block_size_spec(),
            old(self).free().len() == 0 ==> (if old(self).capacity() == 0 {
                1
            } else {
                old(self).capacity()
            }) * 2 <= u32::MAX,
        ensures
            final(self).wf(),
            final(self).block_size_spec() == old(self).block_size_spec(),
            final(self).buffer_created() == old(self).buffer_created(),
            final(self).capacity() == if old(self).free().len() == 0 {
                (if old(self).capacity() == 0 {
                    1
                } else {
                    old(self).capacity()
                }) * 2
            } else {
                old(self).capacity()
            },
            r == if old(self).free().len() == 0 {
                old(self).capacity() as u32
            } else {
                old(self).free()[0]
            },
            !old(self).occupied().contains(r),
            final(self).occupied().to_set() == old(self).occupied().to_set().insert(r),
            final(self).writes().len() >= 1,
            final(self).writes().drop_last() == if old(self).free().len() == 0 && old(
                self,
            ).buffer_created() && !(old(self).writes().len() > 0 && old(self).writes()[0] is BufferExpand) {
                seq![BufferWrite::BufferExpand] + old(self).writes()
            } else {
                old(self).writes()
            },
            final(self).writes().last() matches BufferWrite::Data(i, v) && i == r && v@ == bytes@,
    {
        if self.free_blocks.len() == 0 {
            self.grow();
        }
        let ghost free1 = self.free_blocks@;
        let ghost writes1 = self.writes_queued@;
        let index = self.free_blocks.remove(0);
        proof {
            assert(free1.contains(index));
            assert(!self.occupied_blocks@.contains(index));
            if old(self).free_blocks@.len() == 0 {
                assert forall|k: int| 0 <= k < free1.len() implies free1[k] >= old(self).buffer_size by {
                    assert(!self.occupied_blocks@.contains(free1[k]));
                    if free1[k] < old(self).buffer_size {
                        assert(old(self).occupied_blocks@.contains(free1[k]) || old(
                            self,
                        ).free_blocks@.contains(free1[k]));
                    }
                }
                assert(free1.contains(old(self).buffer_size as u32));
                lemma_first_is_min(free1, old(self).buffer_size as u32);
            }
            assert(increasing(self.free_blocks@));
        }
        let ghost occ1 = self.occupied_blocks@;
        sorted_insert(&mut self.occupied_blocks, index);
        let data = copy_bytes(bytes);
        self.writes_queued.push(BufferWrite::Data(index, data));
        proof {
            let occ = self.occupied_blocks@;
            let free = self.free_blocks@;
            assert(free =~= free1.subrange(1, free1.len() as int));
            assert forall|i: u32| #![trigger occ.contains(i)] #![trigger free.contains(i)]
                (i < self.buffer_size) == (occ.contains(i) || free.contains(i)) by {
                assert(occ.to_set().contains(i) == occ.contains(i));
                if free1.contains(i) && i != index {
                    let k = choose|k: int| 0 <= k < free1.len() && free1[k] == i;
                    assert(free[k - 1] == i);
                }
                if free.contains(i) {
                    let k = choose|k: int| 0 <= k < free.len() && free[k] == i;
                    assert(free1[k + 1] == i);
                }
            }
            assert forall|i: u32| #![trigger occ.contains(i), free.contains(i)]
                !(occ.contains(i) && free.contains(i)) by {
                assert(occ.to_set().contains(i) == occ.contains(i));
                assert(occ1.to_set().contains(i) == occ1.contains(i));
                if free.contains(i) {
                    let k = choose|k: int| 0 <= k < free.len() && free[k] == i;
                    assert(free1[k + 1] == i);
                    assert(free1[0] < free1[k + 1]);
                    assert(free1.contains(i));
                    assert(!occ1.contains(i));
                }
            }
            assert(self.writes_queued@.drop_last() =~= writes1);
        }
        index
    }

    /// Returns `true` if block `index` is in use.
    pub fn is_occupied(&self, index: u32) -> (r: bool)
        ensures
            r == self.occupied().contains(index),
    {
        let mut k: usize = 0;
        while k < self.occupied_blocks.len()
            invariant
                k <= self.occupied_blocks@.len(),
                forall|q: int| 0 <= q < k ==> self.occupied_blocks@[q] != index,
            decreases self.occupied_blocks@.len() - k,
        {
            if self.occupied_blocks[k] == index {
                return true;
            }
            k = k + 1;
        }
        false
    }

    /// Frees the occupied block `index`.
    pub fn remove(&mut self, index: u32)
        requires
            old(self).wf(),
            old(self).occupied().contains(index),
        ensures
            final(self).wf(),
            final(self).occupied().to_set() == old(self).occupied().to_set().remove(index),
            final(self).free().to_set() == old(self).free().to_set().insert(index),
            final(self).capacity() == old(self).capacity(),
            final(self).writes() == old(self).writes(),
            final(self).block_size_spec() == old(self).block_size_spec(),
            final(self).buffer_created() == old(self).buffer_created(),
    {
        proof {
            assert(!self.free_blocks@.contains(index));
        }
        sorted_remove(&mut self.occupied_blocks, index);
        sorted_insert(&mut self.free_blocks, index);
        proof {
            let occ = self.occupied_blocks@;
            let free = self.free_blocks@;
            assert forall|i: u32| #![trigger occ.contains(i)] #![trigger free.contains(i)]
                (i < self.buffer_size) == (occ.contains(i) || free.contains(i)) by {
                assert(occ.to_set().contains(i) == occ.contains(i));
                assert(free.to_set().contains(i) == free.contains(i));
                assert(old(self).occupied_blocks@.to_set().contains(i) == old(
                    self,
                ).occupied_blocks@.contains(i));
                assert(old(self).free_blocks@.to_set().contains(i) == old(
                    self,
                ).free_blocks@.contains(i));
            }
            assert forall|i: u32| #![trigger occ.contains(i), free.contains(i)]
                !(occ.contains(i) && free.contains(i)) by {
                assert(occ.to_set().contains(i) == occ.contains(i));
                assert(free.to_set().contains(i) == free.contains(i));
                assert(old(self).occupied_blocks@.to_set().contains(i) == old(
                    self,
                ).occupied_blocks@.contains(i));
                assert(old(self).free_blocks@.to_set().contains(i) == old(
                    self,
                ).free_blocks@.contains(i));
            }
        }
    }
}


/// Taking one more move adds its source and its destination to the moved sets.
proof fn lemma_moves_step(m: Seq<(u32, u32)>, j: int)
    requires
        0 <= j < m.len(),
    ensures
        sources(m.take(j + 1)) == sources(m.take(j)).insert(m[j].0),
        dests(m.take(j + 1)) == dests(m.take(j)).insert(m[j].1),
{
    let a = m.take(j);
    let b = m.take(j + 1);
    assert forall|x: u32| sources(b).contains(x) <==> sources(a).insert(m[j].0).contains(x) by {
        if sources(b).contains(x) {
            let t = choose|t: int| 0 <= t < b.len() && b[t].0 == x;
            if t < j {
                assert(a[t].0 == x);
            }
        }
        if sources(a).contains(x) {
            let t = choose|t: int| 0 <= t < a.len() && a[t].0 == x;
            assert(b[t].0 == x);
        }
        if x == m[j].0 {
            assert(b[j].0 == x);
        }
    }
    assert forall|x: u32| dests(b).contains(x) <==> dests(a).insert(m[j].1).contains(x) by {
        if dests(b).contains(x) {
            let t = choose|t: int| 0 <= t < b.len() && b[t].1 == x;
            if t < j {
                assert(a[t].1 == x);
            }
        }
        if dests(a).contains(x) {
            let t = choose|t: int| 0 <= t < a.len() && a[t].1 == x;
            assert(b[t].1 == x);
        }
        if x == m[j].1 {
            assert(b[j].1 == x);
        }
    }
    assert(sources(b) =~= sources(a).insert(m[j].0));
    assert(dests(b) =~= dests(a).insert(m[j].1));
}

/// Once no further move is possible, every block that ends up occupied lies below every block
/// that ends up free.
proof fn lemma_compacted(occ: Seq<u32>, free: Seq<u32>, k: int, a: u32, b: u32)
    requires
        increasing(occ),
        increasing(free),
        forall|i: u32| #![trigger occ.contains(i), free.contains(i)]
            !(occ.contains(i) && free.contains(i)),
        0 <= k <= occ.len(),
        k <= free.len(),
        forall|t: int| 0 <= t < k ==> move_ok(occ, free, t),
        !move_ok(occ, free, k),
        occ.to_set().difference(sources(moves_spec(occ, free, k))).union(
            dests(moves_spec(occ, free, k)),
        ).contains(a),
        free.to_set().difference(dests(moves_spec(occ, free, k))).union(
            sources(moves_spec(occ, free, k)),
        ).contains(b),
    ensures
        a < b,
{
    let m = moves_spec(occ, free, k);
    let n = occ.len() as int;
    if dests(m).contains(a) {
        let t = choose|t: int| 0 <= t < m.len() && m[t].1 == a;
        assert(a == free[t]);
        assert(move_ok(occ, free, k - 1));
        if sources(m).contains(b) {
            let u = choose|u: int| 0 <= u < m.len() && m[u].0 == b;
            assert(b == occ[n - 1 - u]);
            assert(free[t] <= free[k - 1]);
            assert(occ[n - k] <= occ[n - 1 - u]);
        } else {
            assert(free.contains(b));
            let u = choose|u: int| 0 <= u < free.len() && free[u] == b;
            if u < k {
                assert(m[u].1 == b);
                assert(dests(m).contains(b));
            }
            assert(t < u);
        }
    } else {
        assert(occ.contains(a));
        let i = choose|i: int| 0 <= i < n && occ[i] == a;
        if i >= n - k {
            assert(m[n - 1 - i].0 == a);
            assert(sources(m).contains(a));
        }
        assert(i < n - k);
        if sources(m).contains(b) {
            let u = choose|u: int| 0 <= u < m.len() && m[u].0 == b;
            assert(b == occ[n - 1 - u]);
        } else {
            assert(free.contains(b));
            let u = choose|u: int| 0 <= u < free.len() && free[u] == b;
            if u < k {
                assert(m[u].1 == b);
                assert(dests(m).contains(b));
            }
            assert(occ.contains(occ[n - 1 - k]));
            assert(free.contains(free[k]));
            assert(occ[i] <= occ[n - 1 - k]);
            assert(free[k] <= free[u]);
        }
    }
}

impl BlockBuffer {
    /// Compacts the buffer as far as possible by moving the highest occupied blocks into the
    /// lowest free blocks, queueing a GPU copy for each move. Returns the moves as
    /// `(source, destination)` pairs, in the order they were made, so that the caller can
    /// rekey what it stored in those blocks.
    pub fn compact(&mut self) -> (moves: Vec<(u32, u32)>)
        requires
            old(self).wf(),
        ensures
            final(self).wf(),
            moves@ == moves_spec(old(self).occupied(), old(self).free(), moves@.len() as int),
            forall|t: int|
                0 <= t < moves@.len() ==> move_ok(old(self).occupied(), old(self).free(), t),
            !move_ok(old(self).occupied(), old(self).free(), moves@.len() as int),
            final(self).occupied().to_set() == old(self).occupied().to_set().difference(
                sources(moves@),
            ).union(dests(moves@)),
            final(self).free().to_set() == old(self).free().to_set().difference(
                dests(moves@),
            ).union(sources(moves@)),
            final(self).occupied().len() == old(self).occupied().len(),
            forall|a: u32, b: u32|
                #![trigger final(self).occupied().contains(a), final(self).free().contains(b)]
                final(self).occupied().contains(a) && final(self).free().contains(b) ==> a < b,
            final(self).writes() == old(self).writes() + copies(moves@),
            final(self).capacity() == old(self).capacity(),
            final(self).block_size_spec() == old(self).block_size_spec(),
            final(self).buffer_created() == old(self).buffer_created(),
    {
        let ghost occ0 = self.occupied_blocks@;
        let ghost free0 = self.free_blocks@;
        let ghost writes0 = self.writes_queued@;
        let n = self.occupied_blocks.len();
        let mut moves: Vec<(u32, u32)> = Vec::new();
        let mut t: usize = 0;
        while t < n && t < self.free_blocks.len() && self.free_blocks[t]
            < self.occupied_blocks[n - 1 - t]
            invariant
                n == occ0.len(),
                t <= n,
                t <= free0.len(),
                self.occupied_blocks@ == occ0,
                self.free_blocks@ == free0,
                moves@ == moves_spec(occ0, free0, t as int),
                forall|s: int| 0 <= s < t ==> move_ok(occ0, free0, s),
                self.writes_queued@ == writes0 + copies(moves@),
                self.buffer_size == old(self).buffer_size,
                self.block_size == old(self).block_size,
                self.has_buffer == old(self).has_buffer,
                self.usage == old(self).usage,
            decreases n - t,
        {
            let src = self.occupied_blocks[n - 1 - t];
            let dst = self.free_blocks[t];
            let ghost m0 = moves@;
            moves.push((src, dst));
            self.writes_queued.push(BufferWrite::BufferCopy { src, dst });
            t = t + 1;
            proof {
                assert(moves@ =~= moves_spec(occ0, free0, t as int));
                assert(copies(moves@) =~= copies(m0).push(BufferWrite::BufferCopy { src, dst }));
                assert(self.writes_queued@ =~= writes0 + copies(moves@));
            }
        }
        let ghost k = t as int;
        let ghost m = moves@;
        proof {
            assert(m.take(0) =~= Seq::<(u32, u32)>::empty());
            assert(sources(m.take(0)) =~= Set::<u32>::empty());
            assert(dests(m.take(0)) =~= Set::<u32>::empty());
            assert(occ0.to_set().difference(Set::<u32>::empty()).union(Set::<u32>::empty())
                =~= occ0.to_set());
            assert(free0.to_set().difference(Set::<u32>::empty()).union(Set::<u32>::empty())
                =~= free0.to_set());
        }
        let mut j: usize = 0;
        while j < moves.len()
            invariant
                moves@ == m,
                m == moves_spec(occ0, free0, k),
                0 <= k <= occ0.len(),
                k <= free0.len(),
                j <= k,
                increasing(occ0),
                increasing(free0),
                forall|i: u32| #![trigger occ0.contains(i), free0.contains(i)]
                    !(occ0.contains(i) && free0.contains(i)),
                increasing(self.occupied_blocks@),
                increasing(self.free_blocks@),
                self.occupied_blocks@.len() == occ0.len(),
                self.occupied_blocks@.to_set() == occ0.to_set().difference(
                    sources(m.take(j as int)),
                ).union(dests(m.take(j as int))),
                self.free_blocks@.to_set() == free0.to_set().difference(
                    dests(m.take(j as int)),
                ).union(sources(m.take(j as int))),
                self.writes_queued@ == writes0 + copies(m),
                self.buffer_size == old(self).buffer_size,
                self.block_size == old(self).block_size,
                self.has_buffer == old(self).has_buffer,
                self.usage == old(self).usage,
            decreases k - j,
        {
            let (src, dst) = moves[j];
            let ghost nn = occ0.len() as int;
            let ghost sj = sources(m.take(j as int));
            let ghost dj = dests(m.take(j as int));
            proof {
                assert(src == occ0[nn - 1 - j]);
                assert(dst == free0[j as int]);
                assert(occ0.contains(src));
                assert(free0.contains(dst));
                assert(!sj.contains(src)) by {
                    if sj.contains(src) {
                        let u = choose|u: int| 0 <= u < j && m.take(j as int)[u].0 == src;
                        assert(occ0[nn - 1 - u] == src);
                    }
                }
                assert(!dj.contains(dst)) by {
                    if dj.contains(dst) {
                        let u = choose|u: int| 0 <= u < j && m.take(j as int)[u].1 == dst;
                        assert(free0[u] == dst);
                    }
                }
                assert(!dj.contains(src)) by {
                    if dj.contains(src) {
                        let u = choose|u: int| 0 <= u < j && m.take(j as int)[u].1 == src;
                        assert(free0.contains(free0[u]));
                    }
                }
                assert(!sj.contains(dst)) by {
                    if sj.contains(dst) {
                        let u = choose|u: int| 0 <= u < j && m.take(j as int)[u].0 == dst;
                        assert(occ0.contains(occ0[nn - 1 - u]));
                    }
                }
                assert(self.occupied_blocks@.to_set().contains(src));
                assert(self.occupied_blocks@.contains(src));
                lemma_moves_step(m, j as int);
            }
            let ghost occ_a = self.occupied_blocks@;
            sorted_remove(&mut self.occupied_blocks, src);
            proof {
                assert(!self.occupied_blocks@.to_set().contains(dst));
                assert(!self.occupied_blocks@.contains(dst));
            }
            sorted_insert(&mut self.occupied_blocks, dst);
            proof {
                assert(self.free_blocks@.to_set().contains(dst));
                assert(self.free_blocks@.contains(dst));
            }
            sorted_remove(&mut self.free_blocks, dst);
            proof {
                assert(!self.free_blocks@.to_set().contains(src));
                assert(!self.free_blocks@.contains(src));
            }
            sorted_insert(&mut self.free_blocks, src);
            j = j + 1;
            proof {
                assert(self.occupied_blocks@.to_set() =~= occ0.to_set().difference(
                    sources(m.take(j as int)),
                ).union(dests(m.take(j as int))));
                assert(self.free_blocks@.to_set() =~= free0.to_set().difference(
                    dests(m.take(j as int)),
                ).union(sources(m.take(j as int))));
            }
        }
        proof {
            assert(m.take(k) =~= m);
            let occ = self.occupied_blocks@;
            let free = self.free_blocks@;
            assert forall|a: u32, b: u32|
                #![trigger occ.contains(a), free.contains(b)]
                occ.contains(a) && free.contains(b) implies a < b by {
                assert(occ.to_set().contains(a));
                assert(free.to_set().contains(b));
                lemma_compacted(occ0, free0, k, a, b);
            }
            assert forall|i: u32| #![trigger occ.contains(i)] #![trigger free.contains(i)]
                (i < self.buffer_size) == (occ.contains(i) || free.contains(i)) by {
                assert(occ.to_set().contains(i) == occ.contains(i));
                assert(free.to_set().contains(i) == free.contains(i));
                assert(occ0.to_set().contains(i) == occ0.contains(i));
                assert(free0.to_set().contains(i) == free0.contains(i));
                if sources(m).contains(i) {
                    let u = choose|u: int| 0 <= u < m.len() && m[u].0 == i;
                    assert(occ0.contains(occ0[occ0.len() - 1 - u]));
                }
                if dests(m).contains(i) {
                    let u = choose|u: int| 0 <= u < m.len() && m[u].1 == i;
                    assert(free0.contains(free0[u]));
                }
            }
            assert forall|i: u32| #![trigger occ.contains(i), free.contains(i)]
                !(occ.contains(i) && free.contains(i)) by {
                if occ.contains(i) && free.contains(i) {
                    assert(occ.to_set().contains(i));
                    assert(free.to_set().contains(i));
                    lemma_compacted(occ0, free0, k, i, i);
                }
            }
        }
        moves
    }
}

/// The next insert takes the lowest free block: no free block lies below `free()[0]`.
pub proof fn law_insert_takes_lowest_free(b: BlockBuffer, j: u32)
    requires
        b.wf(),
        b.free().contains(j),
    ensures
        b.free().len() > 0,
        b.free()[0] <= j,
{
    let k = choose|k: int| 0 <= k < b.free().len() && b.free()[k] == j;
    if k > 0 {
        assert(b.free()[0] < b.free()[k]);
    }
}

/// A block that is freed while every other free block lies above it is the block the next
/// insert takes: after `remove(index)` the first free block is `index`.
pub proof fn law_insert_reuses_removed(before: BlockBuffer, removed: BlockBuffer, index: u32)
    requires
        before.wf(),
        removed.wf(),
        before.occupied().contains(index),
        removed.free().to_set() == before.free().to_set().insert(index),
        forall|j: u32| #[trigger] before.free().contains(j) ==> index < j,
    ensures
        removed.free().len() > 0,
        removed.free()[0] == index,
{
    assert(removed.free().to_set().contains(index));
    law_insert_takes_lowest_free(removed, index);
    let f = removed.free()[0];
    assert(removed.free().contains(f));
    assert(removed.free().to_set().contains(f));
    if f != index {
        assert(before.free().to_set().contains(f));
        assert(before.free().contains(f));
    }
}

/// After a compaction no block is free below an occupied one, and that packs the occupied
/// blocks at the front: block `i` is the `i`-th occupied block, for every `i` below their
/// number, so the occupied blocks are exactly `0..n`.
pub proof fn law_compacted_blocks_are_packed(b: BlockBuffer)
    requires
        b.wf(),
        forall|a: u32, c: u32|
            #![trigger b.occupied().contains(a), b.free().contains(c)]
            b.occupied().contains(a) && b.free().contains(c) ==> a < c,
    ensures
        forall|i: int| 0 <= i < b.occupied().len() ==> #[trigger] b.occupied()[i] == i,
        b.occupied().to_set() == index_set(b.occupied().len() as int),
{
    assert forall|i: int| 0 <= i < b.occupied().len() implies #[trigger] b.occupied()[i] == i by {
        lemma_packed_upto(b, i);
    }
    assert forall|x: u32| #[trigger] b.occupied().to_set().contains(x) == index_set(b.occupied().len() as int).contains(
        x,
    ) by {
        if x < b.occupied().len() {
            assert(b.occupied()[x as int] == x);
        }
        if b.occupied().to_set().contains(x) {
            let j = choose|j: int| 0 <= j < b.occupied().len() && b.occupied()[j] == x;
            assert(b.occupied()[j] == j);
        }
    }
    assert(b.occupied().to_set() =~= index_set(b.occupied().len() as int));
}

proof fn lemma_packed_upto(b: BlockBuffer, i: int)
    requires
        b.wf(),
        forall|a: u32, c: u32|
            #![trigger b.occupied().contains(a), b.free().contains(c)]
            b.occupied().contains(a) && b.free().contains(c) ==> a < c,
        0 <= i < b.occupied().len(),
    ensures
        b.occupied()[i] == i,
    decreases i,
{
    let occ = b.occupied();
    if i > 0 {
        lemma_packed_upto(b, i - 1);
        assert(occ[i - 1] < occ[i]);
    }
    if occ[i] > i {
        let x = i as u32;
        assert(occ.contains(occ[i]));
        assert(x < b.capacity());
        assert(occ.contains(x) || b.free().contains(x));
        if occ.contains(x) {
            let j = choose|j: int| 0 <= j < occ.len() && occ[j] == x;
            if j < i {
                lemma_packed_upto(b, j);
            } else if j > i {
                assert(occ[i] < occ[j]);
            }
        } else {
            assert(b.free().contains(x));
            assert(occ.contains(occ[i]));
        }
    }
}

} // verus!
