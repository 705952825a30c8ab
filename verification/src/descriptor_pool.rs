use vstd::prelude::*;

use crate::backend::{DescriptorBinding, DescriptorPoolDescriptor, DescriptorType};

use crate::memory::vacant_ok;

verus! {

/// The number of sets of the first pool of a bucket.
pub const MIN_POOL_SIZE: u32 = 1;

/// The largest number of sets of a pool.
pub const MAX_POOL_SIZE: u32 = 32;

/// The factor by which each new pool of a bucket is larger than the one before.
pub const GROWTH_FACTOR: u32 = 2;

/// The number of descriptors of each kind that a set of a layout holds; sets with equal
/// counts share pools.
#[derive(Copy, Clone, Debug, Default, PartialEq, Eq, Structural, Hash)]
pub struct DescriptorSetResourceCount {
    pub uniform_buffers: u32,
    pub storage_buffers: u32,
    pub samplers: u32,
    pub sampled_textures: u32,
}

/// The sum of the descriptor counts of the bindings of kind `k`.
pub open spec fn kind_total(bindings: Seq<DescriptorBinding>, k: DescriptorType) -> int
    decreases bindings.len(),
{
    if bindings.len() == 0 {
        0
    } else {
        kind_total(bindings.drop_last(), k) + if bindings.last().kind == k {
            bindings.last().count as int
        } else {
            0
        }
    }
}

/// Each kind's total fits in `u32`.
pub open spec fn totals_fit(bindings: Seq<DescriptorBinding>) -> bool {
    &&& kind_total(bindings, DescriptorType::Uniform) <= u32::MAX
    &&& kind_total(bindings, DescriptorType::Storage) <= u32::MAX
    &&& kind_total(bindings, DescriptorType::Sampler) <= u32::MAX
    &&& kind_total(bindings, DescriptorType::Texture) <= u32::MAX
}

proof fn lemma_kind_total_prefix(bindings: Seq<DescriptorBinding>, k: DescriptorType, i: int)
    requires
        0 <= i <= bindings.len(),
    ensures
        kind_total(bindings.take(i), k) <= kind_total(bindings, k),
    decreases bindings.len() - i,
{
    if i < bindings.len() {
        lemma_kind_total_prefix(bindings, k, i + 1);
        assert(bindings.take(i + 1).drop_last() =~= bindings.take(i));
    } else {
        assert(bindings.take(i) =~= bindings);
    }
}

/// Counts the descriptors of each kind in the bindings of a layout.
pub fn resource_count(bindings: &[DescriptorBinding]) -> (r: DescriptorSetResourceCount)
    requires
        totals_fit(bindings@),
    ensures
        r.uniform_buffers == kind_total(bindings@, DescriptorType::Uniform),
        r.storage_buffers == kind_total(bindings@, DescriptorType::Storage),
        r.samplers == kind_total(bindings@, DescriptorType::Sampler),
        r.sampled_textures == kind_total(bindings@, DescriptorType::Texture),
{
    let mut r = DescriptorSetResourceCount { uniform_buffers: 0, storage_buffers: 0, samplers: 0, sampled_textures: 0 };
    let mut i: usize = 0;
    while i < bindings.len()
        invariant
            i <= bindings@.len(),
            totals_fit(bindings@),
            r.uniform_buffers == kind_total(bindings@.take(i as int), DescriptorType::Uniform),
            r.storage_buffers == kind_total(bindings@.take(i as int), DescriptorType::Storage),
            r.samplers == kind_total(bindings@.take(i as int), DescriptorType::Sampler),
            r.sampled_textures == kind_total(bindings@.take(i as int), DescriptorType::Texture),
        decreases bindings@.len() - i,
    {
        proof {
            assert(bindings@.take(i + 1).drop_last() =~= bindings@.take(i as int));
            assert(bindings@.take(i + 1).last() == bindings@[i as int]);
            lemma_kind_total_prefix(bindings@, DescriptorType::Uniform, i + 1);
            lemma_kind_total_prefix(bindings@, DescriptorType::Storage, i + 1);
            lemma_kind_total_prefix(bindings@, DescriptorType::Sampler, i + 1);
            lemma_kind_total_prefix(bindings@, DescriptorType::Texture, i + 1);
        }
        let b = bindings[i];
        match b.kind {
            DescriptorType::Uniform => {
                r.uniform_buffers = r.uniform_buffers + b.count;
            },
            DescriptorType::Storage => {
                r.storage_buffers = r.storage_buffers + b.count;
            },
            DescriptorType::Sampler => {
                r.samplers = r.samplers + b.count;
            },
            DescriptorType::Texture => {
                r.sampled_textures = r.sampled_textures + b.count;
            },
        }
        i = i + 1;
    }
    proof {
        assert(bindings@.take(i as int) =~= bindings@);
    }
    r
}

/// The limits of a pool of `sets` sets of `count` descriptors each.
pub fn pool_descriptor(count: DescriptorSetResourceCount, sets: u32) -> (r: DescriptorPoolDescriptor)
    requires
        sets >= 1,
        count.uniform_buffers * sets <= u32::MAX,
        count.storage_buffers * sets <= u32::MAX,
        count.samplers * sets <= u32::MAX,
        count.sampled_textures * sets <= u32::MAX,
    ensures
        r.max_sets == sets,
        r.max_uniform_buffers == count.uniform_buffers * sets,
        r.max_storage_buffers == count.storage_buffers * sets,
        r.max_samplers == count.samplers * sets,
        r.max_sampled_images == count.sampled_textures * sets,
{
    DescriptorPoolDescriptor {
        max_sets: sets,
        max_uniform_buffers: count.uniform_buffers * sets,
        max_storage_buffers: count.storage_buffers * sets,
        max_samplers: count.samplers * sets,
        max_sampled_images: count.sampled_textures * sets,
    }
}

/// A descriptor pool of a bucket, with the number of sets it can still give and has given.
#[derive(Debug)]
pub struct PoolSlot<P> {
    pub pool: P,
    pub free: u32,
    pub allocated: u32,
}

/// The pools that serve sets of one resource count. Pools are used in order of their slots;
/// each new pool is `GROWTH_FACTOR` times larger than the last, up to `MAX_POOL_SIZE` sets.
/// A pool is dropped once it is full and all its sets were given back.
#[derive(Debug)]
pub struct DescriptorPoolBucket<P> {
    pools: Vec<Option<PoolSlot<P>>>,
    /// The vacant slots, the most recently vacated last; a new pool takes the last one.
    vacant: Vec<usize>,
    next_pool_size: u32,
}

impl<P> DescriptorPoolBucket<P> {
    /// The pool slots, `None` where a pool was dropped.
    pub closed spec fn slots(&self) -> Seq<Option<PoolSlot<P>>> {
        self.pools@
    }

    /// The number of sets of the next new pool.
    pub closed spec fn next_size(&self) -> u32 {
        self.next_pool_size
    }

    /// The vacant slots in the order they were vacated.
    pub closed spec fn vacant(&self) -> Seq<usize> {
        self.vacant@
    }

    /// The next new pool will have at least one set, and the vacant slots are exactly the
    /// slots without a pool, each listed once.
    pub closed spec fn wf(&self) -> bool {
        &&& MIN_POOL_SIZE <= self.next_pool_size <= MAX_POOL_SIZE
        &&& vacant_ok(self.pools@, self.vacant@)
    }

    /// Creates a bucket without pools.
    pub fn new() -> (r: Self)
        ensures
            r.wf(),
            r.slots().len() == 0,
            r.vacant().len() == 0,
            r.next_size() == MIN_POOL_SIZE,
    {
        Self { pools: Vec::new(), vacant: Vec::new(), next_pool_size: MIN_POOL_SIZE }
    }

    /// The first slot at or after `from` whose pool can still give a set.
    pub fn free_pool_from(&self, from: usize) -> (r: Option<usize>)
        ensures
            match r {
                Some(k) => {
                    &&& from <= k < self.slots().len()
                    &&& self.slots()[k as int] matches Some(s) && s.free > 0
                    &&& forall|j: int| from <= j < k ==> !(#[trigger] self.slots()[j] matches Some(s) && s.free > 0)
                },
                None => forall|j: int|
                    from <= j < self.slots().len() ==> !(#[trigger] self.slots()[j] matches Some(s) && s.free > 0),
            },
    {
        let mut k = from;
        while k < self.pools.len()
            invariant
                from <= k,
                forall|j: int| from <= j < k ==> !(#[trigger] self.pools@[j] matches Some(s) && s.free > 0),
            decreases self.pools@.len() - k,
        {
            match &self.pools[k] {
                Some(s) => {
                    if s.free > 0 {
                        return Some(k);
                    }
                },
                None => {},
            }
            k = k + 1;
        }
        None
    }

    /// The pool in slot `k`.
    pub fn pool(&self, k: usize) -> (r: &P)
        requires
            k < self.slots().len(),
            self.slots()[k as int] is Some,
        ensures
            *r == self.slots()[k as int]->Some_0.pool,
    {
        &self.pools[k].as_ref().unwrap().pool
    }

    /// Records that the pool in slot `k`, which could still give a set, gave one.
    pub fn note_allocated(&mut self, k: usize)
        requires
            k < old(self).slots().len(),
            old(self).slots()[k as int] matches Some(s) && s.free > 0 && s.allocated < u32::MAX,
        ensures
            final(self).wf() == old(self).wf(),
            final(self).vacant() == old(self).vacant(),
            final(self).next_size() == old(self).next_size(),
            final(self).slots().len() == old(self).slots().len(),
            forall|j: int| 0 <= j < old(self).slots().len() && j != k ==> #[trigger] final(self).slots()[j] == old(self).slots()[j],
            final(self).slots()[k as int] matches Some(s) && {
                let o = old(self).slots()[k as int]->Some_0;
                &&& s.pool == o.pool
                &&& s.free == o.free - 1
                &&& s.allocated == o.allocated + 1
            },
    {
        let mut slot: Option<PoolSlot<P>> = None;
        std::mem::swap(&mut slot, &mut self.pools[k]);
        match slot {
            Some(mut s) => {
                s.free = s.free - 1;
                s.allocated = s.allocated + 1;
                let mut put = Some(s);
                std::mem::swap(&mut put, &mut self.pools[k]);
                proof {
                    assert(forall|j: int| 0 <= j < self.pools@.len() ==> (#[trigger] self.pools@[j] is None) == (old(self).pools@[j] is None));
                }
            },
            None => {
                let mut put: Option<PoolSlot<P>> = None;
                std::mem::swap(&mut put, &mut self.pools[k]);
            },
        }
    }

    /// Returns the number of sets of a new pool and plans the next: `GROWTH_FACTOR` times
    /// as many, at most `MAX_POOL_SIZE`.
    pub fn take_pool_size(&mut self) -> (size: u32)
        requires
            old(self).wf(),
        ensures
            final(self).wf(),
            size == old(self).next_size(),
            final(self).next_size() == if old(self).next_size() * GROWTH_FACTOR <= MAX_POOL_SIZE {
                old(self).next_size() * GROWTH_FACTOR
            } else {
                MAX_POOL_SIZE as int
            },
            final(self).slots() == old(self).slots(),
    {
        let size = self.next_pool_size;
        let grown = size * GROWTH_FACTOR;
        self.next_pool_size = if grown <= MAX_POOL_SIZE {
            grown
        } else {
            MAX_POOL_SIZE
        };
        size
    }

    /// Adds a pool of `size` sets from which one set was just taken and returns its slot:
    /// the most recently vacated slot if there is one, or else a new slot at the end.
    pub fn add_pool(&mut self, pool: P, size: u32) -> (k: usize)
        requires
            old(self).wf(),
            size >= 1,
        ensures
            final(self).wf(),
            k == if old(self).vacant().len() > 0 {
                old(self).vacant().last() as int
            } else {
                old(self).slots().len() as int
            },
            final(self).vacant() == if old(self).vacant().len() > 0 {
                old(self).vacant().drop_last()
            } else {
                old(self).vacant()
            },
            final(self).slots() == if old(self).vacant().len() > 0 {
                old(self).slots().update(k as int, Some(PoolSlot { pool, free: (size - 1) as u32, allocated: 1 }))
            } else {
                old(self).slots().push(Some(PoolSlot { pool, free: (size - 1) as u32, allocated: 1 }))
            },
            final(self).next_size() == old(self).next_size(),
    {
        let ghost before = self.pools@;
        let ghost vac = self.vacant@;
        let slot = Some(PoolSlot { pool, free: size - 1, allocated: 1 });
        match self.vacant.pop() {
            Some(k) => {
                proof {
                    assert(vac[vac.len() - 1] == k);
                    assert(self.vacant@ =~= vac.drop_last());
                }
                self.pools.set(k, slot);
                proof {
                    let pools = self.pools@;
                    let v = self.vacant@;
                    assert forall|j: int| 0 <= j < v.len() implies (#[trigger] v[j]) < pools.len() && pools[v[j] as int] is None by {
                        assert(v[j] == vac[j]);
                        assert(vac[j] != vac[vac.len() - 1]);
                    }
                    assert forall|i: int| 0 <= i < pools.len() && pools[i] is None implies #[trigger] v.contains(i as usize) by {
                        assert(i != k);
                        assert(before[i] is None);
                        assert(self.pools.len() == pools.len());
                        assert((i as usize) as int == i);
                        assert(vac.contains(i as usize));
                        let j = choose|j: int| 0 <= j < vac.len() && vac[j] == i as usize;
                        assert(j != vac.len() - 1);
                        assert(v[j] == i as usize);
                    }
                }
                k
            },
            None => {
                let k = self.pools.len();
                self.pools.push(slot);
                proof {
                    let pools = self.pools@;
                    assert forall|i: int| 0 <= i < pools.len() && pools[i] is None implies #[trigger] self.vacant@.contains(i as usize) by {
                        assert(i < before.len());
                        assert(pools[i] == before[i]);
                    }
                }
                k
            },
        }
    }

    /// Records that a set of the pool in slot `k` was given back; drops the pool, and
    /// returns it, once it is full and gave back all its sets.
    pub fn dealloc(&mut self, k: usize) -> (r: Option<P>)
        requires
            old(self).wf(),
            k < old(self).slots().len(),
            old(self).slots()[k as int] matches Some(s) && s.allocated > 0,
        ensures
            final(self).wf(),
            final(self).vacant() == if r is Some {
                old(self).vacant().push(k)
            } else {
                old(self).vacant()
            },
            final(self).next_size() == old(self).next_size(),
            final(self).slots().len() == old(self).slots().len(),
            forall|j: int| 0 <= j < old(self).slots().len() && j != k ==> #[trigger] final(self).slots()[j] == old(self).slots()[j],
            ({
                let o = old(self).slots()[k as int]->Some_0;
                if o.free == 0 && o.allocated == 1 {
                    &&& r == Some(o.pool)
                    &&& final(self).slots()[k as int] is None
                } else {
                    &&& r is None
                    &&& final(self).slots()[k as int] matches Some(s) && s.pool == o.pool && s.free == o.free
                        && s.allocated == o.allocated - 1
                }
            }),
    {
        let mut slot: Option<PoolSlot<P>> = None;
        std::mem::swap(&mut slot, &mut self.pools[k]);
        match slot {
            Some(mut s) => {
                s.allocated = s.allocated - 1;
                if s.free == 0 && s.allocated == 0 {
                    let ghost vac = self.vacant@;
                    self.vacant.push(k);
                    proof {
                        let pools = self.pools@;
                        let v = self.vacant@;
                        let before = old(self).pools@;
                        assert(!vac.contains(k)) by {
                            if vac.contains(k) {
                                let j = choose|j: int| 0 <= j < vac.len() && vac[j] == k;
                                assert(before[vac[j] as int] is None);
                            }
                        }
                        assert forall|j: int| 0 <= j < v.len() implies (#[trigger] v[j]) < pools.len() && pools[v[j] as int] is None by {
                            if j < vac.len() {
                                assert(v[j] == vac[j]);
                                assert(vac[j] != k);
                            }
                        }
                        assert forall|i: int| 0 <= i < pools.len() && pools[i] is None implies #[trigger] v.contains(i as usize) by {
                            if i == k {
                                assert(v[v.len() - 1] == k);
                            } else {
                                assert(before[i] is None);
                                assert(vac.contains(i as usize));
                                let j = choose|j: int| 0 <= j < vac.len() && vac[j] == i as usize;
                                assert(v[j] == i as usize);
                            }
                        }
                        assert forall|j: int, l: int| 0 <= j < l < v.len() implies v[j] != v[l] by {
                            if l == vac.len() {
                                assert(v[j] == vac[j]);
                                assert(vac.contains(vac[j]));
                            } else {
                                assert(v[j] == vac[j] && v[l] == vac[l]);
                            }
                        }
                    }
                    Some(s.pool)
                } else {
                    let mut put = Some(s);
                    std::mem::swap(&mut put, &mut self.pools[k]);
                    proof {
                        assert(forall|j: int| 0 <= j < self.pools@.len() ==> (#[trigger] self.pools@[j] is None) == (old(self).pools@[j] is None));
                    }
                    None
                }
            },
            None => {
                let mut put: Option<PoolSlot<P>> = None;
                std::mem::swap(&mut put, &mut self.pools[k]);
                None
            },
        }
    }
}

} // verus!
