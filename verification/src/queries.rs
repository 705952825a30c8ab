use vstd::prelude::*;

use std::collections::BTreeMap;

verus! {

broadcast use {vstd::std_specs::btree::group_btree_axioms, vstd::laws_cmp::group_laws_cmp};

/// What a timestamp query measures.
#[derive(Copy, Clone, Debug)]
pub enum QueryObject {
    BeginCommands,
    EndCommands,
    BeginPass(&'static str),
    EndPass(&'static str),
}

/// Query pools that are not in use, by the number of queries each holds.
#[derive(Debug)]
pub struct QueryPoolSet<P> {
    pools: BTreeMap<u32, P>,
}

impl<P> QueryPoolSet<P> {
    /// The idle pools by size.
    pub closed spec fn view(&self) -> Map<u32, P> {
        self.pools@
    }

    /// Creates a set without pools.
    pub fn new() -> (r: Self)
        ensures
            r@ == Map::<u32, P>::empty(),
    {
        Self { pools: BTreeMap::new() }
    }

    /// The smallest size of an idle pool that holds at least `count` queries.
    fn smallest_fit(&self, count: u32) -> (r: Option<u32>)
        ensures
            match r {
                Some(s) => self@.contains_key(s) && count <= s && forall|k: u32|
                    #[trigger] self@.contains_key(k) && count <= k ==> s <= k,
                None => forall|k: u32| #[trigger] self@.contains_key(k) ==> k < count,
            },
    {
        let mut best: Option<u32> = None;
        for k in it: self.pools.keys()
            invariant
                it.seq().unref().to_set() == self@.dom(),
                match best {
                    Some(s) => self@.contains_key(s) && count <= s && forall|t: int|
                        0 <= t < it.index() && count <= *it.seq()[t] ==> s <= *it.seq()[t],
                    None => forall|t: int| 0 <= t < it.index() ==> *it.seq()[t] < count,
                },
        {
            let size = *k;
            if count <= size {
                match best {
                    Some(s) => {
                        if size < s {
                            best = Some(size);
                        }
                    },
                    None => {
                        best = Some(size);
                    },
                }
            }
        }
        best
    }

    /// Takes out the smallest idle pool that holds at least `count` queries, with its size.
    pub fn take(&mut self, count: u32) -> (r: Option<(u32, P)>)
        ensures
            match r {
                Some((s, pool)) => {
                    &&& old(self)@.contains_key(s)
                    &&& count <= s
                    &&& forall|k: u32| #[trigger] old(self)@.contains_key(k) && count <= k ==> s <= k
                    &&& pool == old(self)@[s]
                    &&& final(self)@ == old(self)@.remove(s)
                },
                None => {
                    &&& forall|k: u32| #[trigger] old(self)@.contains_key(k) ==> k < count
                    &&& final(self)@ == old(self)@
                },
            },
    {
        match self.smallest_fit(count) {
            Some(s) => {
                match self.pools.remove(&s) {
                    Some(pool) => Some((s, pool)),
                    None => None,
                }
            },
            None => None,
        }
    }

    /// Returns a pool of `size` queries to the set; it replaces an idle pool of that size.
    pub fn release(&mut self, size: u32, pool: P)
        ensures
            final(self)@ == old(self)@.insert(size, pool),
    {
        self.pools.insert(size, pool);
    }
}

/// A query pool in use: the queries handed out so far and what each measures.
#[derive(Debug)]
pub struct ManagedQueryPool<P> {
    pool: P,
    size: u32,
    next_index: u32,
    objects: Vec<QueryObject>,
}

impl<P> ManagedQueryPool<P> {
    /// The pool.
    pub closed spec fn inner(&self) -> P {
        self.pool
    }

    /// What each query handed out measures, in order.
    pub closed spec fn recorded(&self) -> Seq<QueryObject> {
        self.objects@
    }

    /// The number of queries the pool holds.
    pub closed spec fn capacity(&self) -> u32 {
        self.size
    }

    /// The number of queries handed out.
    pub closed spec fn used(&self) -> u32 {
        self.next_index
    }

    /// Wraps a reset pool of `size` queries.
    pub fn new(pool: P, size: u32) -> (r: Self)
        ensures
            r.inner() == pool,
            r.capacity() == size,
            r.used() == 0,
            r.recorded().len() == 0,
    {
        Self { pool, size, next_index: 0, objects: Vec::new() }
    }

    /// The pool.
    pub fn pool(&self) -> (r: &P)
        ensures
            *r == self.inner(),
    {
        &self.pool
    }

    /// What each query handed out measures, in order.
    pub fn objects(&self) -> (r: &[QueryObject])
        ensures
            r@ == self.recorded(),
    {
        self.objects.as_slice()
    }

    /// The number of queries the pool holds.
    pub fn size(&self) -> (r: u32)
        ensures
            r == self.capacity(),
    {
        self.size
    }

    /// The number of queries handed out.
    pub fn len(&self) -> (r: u32)
        ensures
            r == self.used(),
    {
        self.next_index
    }

    /// Hands out the next query, which measures `object`.
    pub fn next_index(&mut self, object: QueryObject) -> (index: u32)
        requires
            old(self).used() < old(self).capacity(),
        ensures
            index == old(self).used(),
            final(self).used() == old(self).used() + 1,
            final(self).capacity() == old(self).capacity(),
            final(self).recorded() == old(self).recorded().push(object),
            final(self).inner() == old(self).inner(),
    {
        let index = self.next_index;
        self.objects.push(object);
        self.next_index = self.next_index + 1;
        index
    }

    /// Gives back the pool and its size.
    pub fn into_pool(self) -> (r: (P, u32))
        ensures
            r == (self.inner(), self.capacity()),
    {
        (self.pool, self.size)
    }
}

} // verus!

