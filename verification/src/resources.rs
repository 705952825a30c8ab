use vstd::prelude::*;

use crate::cleanup::counts;

verus! {

/// A reference counter that starts at one.
#[derive(Debug)]
pub struct RefCount {
    count: usize,
}

impl RefCount {
    /// The current count.
    pub closed spec fn value(&self) -> usize {
        self.count
    }

    /// Creates a counter holding a single reference.
    pub fn new() -> (r: Self)
        ensures
            r.value() == 1,
    {
        RefCount { count: 1 }
    }

    /// Adds one reference.
    pub fn increment(&mut self)
        requires
            old(self).value() < usize::MAX,
        ensures
            final(self).value() == old(self).value() + 1,
    {
        self.count = self.count + 1;
    }

    /// Drops one reference and returns whether it was the last one.
    pub fn decrement(&mut self) -> (last: bool)
        ensures
            last == (old(self).value() == 1),
            final(self).value() == if old(self).value() >= 1 {
                old(self).value() - 1
            } else {
                usize::MAX as int
            },
    {
        self.decrement_many(1)
    }

    /// Drops `count` references at once and returns whether they were the last ones.
    ///
    /// The counter wraps around when more references are dropped than it holds.
    pub fn decrement_many(&mut self, count: usize) -> (last: bool)
        ensures
            last == (old(self).value() == count),
            final(self).value() == if old(self).value() >= count {
                old(self).value() - count
            } else {
                old(self).value() - count + usize::MAX + 1
            },
    {
        let previous = self.count;
        self.count = self.count.wrapping_sub(count);
        previous == count
    }
}


/// Taking a reference and dropping it again leaves the count as it was, and the dropped
/// reference was not the last one.
pub proof fn law_decrement_undoes_increment(before: usize, after_increment: usize, after_decrement: usize, last: bool)
    requires
        before >= 1,
        before < usize::MAX,
        after_increment == before + 1,
        last == (after_increment == 1),
        after_decrement == if after_increment >= 1 {
            after_increment - 1
        } else {
            usize::MAX as int
        },
    ensures
        after_decrement == before,
        !last,
{
}

/// The counts with one more reference to the live entry `id`.
pub open spec fn with_ref(c: Seq<Option<usize>>, id: usize) -> Seq<Option<usize>> {
    c.update(id as int, Some((c[id as int]->Some_0 + 1) as usize))
}

/// The entry `id` is live and can take `n` more references.
pub open spec fn can_take_refs(c: Seq<Option<usize>>, id: usize, n: int) -> bool {
    &&& id < c.len()
    &&& c[id as int] is Some
    &&& c[id as int]->Some_0 + n <= usize::MAX
}

/// Adds one reference to the live entry `id` of a table of counts.
pub fn take_ref(t: &mut Vec<Option<RefCount>>, id: usize)
    requires
        can_take_refs(counts(old(t)@), id, 1),
    ensures
        counts(final(t)@) == with_ref(counts(old(t)@), id),
{
    let mut slot: Option<RefCount> = None;
    std::mem::swap(&mut slot, &mut t[id]);
    match slot {
        Some(mut rc) => {
            rc.increment();
            t.set(id, Some(rc));
            proof {
                assert(counts(t@) =~= with_ref(counts(old(t)@), id));
            }
        },
        None => {},
    }
}

} // verus!
