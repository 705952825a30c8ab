use vstd::prelude::*;

use crate::access::AccessFlags;
use crate::accesses::{Resource, ResourceId};

verus! {

/// A resource id that can be compared in executable code.
pub trait ResourceKey: Copy + Sized {
    /// Returns `true` if both ids name the same resource.
    fn same(&self, other: &Self) -> (r: bool)
        ensures
            r == (*self == *other),
    ;
}

impl ResourceKey for u64 {
    fn same(&self, other: &Self) -> (r: bool) {
        *self == *other
    }
}

impl ResourceKey for ResourceId {
    fn same(&self, other: &Self) -> (r: bool) {
        *self == *other
    }
}

/// The access recorded for `id`, searching from the back.
pub open spec fn find<Id>(s: Seq<Resource<Id>>, id: Id) -> Option<AccessFlags>
    decreases s.len(),
{
    if s.len() == 0 {
        None
    } else if s.last().id == id {
        Some(s.last().access)
    } else {
        find(s.drop_last(), id)
    }
}

/// No two entries name the same resource.
pub open spec fn distinct_ids<Id>(s: Seq<Resource<Id>>) -> bool {
    forall|i: int, j: int| 0 <= i < j < s.len() ==> s[i].id != s[j].id
}

proof fn lemma_find_at<Id>(s: Seq<Resource<Id>>, i: int)
    requires
        distinct_ids(s),
        0 <= i < s.len(),
    ensures
        find(s, s[i].id) == Some(s[i].access),
    decreases s.len(),
{
    if i != s.len() - 1 {
        assert(s.last().id != s[i].id);
        assert(s.drop_last()[i] == s[i]);
        lemma_find_at(s.drop_last(), i);
    }
}

proof fn lemma_find_absent<Id>(s: Seq<Resource<Id>>, id: Id)
    requires
        forall|i: int| 0 <= i < s.len() ==> s[i].id != id,
    ensures
        find(s, id) == None::<AccessFlags>,
    decreases s.len(),
{
    if s.len() > 0 {
        lemma_find_absent(s.drop_last(), id);
    }
}

proof fn lemma_find_some<Id>(s: Seq<Resource<Id>>, id: Id)
    requires
        find(s, id) is Some,
    ensures
        exists|i: int| 0 <= i < s.len() && s[i].id == id,
    decreases s.len(),
{
    if s.last().id == id {
        assert(s[s.len() - 1].id == id);
    } else {
        lemma_find_some(s.drop_last(), id);
        let i = choose|i: int| 0 <= i < s.len() - 1 && s.drop_last()[i].id == id;
        assert(s[i].id == id);
    }
}

proof fn lemma_find_update<Id>(s: Seq<Resource<Id>>, i: int, v: Resource<Id>, x: Id)
    requires
        distinct_ids(s),
        0 <= i < s.len(),
        v.id == s[i].id,
    ensures
        find(s.update(i, v), x) == if x == v.id {
            Some(v.access)
        } else {
            find(s, x)
        },
    decreases s.len(),
{
    let t = s.update(i, v);
    if i == s.len() - 1 {
        assert(t.drop_last() =~= s.drop_last());
    } else {
        assert(t.drop_last() =~= s.drop_last().update(i, v));
        assert(s.drop_last()[i] == s[i]);
        assert(distinct_ids(s.drop_last()));
        lemma_find_update(s.drop_last(), i, v, x);
        if x == v.id {
            assert(s.last().id != s[i].id);
        }
    }
}

/// The current access of each resource.
#[derive(Clone, Debug)]
pub struct AccessTable<Id> {
    entries: Vec<Resource<Id>>,
}

impl<Id: ResourceKey> AccessTable<Id> {
    /// The current access of each known resource.
    pub closed spec fn view(&self) -> Map<Id, AccessFlags> {
        Map::new(|id: Id| find(self.entries@, id) is Some, |id: Id| find(self.entries@, id)->Some_0)
    }

    /// Every resource appears once.
    pub closed spec fn wf(&self) -> bool {
        distinct_ids(self.entries@)
    }

    /// Creates a table without resources.
    pub fn new() -> (r: Self)
        ensures
            r.wf(),
            r@ == Map::<Id, AccessFlags>::empty(),
    {
        let r = Self { entries: Vec::new() };
        proof {
            assert(r@ =~= Map::<Id, AccessFlags>::empty());
        }
        r
    }

    /// Returns the position of `id`, if known.
    fn position(&self, id: Id) -> (r: Option<usize>)
        requires
            self.wf(),
        ensures
            match r {
                Some(i) => i < self.entries@.len() && self.entries@[i as int].id == id,
                None => !self@.dom().contains(id),
            },
    {
        let mut i: usize = 0;
        while i < self.entries.len()
            invariant
                i <= self.entries@.len(),
                forall|k: int| 0 <= k < i ==> self.entries@[k].id != id,
            decreases self.entries@.len() - i,
        {
            if self.entries[i].id.same(&id) {
                return Some(i);
            }
            i = i + 1;
        }
        proof {
            lemma_find_absent(self.entries@, id);
        }
        None
    }

    /// Records `access` as the current access of `id`, adding `id` if it is new.
    pub fn set_access(&mut self, id: Id, access: AccessFlags)
        requires
            old(self).wf(),
        ensures
            final(self).wf(),
            final(self)@ == old(self)@.insert(id, access),
    {
        let ghost s = self.entries@;
        match self.position(id) {
            Some(i) => {
                let entry = Resource { id, access };
                self.entries.set(i, entry);
                proof {
                    assert forall|x: Id| #[trigger] find(self.entries@, x) == if x == id {
                        Some(access)
                    } else {
                        find(s, x)
                    } by {
                        lemma_find_update(s, i as int, entry, x);
                    }
                    assert forall|a: int, b: int| 0 <= a < b < self.entries@.len() implies self.entries@[a].id
                        != self.entries@[b].id by {
                        assert(s[a].id != s[b].id);
                    }
                    assert(self@ =~= old(self)@.insert(id, access));
                }
            },
            None => {
                proof {
                    assert forall|k: int| 0 <= k < s.len() implies s[k].id != id by {
                        if s[k].id == id {
                            lemma_find_at(s, k);
                        }
                    }
                }
                self.entries.push(Resource { id, access });
                proof {
                    assert(self.entries@.drop_last() =~= s);
                    assert forall|a: int, b: int| 0 <= a < b < self.entries@.len() implies self.entries@[a].id
                        != self.entries@[b].id by {
                        if b < s.len() {
                            assert(s[a].id != s[b].id);
                        }
                    }
                    assert(self@ =~= old(self)@.insert(id, access));
                }
            },
        }
    }

    /// The current access of `id`, which must be known.
    pub fn access(&self, id: Id) -> (r: AccessFlags)
        requires
            self.wf(),
            self@.dom().contains(id),
        ensures
            r == self@[id],
    {
        match self.position(id) {
            Some(i) => {
                proof {
                    lemma_find_at(self.entries@, i as int);
                }
                self.entries[i].access
            },
            None => {
                proof {
                    assert(false);
                }
                AccessFlags::empty()
            },
        }
    }
}

} // verus!
