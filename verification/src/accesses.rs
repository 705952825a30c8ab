use vstd::prelude::*;

use crate::access::AccessFlags;

verus! {

/// Index of a buffer in the resource tables.
pub type BufferId = usize;

/// Index of a texture in the resource tables.
pub type TextureId = usize;

/// Index of a pipeline in the resource tables.
pub type PipelineId = usize;

/// Index of a descriptor set in the resource tables.
pub type DescriptorSetId = usize;

/// Index of a sampler in the resource tables.
pub type SamplerId = usize;

/// One mip level of a texture.
#[derive(Copy, Clone, Debug, PartialEq, Eq, Structural, Hash)]
pub struct TextureMip {
    pub id: TextureId,
    pub mip_level: u32,
}

/// A resource whose accesses are tracked: a whole buffer, or one mip level of a texture.
#[derive(Copy, Clone, Debug, PartialEq, Eq, Structural, Hash)]
pub enum ResourceId {
    Buffer(BufferId),
    Texture(TextureMip),
}

/// A resource together with the access a command needs on it.
#[derive(Copy, Clone, Debug, PartialEq, Eq)]
pub struct Resource<T> {
    pub id: T,
    pub access: AccessFlags,
}

/// An access event: a resource and the flags it gains.
pub type AccessEvent = (ResourceId, u32);

/// No two entries name the same resource.
pub open spec fn unique_ids(s: Seq<Resource<ResourceId>>) -> bool {
    forall|i: int, j: int| 0 <= i < j < s.len() ==> s[i].id != s[j].id
}

/// The flags recorded for `id`, searching from the back.
pub open spec fn lookup(s: Seq<Resource<ResourceId>>, id: ResourceId) -> Option<u32>
    decreases s.len(),
{
    if s.len() == 0 {
        None
    } else if s.last().id == id {
        Some(s.last().access.value())
    } else {
        lookup(s.drop_last(), id)
    }
}

/// The union of the flags that the events give `id`, or `None` if no event names it.
pub open spec fn combined(ev: Seq<AccessEvent>, id: ResourceId) -> Option<u32>
    decreases ev.len(),
{
    if ev.len() == 0 {
        None
    } else {
        let prev = combined(ev.drop_last(), id);
        if ev.last().0 == id {
            Some(
                match prev {
                    Some(p) => p | ev.last().1,
                    None => ev.last().1,
                },
            )
        } else {
            prev
        }
    }
}

/// `acc` lists each resource named by the events once, with the union of its flags.
pub open spec fn summarizes(acc: Seq<Resource<ResourceId>>, ev: Seq<AccessEvent>) -> bool {
    &&& unique_ids(acc)
    &&& forall|id: ResourceId| #[trigger] lookup(acc, id) == combined(ev, id)
}

/// An entry found at `i` is what the lookup returns.
proof fn lemma_lookup_at(s: Seq<Resource<ResourceId>>, i: int)
    requires
        unique_ids(s),
        0 <= i < s.len(),
    ensures
        lookup(s, s[i].id) == Some(s[i].access.value()),
    decreases s.len(),
{
    if i != s.len() - 1 {
        assert(s.last().id != s[i].id);
        assert(s.drop_last()[i] == s[i]);
        lemma_lookup_at(s.drop_last(), i);
    }
}

/// A resource that no entry names is not found.
proof fn lemma_lookup_absent(s: Seq<Resource<ResourceId>>, id: ResourceId)
    requires
        forall|i: int| 0 <= i < s.len() ==> s[i].id != id,
    ensures
        lookup(s, id) == None::<u32>,
    decreases s.len(),
{
    if s.len() > 0 {
        lemma_lookup_absent(s.drop_last(), id);
    }
}

/// Replacing the entry at `i` by one for the same resource changes only that resource.
proof fn lemma_lookup_update(s: Seq<Resource<ResourceId>>, i: int, v: Resource<ResourceId>, x: ResourceId)
    requires
        unique_ids(s),
        0 <= i < s.len(),
        v.id == s[i].id,
    ensures
        lookup(s.update(i, v), x) == if x == v.id {
            Some(v.access.value())
        } else {
            lookup(s, x)
        },
    decreases s.len(),
{
    let t = s.update(i, v);
    if i == s.len() - 1 {
        assert(t.drop_last() =~= s.drop_last());
        if x != v.id {
            assert(t.last().id == s.last().id);
        }
    } else {
        assert(t.drop_last() =~= s.drop_last().update(i, v));
        assert(t.last() == s.last());
        assert(s.drop_last()[i] == s[i]);
        assert(unique_ids(s.drop_last()));
        lemma_lookup_update(s.drop_last(), i, v, x);
        if x == v.id {
            assert(s.last().id != s[i].id);
        }
    }
}

/// Adds `flags` to the entry of `id`, creating it if needed.
pub fn or_into(acc: &mut Vec<Resource<ResourceId>>, id: ResourceId, flags: AccessFlags)
    requires
        unique_ids(old(acc)@),
    ensures
        unique_ids(final(acc)@),
        forall|x: ResourceId|
            #[trigger] lookup(final(acc)@, x) == if x == id {
                Some(
                    match lookup(old(acc)@, id) {
                        Some(p) => p | flags.value(),
                        None => flags.value(),
                    },
                )
            } else {
                lookup(old(acc)@, x)
            },
{
    let mut i: usize = 0;
    while i < acc.len()
        invariant
            i <= acc@.len(),
            acc@ == old(acc)@,
            unique_ids(acc@),
            forall|k: int| 0 <= k < i ==> acc@[k].id != id,
        decreases acc@.len() - i,
    {
        if acc[i].id == id {
            let ghost s = acc@;
            let entry = Resource { id, access: acc[i].access.union(flags) };
            proof {
                lemma_lookup_at(s, i as int);
            }
            acc.set(i, entry);
            proof {
                assert(acc@ == s.update(i as int, entry));
                assert forall|x: ResourceId| #[trigger] lookup(acc@, x) == if x == id {
                    Some(
                        match lookup(s, id) {
                            Some(p) => p | flags.value(),
                            None => flags.value(),
                        },
                    )
                } else {
                    lookup(s, x)
                } by {
                    lemma_lookup_update(s, i as int, entry, x);
                }
                assert forall|a: int, b: int| 0 <= a < b < acc@.len() implies acc@[a].id
                    != acc@[b].id by {
                    assert(s[a].id != s[b].id);
                }
            }
            return;
        }
        i = i + 1;
    }
    let ghost s = acc@;
    proof {
        lemma_lookup_absent(s, id);
    }
    acc.push(Resource { id, access: flags });
    proof {
        assert(acc@.drop_last() =~= s);
        assert forall|a: int, b: int| 0 <= a < b < acc@.len() implies acc@[a].id != acc@[b].id by {
            if b < s.len() {
                assert(s[a].id != s[b].id);
            }
        }
    }
}

/// Adding an event to the events is summarized by adding its flags to the summary.
proof fn lemma_summarizes_push(
    old_acc: Seq<Resource<ResourceId>>,
    acc: Seq<Resource<ResourceId>>,
    ev: Seq<AccessEvent>,
    e: AccessEvent,
)
    requires
        summarizes(old_acc, ev),
        unique_ids(acc),
        forall|x: ResourceId|
            #[trigger] lookup(acc, x) == if x == e.0 {
                Some(
                    match lookup(old_acc, e.0) {
                        Some(p) => p | e.1,
                        None => e.1,
                    },
                )
            } else {
                lookup(old_acc, x)
            },
    ensures
        summarizes(acc, ev.push(e)),
{
    assert(ev.push(e).drop_last() =~= ev);
    assert forall|x: ResourceId| #[trigger] lookup(acc, x) == combined(ev.push(e), x) by {
        assert(lookup(old_acc, x) == combined(ev, x));
    }
}

/// Records the event `(id, flags)` in the summary `acc` of `ev`.
pub fn record(
    acc: &mut Vec<Resource<ResourceId>>,
    id: ResourceId,
    flags: AccessFlags,
    Ghost(ev): Ghost<Seq<AccessEvent>>,
)
    requires
        summarizes(old(acc)@, ev),
    ensures
        summarizes(final(acc)@, ev.push((id, flags.value()))),
{
    let ghost s = acc@;
    or_into(acc, id, flags);
    proof {
        lemma_summarizes_push(s, acc@, ev, (id, flags.value()));
    }
}

} // verus!
