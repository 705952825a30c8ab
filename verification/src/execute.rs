use vstd::prelude::*;

use crate::access::AccessFlags;
use crate::accesses::{BufferId, ResourceId, TextureId, TextureMip};
use crate::commands::Command;
use crate::scheduler::{Barrier, Step};

verus! {

/// A barrier on a whole buffer.
#[derive(Copy, Clone, Debug, PartialEq, Eq, Structural)]
pub struct BufferBarrier {
    pub buffer: BufferId,
    pub src_access: AccessFlags,
    pub dst_access: AccessFlags,
}

/// A barrier on a run of consecutive mip levels of a texture.
#[derive(Copy, Clone, Debug, PartialEq, Eq, Structural)]
pub struct TextureBarrier {
    pub texture: TextureId,
    pub src_access: AccessFlags,
    pub dst_access: AccessFlags,
    pub base_mip_level: u32,
    pub mip_levels: u32,
}

/// The barriers as emitted: buffer barriers one by one; a texture barrier joins the last
/// texture barrier when it is on the same texture, with the same accesses, for the next mip
/// level, and starts a new one otherwise.
pub open spec fn batch(barriers: Seq<Barrier<ResourceId>>) -> (Seq<BufferBarrier>, Seq<TextureBarrier>)
    decreases barriers.len(),
{
    if barriers.len() == 0 {
        (Seq::empty(), Seq::empty())
    } else {
        let (bufs, texs) = batch(barriers.drop_last());
        let b = barriers.last();
        match b.resource {
            ResourceId::Buffer(id) => (
                bufs.push(BufferBarrier { buffer: id, src_access: b.src_access, dst_access: b.dst_access }),
                texs,
            ),
            ResourceId::Texture(t) => if texs.len() > 0 && texs.last().texture == t.id && texs.last().src_access
                == b.src_access && texs.last().dst_access == b.dst_access && texs.last().base_mip_level
                + texs.last().mip_levels == t.mip_level {
                (
                    bufs,
                    texs.update(
                        texs.len() - 1,
                        TextureBarrier { mip_levels: (texs.last().mip_levels + 1) as u32, ..texs.last() },
                    ),
                )
            } else {
                (
                    bufs,
                    texs.push(
                        TextureBarrier {
                            texture: t.id,
                            src_access: b.src_access,
                            dst_access: b.dst_access,
                            base_mip_level: t.mip_level,
                            mip_levels: 1,
                        },
                    ),
                )
            },
        }
    }
}

/// Each texture barrier's run of mip levels ends at or before the last level of the input.
proof fn lemma_batch_bounds(barriers: Seq<Barrier<ResourceId>>)
    requires
        forall|k: int| 0 <= k < barriers.len() ==> (#[trigger] barriers[k].resource matches ResourceId::Texture(t)
            ==> t.mip_level < u32::MAX),
    ensures
        forall|i: int| 0 <= i < batch(barriers).1.len() ==> #[trigger] batch(barriers).1[i].base_mip_level
            + batch(barriers).1[i].mip_levels <= u32::MAX,
    decreases barriers.len(),
{
    if barriers.len() > 0 {
        let rest = barriers.drop_last();
        assert forall|k: int| 0 <= k < rest.len() implies (#[trigger] rest[k].resource matches ResourceId::Texture(t)
            ==> t.mip_level < u32::MAX) by {
            assert(rest[k] == barriers[k]);
        }
        lemma_batch_bounds(rest);
        let b = barriers.last();
        assert(barriers[barriers.len() - 1] == b);
        let texs = batch(rest).1;
        let out = batch(barriers).1;
        match b.resource {
            ResourceId::Buffer(_) => {},
            ResourceId::Texture(t) => {
                assert forall|i: int| 0 <= i < out.len() implies #[trigger] out[i].base_mip_level + out[i].mip_levels
                    <= u32::MAX by {
                    if i < texs.len() && !(i == texs.len() - 1 && out.len() == texs.len()) {
                        assert(out[i] == texs[i]);
                    }
                }
            },
        }
    }
}

/// The texture barrier `tb` covers mip level `mip` of texture `id` for a change of access
/// from `s` to `d`.
pub open spec fn covers_mip(tb: TextureBarrier, id: TextureId, mip: int, s: AccessFlags, d: AccessFlags) -> bool {
    &&& tb.texture == id
    &&& tb.src_access == s
    &&& tb.dst_access == d
    &&& tb.base_mip_level <= mip < tb.base_mip_level + tb.mip_levels
}

/// The barrier `b` is carried out by the emitted barriers `out`: a buffer barrier with the
/// same buffer and accesses, or a texture barrier that covers its mip level with the same
/// accesses.
pub open spec fn emitted(out: (Seq<BufferBarrier>, Seq<TextureBarrier>), b: Barrier<ResourceId>) -> bool {
    match b.resource {
        ResourceId::Buffer(id) => out.0.contains(
            BufferBarrier { buffer: id, src_access: b.src_access, dst_access: b.dst_access },
        ),
        ResourceId::Texture(t) => exists|j: int|
            0 <= j < out.1.len() && #[trigger] covers_mip(out.1[j], t.id, t.mip_level as int, b.src_access, b.dst_access),
    }
}

/// Some barrier of `barriers` asks for mip level `mip` of texture `id` to change from
/// access `s` to `d`.
pub open spec fn texture_requested(barriers: Seq<Barrier<ResourceId>>, id: TextureId, mip: int, s: AccessFlags, d: AccessFlags) -> bool {
    exists|k: int|
        0 <= k < barriers.len() && #[trigger] barriers[k] == (Barrier {
            resource: ResourceId::Texture(TextureMip { id, mip_level: mip as u32 }),
            src_access: s,
            dst_access: d,
        })
}

/// Some barrier of `barriers` asks for buffer `id` to change from access `s` to `d`.
pub open spec fn buffer_requested(barriers: Seq<Barrier<ResourceId>>, id: BufferId, s: AccessFlags, d: AccessFlags) -> bool {
    exists|k: int|
        0 <= k < barriers.len() && #[trigger] barriers[k] == (Barrier {
            resource: ResourceId::Buffer(id),
            src_access: s,
            dst_access: d,
        })
}

/// Batching barriers neither drops nor invents one: every barrier asked for is carried out
/// by an emitted barrier with the same resource and the same source and destination
/// accesses, and every mip level of every emitted texture barrier, like every emitted
/// buffer barrier, was asked for with exactly the emitted barrier's accesses. So a texture
/// barrier only spans mip levels that all change between the same accesses.
pub proof fn law_batch_keeps_every_barrier(barriers: Seq<Barrier<ResourceId>>)
    requires
        forall|k: int| 0 <= k < barriers.len() ==> (#[trigger] barriers[k].resource matches ResourceId::Texture(t)
            ==> t.mip_level < u32::MAX),
    ensures
        forall|k: int| 0 <= k < barriers.len() ==> emitted(batch(barriers), #[trigger] barriers[k]),
        forall|j: int, m: int|
            0 <= j < batch(barriers).1.len() && #[trigger] covers_mip(
                batch(barriers).1[j],
                batch(barriers).1[j].texture,
                m,
                batch(barriers).1[j].src_access,
                batch(barriers).1[j].dst_access,
            ) ==> texture_requested(
                barriers,
                batch(barriers).1[j].texture,
                m,
                batch(barriers).1[j].src_access,
                batch(barriers).1[j].dst_access,
            ),
        forall|j: int|
            0 <= j < batch(barriers).0.len() ==> buffer_requested(
                barriers,
                (#[trigger] batch(barriers).0[j]).buffer,
                batch(barriers).0[j].src_access,
                batch(barriers).0[j].dst_access,
            ),
    decreases barriers.len(),
{
    if barriers.len() > 0 {
        let rest = barriers.drop_last();
        assert forall|k: int| 0 <= k < rest.len() implies (#[trigger] rest[k].resource matches ResourceId::Texture(t)
            ==> t.mip_level < u32::MAX) by {
            assert(rest[k] == barriers[k]);
        }
        law_batch_keeps_every_barrier(rest);
        lemma_batch_bounds(rest);
        let n = barriers.len() - 1;
        let b = barriers.last();
        assert(barriers[n] == b);
        let (pb, pt) = batch(rest);
        let (ob, ot) = batch(barriers);
        let merged = match b.resource {
            ResourceId::Texture(t) => pt.len() > 0 && pt.last().texture == t.id && pt.last().src_access
                == b.src_access && pt.last().dst_access == b.dst_access && pt.last().base_mip_level
                + pt.last().mip_levels == t.mip_level,
            _ => false,
        };
        // Buffers: kept, and possibly one appended.
        assert forall|x: BufferBarrier| pb.contains(x) implies ob.contains(x) by {
            let j = choose|j: int| 0 <= j < pb.len() && pb[j] == x;
            assert(ob[j] == x);
        }
        // Textures: kept, except that the last one may grow by one mip level.
        assert forall|j: int, m: int, id: TextureId, sa: AccessFlags, da: AccessFlags|
            0 <= j < pt.len() && #[trigger] covers_mip(pt[j], id, m, sa, da) implies covers_mip(ot[j], id, m, sa, da) by {
            if !(merged && j == pt.len() - 1) {
                assert(ot[j] == pt[j]);
            }
        }
        assert forall|k: int| 0 <= k < barriers.len() implies emitted(batch(barriers), #[trigger] barriers[k]) by {
            if k < n {
                assert(rest[k] == barriers[k]);
                assert(emitted(batch(rest), rest[k]));
                match barriers[k].resource {
                    ResourceId::Buffer(_) => {},
                    ResourceId::Texture(t) => {
                        let j = choose|j: int|
                            0 <= j < pt.len() && #[trigger] covers_mip(pt[j], t.id, t.mip_level as int, barriers[k].src_access, barriers[k].dst_access);
                        assert(covers_mip(ot[j], t.id, t.mip_level as int, barriers[k].src_access, barriers[k].dst_access));
                    },
                }
            } else {
                match b.resource {
                    ResourceId::Buffer(id) => {
                        assert(ob[ob.len() - 1] == BufferBarrier { buffer: id, src_access: b.src_access, dst_access: b.dst_access });
                    },
                    ResourceId::Texture(t) => {
                        let j = if merged { pt.len() - 1 } else { pt.len() as int };
                        assert(covers_mip(ot[j], t.id, t.mip_level as int, b.src_access, b.dst_access));
                    },
                }
            }
        }
        assert forall|j: int, m: int|
            0 <= j < ot.len() && #[trigger] covers_mip(ot[j], ot[j].texture, m, ot[j].src_access, ot[j].dst_access)
                implies texture_requested(barriers, ot[j].texture, m, ot[j].src_access, ot[j].dst_access) by {
            let tb = ot[j];
            if j < pt.len() && !(merged && j == pt.len() - 1) {
                assert(ot[j] == pt[j]);
                assert(covers_mip(pt[j], pt[j].texture, m, pt[j].src_access, pt[j].dst_access));
                let k = choose|k: int|
                    0 <= k < rest.len() && #[trigger] rest[k] == (Barrier {
                        resource: ResourceId::Texture(TextureMip { id: tb.texture, mip_level: m as u32 }),
                        src_access: tb.src_access,
                        dst_access: tb.dst_access,
                    });
                assert(barriers[k] == rest[k]);
            } else if merged && j == pt.len() - 1 && m < pt[j].base_mip_level + pt[j].mip_levels {
                assert(covers_mip(pt[j], pt[j].texture, m, pt[j].src_access, pt[j].dst_access));
                let k = choose|k: int|
                    0 <= k < rest.len() && #[trigger] rest[k] == (Barrier {
                        resource: ResourceId::Texture(TextureMip { id: tb.texture, mip_level: m as u32 }),
                        src_access: tb.src_access,
                        dst_access: tb.dst_access,
                    });
                assert(barriers[k] == rest[k]);
            } else {
                let t = b.resource->Texture_0;
                assert(m == t.mip_level);
                assert(b == (Barrier {
                    resource: ResourceId::Texture(TextureMip { id: tb.texture, mip_level: m as u32 }),
                    src_access: tb.src_access,
                    dst_access: tb.dst_access,
                }));
            }
        }
        assert forall|j: int| 0 <= j < ob.len() implies buffer_requested(
            barriers,
            (#[trigger] ob[j]).buffer,
            ob[j].src_access,
            ob[j].dst_access,
        ) by {
            if j < pb.len() {
                assert(ob[j] == pb[j]);
                let k = choose|k: int|
                    0 <= k < rest.len() && #[trigger] rest[k] == (Barrier {
                        resource: ResourceId::Buffer(pb[j].buffer),
                        src_access: pb[j].src_access,
                        dst_access: pb[j].dst_access,
                    });
                assert(barriers[k] == rest[k]);
            } else {
                assert(b == (Barrier {
                    resource: ResourceId::Buffer(ob[j].buffer),
                    src_access: ob[j].src_access,
                    dst_access: ob[j].dst_access,
                }));
            }
        }
    }
}

/// Groups the barriers for emission (see `batch`).
pub fn batch_barriers(barriers: &[Barrier<ResourceId>]) -> (r: (Vec<BufferBarrier>, Vec<TextureBarrier>))
    requires
        forall|k: int| 0 <= k < barriers@.len() ==> (#[trigger] barriers@[k].resource matches ResourceId::Texture(t)
            ==> t.mip_level < u32::MAX),
    ensures
        (r.0@, r.1@) == batch(barriers@),
{
    let mut bufs: Vec<BufferBarrier> = Vec::new();
    let mut texs: Vec<TextureBarrier> = Vec::new();
    let mut k: usize = 0;
    while k < barriers.len()
        invariant
            k <= barriers@.len(),
            forall|j: int| 0 <= j < barriers@.len() ==> (#[trigger] barriers@[j].resource matches ResourceId::Texture(t)
                ==> t.mip_level < u32::MAX),
            (bufs@, texs@) == batch(barriers@.take(k as int)),
        decreases barriers@.len() - k,
    {
        let ghost pre = barriers@.take(k as int);
        proof {
            assert(barriers@.take(k + 1).drop_last() =~= pre);
            assert(barriers@.take(k + 1).last() == barriers@[k as int]);
            assert forall|j: int| 0 <= j < pre.len() implies (#[trigger] pre[j].resource matches ResourceId::Texture(t)
                ==> t.mip_level < u32::MAX) by {
                assert(pre[j] == barriers@[j]);
            }
            lemma_batch_bounds(pre);
        }
        let b = barriers[k];
        match b.resource {
            ResourceId::Buffer(id) => {
                bufs.push(BufferBarrier { buffer: id, src_access: b.src_access, dst_access: b.dst_access });
            },
            ResourceId::Texture(t) => {
                let n = texs.len();
                let mut merged = false;
                if n > 0 {
                    let last = texs[n - 1];
                    if last.texture == t.id && last.src_access == b.src_access && last.dst_access == b.dst_access
                        && last.base_mip_level as u64 + last.mip_levels as u64 == t.mip_level as u64 {
                        texs.set(n - 1, TextureBarrier { mip_levels: last.mip_levels + 1, ..last });
                        merged = true;
                    }
                }
                if !merged {
                    texs.push(
                        TextureBarrier {
                            texture: t.id,
                            src_access: b.src_access,
                            dst_access: b.dst_access,
                            base_mip_level: t.mip_level,
                            mip_levels: 1,
                        },
                    );
                }
            },
        }
        proof {
            assert((bufs@, texs@) == batch(barriers@.take(k + 1)));
        }
        k = k + 1;
    }
    proof {
        assert(barriers@.take(k as int) =~= barriers@);
    }
    (bufs, texs)
}

/// A run of steps executed together: the barriers placed between two nodes, or a node.
#[derive(Clone, Debug)]
pub enum StepGroup<N, R> {
    Barriers(Vec<Barrier<R>>),
    Node(N),
}

/// The steps of the groups, in order.
pub open spec fn flatten<N, R>(groups: Seq<StepGroup<N, R>>) -> Seq<Step<N, R>>
    decreases groups.len(),
{
    if groups.len() == 0 {
        Seq::empty()
    } else {
        flatten(groups.drop_last()) + match groups.last() {
            StepGroup::Barriers(bs) => bs@.map_values(|b: Barrier<R>| Step::Barrier(b)),
            StepGroup::Node(n) => seq![Step::Node(n)],
        }
    }
}

/// Groups the steps of a schedule: the barriers between two nodes are emitted together,
/// before the next node, and the barriers after the last node at the end.
pub fn group_steps<N: Copy, R: Copy>(steps: &[Step<N, R>]) -> (r: Vec<StepGroup<N, R>>)
    ensures
        flatten(r@) == steps@,
        forall|i: int| 0 <= i < r@.len() ==> (#[trigger] r@[i] matches StepGroup::Barriers(bs) ==> bs@.len() > 0),
        forall|i: int, j: int| 0 <= i && j == i + 1 && j < r@.len() ==> !((#[trigger] r@[i] is Barriers) && (
            #[trigger] r@[j] is Barriers)),
{
    let mut groups: Vec<StepGroup<N, R>> = Vec::new();
    let mut barriers: Vec<Barrier<R>> = Vec::new();
    let mut k: usize = 0;
    while k < steps.len()
        invariant
            k <= steps@.len(),
            flatten(groups@) + barriers@.map_values(|b: Barrier<R>| Step::<N, R>::Barrier(b)) == steps@.take(k as int),
            forall|i: int| 0 <= i < groups@.len() ==> (#[trigger] groups@[i] matches StepGroup::Barriers(bs) ==> bs@.len() > 0),
            forall|i: int, j: int| 0 <= i && j == i + 1 && j < groups@.len() ==> !((#[trigger] groups@[i] is Barriers) && (
                #[trigger] groups@[j] is Barriers)),
            groups@.len() > 0 ==> !(groups@.last() is Barriers),
        decreases steps@.len() - k,
    {
        let ghost before_groups = groups@;
        let ghost before_barriers = barriers@;
        match steps[k] {
            Step::Barrier(b) => {
                barriers.push(b);
                proof {
                    assert(barriers@.map_values(|b: Barrier<R>| Step::<N, R>::Barrier(b)) =~= before_barriers.map_values(
                        |b: Barrier<R>| Step::<N, R>::Barrier(b),
                    ).push(Step::Barrier(b)));
                    assert(steps@.take(k + 1) =~= steps@.take(k as int).push(steps@[k as int]));
                }
            },
            Step::Node(n) => {
                if barriers.len() > 0 {
                    let mut flushed: Vec<Barrier<R>> = Vec::new();
                    std::mem::swap(&mut flushed, &mut barriers);
                    groups.push(StepGroup::Barriers(flushed));
                    proof {
                        assert(groups@.drop_last() =~= before_groups);
                        assert(flatten(groups@) == flatten(before_groups) + flushed@.map_values(
                            |b: Barrier<R>| Step::<N, R>::Barrier(b),
                        ));
                    }
                }
                let ghost mid = groups@;
                groups.push(StepGroup::Node(n));
                proof {
                    assert(groups@.drop_last() =~= mid);
                    assert(barriers@.map_values(|b: Barrier<R>| Step::<N, R>::Barrier(b)) =~= Seq::<Step<N, R>>::empty());
                    assert(steps@.take(k + 1) =~= steps@.take(k as int).push(steps@[k as int]));
                    assert(flatten(groups@) =~= steps@.take(k + 1));
                }
            },
        }
        k = k + 1;
    }
    if barriers.len() > 0 {
        let ghost before_groups = groups@;
        groups.push(StepGroup::Barriers(barriers));
        proof {
            assert(groups@.drop_last() =~= before_groups);
        }
    } else {
        proof {
            assert(barriers@.map_values(|b: Barrier<R>| Step::<N, R>::Barrier(b)) =~= Seq::<Step<N, R>>::empty());
            assert(flatten(groups@) + Seq::<Step<N, R>>::empty() =~= flatten(groups@));
        }
    }
    proof {
        assert(steps@.take(k as int) =~= steps@);
    }
    groups
}

/// The number of passes among the nodes of the steps, of render passes when `render`, of
/// compute passes otherwise.
pub open spec fn pass_count(steps: Seq<Step<&Command, ResourceId>>, render: bool) -> nat
    decreases steps.len(),
{
    if steps.len() == 0 {
        0
    } else {
        pass_count(steps.drop_last(), render) + match steps.last() {
            Step::Node(c) => match *c {
                Command::RenderPass(_) => if render {
                    1nat
                } else {
                    0nat
                },
                Command::ComputePass(_) => if render {
                    0nat
                } else {
                    1nat
                },
                _ => 0nat,
            },
            Step::Barrier(_) => 0nat,
        }
    }
}

proof fn lemma_pass_count_prefix(steps: Seq<Step<&Command, ResourceId>>, render: bool, k: int)
    requires
        0 <= k <= steps.len(),
    ensures
        pass_count(steps.take(k), render) <= pass_count(steps, render),
    decreases steps.len() - k,
{
    if k < steps.len() {
        lemma_pass_count_prefix(steps, render, k + 1);
        assert(steps.take(k + 1).drop_last() =~= steps.take(k));
    } else {
        assert(steps.take(k) =~= steps);
    }
}

/// The number of timestamp queries a schedule needs: one before and one after each pass,
/// and one at each end of the whole command buffer.
pub fn query_count(steps: &[Step<&Command, ResourceId>]) -> (r: u32)
    requires
        2 * pass_count(steps@, true) + 2 * pass_count(steps@, false) + 2 <= u32::MAX,
    ensures
        r == 2 * pass_count(steps@, true) + 2 * pass_count(steps@, false) + 2,
{
    let mut render: u32 = 0;
    let mut compute: u32 = 0;
    let mut k: usize = 0;
    while k < steps.len()
        invariant
            k <= steps@.len(),
            2 * pass_count(steps@, true) + 2 * pass_count(steps@, false) + 2 <= u32::MAX,
            render == pass_count(steps@.take(k as int), true),
            compute == pass_count(steps@.take(k as int), false),
        decreases steps@.len() - k,
    {
        proof {
            assert(steps@.take(k + 1).drop_last() =~= steps@.take(k as int));
            assert(steps@.take(k + 1).last() == steps@[k as int]);
            lemma_pass_count_prefix(steps@, true, k + 1);
            lemma_pass_count_prefix(steps@, false, k + 1);
        }
        match steps[k] {
            Step::Node(c) => match c {
                Command::RenderPass(_) => {
                    render = render + 1;
                },
                Command::ComputePass(_) => {
                    compute = compute + 1;
                },
                _ => {},
            },
            Step::Barrier(_) => {},
        }
        k = k + 1;
    }
    proof {
        assert(steps@.take(k as int) =~= steps@);
    }
    render * 2 + compute * 2 + 2
}

} // verus!
