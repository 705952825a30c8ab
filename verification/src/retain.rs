use vstd::prelude::*;

use crate::commands::{ColorAttachmentOwned, Command, ComputeCommand, DrawCall, DrawCmd};
use crate::resources::RefCount;

verus! {

/// How often each id has been added, kept as one counter per id: ids are small dense keys.
#[derive(Clone, Debug)]
pub struct CountingSet {
    counts: Vec<usize>,
}

/// The ids with a non-zero count among the first `n` counters, in increasing order, each
/// with its count.
pub open spec fn nonzero_upto(counts: Seq<usize>, n: int) -> Seq<(usize, usize)>
    decreases n,
{
    if n <= 0 {
        Seq::empty()
    } else if counts[n - 1] != 0 {
        nonzero_upto(counts, n - 1).push(((n - 1) as usize, counts[n - 1]))
    } else {
        nonzero_upto(counts, n - 1)
    }
}

impl CountingSet {
    /// How often `id` has been added.
    pub closed spec fn count(&self, id: usize) -> nat {
        if id < self.counts@.len() {
            self.counts@[id as int] as nat
        } else {
            0
        }
    }

    /// The ids that have been added, in increasing order, each with how often.
    pub closed spec fn entries(&self) -> Seq<(usize, usize)> {
        nonzero_upto(self.counts@, self.counts@.len() as int)
    }

    /// Creates a set in which no id has been added.
    pub fn new() -> (r: Self)
        ensures
            forall|id: usize| #[trigger] r.count(id) == 0,
            r.entries() == Seq::<(usize, usize)>::empty(),
    {
        Self { counts: Vec::new() }
    }

    /// Adds `id` once more.
    pub fn insert(&mut self, id: usize)
        requires
            old(self).count(id) < usize::MAX,
        ensures
            final(self).count(id) == old(self).count(id) + 1,
            forall|other: usize| other != id ==> #[trigger] final(self).count(other) == old(self).count(other),
    {
        let ghost before = self.counts@;
        while self.counts.len() <= id
            invariant
                self.counts@.len() >= before.len(),
                forall|k: int| 0 <= k < before.len() ==> #[trigger] self.counts@[k] == before[k],
                forall|k: int| before.len() <= k < self.counts@.len() ==> #[trigger] self.counts@[k] == 0,
            decreases id + 1 - self.counts.len(),
        {
            self.counts.push(0);
        }
        proof {
            assert forall|other: usize| #[trigger] self.count(other) == old(self).count(other) by {
                if (other as int) < before.len() {
                    assert(self.counts@[other as int] == before[other as int]);
                } else if (other as int) < self.counts@.len() {
                    assert(self.counts@[other as int] == 0);
                }
            }
        }
        let c = self.counts[id];
        self.counts.set(id, c + 1);
    }

    /// Removes every id and returns the ids that had been added, in increasing order, each
    /// with how often.
    pub fn drain(&mut self) -> (r: Vec<(usize, usize)>)
        ensures
            r@ == old(self).entries(),
            forall|id: usize| #[trigger] final(self).count(id) == 0,
            final(self).entries() == Seq::<(usize, usize)>::empty(),
    {
        let mut counts: Vec<usize> = Vec::new();
        std::mem::swap(&mut counts, &mut self.counts);
        let mut r: Vec<(usize, usize)> = Vec::new();
        let mut i: usize = 0;
        while i < counts.len()
            invariant
                i <= counts.len(),
                r@ == nonzero_upto(counts@, i as int),
            decreases counts.len() - i,
        {
            if counts[i] != 0 {
                r.push((i, counts[i]));
            }
            i = i + 1;
        }
        r
    }
}

/// How often `id` occurs in `s`.
pub open spec fn occurrences(s: Seq<usize>, id: usize) -> nat
    decreases s.len(),
{
    if s.len() == 0 {
        0
    } else {
        occurrences(s.drop_last(), id) + if s.last() == id {
            1nat
        } else {
            0nat
        }
    }
}

proof fn lemma_occurrences_bound(s: Seq<usize>, id: usize)
    ensures
        occurrences(s, id) <= s.len(),
    decreases s.len(),
{
    if s.len() > 0 {
        lemma_occurrences_bound(s.drop_last(), id);
    }
}

impl CountingSet {
    /// Adds each of `ids`.
    pub fn insert_all(&mut self, ids: &[usize])
        requires
            forall|id: usize| #[trigger] old(self).count(id) + ids@.len() <= usize::MAX,
        ensures
            forall|id: usize| #[trigger] final(self).count(id) == old(self).count(id) + occurrences(ids@, id),
    {
        let mut i: usize = 0;
        while i < ids.len()
            invariant
                i <= ids.len(),
                forall|id: usize| #[trigger] old(self).count(id) + ids@.len() <= usize::MAX,
                forall|id: usize| #[trigger] self.count(id) == old(self).count(id) + occurrences(ids@.take(i as int), id),
            decreases ids.len() - i,
        {
            proof {
                assert(ids@.take(i + 1).drop_last() =~= ids@.take(i as int));
                lemma_occurrences_bound(ids@.take(i as int), ids@[i as int]);
                assert(self.count(ids@[i as int]) == old(self).count(ids@[i as int]) + occurrences(ids@.take(i as int), ids@[i as int]));
            }
            self.insert(ids[i]);
            i = i + 1;
        }
        proof {
            assert(ids@.take(i as int) =~= ids@);
        }
    }
}

/// The buffers that draw commands bind: index buffers and indirect argument buffers.
pub open spec fn draw_buffers(cmds: Seq<DrawCmd>) -> Seq<usize>
    decreases cmds.len(),
{
    if cmds.len() == 0 {
        Seq::empty()
    } else {
        let rest = draw_buffers(cmds.drop_last());
        match cmds.last() {
            DrawCmd::SetIndexBuffer(b, _) => rest.push(b),
            DrawCmd::Draw(DrawCall::DrawIndirect(c)) => rest.push(c.buffer),
            DrawCmd::Draw(DrawCall::DrawIndexedIndirect(c)) => rest.push(c.buffer),
            _ => rest,
        }
    }
}

/// The pipelines that draw commands bind.
pub open spec fn draw_pipelines(cmds: Seq<DrawCmd>) -> Seq<usize>
    decreases cmds.len(),
{
    if cmds.len() == 0 {
        Seq::empty()
    } else {
        let rest = draw_pipelines(cmds.drop_last());
        match cmds.last() {
            DrawCmd::SetPipeline(id) => rest.push(id),
            _ => rest,
        }
    }
}

/// The descriptor sets that draw commands bind.
pub open spec fn draw_sets(cmds: Seq<DrawCmd>) -> Seq<usize>
    decreases cmds.len(),
{
    if cmds.len() == 0 {
        Seq::empty()
    } else {
        let rest = draw_sets(cmds.drop_last());
        match cmds.last() {
            DrawCmd::SetDescriptorSet(_, id) => rest.push(id),
            _ => rest,
        }
    }
}

/// The pipelines that compute commands bind.
pub open spec fn compute_pipelines(cmds: Seq<ComputeCommand>) -> Seq<usize>
    decreases cmds.len(),
{
    if cmds.len() == 0 {
        Seq::empty()
    } else {
        let rest = compute_pipelines(cmds.drop_last());
        match cmds.last() {
            ComputeCommand::SetPipeline(id) => rest.push(id),
            _ => rest,
        }
    }
}

/// The descriptor sets that compute commands bind.
pub open spec fn compute_sets(cmds: Seq<ComputeCommand>) -> Seq<usize>
    decreases cmds.len(),
{
    if cmds.len() == 0 {
        Seq::empty()
    } else {
        let rest = compute_sets(cmds.drop_last());
        match cmds.last() {
            ComputeCommand::SetDescriptorSet(_, id) => rest.push(id),
            _ => rest,
        }
    }
}

/// The textures of the color attachments.
pub open spec fn attachment_textures(atts: Seq<ColorAttachmentOwned>) -> Seq<usize> {
    atts.map_values(|a: ColorAttachmentOwned| a.target.texture)
}

/// The buffers that must stay alive until the work of a command completes.
pub open spec fn retained_buffers(c: Command) -> Seq<usize> {
    match c {
        Command::WriteBuffer(w) => seq![w.buffer],
        Command::CopyBufferToBuffer(w) => seq![w.src, w.dst],
        Command::CopyBufferToTexture(w) => seq![w.src],
        Command::RenderPass(p) => draw_buffers(p.cmds@),
        _ => Seq::empty(),
    }
}

/// The textures that must stay alive until the work of a command completes.
pub open spec fn retained_textures(c: Command) -> Seq<usize> {
    match c {
        Command::CopyBufferToTexture(w) => seq![w.dst],
        Command::CopyTextureToTexture(w) => seq![w.src, w.dst],
        Command::TextureTransition(t) => seq![t.texture.id],
        Command::RenderPass(p) => attachment_textures(p.color_attachments@) + match p.depth_stencil_attachment {
            Some(d) => seq![d.texture],
            None => Seq::empty(),
        },
        _ => Seq::empty(),
    }
}

/// The pipelines that must stay alive until the work of a command completes.
pub open spec fn retained_pipelines(c: Command) -> Seq<usize> {
    match c {
        Command::RenderPass(p) => draw_pipelines(p.cmds@),
        Command::ComputePass(p) => compute_pipelines(p.cmds@),
        _ => Seq::empty(),
    }
}

/// The descriptor sets that must stay alive until the work of a command completes.
pub open spec fn retained_sets(c: Command) -> Seq<usize> {
    match c {
        Command::RenderPass(p) => draw_sets(p.cmds@),
        Command::ComputePass(p) => compute_sets(p.cmds@),
        _ => Seq::empty(),
    }
}

/// What a draw command uses is among the kept ids: its index buffer, its indirect argument
/// buffer, its pipeline and its descriptor set.
pub open spec fn draw_kept(c: DrawCmd, buffers: Seq<usize>, pipelines: Seq<usize>, sets: Seq<usize>) -> bool {
    match c {
        DrawCmd::SetIndexBuffer(b, _) => buffers.contains(b),
        DrawCmd::Draw(DrawCall::DrawIndirect(d)) => buffers.contains(d.buffer),
        DrawCmd::Draw(DrawCall::DrawIndexedIndirect(d)) => buffers.contains(d.buffer),
        DrawCmd::SetPipeline(id) => pipelines.contains(id),
        DrawCmd::SetDescriptorSet(_, id) => sets.contains(id),
        _ => true,
    }
}

/// What a compute command uses is among the kept ids: its pipeline and its descriptor set.
pub open spec fn compute_kept(c: ComputeCommand, pipelines: Seq<usize>, sets: Seq<usize>) -> bool {
    match c {
        ComputeCommand::SetPipeline(id) => pipelines.contains(id),
        ComputeCommand::SetDescriptorSet(_, id) => sets.contains(id),
        _ => true,
    }
}

/// Every resource that the GPU work of a command reads or writes is among the kept ids:
/// both buffers or textures of a copy, the written buffer, the transitioned texture, and the
/// attachments, index and indirect buffers, pipelines and descriptor sets of a pass.
pub open spec fn keeps_used(c: Command, buffers: Seq<usize>, textures: Seq<usize>, pipelines: Seq<usize>, sets: Seq<usize>) -> bool {
    match c {
        Command::WriteBuffer(w) => buffers.contains(w.buffer),
        Command::CopyBufferToBuffer(w) => buffers.contains(w.src) && buffers.contains(w.dst),
        Command::CopyBufferToTexture(w) => buffers.contains(w.src) && textures.contains(w.dst),
        Command::CopyTextureToTexture(w) => textures.contains(w.src) && textures.contains(w.dst),
        Command::TextureTransition(t) => textures.contains(t.texture.id),
        Command::RenderPass(p) => {
            &&& forall|i: int|
                0 <= i < p.color_attachments@.len() ==> textures.contains(
                    (#[trigger] p.color_attachments@[i]).target.texture,
                )
            &&& p.depth_stencil_attachment matches Some(d) ==> textures.contains(d.texture)
            &&& forall|i: int| 0 <= i < p.cmds@.len() ==> draw_kept(#[trigger] p.cmds@[i], buffers, pipelines, sets)
        },
        Command::ComputePass(p) => forall|i: int|
            0 <= i < p.cmds@.len() ==> compute_kept(#[trigger] p.cmds@[i], pipelines, sets),
        _ => true,
    }
}

/// Every draw command's resources are among the ids collected from the draw commands.
proof fn lemma_draws_kept(cmds: Seq<DrawCmd>)
    ensures
        forall|i: int|
            0 <= i < cmds.len() ==> draw_kept(#[trigger] cmds[i], draw_buffers(cmds), draw_pipelines(cmds), draw_sets(cmds)),
    decreases cmds.len(),
{
    if cmds.len() > 0 {
        let p = cmds.drop_last();
        lemma_draws_kept(p);
        assert forall|i: int| 0 <= i < cmds.len() implies draw_kept(
            #[trigger] cmds[i],
            draw_buffers(cmds),
            draw_pipelines(cmds),
            draw_sets(cmds),
        ) by {
            let (b, q, s) = (draw_buffers(cmds), draw_pipelines(cmds), draw_sets(cmds));
            let (pb, pq, ps) = (draw_buffers(p), draw_pipelines(p), draw_sets(p));
            assert forall|x: usize| pb.contains(x) implies b.contains(x) by {
                let j = choose|j: int| 0 <= j < pb.len() && pb[j] == x;
                assert(b[j] == x);
            }
            assert forall|x: usize| pq.contains(x) implies q.contains(x) by {
                let j = choose|j: int| 0 <= j < pq.len() && pq[j] == x;
                assert(q[j] == x);
            }
            assert forall|x: usize| ps.contains(x) implies s.contains(x) by {
                let j = choose|j: int| 0 <= j < ps.len() && ps[j] == x;
                assert(s[j] == x);
            }
            if i < p.len() {
                assert(cmds[i] == p[i]);
                assert(draw_kept(p[i], pb, pq, ps));
            } else {
                match cmds.last() {
                    DrawCmd::SetIndexBuffer(x, _) => assert(b[b.len() - 1] == x),
                    DrawCmd::Draw(DrawCall::DrawIndirect(d)) => assert(b[b.len() - 1] == d.buffer),
                    DrawCmd::Draw(DrawCall::DrawIndexedIndirect(d)) => assert(b[b.len() - 1] == d.buffer),
                    DrawCmd::SetPipeline(x) => assert(q[q.len() - 1] == x),
                    DrawCmd::SetDescriptorSet(_, x) => assert(s[s.len() - 1] == x),
                    _ => {},
                }
            }
        }
    }
}

/// Every compute command's resources are among the ids collected from the compute commands.
proof fn lemma_computes_kept(cmds: Seq<ComputeCommand>)
    ensures
        forall|i: int|
            0 <= i < cmds.len() ==> compute_kept(#[trigger] cmds[i], compute_pipelines(cmds), compute_sets(cmds)),
    decreases cmds.len(),
{
    if cmds.len() > 0 {
        let p = cmds.drop_last();
        lemma_computes_kept(p);
        assert forall|i: int| 0 <= i < cmds.len() implies compute_kept(
            #[trigger] cmds[i],
            compute_pipelines(cmds),
            compute_sets(cmds),
        ) by {
            let (q, s) = (compute_pipelines(cmds), compute_sets(cmds));
            let (pq, ps) = (compute_pipelines(p), compute_sets(p));
            assert forall|x: usize| pq.contains(x) implies q.contains(x) by {
                let j = choose|j: int| 0 <= j < pq.len() && pq[j] == x;
                assert(q[j] == x);
            }
            assert forall|x: usize| ps.contains(x) implies s.contains(x) by {
                let j = choose|j: int| 0 <= j < ps.len() && ps[j] == x;
                assert(s[j] == x);
            }
            if i < p.len() {
                assert(cmds[i] == p[i]);
                assert(compute_kept(p[i], pq, ps));
            } else {
                match cmds.last() {
                    ComputeCommand::SetPipeline(x) => assert(q[q.len() - 1] == x),
                    ComputeCommand::SetDescriptorSet(_, x) => assert(s[s.len() - 1] == x),
                    _ => {},
                }
            }
        }
    }
}

/// A command keeps alive every resource its GPU work reads or writes (see `keeps_used`).
pub proof fn law_commands_keep_what_they_use(c: Command)
    ensures
        keeps_used(c, retained_buffers(c), retained_textures(c), retained_pipelines(c), retained_sets(c)),
{
    match c {
        Command::RenderPass(p) => {
            lemma_draws_kept(p.cmds@);
            let t = retained_textures(c);
            let a = attachment_textures(p.color_attachments@);
            assert forall|i: int| 0 <= i < p.color_attachments@.len() implies t.contains(
                (#[trigger] p.color_attachments@[i]).target.texture,
            ) by {
                assert(a[i] == p.color_attachments@[i].target.texture);
                assert(t[i] == a[i]);
            }
            assert forall|i: int| 0 <= i < p.cmds@.len() implies draw_kept(
                #[trigger] p.cmds@[i],
                retained_buffers(c),
                retained_pipelines(c),
                retained_sets(c),
            ) by {
                assert(draw_kept(p.cmds@[i], draw_buffers(p.cmds@), draw_pipelines(p.cmds@), draw_sets(p.cmds@)));
            }
            if let Some(d) = p.depth_stencil_attachment {
                assert(t == a + seq![d.texture]);
                assert(t[a.len() as int] == d.texture);
                assert(t.contains(d.texture));
            } else {
                assert(t =~= a);
            }

        },
        Command::ComputePass(p) => {
            lemma_computes_kept(p.cmds@);
        },
        Command::WriteBuffer(w) => {
            assert(retained_buffers(c)[0] == w.buffer);
        },
        Command::CopyBufferToBuffer(w) => {
            assert(retained_buffers(c)[0] == w.src);
            assert(retained_buffers(c)[1] == w.dst);
        },
        Command::CopyBufferToTexture(w) => {
            assert(retained_buffers(c)[0] == w.src);
            assert(retained_textures(c)[0] == w.dst);
        },
        Command::CopyTextureToTexture(w) => {
            assert(retained_textures(c)[0] == w.src);
            assert(retained_textures(c)[1] == w.dst);
        },
        Command::TextureTransition(t) => {
            assert(retained_textures(c)[0] == t.texture.id);
        },
        _ => {},
    }
}

fn draw_ids(cmds: &[DrawCmd]) -> (r: (Vec<usize>, Vec<usize>, Vec<usize>))
    ensures
        r.0@ == draw_buffers(cmds@),
        r.1@ == draw_pipelines(cmds@),
        r.2@ == draw_sets(cmds@),
{
    let mut buffers: Vec<usize> = Vec::new();
    let mut pipelines: Vec<usize> = Vec::new();
    let mut sets: Vec<usize> = Vec::new();
    let mut i: usize = 0;
    while i < cmds.len()
        invariant
            i <= cmds.len(),
            buffers@ == draw_buffers(cmds@.take(i as int)),
            pipelines@ == draw_pipelines(cmds@.take(i as int)),
            sets@ == draw_sets(cmds@.take(i as int)),
        decreases cmds.len() - i,
    {
        proof {
            assert(cmds@.take(i + 1).drop_last() =~= cmds@.take(i as int));
        }
        match &cmds[i] {
            DrawCmd::SetIndexBuffer(b, _) => buffers.push(*b),
            DrawCmd::Draw(DrawCall::DrawIndirect(c)) => buffers.push(c.buffer),
            DrawCmd::Draw(DrawCall::DrawIndexedIndirect(c)) => buffers.push(c.buffer),
            DrawCmd::SetPipeline(id) => pipelines.push(*id),
            DrawCmd::SetDescriptorSet(_, id) => sets.push(*id),
            _ => {},
        }
        i = i + 1;
    }
    proof {
        assert(cmds@.take(i as int) =~= cmds@);
    }
    (buffers, pipelines, sets)
}

fn compute_ids(cmds: &[ComputeCommand]) -> (r: (Vec<usize>, Vec<usize>))
    ensures
        r.0@ == compute_pipelines(cmds@),
        r.1@ == compute_sets(cmds@),
{
    let mut pipelines: Vec<usize> = Vec::new();
    let mut sets: Vec<usize> = Vec::new();
    let mut i: usize = 0;
    while i < cmds.len()
        invariant
            i <= cmds.len(),
            pipelines@ == compute_pipelines(cmds@.take(i as int)),
            sets@ == compute_sets(cmds@.take(i as int)),
        decreases cmds.len() - i,
    {
        proof {
            assert(cmds@.take(i + 1).drop_last() =~= cmds@.take(i as int));
        }
        match &cmds[i] {
            ComputeCommand::SetPipeline(id) => pipelines.push(*id),
            ComputeCommand::SetDescriptorSet(_, id) => sets.push(*id),
            _ => {},
        }
        i = i + 1;
    }
    proof {
        assert(cmds@.take(i as int) =~= cmds@);
    }
    (pipelines, sets)
}

/// The ids that a command needs kept alive: buffers, textures, pipelines and descriptor
/// sets.
pub fn retained_ids(cmd: &Command) -> (r: (Vec<usize>, Vec<usize>, Vec<usize>, Vec<usize>))
    ensures
        r.0@ == retained_buffers(*cmd),
        r.1@ == retained_textures(*cmd),
        r.2@ == retained_pipelines(*cmd),
        r.3@ == retained_sets(*cmd),
        keeps_used(*cmd, r.0@, r.1@, r.2@, r.3@),
{
    proof {
        law_commands_keep_what_they_use(*cmd);
    }
    match cmd {
        Command::WriteBuffer(w) => (vec![w.buffer], Vec::new(), Vec::new(), Vec::new()),
        Command::CopyBufferToBuffer(w) => (vec![w.src, w.dst], Vec::new(), Vec::new(), Vec::new()),
        Command::CopyBufferToTexture(w) => (vec![w.src], vec![w.dst], Vec::new(), Vec::new()),
        Command::CopyTextureToTexture(w) => (Vec::new(), vec![w.src, w.dst], Vec::new(), Vec::new()),
        Command::TextureTransition(t) => (Vec::new(), vec![t.texture.id], Vec::new(), Vec::new()),
        Command::RenderPass(p) => {
            let (buffers, pipelines, sets) = draw_ids(p.cmds.as_slice());
            let mut textures: Vec<usize> = Vec::new();
            let mut i: usize = 0;
            while i < p.color_attachments.len()
                invariant
                    i <= p.color_attachments.len(),
                    textures@ == attachment_textures(p.color_attachments@.take(i as int)),
                decreases p.color_attachments.len() - i,
            {
                proof {
                    assert(attachment_textures(p.color_attachments@.take(i + 1)) =~= attachment_textures(
                        p.color_attachments@.take(i as int),
                    ).push(p.color_attachments@[i as int].target.texture));
                }
                textures.push(p.color_attachments[i].target.texture);
                i = i + 1;
            }
            proof {
                assert(p.color_attachments@.take(i as int) =~= p.color_attachments@);
            }
            match &p.depth_stencil_attachment {
                Some(d) => textures.push(d.texture),
                None => {},
            }
            proof {
                assert(textures@ =~= retained_textures(*cmd));
            }
            (buffers, textures, pipelines, sets)
        },
        Command::ComputePass(p) => {
            let (pipelines, sets) = compute_ids(p.cmds.as_slice());
            (Vec::new(), Vec::new(), pipelines, sets)
        },
        _ => (Vec::new(), Vec::new(), Vec::new(), Vec::new()),
    }
}

/// A resource that is to be deleted.
#[derive(Copy, Clone, Debug, PartialEq, Eq, Structural)]
pub enum DeletionEvent {
    Buffer(usize),
    Texture(usize),
    DescriptorSetLayout(usize),
    Pipeline(usize),
    Sampler(usize),
    DescriptorSet(usize),
}

/// The reference counts of the resources, indexed by id; `None` for a vacant id.
#[derive(Debug)]
pub struct ResourceRefs {
    pub buffers: Vec<Option<RefCount>>,
    pub textures: Vec<Option<RefCount>>,
    pub descriptor_sets: Vec<Option<RefCount>>,
    pub samplers: Vec<Option<RefCount>>,
    pub pipelines: Vec<Option<RefCount>>,
}

/// The count of resource `id` in `refs`.
pub open spec fn ref_value(refs: Seq<Option<RefCount>>, id: usize) -> int {
    refs[id as int]->Some_0.value() as int
}

/// The count after dropping `c` references from `v`, wrapping around below zero.
pub open spec fn dropped(v: int, c: int) -> int {
    if v >= c {
        v - c
    } else {
        v - c + usize::MAX + 1
    }
}

/// Every id in `entries` names a live resource of `refs`.
pub open spec fn all_live(entries: Seq<(usize, usize)>, refs: Seq<Option<RefCount>>) -> bool {
    forall|i: int| 0 <= i < entries.len() ==> #[trigger] entries[i].0 < refs.len() && refs[entries[i].0 as int] is Some
}

/// The ids of `entries` whose resources lose their last reference.
pub open spec fn released(entries: Seq<(usize, usize)>, refs: Seq<Option<RefCount>>) -> Seq<usize>
    decreases entries.len(),
{
    if entries.len() == 0 {
        Seq::empty()
    } else {
        let rest = released(entries.drop_last(), refs);
        let (id, c) = entries.last();
        if ref_value(refs, id) == c {
            rest.push(id)
        } else {
            rest
        }
    }
}

proof fn lemma_nonzero_upto(counts: Seq<usize>, n: int)
    requires
        0 <= n <= counts.len(),
        counts.len() <= usize::MAX,
    ensures
        forall|i: int|
            0 <= i < nonzero_upto(counts, n).len() ==> {
                let e = #[trigger] nonzero_upto(counts, n)[i];
                &&& e.0 < n
                &&& e.1 == counts[e.0 as int]
                &&& e.1 != 0
            },
        forall|i: int, j: int|
            0 <= i < j < nonzero_upto(counts, n).len() ==> #[trigger] nonzero_upto(counts, n)[i].0
                < #[trigger] nonzero_upto(counts, n)[j].0,
        forall|k: int|
            #![trigger counts[k]]
            0 <= k < n && counts[k] != 0 ==> exists|i: int|
                0 <= i < nonzero_upto(counts, n).len() && #[trigger] nonzero_upto(counts, n)[i].0 == k,
    decreases n,
{
    if n > 0 {
        lemma_nonzero_upto(counts, n - 1);
        let prev = nonzero_upto(counts, n - 1);
        let cur = nonzero_upto(counts, n);
        if counts[n - 1] != 0 {
            assert(cur == prev.push(((n - 1) as usize, counts[n - 1])));
            assert(cur[prev.len() as int].0 == n - 1);
        }
        assert forall|k: int| 0 <= k < n && counts[k] != 0 implies exists|i: int|
            0 <= i < cur.len() && #[trigger] cur[i].0 == k by {
            if k == n - 1 {
                assert(cur[prev.len() as int].0 == k);
            } else {
                let i = choose|i: int| 0 <= i < prev.len() && #[trigger] prev[i].0 == k;
                assert(cur[i].0 == k);
            }
        }
    }
}

impl CountingSet {
    /// The entries are the ids with a non-zero count, in increasing order, with their counts.
    pub proof fn lemma_entries(&self)
        ensures
            forall|i: int|
                0 <= i < self.entries().len() ==> #[trigger] self.entries()[i].1 == self.count(
                    self.entries()[i].0,
                ) && self.entries()[i].1 != 0,
            forall|i: int, j: int|
                0 <= i < j < self.entries().len() ==> #[trigger] self.entries()[i].0
                    < #[trigger] self.entries()[j].0,
            forall|id: usize|
                #[trigger] self.count(id) != 0 ==> exists|i: int|
                    0 <= i < self.entries().len() && #[trigger] self.entries()[i].0 == id,
    {
        assert(self.counts@.len() == self.counts.len());
        lemma_nonzero_upto(self.counts@, self.counts@.len() as int);
        assert forall|id: usize| #[trigger] self.count(id) != 0 implies exists|i: int|
            0 <= i < self.entries().len() && #[trigger] self.entries()[i].0 == id by {
            let n = self.counts@.len() as int;
            assert(self.counts@[id as int] != 0);
            let i = choose|i: int|
                0 <= i < nonzero_upto(self.counts@, n).len() && #[trigger] nonzero_upto(self.counts@, n)[i].0
                    == id as int;
            assert(self.entries()[i].0 == id);
        }
    }
}

/// The count given to `id` in `entries`, `0` if it has none.
pub open spec fn count_in(entries: Seq<(usize, usize)>, id: usize) -> nat
    decreases entries.len(),
{
    if entries.len() == 0 {
        0
    } else {
        count_in(entries.drop_last(), id) + if entries.last().0 == id {
            entries.last().1 as nat
        } else {
            0nat
        }
    }
}

proof fn lemma_count_in_absent(entries: Seq<(usize, usize)>, id: usize)
    requires
        forall|i: int| 0 <= i < entries.len() ==> #[trigger] entries[i].0 != id,
    ensures
        count_in(entries, id) == 0,
    decreases entries.len(),
{
    if entries.len() > 0 {
        lemma_count_in_absent(entries.drop_last(), id);
    }
}

/// Drops the references of `entries`, whose ids are increasing and counts non-zero, and
/// returns the ids of the resources that lost their last reference, in order.
fn release_refs(entries: &[(usize, usize)], refs: &mut Vec<Option<RefCount>>) -> (r: Vec<usize>)
    requires
        all_live(entries@, old(refs)@),
        forall|i: int| 0 <= i < entries@.len() ==> #[trigger] entries@[i].1 != 0,
        forall|i: int, j: int| 0 <= i < j < entries@.len() ==> #[trigger] entries@[i].0 < #[trigger] entries@[j].0,
    ensures
        r@ == released(entries@, old(refs)@),
        final(refs)@.len() == old(refs)@.len(),
        forall|id: usize|
            #![trigger final(refs)@[id as int]]
            id < old(refs)@.len() ==> if count_in(entries@, id) > 0 {
                final(refs)@[id as int] is Some && ref_value(final(refs)@, id) == dropped(
                    ref_value(old(refs)@, id),
                    count_in(entries@, id) as int,
                )
            } else {
                final(refs)@[id as int] == old(refs)@[id as int]
            },
{
    let ghost start = refs@;
    let mut out: Vec<usize> = Vec::new();
    let mut j: usize = 0;
    while j < entries.len()
        invariant
            j <= entries.len(),
            all_live(entries@, start),
            forall|i: int| 0 <= i < entries@.len() ==> #[trigger] entries@[i].1 != 0,
            forall|a: int, b: int| 0 <= a < b < entries@.len() ==> #[trigger] entries@[a].0 < #[trigger] entries@[b].0,
            refs@.len() == start.len(),
            out@ == released(entries@.take(j as int), start),
            forall|id: usize|
                #![trigger refs@[id as int]]
                id < start.len() ==> if count_in(entries@.take(j as int), id) > 0 {
                    refs@[id as int] is Some && ref_value(refs@, id) == dropped(
                        ref_value(start, id),
                        count_in(entries@.take(j as int), id) as int,
                    )
                } else {
                    refs@[id as int] == start[id as int]
                },
        decreases entries.len() - j,
    {
        let (id, c) = entries[j];
        let ghost prefix = entries@.take(j as int);
        let ghost next = entries@.take(j + 1);
        proof {
            assert(next.drop_last() =~= prefix);
            assert(entries@[j as int].0 < start.len() && start[id as int] is Some);
            assert forall|i: int| 0 <= i < prefix.len() implies #[trigger] prefix[i].0 != id by {
                assert(entries@[i].0 < entries@[j as int].0);
            }
            lemma_count_in_absent(prefix, id);
            assert(refs@[id as int] == start[id as int]);
        }
        let mut slot: Option<RefCount> = None;
        std::mem::swap(&mut slot, &mut refs[id]);
        let mut rc = slot.unwrap();
        let last = rc.decrement_many(c);
        refs.set(id, Some(rc));
        if last {
            out.push(id);
        }
        j = j + 1;
    }
    proof {
        assert(entries@.take(j as int) =~= entries@);
    }
    out
}

proof fn lemma_count_in_nonzero(counts: Seq<usize>, n: int, id: usize)
    requires
        0 <= n <= counts.len(),
        counts.len() <= usize::MAX,
    ensures
        count_in(nonzero_upto(counts, n), id) == if id < n {
            counts[id as int] as nat
        } else {
            0nat
        },
    decreases n,
{
    if n > 0 {
        lemma_count_in_nonzero(counts, n - 1, id);
        if counts[n - 1] != 0 {
            let prev = nonzero_upto(counts, n - 1);
            assert(nonzero_upto(counts, n).drop_last() =~= prev);
        }
    }
}

/// The deletion events of buffers, textures, descriptor sets, samplers and pipelines.
pub open spec fn buffer_events(ids: Seq<usize>) -> Seq<DeletionEvent> {
    ids.map_values(|id: usize| DeletionEvent::Buffer(id))
}

pub open spec fn texture_events(ids: Seq<usize>) -> Seq<DeletionEvent> {
    ids.map_values(|id: usize| DeletionEvent::Texture(id))
}

pub open spec fn set_events(ids: Seq<usize>) -> Seq<DeletionEvent> {
    ids.map_values(|id: usize| DeletionEvent::DescriptorSet(id))
}

pub open spec fn sampler_events(ids: Seq<usize>) -> Seq<DeletionEvent> {
    ids.map_values(|id: usize| DeletionEvent::Sampler(id))
}

pub open spec fn pipeline_events(ids: Seq<usize>) -> Seq<DeletionEvent> {
    ids.map_values(|id: usize| DeletionEvent::Pipeline(id))
}

/// Every id with a non-zero count names a live resource of `refs`.
pub open spec fn counted_live(set: CountingSet, refs: Seq<Option<RefCount>>) -> bool {
    forall|id: usize| #[trigger] set.count(id) > 0 ==> id < refs.len() && refs[id as int] is Some
}

/// After dropping the references counted in `set`, each resource's count is lowered by its
/// count in `set`.
pub open spec fn dropped_by(set: CountingSet, before: Seq<Option<RefCount>>, after: Seq<Option<RefCount>>) -> bool {
    &&& after.len() == before.len()
    &&& forall|id: usize|
        #![trigger after[id as int]]
        id < before.len() ==> if set.count(id) > 0 {
            after[id as int] is Some && ref_value(after, id) == dropped(
                ref_value(before, id),
                set.count(id) as int,
            )
        } else {
            after[id as int] == before[id as int]
        }
}

/// Drains `set` and drops the references it counted; returns the ids of the resources
/// that lost their last reference, in increasing order.
fn release_set(set: &mut CountingSet, refs: &mut Vec<Option<RefCount>>) -> (r: Vec<usize>)
    requires
        counted_live(*old(set), old(refs)@),
    ensures
        r@ == released(old(set).entries(), old(refs)@),
        dropped_by(*old(set), old(refs)@, final(refs)@),
        forall|id: usize| #[trigger] final(set).count(id) == 0,
{
    proof {
        set.lemma_entries();
        assert(set.counts@.len() == set.counts.len());
        assert forall|id: usize| #[trigger] count_in(set.entries(), id) == set.count(id) by {
            lemma_count_in_nonzero(set.counts@, set.counts@.len() as int, id);
        }
    }
    proof {
        let e = set.entries();
        assert forall|i: int| 0 <= i < e.len() implies #[trigger] e[i].0 < refs@.len() && refs@[e[i].0 as int] is Some by {
            assert(e[i].1 == set.count(e[i].0) && e[i].1 != 0);
        }
    }
    let entries = set.drain();
    release_refs(entries.as_slice(), refs)
}

/// The resources that recorded GPU work keeps alive until the work completes, each with
/// how often it was used.
#[derive(Clone, Debug)]
pub struct TemporaryResources {
    pub descriptor_sets: CountingSet,
    pub buffers: CountingSet,
    pub textures: CountingSet,
    pub pipelines: CountingSet,
    pub samplers: CountingSet,
}

impl TemporaryResources {
    /// Creates a collection that keeps nothing alive.
    pub fn new() -> (r: Self)
        ensures
            forall|id: usize| #[trigger] r.buffers.count(id) == 0 && r.textures.count(id) == 0
                && r.pipelines.count(id) == 0 && r.descriptor_sets.count(id) == 0
                && r.samplers.count(id) == 0,
    {
        Self {
            descriptor_sets: CountingSet::new(),
            buffers: CountingSet::new(),
            textures: CountingSet::new(),
            pipelines: CountingSet::new(),
            samplers: CountingSet::new(),
        }
    }

    /// Keeps the resources that the work of `cmd` uses alive.
    pub fn retain(&mut self, cmd: &Command)
        requires
            forall|id: usize| #[trigger] old(self).buffers.count(id) + retained_buffers(*cmd).len() <= usize::MAX,
            forall|id: usize| #[trigger] old(self).textures.count(id) + retained_textures(*cmd).len() <= usize::MAX,
            forall|id: usize| #[trigger] old(self).pipelines.count(id) + retained_pipelines(*cmd).len() <= usize::MAX,
            forall|id: usize| #[trigger] old(self).descriptor_sets.count(id) + retained_sets(*cmd).len() <= usize::MAX,
        ensures
            forall|id: usize| #[trigger] final(self).buffers.count(id) == old(self).buffers.count(id) + occurrences(retained_buffers(*cmd), id),
            forall|id: usize| #[trigger] final(self).textures.count(id) == old(self).textures.count(id) + occurrences(retained_textures(*cmd), id),
            forall|id: usize| #[trigger] final(self).pipelines.count(id) == old(self).pipelines.count(id) + occurrences(retained_pipelines(*cmd), id),
            forall|id: usize| #[trigger] final(self).descriptor_sets.count(id) == old(self).descriptor_sets.count(id) + occurrences(retained_sets(*cmd), id),
            forall|id: usize| #[trigger] final(self).samplers.count(id) == old(self).samplers.count(id),
    {
        let (buffers, textures, pipelines, sets) = retained_ids(cmd);
        self.buffers.insert_all(buffers.as_slice());
        self.textures.insert_all(textures.as_slice());
        self.pipelines.insert_all(pipelines.as_slice());
        self.descriptor_sets.insert_all(sets.as_slice());
    }

    /// Drops the references that the completed work held and returns the resources that
    /// lost their last reference: buffers, then textures, descriptor sets, samplers and
    /// pipelines.
    pub fn destroy(&mut self, refs: &mut ResourceRefs) -> (events: Vec<DeletionEvent>)
        requires
            counted_live(old(self).buffers, old(refs).buffers@),
            counted_live(old(self).textures, old(refs).textures@),
            counted_live(old(self).descriptor_sets, old(refs).descriptor_sets@),
            counted_live(old(self).samplers, old(refs).samplers@),
            counted_live(old(self).pipelines, old(refs).pipelines@),
        ensures
            events@ == buffer_events(released(old(self).buffers.entries(), old(refs).buffers@))
                + texture_events(released(old(self).textures.entries(), old(refs).textures@))
                + set_events(released(old(self).descriptor_sets.entries(), old(refs).descriptor_sets@))
                + sampler_events(released(old(self).samplers.entries(), old(refs).samplers@))
                + pipeline_events(released(old(self).pipelines.entries(), old(refs).pipelines@)),
            dropped_by(old(self).buffers, old(refs).buffers@, final(refs).buffers@),
            dropped_by(old(self).textures, old(refs).textures@, final(refs).textures@),
            dropped_by(old(self).descriptor_sets, old(refs).descriptor_sets@, final(refs).descriptor_sets@),
            dropped_by(old(self).samplers, old(refs).samplers@, final(refs).samplers@),
            dropped_by(old(self).pipelines, old(refs).pipelines@, final(refs).pipelines@),
            forall|id: usize| #[trigger] final(self).buffers.count(id) == 0 && final(self).textures.count(id) == 0
                && final(self).pipelines.count(id) == 0 && final(self).descriptor_sets.count(id) == 0
                && final(self).samplers.count(id) == 0,
    {
        let buffers = release_set(&mut self.buffers, &mut refs.buffers);
        let textures = release_set(&mut self.textures, &mut refs.textures);
        let sets = release_set(&mut self.descriptor_sets, &mut refs.descriptor_sets);
        let samplers = release_set(&mut self.samplers, &mut refs.samplers);
        let pipelines = release_set(&mut self.pipelines, &mut refs.pipelines);
        let mut events: Vec<DeletionEvent> = Vec::new();
        let mut i: usize = 0;
        while i < buffers.len()
            invariant
                i <= buffers.len(),
                events@ == buffer_events(buffers@.take(i as int)),
            decreases buffers.len() - i,
        {
            proof {
                assert(buffer_events(buffers@.take(i + 1)) =~= buffer_events(buffers@.take(i as int)).push(DeletionEvent::Buffer(buffers@[i as int])));
            }
            events.push(DeletionEvent::Buffer(buffers[i]));
            i = i + 1;
        }
        proof {
            assert(buffers@.take(i as int) =~= buffers@);
        }
        let ghost e1 = events@;
        let mut i: usize = 0;
        while i < textures.len()
            invariant
                i <= textures.len(),
                events@ == e1 + texture_events(textures@.take(i as int)),
            decreases textures.len() - i,
        {
            proof {
                assert(texture_events(textures@.take(i + 1)) =~= texture_events(textures@.take(i as int)).push(DeletionEvent::Texture(textures@[i as int])));
            }
            events.push(DeletionEvent::Texture(textures[i]));
            i = i + 1;
        }
        proof {
            assert(textures@.take(i as int) =~= textures@);
        }
        let ghost e2 = events@;
        let mut i: usize = 0;
        while i < sets.len()
            invariant
                i <= sets.len(),
                events@ == e2 + set_events(sets@.take(i as int)),
            decreases sets.len() - i,
        {
            proof {
                assert(set_events(sets@.take(i + 1)) =~= set_events(sets@.take(i as int)).push(DeletionEvent::DescriptorSet(sets@[i as int])));
            }
            events.push(DeletionEvent::DescriptorSet(sets[i]));
            i = i + 1;
        }
        proof {
            assert(sets@.take(i as int) =~= sets@);
        }
        let ghost e3 = events@;
        let mut i: usize = 0;
        while i < samplers.len()
            invariant
                i <= samplers.len(),
                events@ == e3 + sampler_events(samplers@.take(i as int)),
            decreases samplers.len() - i,
        {
            proof {
                assert(sampler_events(samplers@.take(i + 1)) =~= sampler_events(samplers@.take(i as int)).push(DeletionEvent::Sampler(samplers@[i as int])));
            }
            events.push(DeletionEvent::Sampler(samplers[i]));
            i = i + 1;
        }
        proof {
            assert(samplers@.take(i as int) =~= samplers@);
        }
        let ghost e4 = events@;
        let mut i: usize = 0;
        while i < pipelines.len()
            invariant
                i <= pipelines.len(),
                events@ == e4 + pipeline_events(pipelines@.take(i as int)),
            decreases pipelines.len() - i,
        {
            proof {
                assert(pipeline_events(pipelines@.take(i + 1)) =~= pipeline_events(pipelines@.take(i as int)).push(DeletionEvent::Pipeline(pipelines@[i as int])));
            }
            events.push(DeletionEvent::Pipeline(pipelines[i]));
            i = i + 1;
        }
        proof {
            assert(pipelines@.take(i as int) =~= pipelines@);
        }
        events
    }
}

proof fn lemma_released(entries: Seq<(usize, usize)>, refs: Seq<Option<RefCount>>, id: usize)
    requires
        forall|a: int, b: int| 0 <= a < b < entries.len() ==> #[trigger] entries[a].0 < #[trigger] entries[b].0,
        forall|i: int| 0 <= i < entries.len() ==> #[trigger] entries[i].1 != 0,
    ensures
        released(entries, refs).contains(id) <==> (count_in(entries, id) > 0 && ref_value(refs, id) == count_in(entries, id)),
    decreases entries.len(),
{
    if entries.len() > 0 {
        let prev = entries.drop_last();
        lemma_released(prev, refs, id);
        let (last, c) = entries.last();
        if last == id {
            assert forall|i: int| 0 <= i < prev.len() implies #[trigger] prev[i].0 != id by {
                assert(entries[i].0 < entries[entries.len() - 1].0);
            }
            lemma_count_in_absent(prev, id);
            if ref_value(refs, id) == c {
                assert(released(entries, refs).last() == id);
            }
            assert(!released(prev, refs).contains(id));
        } else if ref_value(refs, last) == c {
            let r = released(entries, refs);
            assert(r == released(prev, refs).push(last));
            if released(prev, refs).contains(id) {
                let k = choose|k: int| 0 <= k < released(prev, refs).len() && released(prev, refs)[k] == id;
                assert(r[k] == id);
            }
            if r.contains(id) {
                let k = choose|k: int| 0 <= k < r.len() && r[k] == id;
                assert(k < released(prev, refs).len());
                assert(released(prev, refs)[k] == id);
            }
        }
    }
}

/// The work kept a resource alive with some references; releasing them deletes the
/// resource exactly when those were all the references it had left.
pub proof fn law_release_deletes_at_last_reference(set: CountingSet, refs: Seq<Option<RefCount>>, id: usize)
    ensures
        released(set.entries(), refs).contains(id) <==> (set.count(id) > 0 && ref_value(refs, id)
            == set.count(id)),
{
    set.lemma_entries();
    assert(set.counts@.len() == set.counts.len());
    lemma_count_in_nonzero(set.counts@, set.counts@.len() as int, id);
    let e = set.entries();
    assert forall|i: int| 0 <= i < e.len() implies #[trigger] e[i].1 != 0 by {
        assert(e[i].1 == set.count(e[i].0) && e[i].1 != 0);
    }
    lemma_released(e, refs, id);
}

} // verus!
