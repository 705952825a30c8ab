use vstd::prelude::*;

use crate::access::AccessFlags;
use crate::accesses::{
    combined, lookup, record, summarizes, unique_ids, AccessEvent, BufferId, DescriptorSetId,
    PipelineId, Resource, ResourceId, SamplerId, TextureId, TextureMip,
};
use crate::backend::{ImageDataLayout, IndexFormat, LoadOp, ShaderStages, StoreOp, TextureFormat};
use crate::binding_map::BindingMap;

verus! {

/// A range of mip levels of a texture.
#[derive(Copy, Clone, Debug, PartialEq, Eq)]
pub struct RawTextureView {
    pub texture: TextureId,
    pub base_mip_level: u32,
    pub mip_levels: u32,
}

impl RawTextureView {
    /// The last mip level of the view fits in `u32`.
    pub open spec fn mips_fit(&self) -> bool {
        self.base_mip_level + self.mip_levels <= u32::MAX
    }

    /// The mip levels of the view.
    pub fn mips(&self) -> (r: core::ops::Range<u32>)
        requires
            self.mips_fit(),
        ensures
            r.start == self.base_mip_level,
            r.end == self.base_mip_level + self.mip_levels,
    {
        self.base_mip_level..self.base_mip_level + self.mip_levels
    }
}

/// A resource bound to a descriptor set.
#[derive(Clone, Debug)]
pub enum DescriptorSetResource {
    UniformBuffer(BufferId),
    StorageBuffer(BufferId),
    SampledTexture(Vec<RawTextureView>),
    StorageTexture(Vec<RawTextureView>),
    Sampler(SamplerId),
}

/// The resources that commands refer to by id: the binding maps of the pipelines and the
/// bindings of the descriptor sets, indexed by id, `None` for a vacant id.
#[derive(Clone, Debug)]
pub struct ResourceTables {
    pub pipelines: Vec<Option<BindingMap>>,
    pub descriptor_sets: Vec<Option<Vec<(u32, DescriptorSetResource)>>>,
}

impl ResourceTables {
    /// A pipeline with this id exists.
    pub open spec fn has_pipeline(&self, id: PipelineId) -> bool {
        id < self.pipelines@.len() && self.pipelines@[id as int] is Some
    }

    /// The binding map of the pipeline `id`.
    pub open spec fn pipeline(&self, id: PipelineId) -> BindingMap {
        self.pipelines@[id as int]->Some_0
    }

    /// A descriptor set with this id exists.
    pub open spec fn has_set(&self, id: DescriptorSetId) -> bool {
        id < self.descriptor_sets@.len() && self.descriptor_sets@[id as int] is Some
    }

    /// The bindings of the descriptor set `id`, in order.
    pub open spec fn set(&self, id: DescriptorSetId) -> Seq<(u32, DescriptorSetResource)> {
        self.descriptor_sets@[id as int]->Some_0@
    }
}

/// The events of accessing every mip level of a view with `a`.
pub open spec fn view_events(v: RawTextureView, a: u32) -> Seq<AccessEvent> {
    Seq::new(
        v.mip_levels as nat,
        |k: int|
            (
                ResourceId::Texture(
                    TextureMip { id: v.texture, mip_level: (v.base_mip_level + k) as u32 },
                ),
                a,
            ),
    )
}

/// The events of accessing every mip level of every view with `a`.
pub open spec fn views_events(vs: Seq<RawTextureView>, a: u32) -> Seq<AccessEvent>
    decreases vs.len(),
{
    if vs.len() == 0 {
        Seq::empty()
    } else {
        views_events(vs.drop_last(), a) + view_events(vs.last(), a)
    }
}

/// Every view's last mip level fits in `u32`.
pub open spec fn views_fit(vs: Seq<RawTextureView>) -> bool {
    forall|i: int| 0 <= i < vs.len() ==> #[trigger] vs[i].mips_fit()
}

/// The events of a bound resource whose binding the pipeline accesses with `access`.
pub open spec fn binding_events(r: DescriptorSetResource, access: Option<u32>) -> Seq<AccessEvent> {
    match access {
        None => Seq::empty(),
        Some(a) => match r {
            DescriptorSetResource::UniformBuffer(b) => seq![(ResourceId::Buffer(b), a)],
            DescriptorSetResource::StorageBuffer(b) => seq![(ResourceId::Buffer(b), a)],
            DescriptorSetResource::SampledTexture(vs) => views_events(vs@, a),
            DescriptorSetResource::StorageTexture(vs) => views_events(vs@, a),
            DescriptorSetResource::Sampler(_) => Seq::empty(),
        },
    }
}

/// The events of binding a descriptor set with these bindings at `group` of a pipeline
/// with the binding map `pm`.
pub open spec fn set_events(b: Seq<(u32, DescriptorSetResource)>, pm: BindingMap, group: u32) -> Seq<
    AccessEvent,
>
    decreases b.len(),
{
    if b.len() == 0 {
        Seq::empty()
    } else {
        set_events(b.drop_last(), pm, group) + binding_events(
            b.last().1,
            pm.binding(group, b.last().0),
        )
    }
}

/// Every texture view bound in the set has its last mip level in `u32`.
pub open spec fn set_fits(b: Seq<(u32, DescriptorSetResource)>) -> bool {
    forall|i: int|
        0 <= i < b.len() ==> match #[trigger] b[i].1 {
            DescriptorSetResource::SampledTexture(vs) => views_fit(vs@),
            DescriptorSetResource::StorageTexture(vs) => views_fit(vs@),
            _ => true,
        }
}

/// While recording a pass: the current pipeline, the descriptor sets already bound, and
/// the access events so far.
pub type PassState = (Option<PipelineId>, Set<DescriptorSetId>, Seq<AccessEvent>);

/// The state before any command of a pass.
pub open spec fn initial_pass_state() -> PassState {
    (None, Set::empty(), Seq::empty())
}

/// Binding descriptor set `id` at `group`: without a pipeline, or when the set was bound
/// before, nothing changes; otherwise the set's bindings are accessed as the pipeline
/// accesses them.
pub open spec fn bind_step(st: PassState, group: u32, id: DescriptorSetId, res: ResourceTables) -> PassState {
    match st.0 {
        None => st,
        Some(p) => if st.1.contains(id) {
            st
        } else {
            (st.0, st.1.insert(id), st.2 + set_events(res.set(id), res.pipeline(p), group))
        },
    }
}

/// A descriptor set that `bind_step` reads exists and its views fit.
pub open spec fn bind_ok(st: PassState, id: DescriptorSetId, res: ResourceTables) -> bool {
    (st.0 is Some && !st.1.contains(id)) ==> res.has_set(id) && set_fits(res.set(id))
}

/// A draw call.
#[derive(Clone, Debug)]
pub enum DrawCall {
    Draw(Draw),
    DrawIndexed(DrawIndexed),
    DrawIndirect(DrawIndirect),
    DrawIndexedIndirect(DrawIndexedIndirect),
    DrawMeshTasks(DrawMeshTasks),
}

/// A half-open range `start..end` of vertices, indices or instances.
#[derive(Copy, Clone, Debug, PartialEq, Eq)]
pub struct DrawRange {
    pub start: u32,
    pub end: u32,
}

/// A non-indexed draw.
#[derive(Clone, Debug)]
pub struct Draw {
    pub vertices: DrawRange,
    pub instances: DrawRange,
}

/// An indexed draw.
#[derive(Clone, Debug)]
pub struct DrawIndexed {
    pub indices: DrawRange,
    pub vertex_offset: i32,
    pub instances: DrawRange,
}

/// A draw whose arguments are read from a buffer.
#[derive(Clone, Debug)]
pub struct DrawIndirect {
    pub buffer: BufferId,
    pub offset: u64,
    pub count: u32,
}

/// An indexed draw whose arguments are read from a buffer.
#[derive(Clone, Debug)]
pub struct DrawIndexedIndirect {
    pub buffer: BufferId,
    pub offset: u64,
    pub count: u32,
}

/// A mesh shading dispatch.
#[derive(Copy, Clone, Debug)]
pub struct DrawMeshTasks {
    pub x: u32,
    pub y: u32,
    pub z: u32,
}

/// A command recorded inside a render pass.
#[derive(Clone, Debug)]
pub enum DrawCmd {
    SetPipeline(PipelineId),
    SetDescriptorSet(u32, DescriptorSetId),
    SetIndexBuffer(BufferId, IndexFormat),
    SetPushConstants(Vec<u8>, ShaderStages, u32),
    Draw(DrawCall),
}

/// A command recorded inside a compute pass.
#[derive(Debug)]
pub enum ComputeCommand {
    SetPipeline(PipelineId),
    SetDescriptorSet(u32, DescriptorSetId),
    SetPushConstants(Vec<u8>, ShaderStages, u32),
    Dispatch(u32, u32, u32),
}

/// The effect of one draw command on the pass state.
pub open spec fn draw_step(st: PassState, c: DrawCmd, res: ResourceTables) -> PassState {
    match c {
        DrawCmd::SetPipeline(id) => (Some(id), st.1, st.2),
        DrawCmd::SetIndexBuffer(b, _) => (st.0, st.1, st.2.push((ResourceId::Buffer(b), 0x20u32))),
        DrawCmd::SetDescriptorSet(group, id) => bind_step(st, group, id, res),
        DrawCmd::SetPushConstants(_, _, _) => st,
        DrawCmd::Draw(call) => match call {
            DrawCall::DrawIndirect(d) => (
                st.0,
                st.1,
                st.2.push((ResourceId::Buffer(d.buffer), 0x40u32)),
            ),
            DrawCall::DrawIndexedIndirect(d) => (
                st.0,
                st.1,
                st.2.push((ResourceId::Buffer(d.buffer), 0x40u32)),
            ),
            _ => st,
        },
    }
}

/// The pass state after the first `n` draw commands.
pub open spec fn draw_state(cmds: Seq<DrawCmd>, res: ResourceTables, n: int) -> PassState
    decreases n,
{
    if n <= 0 {
        initial_pass_state()
    } else {
        draw_step(draw_state(cmds, res, n - 1), cmds[n - 1], res)
    }
}

/// Every pipeline that the draw commands set exists, and every descriptor set they bind
/// while a pipeline is set exists with fitting views.
pub open spec fn draw_cmds_ok(cmds: Seq<DrawCmd>, res: ResourceTables) -> bool {
    forall|i: int|
        0 <= i < cmds.len() ==> match #[trigger] cmds[i] {
            DrawCmd::SetPipeline(id) => res.has_pipeline(id),
            DrawCmd::SetDescriptorSet(_, id) => bind_ok(draw_state(cmds, res, i), id, res),
            _ => true,
        }
}

/// The effect of one compute command on the pass state.
pub open spec fn compute_step(st: PassState, c: ComputeCommand, res: ResourceTables) -> PassState {
    match c {
        ComputeCommand::SetPipeline(id) => (Some(id), st.1, st.2),
        ComputeCommand::SetDescriptorSet(group, id) => bind_step(st, group, id, res),
        _ => st,
    }
}

/// The pass state after the first `n` compute commands.
pub open spec fn compute_state(cmds: Seq<ComputeCommand>, res: ResourceTables, n: int) -> PassState
    decreases n,
{
    if n <= 0 {
        initial_pass_state()
    } else {
        compute_step(compute_state(cmds, res, n - 1), cmds[n - 1], res)
    }
}

/// Every pipeline that the compute commands set exists, and every descriptor set they bind
/// while a pipeline is set exists with fitting views.
pub open spec fn compute_cmds_ok(cmds: Seq<ComputeCommand>, res: ResourceTables) -> bool {
    forall|i: int|
        0 <= i < cmds.len() ==> match #[trigger] cmds[i] {
            ComputeCommand::SetPipeline(id) => res.has_pipeline(id),
            ComputeCommand::SetDescriptorSet(_, id) => bind_ok(compute_state(cmds, res, i), id, res),
            _ => true,
        }
}

/// A color attachment of a render pass; only whether it is loaded or cleared is kept.
#[derive(Clone, Debug)]
pub struct ColorAttachmentOwned {
    pub target: RawTextureView,
    pub load_op: LoadOp<()>,
    pub store_op: StoreOp,
}

/// The depth attachment of a render pass; only whether it is loaded or cleared is kept.
#[derive(Clone, Debug)]
pub struct DepthStencilAttachmentOwned {
    pub texture: TextureId,
    pub load_op: LoadOp<()>,
    pub store_op: StoreOp,
}

/// The access of a color attachment: read when loaded, written when stored.
pub open spec fn attachment_flags(a: ColorAttachmentOwned) -> u32 {
    let f = if a.load_op is Load {
        0u32 | 0x4u32
    } else {
        0u32
    };
    if a.store_op is Store {
        f | 0x8u32
    } else {
        f
    }
}

/// The events of accessing every mip level of every color attachment.
pub open spec fn attachments_events(atts: Seq<ColorAttachmentOwned>) -> Seq<AccessEvent>
    decreases atts.len(),
{
    if atts.len() == 0 {
        Seq::empty()
    } else {
        attachments_events(atts.drop_last()) + view_events(
            atts.last().target,
            attachment_flags(atts.last()),
        )
    }
}

/// A render pass.
#[derive(Clone, Debug)]
pub struct RenderPassCmd {
    pub name: &'static str,
    pub color_attachments: Vec<ColorAttachmentOwned>,
    pub depth_stencil_attachment: Option<DepthStencilAttachmentOwned>,
    pub cmds: Vec<DrawCmd>,
}

/// A compute pass.
#[derive(Debug)]
pub struct ComputePassCmd {
    pub name: &'static str,
    pub cmds: Vec<ComputeCommand>,
}

/// The access events of a render pass: its draw commands, then its color attachments, then
/// its depth attachment, which is read and written at mip level 0.
pub open spec fn render_pass_events(cmd: RenderPassCmd, res: ResourceTables) -> Seq<AccessEvent> {
    draw_state(cmd.cmds@, res, cmd.cmds@.len() as int).2 + attachments_events(
        cmd.color_attachments@,
    ) + match cmd.depth_stencil_attachment {
        Some(d) => seq![
            (ResourceId::Texture(TextureMip { id: d.texture, mip_level: 0 }), 0x100u32 | 0x80u32),
        ],
        None => Seq::empty(),
    }
}

/// The access events of a compute pass.
pub open spec fn compute_pass_events(cmd: ComputePassCmd, res: ResourceTables) -> Seq<AccessEvent> {
    compute_state(cmd.cmds@, res, cmd.cmds@.len() as int).2
}

/// Copies `count` bytes of staging memory into a buffer.
#[derive(Copy, Clone, Debug)]
pub struct WriteBuffer {
    pub buffer: BufferId,
    /// Offset in the buffer object.
    pub offset: u64,
    /// Starting index into the shared staging memory pool.
    pub staging_memory_offset: usize,
    /// Number of bytes to copy.
    pub count: usize,
}

/// Copies bytes between buffers.
#[derive(Copy, Clone, Debug)]
pub struct CopyBufferToBuffer {
    pub src: BufferId,
    pub src_offset: u64,
    pub dst: BufferId,
    pub dst_offset: u64,
    pub count: u64,
}

/// Copies bytes from a buffer into a texture mip level.
#[derive(Copy, Clone, Debug)]
pub struct CopyBufferToTexture {
    pub src: BufferId,
    pub src_offset: u64,
    pub layout: ImageDataLayout,
    pub dst: TextureId,
    pub dst_mip_level: u32,
}

/// Copies one texture mip level into another.
#[derive(Copy, Clone, Debug)]
pub struct CopyTextureToTexture {
    pub src: TextureId,
    pub src_mip_level: u32,
    pub dst: TextureId,
    pub dst_mip_level: u32,
}

/// Makes a texture mip level available for the given access.
#[derive(Copy, Clone, Debug)]
pub struct TextureTransition {
    pub texture: TextureMip,
    pub access: AccessFlags,
}

/// The description of a buffer to create.
#[derive(Copy, Clone, Debug)]
pub struct BufferDescriptor {
    pub size: u64,
    pub usage: u32,
    pub flags: u32,
}

/// The description of a texture to create.
#[derive(Copy, Clone, Debug)]
pub struct TextureDescriptor {
    pub width: u32,
    pub height: u32,
    pub mip_levels: u32,
    pub format: TextureFormat,
    pub usage: u32,
}

/// Creates a buffer.
#[derive(Copy, Clone, Debug)]
pub struct CreateBuffer {
    pub id: BufferId,
    pub descriptor: BufferDescriptor,
}

/// Creates a texture.
#[derive(Copy, Clone, Debug)]
pub struct CreateTexture {
    pub id: TextureId,
    pub descriptor: TextureDescriptor,
}

/// Clears a texture mip level to a value.
#[derive(Copy, Clone, Debug)]
pub struct ClearTexture {
    pub id: TextureId,
    pub mip_level: u32,
    pub value: [u32; 4],
}

/// A command recorded for the GPU.
#[derive(Debug)]
pub enum Command {
    WriteBuffer(WriteBuffer),
    CopyBufferToBuffer(CopyBufferToBuffer),
    CopyBufferToTexture(CopyBufferToTexture),
    CopyTextureToTexture(CopyTextureToTexture),
    TextureTransition(TextureTransition),
    RenderPass(RenderPassCmd),
    ComputePass(ComputePassCmd),
    CreateBuffer(CreateBuffer),
    CreateTexture(CreateTexture),
    CreateDescriptorSet(DescriptorSetId),
    DestoryBuffer(BufferId),
    DestroyTexture(TextureId),
    DestroyDescriptorSet(DescriptorSetId),
    ClearTexture(ClearTexture),
}

/// The texture mip level resource.
pub open spec fn tex(id: TextureId, mip_level: u32) -> ResourceId {
    ResourceId::Texture(TextureMip { id, mip_level })
}

/// The accesses of a command that is not a pass, in the order they are listed.
/// Creating a resource touches it with no flags so that the creation is ordered before any
/// use; destroying resources and descriptor sets touch nothing.
pub open spec fn listed_accesses(cmd: Command) -> Seq<AccessEvent> {
    match cmd {
        Command::WriteBuffer(c) => seq![(ResourceId::Buffer(c.buffer), 0x2u32)],
        Command::CopyBufferToBuffer(c) => if c.src == c.dst {
            seq![(ResourceId::Buffer(c.src), 0x1u32 | 0x2u32)]
        } else {
            seq![(ResourceId::Buffer(c.src), 0x1u32), (ResourceId::Buffer(c.dst), 0x2u32)]
        },
        Command::CopyBufferToTexture(c) => seq![
            (ResourceId::Buffer(c.src), 0x1u32),
            (tex(c.dst, c.dst_mip_level), 0x2u32),
        ],
        Command::CopyTextureToTexture(c) => if c.src == c.dst && c.src_mip_level == c.dst_mip_level {
            seq![(tex(c.src, c.src_mip_level), 0x1u32 | 0x2u32)]
        } else {
            seq![(tex(c.src, c.src_mip_level), 0x1u32), (tex(c.dst, c.dst_mip_level), 0x2u32)]
        },
        Command::TextureTransition(c) => seq![(ResourceId::Texture(c.texture), c.access.value())],
        Command::ClearTexture(c) => seq![(tex(c.id, c.mip_level), 0x2u32)],
        Command::CreateBuffer(c) => seq![(ResourceId::Buffer(c.id), 0u32)],
        Command::CreateTexture(c) => Seq::new(
            c.descriptor.mip_levels as nat,
            |k: int| (tex(c.id, k as u32), 0u32),
        ),
        _ => Seq::empty(),
    }
}

/// The accesses appended for `cmd` are `added`.
pub open spec fn accesses_of(cmd: Command, res: ResourceTables, added: Seq<Resource<ResourceId>>) -> bool {
    match cmd {
        Command::RenderPass(c) => summarizes(added, render_pass_events(c, res)),
        Command::ComputePass(c) => summarizes(added, compute_pass_events(c, res)),
        _ => {
            &&& added.len() == listed_accesses(cmd).len()
            &&& forall|i: int|
                0 <= i < added.len() ==> (#[trigger] added[i].id, added[i].access.value())
                    == listed_accesses(cmd)[i]
        },
    }
}

/// What `write_accesses` needs to read `cmd` without failing.
pub open spec fn command_ok(cmd: Command, res: ResourceTables) -> bool {
    match cmd {
        Command::RenderPass(c) => {
            &&& draw_cmds_ok(c.cmds@, res)
            &&& forall|i: int|
                0 <= i < c.color_attachments@.len() ==> (
                #[trigger] c.color_attachments@[i]).target.mips_fit()
        },
        Command::ComputePass(c) => compute_cmds_ok(c.cmds@, res),
        _ => true,
    }
}


/// Returns `true` if `v` holds `x`.
fn contains_id(v: &Vec<DescriptorSetId>, x: DescriptorSetId) -> (r: bool)
    ensures
        r == v@.contains(x),
{
    let mut i: usize = 0;
    while i < v.len()
        invariant
            i <= v@.len(),
            forall|k: int| 0 <= k < i ==> v@[k] != x,
        decreases v@.len() - i,
    {
        if v[i] == x {
            return true;
        }
        i = i + 1;
    }
    false
}

/// Records the events of accessing every mip level of `view` with `a`.
fn record_view(
    acc: &mut Vec<Resource<ResourceId>>,
    view: &RawTextureView,
    a: AccessFlags,
    Ghost(ev): Ghost<Seq<AccessEvent>>,
)
    requires
        summarizes(old(acc)@, ev),
        view.mips_fit(),
    ensures
        summarizes(final(acc)@, ev + view_events(*view, a.value())),
{
    let ghost ve = view_events(*view, a.value());
    let mips = view.mips();
    let mut mip = mips.start;
    proof {
        assert(ev + ve.take(0) =~= ev);
    }
    while mip < mips.end
        invariant
            view.base_mip_level <= mip <= view.base_mip_level + view.mip_levels,
            mips.end == view.base_mip_level + view.mip_levels,
            ve == view_events(*view, a.value()),
            summarizes(acc@, ev + ve.take(mip - view.base_mip_level)),
        decreases mips.end - mip,
    {
        let ghost k = mip - view.base_mip_level;
        record(
            acc,
            ResourceId::Texture(TextureMip { id: view.texture, mip_level: mip }),
            a,
            Ghost(ev + ve.take(k)),
        );
        proof {
            assert((ev + ve.take(k)).push(ve[k]) =~= ev + ve.take(k + 1));
        }
        mip = mip + 1;
    }
    proof {
        assert(ve.take(view.mip_levels as int) =~= ve);
    }
}

/// Records the events of accessing every mip level of every view in `views` with `a`.
fn record_views(
    acc: &mut Vec<Resource<ResourceId>>,
    views: &Vec<RawTextureView>,
    a: AccessFlags,
    Ghost(ev): Ghost<Seq<AccessEvent>>,
)
    requires
        summarizes(old(acc)@, ev),
        views_fit(views@),
    ensures
        summarizes(final(acc)@, ev + views_events(views@, a.value())),
{
    let mut t: usize = 0;
    proof {
        assert(views@.take(0) =~= Seq::<RawTextureView>::empty());
        assert(ev + views_events(views@.take(0), a.value()) =~= ev);
    }
    while t < views.len()
        invariant
            t <= views@.len(),
            views_fit(views@),
            summarizes(acc@, ev + views_events(views@.take(t as int), a.value())),
        decreases views@.len() - t,
    {
        let ghost before = ev + views_events(views@.take(t as int), a.value());
        assert(views@[t as int].mips_fit());
        record_view(acc, &views[t], a, Ghost(before));
        proof {
            let tk = views@.take(t + 1);
            assert(tk.drop_last() =~= views@.take(t as int));
            assert(tk.last() == views@[t as int]);
            assert(before + view_events(views@[t as int], a.value()) =~= ev + views_events(
                tk,
                a.value(),
            ));
        }
        t = t + 1;
    }
    proof {
        assert(views@.take(views@.len() as int) =~= views@);
    }
}

/// Records the events of binding the descriptor set `set` at `group` of a pipeline with
/// binding map `pm`.
fn record_set(
    acc: &mut Vec<Resource<ResourceId>>,
    pm: &BindingMap,
    group: u32,
    set: &Vec<(u32, DescriptorSetResource)>,
    Ghost(ev): Ghost<Seq<AccessEvent>>,
)
    requires
        summarizes(old(acc)@, ev),
        set_fits(set@),
    ensures
        summarizes(final(acc)@, ev + set_events(set@, *pm, group)),
{
    let mut j: usize = 0;
    proof {
        assert(set@.take(0) =~= Seq::<(u32, DescriptorSetResource)>::empty());
        assert(ev + set_events(set@.take(0), *pm, group) =~= ev);
    }
    while j < set.len()
        invariant
            j <= set@.len(),
            set_fits(set@),
            summarizes(acc@, ev + set_events(set@.take(j as int), *pm, group)),
        decreases set@.len() - j,
    {
        let ghost before = ev + set_events(set@.take(j as int), *pm, group);
        let entry = &set[j];
        let access = pm.get(group, entry.0);
        let ghost be = binding_events(entry.1, pm.binding(group, entry.0));
        match access {
            None => {
                proof {
                    assert(be =~= Seq::<AccessEvent>::empty());
                    assert(before + be =~= before);
                }
            },
            Some(a) => {
                match &entry.1 {
                    DescriptorSetResource::UniformBuffer(b) => {
                        record(acc, ResourceId::Buffer(*b), a, Ghost(before));
                        proof {
                            assert(before.push((ResourceId::Buffer(*b), a.value())) =~= before + be);
                        }
                    },
                    DescriptorSetResource::StorageBuffer(b) => {
                        record(acc, ResourceId::Buffer(*b), a, Ghost(before));
                        proof {
                            assert(before.push((ResourceId::Buffer(*b), a.value())) =~= before + be);
                        }
                    },
                    DescriptorSetResource::SampledTexture(views) => {
                        assert(set_fits(set@));
                        assert(match set@[j as int].1 {
                            DescriptorSetResource::SampledTexture(vs) => views_fit(vs@),
                            DescriptorSetResource::StorageTexture(vs) => views_fit(vs@),
                            _ => true,
                        });
                        record_views(acc, views, a, Ghost(before));
                    },
                    DescriptorSetResource::StorageTexture(views) => {
                        assert(match set@[j as int].1 {
                            DescriptorSetResource::SampledTexture(vs) => views_fit(vs@),
                            DescriptorSetResource::StorageTexture(vs) => views_fit(vs@),
                            _ => true,
                        });
                        record_views(acc, views, a, Ghost(before));
                    },
                    DescriptorSetResource::Sampler(_) => {
                        proof {
                            assert(before + be =~= before);
                        }
                    },
                }
            },
        }
        proof {
            let tk = set@.take(j + 1);
            assert(tk.drop_last() =~= set@.take(j as int));
            assert(tk.last() == set@[j as int]);
            assert(before + be =~= ev + set_events(tk, *pm, group));
        }
        j = j + 1;
    }
    proof {
        assert(set@.take(set@.len() as int) =~= set@);
    }
}

/// Carries out `bind_step` for the pass state `st`, whose current pipeline is `pipeline` and
/// whose bound descriptor sets are those in `visited`.
fn record_bind(
    acc: &mut Vec<Resource<ResourceId>>,
    res: &ResourceTables,
    pipeline: Option<PipelineId>,
    visited: &mut Vec<DescriptorSetId>,
    group: u32,
    id: DescriptorSetId,
    Ghost(st): Ghost<PassState>,
)
    requires
        summarizes(old(acc)@, st.2),
        pipeline == st.0,
        forall|x: DescriptorSetId| #[trigger] old(visited)@.contains(x) == st.1.contains(x),
        st.0 matches Some(p) ==> res.has_pipeline(p),
        bind_ok(st, id, *res),
    ensures
        summarizes(final(acc)@, bind_step(st, group, id, *res).2),
        forall|x: DescriptorSetId|
            #[trigger] final(visited)@.contains(x) == bind_step(st, group, id, *res).1.contains(x),
{
    match pipeline {
        None => {},
        Some(p) => {
            if contains_id(visited, id) {
                return;
            }
            let ghost old_visited = visited@;
            visited.push(id);
            proof {
                assert forall|x: DescriptorSetId| #[trigger] visited@.contains(x) == st.1.insert(
                    id,
                ).contains(x) by {
                    if x != id && visited@.contains(x) {
                        let k = choose|k: int| 0 <= k < visited@.len() && visited@[k] == x;
                        assert(old_visited[k] == x);
                    }
                    if old_visited.contains(x) {
                        let k = choose|k: int| 0 <= k < old_visited.len() && old_visited[k] == x;
                        assert(visited@[k] == x);
                    }
                    if x == id {
                        assert(visited@[visited@.len() - 1] == id);
                    }
                }
            }
            let pm = match &res.pipelines[p] {
                Some(pm) => pm,
                None => {
                    proof {
                        assert(false);
                    }
                    return;
                },
            };
            let set = match &res.descriptor_sets[id] {
                Some(set) => set,
                None => {
                    proof {
                        assert(false);
                    }
                    return;
                },
            };
            record_set(acc, pm, group, set, Ghost(st.2));
        },
    }
}

/// Records the accesses of a render pass.
fn record_render_pass(acc: &mut Vec<Resource<ResourceId>>, res: &ResourceTables, cmd: &RenderPassCmd)
    requires
        old(acc)@.len() == 0,
        command_ok(Command::RenderPass(*cmd), *res),
    ensures
        summarizes(final(acc)@, render_pass_events(*cmd, *res)),
{
    let mut visited: Vec<DescriptorSetId> = Vec::new();
    let mut pipeline: Option<PipelineId> = None;
    let ghost cmds = cmd.cmds@;
    let mut i: usize = 0;
    proof {
        assert(summarizes(acc@, Seq::<AccessEvent>::empty())) by {
            assert forall|id: ResourceId| #[trigger] lookup(acc@, id) == combined(Seq::<AccessEvent>::empty(), id) by {
            }
        }
    }
    while i < cmd.cmds.len()
        invariant
            i <= cmds.len(),
            cmds == cmd.cmds@,
            draw_cmds_ok(cmds, *res),
            summarizes(acc@, draw_state(cmds, *res, i as int).2),
            pipeline == draw_state(cmds, *res, i as int).0,
            forall|x: DescriptorSetId| #[trigger] visited@.contains(x) == draw_state(cmds, *res, i as int).1.contains(x),
            draw_state(cmds, *res, i as int).0 matches Some(p) ==> res.has_pipeline(p),
        decreases cmds.len() - i,
    {
        let ghost st = draw_state(cmds, *res, i as int);
        assert(draw_state(cmds, *res, i + 1) == draw_step(st, cmds[i as int], *res));
        let ghost ok = match cmds[i as int] {
            DrawCmd::SetPipeline(id) => res.has_pipeline(id),
            DrawCmd::SetDescriptorSet(_, id) => bind_ok(st, id, *res),
            _ => true,
        };
        assert(ok);
        match &cmd.cmds[i] {
            DrawCmd::SetPipeline(id) => {
                pipeline = Some(*id);
            },
            DrawCmd::SetIndexBuffer(buffer, _) => {
                record(acc, ResourceId::Buffer(*buffer), AccessFlags::index(), Ghost(st.2));
            },
            DrawCmd::SetDescriptorSet(group, id) => {
                record_bind(acc, res, pipeline, &mut visited, *group, *id, Ghost(st));
            },
            DrawCmd::SetPushConstants(_, _, _) => {},
            DrawCmd::Draw(call) => match call {
                DrawCall::DrawIndirect(c) => {
                    record(acc, ResourceId::Buffer(c.buffer), AccessFlags::indirect(), Ghost(st.2));
                },
                DrawCall::DrawIndexedIndirect(c) => {
                    record(acc, ResourceId::Buffer(c.buffer), AccessFlags::indirect(), Ghost(st.2));
                },
                _ => {},
            },
        }
        i = i + 1;
    }
    let ghost e0 = draw_state(cmds, *res, cmds.len() as int).2;
    let atts = &cmd.color_attachments;
    let mut k: usize = 0;
    proof {
        assert(atts@.take(0) =~= Seq::<ColorAttachmentOwned>::empty());
        assert(e0 + attachments_events(atts@.take(0)) =~= e0);
    }
    while k < atts.len()
        invariant
            k <= atts@.len(),
            atts == cmd.color_attachments,
            forall|i: int| 0 <= i < atts@.len() ==> (#[trigger] atts@[i]).target.mips_fit(),
            summarizes(acc@, e0 + attachments_events(atts@.take(k as int))),
        decreases atts@.len() - k,
    {
        let attachment = &atts[k];
        let mut flags = AccessFlags::empty();
        if matches!(attachment.load_op, LoadOp::Load) {
            flags = flags.union(AccessFlags::color_attachment_read());
        }
        if matches!(attachment.store_op, StoreOp::Store) {
            flags = flags.union(AccessFlags::color_attachment_write());
        }
        assert(flags.value() == attachment_flags(*attachment));
        let ghost before = e0 + attachments_events(atts@.take(k as int));
        assert(atts@[k as int].target.mips_fit());
        record_view(acc, &attachment.target, flags, Ghost(before));
        proof {
            let tk = atts@.take(k + 1);
            assert(tk.drop_last() =~= atts@.take(k as int));
            assert(tk.last() == atts@[k as int]);
            assert(before + view_events(attachment.target, flags.value()) =~= e0
                + attachments_events(tk));
        }
        k = k + 1;
    }
    proof {
        assert(atts@.take(atts@.len() as int) =~= atts@);
    }
    let ghost e1 = e0 + attachments_events(atts@);
    match &cmd.depth_stencil_attachment {
        Some(attachment) => {
            let flags = AccessFlags::depth_attachment_read().union(
                AccessFlags::depth_attachment_write(),
            );
            record(
                acc,
                ResourceId::Texture(TextureMip { id: attachment.texture, mip_level: 0 }),
                flags,
                Ghost(e1),
            );
            proof {
                assert(e1.push(
                    (ResourceId::Texture(TextureMip { id: attachment.texture, mip_level: 0 }), flags.value()),
                ) =~= render_pass_events(*cmd, *res));
            }
        },
        None => {
            proof {
                assert(e1 =~= render_pass_events(*cmd, *res));
            }
        },
    }
}

/// Records the accesses of a compute pass.
fn record_compute_pass(acc: &mut Vec<Resource<ResourceId>>, res: &ResourceTables, cmd: &ComputePassCmd)
    requires
        old(acc)@.len() == 0,
        command_ok(Command::ComputePass(*cmd), *res),
    ensures
        summarizes(final(acc)@, compute_pass_events(*cmd, *res)),
{
    let mut visited: Vec<DescriptorSetId> = Vec::new();
    let mut pipeline: Option<PipelineId> = None;
    let ghost cmds = cmd.cmds@;
    let mut i: usize = 0;
    while i < cmd.cmds.len()
        invariant
            i <= cmds.len(),
            cmds == cmd.cmds@,
            compute_cmds_ok(cmds, *res),
            summarizes(acc@, compute_state(cmds, *res, i as int).2),
            pipeline == compute_state(cmds, *res, i as int).0,
            forall|x: DescriptorSetId| #[trigger] visited@.contains(x) == compute_state(cmds, *res, i as int).1.contains(x),
            compute_state(cmds, *res, i as int).0 matches Some(p) ==> res.has_pipeline(p),
        decreases cmds.len() - i,
    {
        let ghost st = compute_state(cmds, *res, i as int);
        assert(compute_state(cmds, *res, i + 1) == compute_step(st, cmds[i as int], *res));
        let ghost ok = match cmds[i as int] {
            ComputeCommand::SetPipeline(id) => res.has_pipeline(id),
            ComputeCommand::SetDescriptorSet(_, id) => bind_ok(st, id, *res),
            _ => true,
        };
        assert(ok);
        match &cmd.cmds[i] {
            ComputeCommand::SetPipeline(id) => {
                pipeline = Some(*id);
            },
            ComputeCommand::SetDescriptorSet(group, id) => {
                record_bind(acc, res, pipeline, &mut visited, *group, *id, Ghost(st));
            },
            ComputeCommand::SetPushConstants(_, _, _) => {},
            ComputeCommand::Dispatch(_, _, _) => {},
        }
        i = i + 1;
    }
}

impl Command {
    /// Appends the resources this command accesses, with the access it needs on each.
    ///
    /// A pass lists every resource it touches once, with the union of the flags of its
    /// uses; a descriptor set bound a second time in a pass adds nothing.
    pub fn write_accesses(&self, res: &ResourceTables, accesses: &mut Vec<Resource<ResourceId>>)
        requires
            command_ok(*self, *res),
        ensures
            final(accesses)@.len() >= old(accesses)@.len(),
            final(accesses)@.subrange(0, old(accesses)@.len() as int) == old(accesses)@,
            accesses_of(
                *self,
                *res,
                final(accesses)@.subrange(old(accesses)@.len() as int, final(accesses)@.len() as int),
            ),
    {
        let ghost old_acc = accesses@;
        let ghost n = old_acc.len() as int;
        match self {
            Command::WriteBuffer(cmd) => {
                accesses.push(
                    Resource { id: ResourceId::Buffer(cmd.buffer), access: AccessFlags::transfer_write() },
                );
            },
            Command::CopyBufferToBuffer(cmd) => {
                if cmd.src == cmd.dst {
                    accesses.push(
                        Resource {
                            id: ResourceId::Buffer(cmd.src),
                            access: AccessFlags::transfer_read().union(AccessFlags::transfer_write()),
                        },
                    );
                } else {
                    accesses.push(
                        Resource { id: ResourceId::Buffer(cmd.src), access: AccessFlags::transfer_read() },
                    );
                    accesses.push(
                        Resource { id: ResourceId::Buffer(cmd.dst), access: AccessFlags::transfer_write() },
                    );
                }
            },
            Command::CopyBufferToTexture(cmd) => {
                accesses.push(
                    Resource { id: ResourceId::Buffer(cmd.src), access: AccessFlags::transfer_read() },
                );
                accesses.push(
                    Resource {
                        id: ResourceId::Texture(TextureMip { id: cmd.dst, mip_level: cmd.dst_mip_level }),
                        access: AccessFlags::transfer_write(),
                    },
                );
            },
            Command::CopyTextureToTexture(cmd) => {
                if cmd.src == cmd.dst && cmd.src_mip_level == cmd.dst_mip_level {
                    accesses.push(
                        Resource {
                            id: ResourceId::Texture(TextureMip { id: cmd.src, mip_level: cmd.src_mip_level }),
                            access: AccessFlags::transfer_read().union(AccessFlags::transfer_write()),
                        },
                    );
                } else {
                    accesses.push(
                        Resource {
                            id: ResourceId::Texture(TextureMip { id: cmd.src, mip_level: cmd.src_mip_level }),
                            access: AccessFlags::transfer_read(),
                        },
                    );
                    accesses.push(
                        Resource {
                            id: ResourceId::Texture(TextureMip { id: cmd.dst, mip_level: cmd.dst_mip_level }),
                            access: AccessFlags::transfer_write(),
                        },
                    );
                }
            },
            Command::TextureTransition(cmd) => {
                accesses.push(Resource { id: ResourceId::Texture(cmd.texture), access: cmd.access });
            },
            Command::ClearTexture(cmd) => {
                accesses.push(
                    Resource {
                        id: ResourceId::Texture(TextureMip { id: cmd.id, mip_level: cmd.mip_level }),
                        access: AccessFlags::transfer_write(),
                    },
                );
            },
            Command::RenderPass(cmd) => {
                let mut acc: Vec<Resource<ResourceId>> = Vec::new();
                record_render_pass(&mut acc, res, cmd);
                let ghost added = acc@;
                accesses.append(&mut acc);
                proof {
                    assert(accesses@.subrange(n, accesses@.len() as int) =~= added);
                }
            },
            Command::ComputePass(cmd) => {
                let mut acc: Vec<Resource<ResourceId>> = Vec::new();
                record_compute_pass(&mut acc, res, cmd);
                let ghost added = acc@;
                accesses.append(&mut acc);
                proof {
                    assert(accesses@.subrange(n, accesses@.len() as int) =~= added);
                }
            },
            Command::CreateBuffer(cmd) => {
                accesses.push(Resource { id: ResourceId::Buffer(cmd.id), access: AccessFlags::empty() });
            },
            Command::DestoryBuffer(_) => {},
            Command::CreateTexture(cmd) => {
                let mut mip_level: u32 = 0;
                while mip_level < cmd.descriptor.mip_levels
                    invariant
                        mip_level <= cmd.descriptor.mip_levels,
                        n == old_acc.len(),
                        accesses@.len() == n + mip_level,
                        accesses@.subrange(0, n) == old_acc,
                        forall|i: int|
                            0 <= i < mip_level ==> (#[trigger] accesses@[n + i]).id == tex(cmd.id, i as u32)
                                && accesses@[n + i].access.value() == 0,
                    decreases cmd.descriptor.mip_levels - mip_level,
                {
                    let ghost before = accesses@;
                    let entry = Resource {
                        id: ResourceId::Texture(TextureMip { id: cmd.id, mip_level }),
                        access: AccessFlags::empty(),
                    };
                    accesses.push(entry);
                    proof {
                        assert(accesses@ == before.push(entry));
                        assert(accesses@.subrange(0, n) =~= before.subrange(0, n));
                        assert forall|i: int| 0 <= i < mip_level + 1 implies (#[trigger] accesses@[n + i]).id
                            == tex(cmd.id, i as u32) && accesses@[n + i].access.value() == 0 by {
                            if i < mip_level {
                                assert(accesses@[n + i] == before[n + i]);
                            }
                        }
                    }
                    mip_level = mip_level + 1;
                }
                proof {
                    let added = accesses@.subrange(n, accesses@.len() as int);
                    assert forall|i: int| 0 <= i < added.len() implies (#[trigger] added[i].id, added[i].access.value())
                        == listed_accesses(*self)[i] by {
                        assert(added[i] == accesses@[n + i]);
                    }
                }
            },
            Command::DestroyTexture(_) => {},
            Command::CreateDescriptorSet(_) => {},
            Command::DestroyDescriptorSet(_) => {},
        }
        proof {
            assert(accesses@.subrange(0, n) =~= old_acc);
        }
    }
}

/// Where the accesses of a recorded command are stored.
#[derive(Copy, Clone, Debug)]
struct AccessIndex {
    offset: usize,
    count: usize,
}

/// A command together with the position of its accesses.
#[derive(Debug)]
struct RecordedCommand {
    cmd: Command,
    index: AccessIndex,
}

/// A recorded command with the resources it accesses.
#[derive(Copy, Clone, Debug)]
pub struct CommandRef<'a> {
    pub cmd: &'a Command,
    pub resources: &'a [Resource<ResourceId>],
}

/// A list of commands together with the accesses of each, computed when it was pushed.
///
/// The accesses of all commands live in one vector, so that pushing a command with many
/// accesses needs no allocation of its own.
#[derive(Debug)]
pub struct CommandStream {
    cmds: Vec<RecordedCommand>,
    accesses: Vec<Resource<ResourceId>>,
}

impl CommandStream {
    /// The recorded commands, in order.
    pub closed spec fn commands_spec(&self) -> Seq<Command> {
        self.cmds@.map_values(|r: RecordedCommand| r.cmd)
    }

    /// The accesses of the `i`-th recorded command.
    pub closed spec fn accesses_spec(&self, i: int) -> Seq<Resource<ResourceId>> {
        let idx = self.cmds@[i].index;
        self.accesses@.subrange(idx.offset as int, idx.offset + idx.count)
    }

    /// Every recorded command's accesses lie in the shared vector.
    pub closed spec fn wf(&self) -> bool {
        forall|i: int|
            0 <= i < self.cmds@.len() ==> #[trigger] self.cmds@[i].index.offset + self.cmds@[i].index.count
                <= self.accesses@.len()
    }

    /// Creates an empty stream.
    pub fn new() -> (r: Self)
        ensures
            r.wf(),
            r.commands_spec().len() == 0,
    {
        let r = Self { cmds: Vec::new(), accesses: Vec::new() };
        proof {
            assert(r.commands_spec() =~= Seq::<Command>::empty());
        }
        r
    }

    /// Appends `cmd` and records its accesses.
    pub fn push(&mut self, res: &ResourceTables, cmd: Command)
        requires
            old(self).wf(),
            command_ok(cmd, *res),
        ensures
            final(self).wf(),
            final(self).commands_spec() == old(self).commands_spec().push(cmd),
            forall|i: int|
                0 <= i < old(self).commands_spec().len() ==> #[trigger] final(self).accesses_spec(i)
                    == old(self).accesses_spec(i),
            accesses_of(cmd, *res, final(self).accesses_spec(old(self).commands_spec().len() as int)),
    {
        let offset = self.accesses.len();
        let ghost old_acc = self.accesses@;
        cmd.write_accesses(res, &mut self.accesses);
        let count = self.accesses.len() - offset;
        let ghost old_cmds = self.cmds@;
        self.cmds.push(RecordedCommand { cmd, index: AccessIndex { offset, count } });
        proof {
            assert(self.commands_spec() =~= old(self).commands_spec().push(cmd));
            assert forall|i: int| 0 <= i < old_cmds.len() implies #[trigger] self.accesses_spec(i)
                == old(self).accesses_spec(i) by {
                let idx = old_cmds[i].index;
                assert(self.cmds@[i] == old_cmds[i]);
                assert(idx.offset + idx.count <= old_acc.len());
                assert(self.accesses@.subrange(idx.offset as int, idx.offset + idx.count) =~= old_acc.subrange(
                    idx.offset as int,
                    idx.offset + idx.count,
                )) by {
                    assert forall|k: int| 0 <= k < idx.count implies #[trigger] self.accesses@[idx.offset + k]
                        == old_acc[idx.offset + k] by {
                        assert(self.accesses@.subrange(0, old_acc.len() as int)[idx.offset + k]
                            == old_acc[idx.offset + k]);
                    }
                }
            }
            assert forall|i: int| 0 <= i < self.cmds@.len() implies #[trigger] self.cmds@[i].index.offset
                + self.cmds@[i].index.count <= self.accesses@.len() by {
                if i < old_cmds.len() {
                    assert(self.cmds@[i] == old_cmds[i]);
                }
            }
        }
    }

    /// Returns all recorded commands with their accesses, in order.
    pub fn commands(&self) -> (r: Vec<CommandRef<'_>>)
        requires
            self.wf(),
        ensures
            r@.len() == self.commands_spec().len(),
            forall|i: int|
                0 <= i < r@.len() ==> *(#[trigger] r@[i]).cmd == self.commands_spec()[i]
                    && r@[i].resources@ == self.accesses_spec(i),
    {
        let mut r: Vec<CommandRef<'_>> = Vec::new();
        let mut i: usize = 0;
        while i < self.cmds.len()
            invariant
                self.wf(),
                i <= self.cmds@.len(),
                r@.len() == i,
                forall|k: int|
                    0 <= k < i ==> *(#[trigger] r@[k]).cmd == self.commands_spec()[k]
                        && r@[k].resources@ == self.accesses_spec(k),
            decreases self.cmds@.len() - i,
        {
            let recorded = &self.cmds[i];
            let total = self.accesses.len();
            assert(recorded.index.offset + recorded.index.count <= self.accesses@.len());
            let resources = vstd::slice::slice_subrange(
                self.accesses.as_slice(),
                recorded.index.offset,
                recorded.index.offset + recorded.index.count,
            );
            r.push(CommandRef { cmd: &recorded.cmd, resources });
            i = i + 1;
        }
        r
    }

    /// Removes every command.
    pub fn clear(&mut self)
        ensures
            final(self).wf(),
            final(self).commands_spec().len() == 0,
    {
        self.cmds.clear();
        self.accesses.clear();
        proof {
            assert(self.commands_spec() =~= Seq::<Command>::empty());
        }
    }
}
} // verus!
