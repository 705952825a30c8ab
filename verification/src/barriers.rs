use vstd::prelude::*;

use crate::access::AccessFlags;
use crate::backend::TextureFormat;

verus! {

/// The layout an image must be in for an access.
#[derive(Copy, Clone, Debug, PartialEq, Eq, Structural, Hash)]
pub enum ImageLayout {
    Undefined,
    TransferSrcOptimal,
    TransferDstOptimal,
    DepthReadOnlyOptimal,
    PresentSrc,
    ShaderReadOnlyOptimal,
    ColorAttachmentOptimal,
    DepthAttachmentOptimal,
    General,
}

/// Memory access kinds of the GPU API, as bits.
#[derive(Copy, Clone, Debug, PartialEq, Eq, Structural, Hash)]
pub struct GpuAccess {
    pub bits: u32,
}

impl GpuAccess {
    pub const TRANSFER_READ: u32 = 1;
    pub const TRANSFER_WRITE: u32 = 2;
    pub const SHADER_READ: u32 = 4;
    pub const SHADER_WRITE: u32 = 8;
    pub const COLOR_ATTACHMENT_READ: u32 = 16;
    pub const COLOR_ATTACHMENT_WRITE: u32 = 32;
    pub const DEPTH_STENCIL_ATTACHMENT_READ: u32 = 64;
    pub const DEPTH_STENCIL_ATTACHMENT_WRITE: u32 = 128;
    pub const INDEX_READ: u32 = 256;
    pub const INDIRECT_COMMAND_READ: u32 = 512;
}

/// Pipeline stages of the GPU API, as bits.
#[derive(Copy, Clone, Debug, PartialEq, Eq, Structural, Hash)]
pub struct PipelineStages {
    pub bits: u32,
}

impl PipelineStages {
    pub const TRANSFER: u32 = 1;
    pub const COMPUTE_SHADER: u32 = 2;
    pub const DRAW_INDIRECT: u32 = 4;
    pub const VERTEX_INPUT: u32 = 8;
    pub const VERTEX_SHADER: u32 = 16;
    pub const TASK_SHADER: u32 = 32;
    pub const MESH_SHADER: u32 = 64;
    pub const EARLY_FRAGMENT_TESTS: u32 = 128;
    pub const FRAGMENT_SHADER: u32 = 256;
    pub const LATE_FRAGMENT_TESTS: u32 = 512;
    pub const COLOR_ATTACHMENT_OUTPUT: u32 = 1024;
}

/// The bits of every shader read access.
pub open spec fn shader_read_bits() -> u32 {
    0x200u32 | 0x800u32 | 0x2000u32 | 0x8000u32
}

/// The bits of every shader write access.
pub open spec fn shader_write_bits() -> u32 {
    0x400u32 | 0x1000u32 | 0x4000u32 | 0x10000u32
}

/// The GPU access that the flags `f` stand for: each group of flags present adds its access.
pub open spec fn gpu_access_of(f: u32) -> u32 {
    (if f & 0x1 != 0 { 1u32 } else { 0u32 }) | (if f & 0x2 != 0 { 2u32 } else { 0u32 }) | (if f
        & shader_read_bits() != 0 {
        4u32
    } else {
        0u32
    }) | (if f & shader_write_bits() != 0 {
        8u32
    } else {
        0u32
    }) | (if f & 0x4 != 0 { 16u32 } else { 0u32 }) | (if f & 0x8 != 0 { 32u32 } else { 0u32 }) | (
    if f & 0x100 != 0 {
        64u32
    } else {
        0u32
    }) | (if f & 0x80 != 0 { 128u32 } else { 0u32 }) | (if f & 0x20 != 0 { 256u32 } else { 0u32 })
        | (if f & 0x40 != 0 { 512u32 } else { 0u32 })
}

/// Converts access flags to the GPU's access kinds; presenting needs none.
pub fn convert_access_flags(flags: AccessFlags) -> (r: GpuAccess)
    ensures
        r.bits == gpu_access_of(flags.value()),
{
    let f = flags.bits();
    let access = (if f & 0x1 != 0 { 1u32 } else { 0u32 }) | (if f & 0x2 != 0 { 2u32 } else { 0u32 }) | (if f
        & (0x200u32 | 0x800u32 | 0x2000u32 | 0x8000u32) != 0 {
        4u32
    } else {
        0u32
    }) | (if f & (0x400u32 | 0x1000u32 | 0x4000u32 | 0x10000u32) != 0 {
        8u32
    } else {
        0u32
    }) | (if f & 0x4 != 0 { 16u32 } else { 0u32 }) | (if f & 0x8 != 0 { 32u32 } else { 0u32 }) | (
    if f & 0x100 != 0 {
        64u32
    } else {
        0u32
    }) | (if f & 0x80 != 0 { 128u32 } else { 0u32 }) | (if f & 0x20 != 0 { 256u32 } else { 0u32 })
        | (if f & 0x40 != 0 { 512u32 } else { 0u32 });
    GpuAccess { bits: access }
}

/// Every flag of `f` is among the flags `src`.
pub open spec fn only(f: u32, src: u32) -> bool {
    f & !src == 0
}

/// The layout for an image accessed with the flags `f`: the first layout whose flags
/// include all of `f`, in the order transfer source, transfer destination, depth read,
/// present, shader read, color attachment, depth attachment; `General` otherwise, and
/// `Undefined` without flags.
pub open spec fn image_layout_for(f: u32) -> ImageLayout {
    if f == 0 {
        ImageLayout::Undefined
    } else if only(f, 0x1u32) {
        ImageLayout::TransferSrcOptimal
    } else if only(f, 0x2u32) {
        ImageLayout::TransferDstOptimal
    } else if only(f, 0x100u32) {
        ImageLayout::DepthReadOnlyOptimal
    } else if only(f, 0x10u32) {
        ImageLayout::PresentSrc
    } else if only(f, shader_read_bits()) {
        ImageLayout::ShaderReadOnlyOptimal
    } else if only(f, 0x4u32 | 0x8u32) {
        ImageLayout::ColorAttachmentOptimal
    } else if only(f, 0x100u32 | 0x80u32) {
        ImageLayout::DepthAttachmentOptimal
    } else {
        ImageLayout::General
    }
}

/// Returns the layout an image must be in for an access with `flags`.
pub fn access_flags_to_image_layout(flags: AccessFlags) -> (r: ImageLayout)
    ensures
        r == image_layout_for(flags.value()),
{
    let f = flags.bits();
    if f == 0 {
        ImageLayout::Undefined
    } else if f & !0x1u32 == 0 {
        ImageLayout::TransferSrcOptimal
    } else if f & !0x2u32 == 0 {
        ImageLayout::TransferDstOptimal
    } else if f & !0x100u32 == 0 {
        ImageLayout::DepthReadOnlyOptimal
    } else if f & !0x10u32 == 0 {
        ImageLayout::PresentSrc
    } else if f & !(0x200u32 | 0x800u32 | 0x2000u32 | 0x8000u32) == 0 {
        ImageLayout::ShaderReadOnlyOptimal
    } else if f & !(0x4u32 | 0x8u32) == 0 {
        ImageLayout::ColorAttachmentOptimal
    } else if f & !(0x100u32 | 0x80u32) == 0 {
        ImageLayout::DepthAttachmentOptimal
    } else {
        ImageLayout::General
    }
}

/// Whether a barrier waits for accesses that happened or makes memory available to
/// accesses that follow.
#[derive(Copy, Clone, Debug, PartialEq, Eq, Structural)]
pub enum BarrierAccessScope {
    Source,
    Destination,
}

/// The earliest graphics stage that accesses with the flags `f` can happen in, as a stage
/// bit, or 0 if none. Depth attachments are accessed in the late fragment tests when
/// waiting for them, and in the early fragment tests when making memory available to them.
pub open spec fn graphics_stage(f: u32, scope: BarrierAccessScope) -> u32 {
    if f & 0x40u32 != 0 {
        PipelineStages::DRAW_INDIRECT
    } else if f & 0x20u32 != 0 {
        PipelineStages::VERTEX_INPUT
    } else if f & (0x200u32 | 0x400u32) != 0 {
        PipelineStages::VERTEX_SHADER
    } else if f & (0x2000u32 | 0x4000u32) != 0 {
        PipelineStages::TASK_SHADER
    } else if f & (0x8000u32 | 0x10000u32) != 0 {
        PipelineStages::MESH_SHADER
    } else if f & (0x100u32 | 0x80u32) != 0 && scope is Destination {
        PipelineStages::EARLY_FRAGMENT_TESTS
    } else if f & (0x800u32 | 0x1000u32) != 0 {
        PipelineStages::FRAGMENT_SHADER
    } else if f & (0x100u32 | 0x80u32) != 0 {
        PipelineStages::LATE_FRAGMENT_TESTS
    } else if f & (0x4u32 | 0x8u32) != 0 {
        PipelineStages::COLOR_ATTACHMENT_OUTPUT
    } else {
        0
    }
}

/// The pipeline stages a barrier for accesses with `flags` must name: the transfer stage
/// for transfers, and the earliest graphics stage of the graphics accesses.
pub fn access_flags_to_stage_mask(flags: AccessFlags, scope: BarrierAccessScope) -> (r: PipelineStages)
    ensures
        r.bits == (if flags.value() & 0x3 != 0 {
            PipelineStages::TRANSFER
        } else {
            0
        }) | graphics_stage(flags.value(), scope),
{
    let f = flags.bits();
    let transfer: u32 = if f & 0x3 != 0 {
        PipelineStages::TRANSFER
    } else {
        0
    };
    let graphics: u32 = if f & 0x40 != 0 {
        PipelineStages::DRAW_INDIRECT
    } else if f & 0x20 != 0 {
        PipelineStages::VERTEX_INPUT
    } else if f & (0x200 | 0x400) != 0 {
        PipelineStages::VERTEX_SHADER
    } else if f & (0x2000 | 0x4000) != 0 {
        PipelineStages::TASK_SHADER
    } else if f & (0x8000 | 0x10000) != 0 {
        PipelineStages::MESH_SHADER
    } else if f & (0x100 | 0x80) != 0 && matches!(scope, BarrierAccessScope::Destination) {
        PipelineStages::EARLY_FRAGMENT_TESTS
    } else if f & (0x800 | 0x1000) != 0 {
        PipelineStages::FRAGMENT_SHADER
    } else if f & (0x100 | 0x80) != 0 {
        PipelineStages::LATE_FRAGMENT_TESTS
    } else if f & (0x4 | 0x8) != 0 {
        PipelineStages::COLOR_ATTACHMENT_OUTPUT
    } else {
        0
    };
    PipelineStages { bits: transfer | graphics }
}

/// The pipeline stages of a barrier for accesses with `flags`.
pub open spec fn stage_mask_for(f: u32, scope: BarrierAccessScope) -> u32 {
    (if f & 0x3 != 0 {
        PipelineStages::TRANSFER
    } else {
        0
    }) | graphics_stage(f, scope)
}

/// The synchronization of a buffer range between two accesses, in the terms of the GPU API.
#[derive(Copy, Clone, Debug, PartialEq, Eq, Structural)]
pub struct BufferBarrierPlan {
    pub src_access: GpuAccess,
    pub dst_access: GpuAccess,
    pub src_stages: PipelineStages,
    pub dst_stages: PipelineStages,
    pub offset: u64,
    pub size: u64,
}

/// Translates a barrier on bytes `offset..offset + size` of a buffer from accesses `src`
/// to accesses `dst`.
pub fn plan_buffer_barrier(src: AccessFlags, dst: AccessFlags, offset: u64, size: u64) -> (r: BufferBarrierPlan)
    ensures
        r.src_access.bits == gpu_access_of(src.value()),
        r.dst_access.bits == gpu_access_of(dst.value()),
        r.src_stages.bits == stage_mask_for(src.value(), BarrierAccessScope::Source),
        r.dst_stages.bits == stage_mask_for(dst.value(), BarrierAccessScope::Destination),
        r.offset == offset,
        r.size == size,
{
    BufferBarrierPlan {
        src_access: convert_access_flags(src),
        dst_access: convert_access_flags(dst),
        src_stages: access_flags_to_stage_mask(src, BarrierAccessScope::Source),
        dst_stages: access_flags_to_stage_mask(dst, BarrierAccessScope::Destination),
        offset,
        size,
    }
}

/// The aspect of an image that a barrier covers.
#[derive(Copy, Clone, Debug, PartialEq, Eq, Structural)]
pub enum ImageAspect {
    Color,
    Depth,
}

/// The synchronization and layout transition of mip levels of an image between two
/// accesses, in the terms of the GPU API.
#[derive(Copy, Clone, Debug, PartialEq, Eq, Structural)]
pub struct ImageBarrierPlan {
    pub src_access: GpuAccess,
    pub dst_access: GpuAccess,
    pub src_stages: PipelineStages,
    pub dst_stages: PipelineStages,
    pub old_layout: ImageLayout,
    pub new_layout: ImageLayout,
    pub aspect: ImageAspect,
    pub base_mip_level: u32,
    pub mip_levels: u32,
}

/// Translates a barrier on mip levels `base_mip_level..base_mip_level + mip_levels` of an
/// image of `format` from accesses `src` to accesses `dst`.
///
/// Returns `None` when `dst` asks for the undefined layout, into which no image can be
/// transitioned.
pub fn plan_image_barrier(
    src: AccessFlags,
    dst: AccessFlags,
    format: TextureFormat,
    base_mip_level: u32,
    mip_levels: u32,
) -> (r: Option<ImageBarrierPlan>)
    ensures
        image_layout_for(dst.value()) == ImageLayout::Undefined <==> r is None,
        r matches Some(p) ==> {
            &&& p.src_access.bits == gpu_access_of(src.value())
            &&& p.dst_access.bits == gpu_access_of(dst.value())
            &&& p.src_stages.bits == stage_mask_for(src.value(), BarrierAccessScope::Source)
            &&& p.dst_stages.bits == stage_mask_for(dst.value(), BarrierAccessScope::Destination)
            &&& p.old_layout == image_layout_for(src.value())
            &&& p.new_layout == image_layout_for(dst.value())
            &&& p.aspect == (if format == TextureFormat::Depth32Float {
                ImageAspect::Depth
            } else {
                ImageAspect::Color
            })
            &&& p.base_mip_level == base_mip_level
            &&& p.mip_levels == mip_levels
        },
{
    let new_layout = access_flags_to_image_layout(dst);
    if new_layout == ImageLayout::Undefined {
        return None;
    }
    let aspect = if format.is_depth() {
        ImageAspect::Depth
    } else {
        ImageAspect::Color
    };
    Some(
        ImageBarrierPlan {
            src_access: convert_access_flags(src),
            dst_access: convert_access_flags(dst),
            src_stages: access_flags_to_stage_mask(src, BarrierAccessScope::Source),
            dst_stages: access_flags_to_stage_mask(dst, BarrierAccessScope::Destination),
            old_layout: access_flags_to_image_layout(src),
            new_layout,
            aspect,
            base_mip_level,
            mip_levels,
        },
    )
}

/// The pipeline stage in which an access of the single flag `bit` happens, as a stage bit:
/// indirect arguments are read in the draw-indirect stage, indices in vertex input, shader
/// accesses in their shader's stage, color attachments in the color attachment output, and
/// depth attachments in the late fragment tests when waiting for them and in the early
/// fragment tests when making memory available to them. Transfers and presenting happen in
/// no graphics stage (0).
pub open spec fn access_stage(bit: u32, scope: BarrierAccessScope) -> u32 {
    if bit == 0x4 || bit == 0x8 {
        1024
    } else if bit == 0x20 {
        8
    } else if bit == 0x40 {
        4
    } else if bit == 0x80 || bit == 0x100 {
        if scope is Source {
            512
        } else {
            128
        }
    } else if bit == 0x200 || bit == 0x400 {
        16
    } else if bit == 0x800 || bit == 0x1000 {
        256
    } else if bit == 0x2000 || bit == 0x4000 {
        32
    } else if bit == 0x8000 || bit == 0x10000 {
        64
    } else {
        0
    }
}

/// `bit` is one of the access flags.
pub open spec fn access_bit(bit: u32) -> bool {
    ||| bit == 0x1 || bit == 0x2 || bit == 0x4 || bit == 0x8 || bit == 0x10 || bit == 0x20
    ||| bit == 0x40 || bit == 0x80 || bit == 0x100 || bit == 0x200 || bit == 0x400
    ||| bit == 0x800 || bit == 0x1000 || bit == 0x2000 || bit == 0x4000 || bit == 0x8000
    ||| bit == 0x10000
}

/// A group of flags is present exactly when one of its flags is.
proof fn lemma_flag_groups(f: u32)
    by (bit_vector)
    ensures
        (f & 0x3u32 != 0) == (f & 0x1u32 != 0 || f & 0x2u32 != 0),
        (f & (0x4u32 | 0x8u32) != 0) == (f & 0x4u32 != 0 || f & 0x8u32 != 0),
        (f & (0x100u32 | 0x80u32) != 0) == (f & 0x100u32 != 0 || f & 0x80u32 != 0),
        (f & (0x200u32 | 0x400u32) != 0) == (f & 0x200u32 != 0 || f & 0x400u32 != 0),
        (f & (0x800u32 | 0x1000u32) != 0) == (f & 0x800u32 != 0 || f & 0x1000u32 != 0),
        (f & (0x2000u32 | 0x4000u32) != 0) == (f & 0x2000u32 != 0 || f & 0x4000u32 != 0),
        (f & (0x8000u32 | 0x10000u32) != 0) == (f & 0x8000u32 != 0 || f & 0x10000u32 != 0),
{
}

/// A barrier names the stage in which the accesses happen: the graphics stage of the flags
/// is the earliest (smallest) of the stages in which their accesses happen, so that every
/// access is covered, and it is the stage of one of them; flags without graphics accesses
/// name no graphics stage. The transfer stage is named exactly for transfer accesses.
pub proof fn law_stage_is_earliest_access_stage(f: u32, scope: BarrierAccessScope)
    ensures
        forall|bit: u32|
            access_bit(bit) && f & bit != 0 && #[trigger] access_stage(bit, scope) != 0 ==> graphics_stage(f, scope)
                != 0 && graphics_stage(f, scope) <= access_stage(bit, scope),
        graphics_stage(f, scope) != 0 ==> exists|bit: u32|
            access_bit(bit) && f & bit != 0 && #[trigger] access_stage(bit, scope) == graphics_stage(f, scope),
        stage_mask_for(f, scope) == (if f & 0x1 != 0 || f & 0x2 != 0 {
            PipelineStages::TRANSFER
        } else {
            0
        }) | graphics_stage(f, scope),
{
    lemma_flag_groups(f);
    let g = graphics_stage(f, scope);
    if g != 0 {
        if f & 0x40u32 != 0 {
            assert(access_stage(0x40, scope) == g);
        } else if f & 0x20u32 != 0 {
            assert(access_stage(0x20, scope) == g);
        } else if f & 0x200u32 != 0 {
            assert(access_stage(0x200, scope) == g);
        } else if f & 0x400u32 != 0 {
            assert(access_stage(0x400, scope) == g);
        } else if f & 0x2000u32 != 0 {
            assert(access_stage(0x2000, scope) == g);
        } else if f & 0x4000u32 != 0 {
            assert(access_stage(0x4000, scope) == g);
        } else if f & 0x8000u32 != 0 {
            assert(access_stage(0x8000, scope) == g);
        } else if f & 0x10000u32 != 0 {
            assert(access_stage(0x10000, scope) == g);
        } else if (f & 0x100u32 != 0 || f & 0x80u32 != 0) && scope is Destination {
            if f & 0x100u32 != 0 {
                assert(access_stage(0x100, scope) == g);
            } else {
                assert(access_stage(0x80, scope) == g);
            }
        } else if f & 0x800u32 != 0 {
            assert(access_stage(0x800, scope) == g);
        } else if f & 0x1000u32 != 0 {
            assert(access_stage(0x1000, scope) == g);
        } else if f & 0x100u32 != 0 {
            assert(access_stage(0x100, scope) == g);
        } else if f & 0x80u32 != 0 {
            assert(access_stage(0x80, scope) == g);
        } else if f & 0x4u32 != 0 {
            assert(access_stage(0x4, scope) == g);
        } else {
            assert(access_stage(0x8, scope) == g);
        }
    }
}

/// The GPU access kind of a single access flag: transfers map to transfer accesses, every
/// shader read (write) to the shader read (write) access, attachments to their attachment
/// accesses, indices to the index read, indirect arguments to the indirect command read, and
/// presenting to no access.
pub open spec fn gpu_access_table(bit: u32) -> u32 {
    if bit == 0x1 {
        GpuAccess::TRANSFER_READ
    } else if bit == 0x2 {
        GpuAccess::TRANSFER_WRITE
    } else if bit == 0x4 {
        GpuAccess::COLOR_ATTACHMENT_READ
    } else if bit == 0x8 {
        GpuAccess::COLOR_ATTACHMENT_WRITE
    } else if bit == 0x20 {
        GpuAccess::INDEX_READ
    } else if bit == 0x40 {
        GpuAccess::INDIRECT_COMMAND_READ
    } else if bit == 0x80 {
        GpuAccess::DEPTH_STENCIL_ATTACHMENT_WRITE
    } else if bit == 0x100 {
        GpuAccess::DEPTH_STENCIL_ATTACHMENT_READ
    } else if bit == 0x200 || bit == 0x800 || bit == 0x2000 || bit == 0x8000 {
        GpuAccess::SHADER_READ
    } else if bit == 0x400 || bit == 0x1000 || bit == 0x4000 || bit == 0x10000 {
        GpuAccess::SHADER_WRITE
    } else {
        0
    }
}

proof fn lemma_gpu_access_bits()
    by (bit_vector)
    ensures
        forall|f: u32, g: u32| #[trigger] gpu_access_of(f | g) == gpu_access_of(f) | gpu_access_of(g),
        gpu_access_of(0) == 0,
        gpu_access_of(0x1) == 1,
        gpu_access_of(0x2) == 2,
        gpu_access_of(0x4) == 16,
        gpu_access_of(0x8) == 32,
        gpu_access_of(0x10) == 0,
        gpu_access_of(0x20) == 256,
        gpu_access_of(0x40) == 512,
        gpu_access_of(0x80) == 128,
        gpu_access_of(0x100) == 64,
        gpu_access_of(0x200) == 4,
        gpu_access_of(0x400) == 8,
        gpu_access_of(0x800) == 4,
        gpu_access_of(0x1000) == 8,
        gpu_access_of(0x2000) == 4,
        gpu_access_of(0x4000) == 8,
        gpu_access_of(0x8000) == 4,
        gpu_access_of(0x10000) == 8,
{
}

/// The GPU accesses of a set of flags are the union of the accesses of its flags: no flags
/// need no access, each single flag needs the access of `gpu_access_table`, and the
/// accesses of a union of flags are the union of their accesses.
pub proof fn law_gpu_access_by_flag(f: u32, g: u32)
    ensures
        gpu_access_of(f | g) == gpu_access_of(f) | gpu_access_of(g),
        gpu_access_of(0) == 0,
        forall|bit: u32| access_bit(bit) ==> #[trigger] gpu_access_of(bit) == gpu_access_table(bit),
{
    lemma_gpu_access_bits();
}

/// The access flags an image in `layout` may be accessed with: transfer reads, transfer
/// writes, depth reads, presenting, shader reads, color attachment reads and writes, depth
/// attachment reads and writes, anything in the general layout, and nothing while undefined.
pub open spec fn layout_allows(layout: ImageLayout) -> u32 {
    match layout {
        ImageLayout::Undefined => 0u32,
        ImageLayout::TransferSrcOptimal => 0x1u32,
        ImageLayout::TransferDstOptimal => 0x2u32,
        ImageLayout::DepthReadOnlyOptimal => 0x100u32,
        ImageLayout::PresentSrc => 0x10u32,
        ImageLayout::ShaderReadOnlyOptimal => 0x200u32 | 0x800u32 | 0x2000u32 | 0x8000u32,
        ImageLayout::ColorAttachmentOptimal => 0x4u32 | 0x8u32,
        ImageLayout::DepthAttachmentOptimal => 0x100u32 | 0x80u32,
        ImageLayout::General => 0xffff_ffffu32,
    }
}

/// The layout chosen for an access allows every flag of the access; no flags give the
/// undefined layout and only no flags do; and the general layout is chosen only for
/// accesses that no specific layout allows.
pub proof fn law_image_layout_allows_access(f: u32)
    ensures
        f & !layout_allows(image_layout_for(f)) == 0,
        (image_layout_for(f) == ImageLayout::Undefined) == (f == 0),
        image_layout_for(f) == ImageLayout::General ==> {
            &&& f & !layout_allows(ImageLayout::TransferSrcOptimal) != 0
            &&& f & !layout_allows(ImageLayout::TransferDstOptimal) != 0
            &&& f & !layout_allows(ImageLayout::DepthReadOnlyOptimal) != 0
            &&& f & !layout_allows(ImageLayout::PresentSrc) != 0
            &&& f & !layout_allows(ImageLayout::ShaderReadOnlyOptimal) != 0
            &&& f & !layout_allows(ImageLayout::ColorAttachmentOptimal) != 0
            &&& f & !layout_allows(ImageLayout::DepthAttachmentOptimal) != 0
        },
{
    lemma_general_allows_all(f);
}

proof fn lemma_general_allows_all(f: u32)
    by (bit_vector)
    ensures
        f & !0xffff_ffffu32 == 0,
        f & !0u32 == 0 ==> f == 0,
        f == 0 ==> f & !0u32 == 0,
{
}

} // verus!
