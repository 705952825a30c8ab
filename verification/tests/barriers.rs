use game_render::access::AccessFlags;
use game_render::backend::TextureFormat;
use game_render::barriers::{
    access_flags_to_image_layout, access_flags_to_stage_mask, convert_access_flags, plan_buffer_barrier,
    plan_image_barrier, BarrierAccessScope, GpuAccess, ImageAspect, ImageLayout, PipelineStages,
};

#[test]
fn layouts_of_accesses() {
    assert_eq!(access_flags_to_image_layout(AccessFlags::empty()), ImageLayout::Undefined);
    assert_eq!(access_flags_to_image_layout(AccessFlags::transfer_read()), ImageLayout::TransferSrcOptimal);
    assert_eq!(access_flags_to_image_layout(AccessFlags::transfer_write()), ImageLayout::TransferDstOptimal);
    assert_eq!(access_flags_to_image_layout(AccessFlags::present()), ImageLayout::PresentSrc);
    assert_eq!(access_flags_to_image_layout(AccessFlags::shader_read()), ImageLayout::ShaderReadOnlyOptimal);
    assert_eq!(
        access_flags_to_image_layout(AccessFlags::color_attachment_write()),
        ImageLayout::ColorAttachmentOptimal
    );
    assert_eq!(
        access_flags_to_image_layout(AccessFlags::depth_attachment_read().union(AccessFlags::depth_attachment_write())),
        ImageLayout::DepthAttachmentOptimal
    );
    assert_eq!(
        access_flags_to_image_layout(AccessFlags::transfer_read().union(AccessFlags::transfer_write())),
        ImageLayout::General
    );
}

#[test]
fn stages_of_accesses() {
    let depth = AccessFlags::depth_attachment_write();
    assert_eq!(
        access_flags_to_stage_mask(depth, BarrierAccessScope::Destination).bits,
        PipelineStages::EARLY_FRAGMENT_TESTS
    );
    assert_eq!(
        access_flags_to_stage_mask(depth, BarrierAccessScope::Source).bits,
        PipelineStages::LATE_FRAGMENT_TESTS
    );
    let mixed = AccessFlags::transfer_write().union(AccessFlags::vertex_shader_read());
    assert_eq!(
        access_flags_to_stage_mask(mixed, BarrierAccessScope::Source).bits,
        PipelineStages::TRANSFER | PipelineStages::VERTEX_SHADER
    );
    assert_eq!(convert_access_flags(AccessFlags::shader_read()).bits, GpuAccess::SHADER_READ);
}

#[test]
fn buffer_barrier_plan() {
    let p = plan_buffer_barrier(AccessFlags::transfer_write(), AccessFlags::index(), 16, 64);
    assert_eq!(p.src_access.bits, GpuAccess::TRANSFER_WRITE);
    assert_eq!(p.dst_access.bits, GpuAccess::INDEX_READ);
    assert_eq!(p.src_stages.bits, PipelineStages::TRANSFER);
    assert_eq!(p.dst_stages.bits, PipelineStages::VERTEX_INPUT);
    assert_eq!((p.offset, p.size), (16, 64));
}

#[test]
fn image_barrier_plan() {
    let p = plan_image_barrier(
        AccessFlags::transfer_write(),
        AccessFlags::fragment_shader_read(),
        TextureFormat::Rgba8Unorm,
        2,
        3,
    )
    .unwrap();
    assert_eq!(p.old_layout, ImageLayout::TransferDstOptimal);
    assert_eq!(p.new_layout, ImageLayout::ShaderReadOnlyOptimal);
    assert_eq!(p.aspect, ImageAspect::Color);
    assert_eq!(p.dst_stages.bits, PipelineStages::FRAGMENT_SHADER);
    assert_eq!((p.base_mip_level, p.mip_levels), (2, 3));

    let d = plan_image_barrier(
        AccessFlags::empty(),
        AccessFlags::depth_attachment_write(),
        TextureFormat::Depth32Float,
        0,
        1,
    )
    .unwrap();
    assert_eq!(d.old_layout, ImageLayout::Undefined);
    assert_eq!(d.aspect, ImageAspect::Depth);

    assert!(plan_image_barrier(AccessFlags::shader_read(), AccessFlags::empty(), TextureFormat::Rgba8Unorm, 0, 1).is_none());
}
