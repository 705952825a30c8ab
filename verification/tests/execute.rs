use game_render::access::AccessFlags;
use game_render::accesses::{ResourceId, TextureMip};
use game_render::commands::{Command, ComputePassCmd, RenderPassCmd};
use game_render::execute::{batch_barriers, group_steps, query_count, BufferBarrier, StepGroup, TextureBarrier};
use game_render::scheduler::{Barrier, Step};

fn tex_barrier(id: usize, mip_level: u32, src: AccessFlags, dst: AccessFlags) -> Barrier<ResourceId> {
    Barrier {
        resource: ResourceId::Texture(TextureMip { id, mip_level }),
        src_access: src,
        dst_access: dst,
    }
}

#[test]
fn barriers_merge_consecutive_mips_of_one_texture() {
    let r = AccessFlags::transfer_read();
    let w = AccessFlags::transfer_write();
    let barriers = [
        tex_barrier(1, 0, w, r),
        tex_barrier(1, 1, w, r),
        Barrier { resource: ResourceId::Buffer(9), src_access: w, dst_access: r },
        tex_barrier(1, 2, w, r),
        // A gap in the mip levels starts a new barrier.
        tex_barrier(1, 4, w, r),
        // Other accesses start a new barrier.
        tex_barrier(1, 5, r, w),
        tex_barrier(2, 6, r, w),
    ];
    let (buffers, textures) = batch_barriers(&barriers);
    assert_eq!(buffers, [BufferBarrier { buffer: 9, src_access: w, dst_access: r }]);
    assert_eq!(
        textures,
        [
            TextureBarrier { texture: 1, src_access: w, dst_access: r, base_mip_level: 0, mip_levels: 3 },
            TextureBarrier { texture: 1, src_access: w, dst_access: r, base_mip_level: 4, mip_levels: 1 },
            TextureBarrier { texture: 1, src_access: r, dst_access: w, base_mip_level: 5, mip_levels: 1 },
            TextureBarrier { texture: 2, src_access: r, dst_access: w, base_mip_level: 6, mip_levels: 1 },
        ]
    );
}

#[test]
fn steps_group_barriers_between_nodes() {
    let r = AccessFlags::transfer_read();
    let w = AccessFlags::transfer_write();
    let b = |id| Barrier { resource: id, src_access: w, dst_access: r };
    let steps: Vec<Step<u32, usize>> = vec![
        Step::Barrier(b(1)),
        Step::Barrier(b(2)),
        Step::Node(10),
        Step::Node(11),
        Step::Barrier(b(3)),
        Step::Node(12),
        Step::Barrier(b(4)),
    ];
    let groups = group_steps(&steps);
    assert_eq!(groups.len(), 6);
    assert!(matches!(&groups[0], StepGroup::Barriers(bs) if bs.len() == 2 && bs[1].resource == 2));
    assert!(matches!(groups[1], StepGroup::Node(10)));
    assert!(matches!(groups[2], StepGroup::Node(11)));
    assert!(matches!(&groups[3], StepGroup::Barriers(bs) if bs.len() == 1 && bs[0].resource == 3));
    assert!(matches!(groups[4], StepGroup::Node(12)));
    assert!(matches!(&groups[5], StepGroup::Barriers(bs) if bs.len() == 1 && bs[0].resource == 4));
    assert!(group_steps::<u32, usize>(&[]).is_empty());
}

#[test]
fn query_count_has_two_per_pass_and_two_for_the_frame() {
    let render = Command::RenderPass(RenderPassCmd {
        name: "main",
        color_attachments: Vec::new(),
        depth_stencil_attachment: None,
        cmds: Vec::new(),
    });
    let compute = Command::ComputePass(ComputePassCmd { name: "cull", cmds: Vec::new() });
    let destroy = Command::DestoryBuffer(3);
    let steps: Vec<Step<&Command, ResourceId>> = vec![
        Step::Node(&render),
        Step::Node(&compute),
        Step::Node(&destroy),
        Step::Barrier(Barrier {
            resource: ResourceId::Buffer(3),
            src_access: AccessFlags::empty(),
            dst_access: AccessFlags::empty(),
        }),
        Step::Node(&render),
    ];
    assert_eq!(query_count(&steps), 2 * 2 + 2 + 2);
    assert_eq!(query_count(&[]), 2);
}
