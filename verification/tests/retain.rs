use game_render::access::AccessFlags;
use game_render::accesses::TextureMip;
use game_render::backend::{IndexFormat, LoadOp, StoreOp};
use game_render::commands::{
    ColorAttachmentOwned, Command, ComputeCommand, ComputePassCmd, CopyBufferToBuffer, DepthStencilAttachmentOwned,
    DrawCall, DrawCmd, DrawIndirect, RawTextureView, RenderPassCmd, TextureTransition, WriteBuffer,
};
use game_render::resources::RefCount;
use game_render::retain::{retained_ids, CountingSet, DeletionEvent, ResourceRefs, TemporaryResources};

fn refs(n: usize) -> Vec<Option<RefCount>> {
    (0..n).map(|_| Some(RefCount::new())).collect()
}

fn render_pass() -> Command {
    Command::RenderPass(RenderPassCmd {
        name: "main",
        color_attachments: vec![ColorAttachmentOwned {
            target: RawTextureView { texture: 3, base_mip_level: 0, mip_levels: 1 },
            load_op: LoadOp::Clear(()),
            store_op: StoreOp::Store,
        }],
        depth_stencil_attachment: Some(DepthStencilAttachmentOwned {
            texture: 4,
            load_op: LoadOp::Load,
            store_op: StoreOp::Store,
        }),
        cmds: vec![
            DrawCmd::SetPipeline(1),
            DrawCmd::SetDescriptorSet(0, 2),
            DrawCmd::SetIndexBuffer(5, IndexFormat::U32),
            DrawCmd::Draw(DrawCall::DrawIndirect(DrawIndirect { buffer: 6, offset: 0, count: 1 })),
            DrawCmd::SetPipeline(1),
        ],
    })
}

#[test]
fn counting_set_counts_and_drains_in_order() {
    let mut s = CountingSet::new();
    s.insert(4);
    s.insert(1);
    s.insert(4);
    s.insert_all(&[7, 1, 4]);
    assert_eq!(s.drain(), vec![(1, 2), (4, 3), (7, 1)]);
    assert!(s.drain().is_empty());
}

#[test]
fn retained_ids_of_commands() {
    let (b, t, p, d) = retained_ids(&render_pass());
    assert_eq!(b, vec![5, 6]);
    assert_eq!(t, vec![3, 4]);
    assert_eq!(p, vec![1, 1]);
    assert_eq!(d, vec![2]);
    let copy = Command::CopyBufferToBuffer(CopyBufferToBuffer { src: 1, src_offset: 0, dst: 2, dst_offset: 0, count: 4 });
    assert_eq!(retained_ids(&copy).0, vec![1, 2]);
    let write = Command::WriteBuffer(WriteBuffer { buffer: 9, offset: 0, staging_memory_offset: 0, count: 4 });
    assert_eq!(retained_ids(&write).0, vec![9]);
    let transition = Command::TextureTransition(TextureTransition {
        texture: TextureMip { id: 8, mip_level: 2 },
        access: AccessFlags::empty(),
    });
    assert_eq!(retained_ids(&transition).1, vec![8]);
    let compute = Command::ComputePass(ComputePassCmd {
        name: "cull",
        cmds: vec![
            ComputeCommand::SetPipeline(3),
            ComputeCommand::SetDescriptorSet(0, 4),
            ComputeCommand::Dispatch(1, 1, 1),
        ],
    });
    let (b, t, p, d) = retained_ids(&compute);
    assert!(b.is_empty() && t.is_empty());
    assert_eq!(p, vec![3]);
    assert_eq!(d, vec![4]);
    assert_eq!(retained_ids(&Command::CreateDescriptorSet(1)).0.len(), 0);
}

#[test]
fn destroy_releases_last_references() {
    let mut tmp = TemporaryResources::new();
    tmp.retain(&render_pass());
    let mut refs = ResourceRefs {
        buffers: refs(8),
        textures: refs(8),
        descriptor_sets: refs(8),
        samplers: refs(8),
        pipelines: refs(8),
    };
    // Buffer 5 and pipeline 1 still have references of their own.
    refs.buffers[5].as_mut().unwrap().increment();
    refs.pipelines[1].as_mut().unwrap().increment();
    refs.pipelines[1].as_mut().unwrap().increment();
    let events = tmp.destroy(&mut refs);
    assert_eq!(
        events,
        vec![
            DeletionEvent::Buffer(6),
            DeletionEvent::Texture(3),
            DeletionEvent::Texture(4),
            DeletionEvent::DescriptorSet(2),
        ]
    );
    // The second destroy has nothing left to release.
    assert!(tmp.destroy(&mut refs).is_empty());
    assert!(refs.buffers[5].as_mut().unwrap().decrement_many(1));
    assert!(!refs.pipelines[1].as_mut().unwrap().decrement_many(0));
}
