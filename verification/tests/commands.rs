use game_render::access::AccessFlags;
use game_render::accesses::{Resource, ResourceId, TextureMip};
use game_render::backend::{LoadOp, StoreOp, TextureFormat};
use game_render::binding_map::BindingMap;
use game_render::commands::{
    ColorAttachmentOwned, Command, CommandStream, ComputeCommand, ComputePassCmd, CopyBufferToBuffer,
    CopyTextureToTexture, CreateTexture, DepthStencilAttachmentOwned, DescriptorSetResource, DrawCall,
    DrawCmd, DrawIndirect, RawTextureView, RenderPassCmd, ResourceTables, TextureDescriptor,
    WriteBuffer,
};

fn empty_tables() -> ResourceTables {
    ResourceTables { pipelines: Vec::new(), descriptor_sets: Vec::new() }
}

fn tex(id: usize, mip_level: u32) -> ResourceId {
    ResourceId::Texture(TextureMip { id, mip_level })
}

fn access_of(list: &[Resource<ResourceId>], id: ResourceId) -> Option<AccessFlags> {
    let found: Vec<_> = list.iter().filter(|r| r.id == id).collect();
    assert!(found.len() <= 1, "resource listed twice");
    found.first().map(|r| r.access)
}

#[test]
fn write_buffer_writes() {
    let mut out = Vec::new();
    Command::WriteBuffer(WriteBuffer { buffer: 3, offset: 0, staging_memory_offset: 0, count: 4 })
        .write_accesses(&empty_tables(), &mut out);
    assert_eq!(out, [Resource { id: ResourceId::Buffer(3), access: AccessFlags::transfer_write() }]);
}

#[test]
fn copy_to_same_buffer_is_one_access() {
    let mut out = Vec::new();
    Command::CopyBufferToBuffer(CopyBufferToBuffer { src: 1, src_offset: 0, dst: 1, dst_offset: 8, count: 4 })
        .write_accesses(&empty_tables(), &mut out);
    assert_eq!(
        out,
        [Resource {
            id: ResourceId::Buffer(1),
            access: AccessFlags::transfer_read().union(AccessFlags::transfer_write())
        }]
    );
    let mut out = Vec::new();
    Command::CopyTextureToTexture(CopyTextureToTexture { src: 1, src_mip_level: 0, dst: 1, dst_mip_level: 1 })
        .write_accesses(&empty_tables(), &mut out);
    assert_eq!(out.len(), 2);
    assert_eq!(out[0].id, tex(1, 0));
    assert_eq!(out[1].id, tex(1, 1));
}

#[test]
fn create_texture_touches_every_mip() {
    let mut out = Vec::new();
    Command::CreateTexture(CreateTexture {
        id: 7,
        descriptor: TextureDescriptor {
            width: 4,
            height: 4,
            mip_levels: 3,
            format: TextureFormat::Rgba8Unorm,
            usage: 0,
        },
    })
    .write_accesses(&empty_tables(), &mut out);
    assert_eq!(out.len(), 3);
    for (i, r) in out.iter().enumerate() {
        assert_eq!(r.id, tex(7, i as u32));
        assert!(r.access.is_empty());
    }
}

#[test]
fn render_pass_merges_accesses() {
    let mut bindings = BindingMap::new();
    bindings.insert(0, 0, AccessFlags::fragment_shader_read());
    bindings.insert(0, 1, AccessFlags::vertex_shader_read());
    let tables = ResourceTables {
        pipelines: vec![Some(bindings)],
        descriptor_sets: vec![Some(vec![
            (0, DescriptorSetResource::UniformBuffer(5)),
            (1, DescriptorSetResource::SampledTexture(vec![RawTextureView {
                texture: 2,
                base_mip_level: 1,
                mip_levels: 2,
            }])),
            (2, DescriptorSetResource::StorageBuffer(9)),
        ])],
    };
    let pass = RenderPassCmd {
        name: "test",
        color_attachments: vec![ColorAttachmentOwned {
            target: RawTextureView { texture: 4, base_mip_level: 0, mip_levels: 1 },
            load_op: LoadOp::Load,
            store_op: StoreOp::Store,
        }],
        depth_stencil_attachment: Some(DepthStencilAttachmentOwned {
            texture: 6,
            load_op: LoadOp::Clear(()),
            store_op: StoreOp::Discard,
        }),
        cmds: vec![
            // Bound without a pipeline: ignored.
            DrawCmd::SetDescriptorSet(0, 0),
            DrawCmd::SetPipeline(0),
            DrawCmd::SetDescriptorSet(0, 0),
            DrawCmd::SetDescriptorSet(0, 0),
            DrawCmd::Draw(DrawCall::DrawIndirect(DrawIndirect { buffer: 5, offset: 0, count: 1 })),
        ],
    };
    let mut out = Vec::new();
    Command::RenderPass(pass).write_accesses(&tables, &mut out);

    assert_eq!(
        access_of(&out, ResourceId::Buffer(5)),
        Some(AccessFlags::fragment_shader_read().union(AccessFlags::indirect()))
    );
    assert_eq!(access_of(&out, tex(2, 1)), Some(AccessFlags::vertex_shader_read()));
    assert_eq!(access_of(&out, tex(2, 2)), Some(AccessFlags::vertex_shader_read()));
    assert_eq!(access_of(&out, tex(2, 0)), None);
    // Binding 2 is not used by the pipeline.
    assert_eq!(access_of(&out, ResourceId::Buffer(9)), None);
    assert_eq!(
        access_of(&out, tex(4, 0)),
        Some(AccessFlags::color_attachment_read().union(AccessFlags::color_attachment_write()))
    );
    assert_eq!(
        access_of(&out, tex(6, 0)),
        Some(AccessFlags::depth_attachment_read().union(AccessFlags::depth_attachment_write()))
    );
    assert_eq!(out.len(), 5);
}

#[test]
fn compute_pass_accesses() {
    let mut bindings = BindingMap::new();
    bindings.insert(1, 0, AccessFlags::shader_write());
    bindings.insert(1, 0, AccessFlags::shader_read());
    assert_eq!(
        bindings.get(1, 0),
        Some(AccessFlags::shader_write().union(AccessFlags::shader_read()))
    );
    assert_eq!(bindings.get(0, 0), None);
    let tables = ResourceTables {
        pipelines: vec![None, Some(bindings)],
        descriptor_sets: vec![Some(vec![(0, DescriptorSetResource::StorageBuffer(3))])],
    };
    let pass = ComputePassCmd {
        name: "compute",
        cmds: vec![
            ComputeCommand::SetPipeline(1),
            ComputeCommand::SetDescriptorSet(1, 0),
            ComputeCommand::Dispatch(1, 1, 1),
        ],
    };
    let mut out = vec![Resource { id: ResourceId::Buffer(0), access: AccessFlags::empty() }];
    Command::ComputePass(pass).write_accesses(&tables, &mut out);
    assert_eq!(out.len(), 2);
    assert_eq!(out[1].id, ResourceId::Buffer(3));
    assert_eq!(out[1].access, AccessFlags::shader_write().union(AccessFlags::shader_read()));
}

#[test]
fn command_stream_keeps_accesses_per_command() {
    let tables = empty_tables();
    let mut stream = CommandStream::new();
    stream.push(&tables, Command::WriteBuffer(WriteBuffer { buffer: 1, offset: 0, staging_memory_offset: 0, count: 1 }));
    stream.push(&tables, Command::DestoryBuffer(1));
    stream.push(&tables, Command::CopyBufferToBuffer(CopyBufferToBuffer { src: 1, src_offset: 0, dst: 2, dst_offset: 0, count: 1 }));
    let cmds = stream.commands();
    assert_eq!(cmds.len(), 3);
    assert_eq!(cmds[0].resources.len(), 1);
    assert_eq!(cmds[1].resources.len(), 0);
    assert_eq!(cmds[2].resources.len(), 2);
    assert_eq!(cmds[2].resources[1].id, ResourceId::Buffer(2));
    stream.clear();
    assert_eq!(stream.commands().len(), 0);
}
