use game_render::backend::{DescriptorBinding, DescriptorType, ShaderStages};
use game_render::commands::{DescriptorSetResource, RawTextureView};
use game_render::descriptor_set::{
    check_descriptor_writes, plan_descriptor_set, BindingResource, DescriptorWriteError, DescriptorSetEntry, DescriptorSetError, ResourceKind,
    TextureViewRef, BUFFER_USAGE_STORAGE, BUFFER_USAGE_UNIFORM, TEXTURE_USAGE_TEXTURE_BINDING,
};

fn binding(binding: u32, kind: DescriptorType) -> DescriptorBinding {
    DescriptorBinding {
        binding,
        visibility: ShaderStages { bits: 1 },
        kind,
        count: 1,
    }
}

fn view(texture: usize, usage: u32) -> TextureViewRef {
    TextureViewRef {
        texture,
        usage,
        base_mip_level: 0,
        mip_levels: 2,
    }
}

fn layout() -> Vec<DescriptorBinding> {
    vec![
        binding(0, DescriptorType::Uniform),
        binding(1, DescriptorType::Storage),
        binding(2, DescriptorType::Texture),
        binding(3, DescriptorType::Sampler),
    ]
}

#[test]
fn descriptor_set_plan_records_every_binding() {
    let entries = vec![
        DescriptorSetEntry {
            binding: 0,
            resource: BindingResource::Buffer { id: 7, usage: BUFFER_USAGE_UNIFORM },
        },
        DescriptorSetEntry {
            binding: 1,
            resource: BindingResource::Buffer { id: 8, usage: BUFFER_USAGE_STORAGE | 1 },
        },
        DescriptorSetEntry {
            binding: 2,
            resource: BindingResource::TextureArray(vec![
                view(3, TEXTURE_USAGE_TEXTURE_BINDING),
                view(4, TEXTURE_USAGE_TEXTURE_BINDING),
            ]),
        },
        DescriptorSetEntry {
            binding: 3,
            resource: BindingResource::Sampler(9),
        },
    ];
    let plan = plan_descriptor_set(&layout(), &entries).unwrap();
    assert_eq!(plan.num_buffers, 2);
    assert_eq!(plan.num_samplers, 1);
    assert_eq!(plan.num_textures, 0);
    assert_eq!(plan.num_texture_arrays, 1);
    assert_eq!(plan.buffer_refs, [7, 8]);
    assert_eq!(plan.sampler_refs, [9]);
    assert_eq!(plan.texture_refs, [3, 4]);
    assert_eq!(plan.bindings.len(), 4);
    assert!(matches!(plan.bindings[0], (0, DescriptorSetResource::UniformBuffer(7))));
    assert!(matches!(plan.bindings[1], (1, DescriptorSetResource::StorageBuffer(8))));
    match &plan.bindings[2] {
        (2, DescriptorSetResource::SampledTexture(views)) => {
            assert_eq!(
                views,
                &[
                    RawTextureView { texture: 3, base_mip_level: 0, mip_levels: 2 },
                    RawTextureView { texture: 4, base_mip_level: 0, mip_levels: 2 },
                ]
            );
        }
        _ => panic!("binding 2 holds the texture array"),
    }
    assert!(matches!(plan.bindings[3], (3, DescriptorSetResource::Sampler(9))));
}

#[test]
fn descriptor_set_later_entry_replaces_earlier() {
    let layout = vec![binding(0, DescriptorType::Texture)];
    let entries = vec![
        DescriptorSetEntry { binding: 0, resource: BindingResource::Texture(view(1, 8)) },
        DescriptorSetEntry { binding: 0, resource: BindingResource::Texture(view(2, 8)) },
    ];
    let plan = plan_descriptor_set(&layout, &entries).unwrap();
    assert_eq!(plan.bindings.len(), 1);
    assert_eq!(plan.num_textures, 2);
    assert_eq!(plan.texture_refs, [1, 2]);
    match &plan.bindings[0] {
        (0, DescriptorSetResource::SampledTexture(views)) => assert_eq!(views[0].texture, 2),
        _ => panic!("binding 0 holds the second texture"),
    }
}

#[test]
fn descriptor_set_rejects_wrong_kind() {
    let entries = vec![DescriptorSetEntry {
        binding: 3,
        resource: BindingResource::Buffer { id: 1, usage: BUFFER_USAGE_UNIFORM },
    }];
    assert_eq!(
        plan_descriptor_set(&layout(), &entries).unwrap_err(),
        DescriptorSetError::InvalidDescriptor {
            binding: 3,
            expected: Some(DescriptorType::Sampler),
            found: ResourceKind::Buffer,
        }
    );
    let unknown = vec![DescriptorSetEntry { binding: 9, resource: BindingResource::Sampler(1) }];
    assert_eq!(
        plan_descriptor_set(&layout(), &unknown).unwrap_err(),
        DescriptorSetError::InvalidDescriptor { binding: 9, expected: None, found: ResourceKind::Sampler }
    );
}

#[test]
fn descriptor_set_rejects_missing_usage() {
    let uniform = vec![DescriptorSetEntry {
        binding: 0,
        resource: BindingResource::Buffer { id: 1, usage: BUFFER_USAGE_STORAGE },
    }];
    assert_eq!(
        plan_descriptor_set(&layout(), &uniform).unwrap_err(),
        DescriptorSetError::MissingUniformUsage { binding: 0 }
    );
    let storage = vec![DescriptorSetEntry {
        binding: 1,
        resource: BindingResource::Buffer { id: 1, usage: BUFFER_USAGE_UNIFORM },
    }];
    assert_eq!(
        plan_descriptor_set(&layout(), &storage).unwrap_err(),
        DescriptorSetError::MissingStorageUsage { binding: 1 }
    );
    let texture = vec![DescriptorSetEntry {
        binding: 2,
        resource: BindingResource::TextureArray(vec![view(1, 8), view(2, 1)]),
    }];
    assert_eq!(
        plan_descriptor_set(&layout(), &texture).unwrap_err(),
        DescriptorSetError::MissingTextureBinding { binding: 2 }
    );
}

#[test]
fn descriptor_set_rejects_unset_bindings() {
    let entries = vec![DescriptorSetEntry { binding: 3, resource: BindingResource::Sampler(4) }];
    assert_eq!(
        plan_descriptor_set(&layout(), &entries).unwrap_err(),
        DescriptorSetError::UnsetBindings(vec![0, 1, 2])
    );
}

#[test]
fn descriptor_writes_are_checked() {
    let layout = [binding(0, DescriptorType::Uniform), binding(1, DescriptorType::Texture)];
    assert_eq!(check_descriptor_writes(&layout, &[(0, DescriptorType::Uniform, 1), (1, DescriptorType::Texture, 1)]), Ok(()));
    assert_eq!(
        check_descriptor_writes(&layout, &[(0, DescriptorType::Uniform, 1), (2, DescriptorType::Sampler, 1)]),
        Err(DescriptorWriteError::OutOfLayout { binding: 2, layout_len: 2 })
    );
    assert_eq!(
        check_descriptor_writes(&layout, &[(1, DescriptorType::Texture, 0)]),
        Err(DescriptorWriteError::Empty { binding: 1 })
    );
    assert_eq!(
        check_descriptor_writes(&layout, &[(1, DescriptorType::Texture, 2)]),
        Err(DescriptorWriteError::TooMany { binding: 1, count: 2, layout_count: 1 })
    );
    assert_eq!(
        check_descriptor_writes(&layout, &[(0, DescriptorType::Storage, 1), (5, DescriptorType::Storage, 1)]),
        Err(DescriptorWriteError::KindMismatch { binding: 0, write: DescriptorType::Storage, layout: DescriptorType::Uniform })
    );
}
