use game_render::backend::{DescriptorBinding, DescriptorType, PushConstantRange, ShaderStage, ShaderStages};
use game_render::pipeline::{
    check_pipeline, descriptor_totals, pipeline_bindings, PipelineBindingError, PipelineError, PipelineLimits,
    StageBindings,
};
use game_render::shader::{BindingLocation, ShaderAccess, ShaderBinding};

fn limits() -> PipelineLimits {
    PipelineLimits {
        max_push_constants_size: 128,
        max_bound_descriptor_sets: 4,
        max_per_stage_descriptor_samplers: 16,
        max_per_stage_descriptor_uniform_buffers: 12,
        max_per_stage_descriptor_storage_buffers: 8,
        max_per_stage_descriptor_sampled_images: 64,
        max_per_stage_resources: 80,
        max_descriptor_set_samplers: 32,
        max_descriptor_set_uniform_buffers: 24,
        max_descriptor_set_storage_buffers: 24,
        max_descriptor_set_sampled_images: 128,
        max_color_attachments: 4,
    }
}

fn binding(binding: u32, kind: DescriptorType, count: u32) -> DescriptorBinding {
    DescriptorBinding { binding, visibility: ShaderStages { bits: 3 }, kind, count }
}

fn layouts() -> Vec<Vec<DescriptorBinding>> {
    vec![
        vec![binding(0, DescriptorType::Uniform, 1), binding(1, DescriptorType::Texture, 10)],
        vec![binding(0, DescriptorType::Sampler, 2), binding(1, DescriptorType::Texture, 5)],
        vec![binding(0, DescriptorType::Storage, 3)],
    ]
}

fn range(start: u32, end: u32, bits: u32) -> PushConstantRange {
    PushConstantRange { start, end, stages: ShaderStages { bits } }
}

const VF: [ShaderStage; 2] = [ShaderStage::Vertex, ShaderStage::Fragment];

#[test]
fn descriptors_are_counted_over_all_sets() {
    let t = descriptor_totals(&layouts());
    assert_eq!(t.uniform_buffers, 1);
    assert_eq!(t.storage_buffers, 3);
    assert_eq!(t.samplers, 2);
    assert_eq!(t.sampled_textures, 15);
}

#[test]
fn valid_pipeline() {
    let ranges = [range(0, 64, 1), range(64, 128, 2)];
    assert_eq!(check_pipeline(&layouts(), &ranges, &VF, 2, false, &limits()), Ok(()));
    let tmf = [ShaderStage::Task, ShaderStage::Mesh, ShaderStage::Fragment];
    assert_eq!(check_pipeline(&layouts(), &[], &tmf, 1, true, &limits()), Ok(()));
    let mf = [ShaderStage::Mesh, ShaderStage::Fragment];
    assert_eq!(check_pipeline(&[], &[], &mf, 0, true, &limits()), Ok(()));
}

#[test]
fn descriptor_limits() {
    let mut l = limits();
    l.max_descriptor_set_storage_buffers = 2;
    assert_eq!(
        check_pipeline(&layouts(), &[], &VF, 1, false, &l),
        Err(PipelineError::DescriptorSetLimit(DescriptorType::Storage))
    );
    let mut l = limits();
    l.max_per_stage_descriptor_sampled_images = 14;
    assert_eq!(
        check_pipeline(&layouts(), &[], &VF, 1, false, &l),
        Err(PipelineError::PerStageLimit(DescriptorType::Texture))
    );
    let mut l = limits();
    l.max_per_stage_resources = 20;
    assert_eq!(check_pipeline(&layouts(), &[], &VF, 1, false, &l), Err(PipelineError::PerStageResources));
    let mut l = limits();
    l.max_per_stage_resources = 21;
    assert_eq!(check_pipeline(&layouts(), &[], &VF, 1, false, &l), Ok(()));
    let mut l = limits();
    l.max_bound_descriptor_sets = 2;
    assert_eq!(check_pipeline(&layouts(), &[], &VF, 1, false, &l), Err(PipelineError::TooManySets));
}

#[test]
fn push_constant_ranges() {
    let l = limits();
    let check = |ranges: &[PushConstantRange]| check_pipeline(&[], ranges, &VF, 1, false, &l);
    assert_eq!(check(&[range(0, 4, 1), range(4, 4, 1)]), Err(PipelineError::PushConstantRange(1)));
    assert_eq!(check(&[range(2, 6, 1)]), Err(PipelineError::PushConstantRange(0)));
    assert_eq!(check(&[range(0, 6, 1)]), Err(PipelineError::PushConstantRange(0)));
    assert_eq!(check(&[range(0, 132, 1)]), Err(PipelineError::PushConstantRange(0)));
    assert_eq!(check(&[range(128, 132, 1)]), Err(PipelineError::PushConstantRange(0)));
    assert_eq!(check(&[range(0, 4, 0)]), Err(PipelineError::PushConstantRange(0)));
    assert_eq!(check(&[range(0, 4, 16)]), Err(PipelineError::PushConstantRange(0)));
    assert_eq!(check(&[range(124, 128, 15)]), Ok(()));
}

#[test]
fn stage_compositions() {
    let l = limits();
    let fv = [ShaderStage::Fragment, ShaderStage::Vertex];
    assert_eq!(check_pipeline(&[], &[], &fv, 1, true, &l), Err(PipelineError::InvalidStages));
    assert_eq!(check_pipeline(&[], &[], &[], 1, true, &l), Err(PipelineError::InvalidStages));
    let mf = [ShaderStage::Mesh, ShaderStage::Fragment];
    assert_eq!(check_pipeline(&[], &[], &mf, 1, false, &l), Err(PipelineError::MeshShadersDisabled));
    assert_eq!(check_pipeline(&[], &[], &VF, 5, false, &l), Err(PipelineError::TooManyColorAttachments));
    assert_eq!(check_pipeline(&[], &[], &VF, 4, false, &l), Ok(()));
}

fn shader_binding(group: u32, binding: u32, kind: DescriptorType, access: u8) -> ShaderBinding {
    ShaderBinding { group, binding, kind, access: ShaderAccess { bits: access }, count: Some(1) }
}

#[test]
fn pipeline_bindings_record_stage_accesses() {
    let layouts = layouts();
    let stages = vec![
        StageBindings {
            stage: ShaderStage::Vertex,
            bindings: vec![
                shader_binding(0, 0, DescriptorType::Uniform, 1),
                shader_binding(0, 1, DescriptorType::Texture, 0),
            ],
        },
        StageBindings {
            stage: ShaderStage::Fragment,
            bindings: vec![
                shader_binding(0, 0, DescriptorType::Uniform, 1),
                shader_binding(2, 0, DescriptorType::Storage, 3),
            ],
        },
    ];
    let map = pipeline_bindings(&stages, &layouts).unwrap();
    assert_eq!(map.get(0, 0).unwrap().bits(), 0x200 | 0x800);
    assert!(map.get(0, 1).is_none());
    assert_eq!(map.get(2, 0).unwrap().bits(), 0x800 | 0x1000);
    assert!(map.get(1, 0).is_none());
}

#[test]
fn pipeline_bindings_are_checked() {
    let layouts = layouts();
    let wrong_kind = vec![StageBindings {
        stage: ShaderStage::Vertex,
        bindings: vec![shader_binding(1, 0, DescriptorType::Texture, 1)],
    }];
    assert_eq!(
        pipeline_bindings(&wrong_kind, &layouts).unwrap_err(),
        PipelineBindingError::KindMismatch {
            location: BindingLocation { group: 1, binding: 0 },
            expected: DescriptorType::Texture,
            provided: Some(DescriptorType::Sampler),
        }
    );
    let missing = vec![StageBindings {
        stage: ShaderStage::Vertex,
        bindings: vec![shader_binding(3, 0, DescriptorType::Texture, 1)],
    }];
    assert_eq!(
        pipeline_bindings(&missing, &layouts).unwrap_err(),
        PipelineBindingError::KindMismatch {
            location: BindingLocation { group: 3, binding: 0 },
            expected: DescriptorType::Texture,
            provided: None,
        }
    );
    let hidden = vec![StageBindings {
        stage: ShaderStage::Mesh,
        bindings: vec![shader_binding(0, 0, DescriptorType::Uniform, 1)],
    }];
    assert_eq!(
        pipeline_bindings(&hidden, &layouts).unwrap_err(),
        PipelineBindingError::NotVisible {
            location: BindingLocation { group: 0, binding: 0 },
            stage: ShaderStage::Mesh,
            visibility: ShaderStages { bits: 3 },
        }
    );
}
