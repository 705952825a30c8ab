use game_render::backend::{DescriptorBinding, DescriptorType, ShaderStages};
use game_render::shader::{
    validate_shader_bindings, BindingError, BindingLocation, ShaderAccess, ShaderBinding,
};

fn layout_binding(binding: u32, kind: DescriptorType, count: u32) -> DescriptorBinding {
    DescriptorBinding {
        binding,
        visibility: ShaderStages { bits: 3 },
        kind,
        count,
    }
}

fn shader_binding(group: u32, binding: u32, kind: DescriptorType, count: Option<u32>) -> ShaderBinding {
    ShaderBinding {
        group,
        binding,
        kind,
        access: ShaderAccess::read(),
        count,
    }
}

#[test]
fn shader_binding_location() {
    let b = shader_binding(2, 5, DescriptorType::Sampler, Some(1));
    assert_eq!(b.location(), BindingLocation { group: 2, binding: 5 });
}

#[test]
fn shader_access_union() {
    assert_eq!(ShaderAccess::read().union(ShaderAccess::write()).bits, 3);
}

#[test]
fn validate_accepts_matching_layouts() {
    let layouts = vec![
        vec![layout_binding(0, DescriptorType::Uniform, 1), layout_binding(1, DescriptorType::Texture, 4)],
        vec![layout_binding(3, DescriptorType::Sampler, 1)],
    ];
    let bindings = [
        shader_binding(0, 1, DescriptorType::Texture, Some(4)),
        shader_binding(1, 3, DescriptorType::Sampler, Some(1)),
        shader_binding(0, 0, DescriptorType::Uniform, Some(1)),
    ];
    assert_eq!(validate_shader_bindings(&bindings, &layouts), Ok(()));
    assert_eq!(validate_shader_bindings(&[], &[]), Ok(()));
}

#[test]
fn validate_reports_missing_group() {
    let layouts = vec![vec![layout_binding(0, DescriptorType::Uniform, 1)]];
    let bindings = [shader_binding(1, 0, DescriptorType::Uniform, Some(1))];
    assert_eq!(
        validate_shader_bindings(&bindings, &layouts),
        Err(BindingError::MissingGroup { group: 1, bound: 1 })
    );
}

#[test]
fn validate_reports_missing_binding() {
    let layouts = vec![vec![layout_binding(0, DescriptorType::Uniform, 1)]];
    let bindings = [shader_binding(0, 2, DescriptorType::Uniform, Some(1))];
    assert_eq!(
        validate_shader_bindings(&bindings, &layouts),
        Err(BindingError::MissingBinding { group: 0, binding: 2 })
    );
}

#[test]
fn validate_reports_count_mismatch() {
    let layouts = vec![vec![layout_binding(0, DescriptorType::Texture, 8)]];
    let bindings = [shader_binding(0, 0, DescriptorType::Texture, Some(4))];
    assert_eq!(
        validate_shader_bindings(&bindings, &layouts),
        Err(BindingError::CountMismatch {
            location: BindingLocation { group: 0, binding: 0 },
            layout_count: 8,
            shader_count: Some(4),
        })
    );
    let unsized_array = [shader_binding(0, 0, DescriptorType::Texture, None)];
    assert_eq!(
        validate_shader_bindings(&unsized_array, &layouts),
        Err(BindingError::CountMismatch {
            location: BindingLocation { group: 0, binding: 0 },
            layout_count: 8,
            shader_count: None,
        })
    );
}

#[test]
fn validate_reports_incompatible_kind_of_first_failing_binding() {
    let layouts = vec![vec![
        layout_binding(0, DescriptorType::Storage, 1),
        layout_binding(1, DescriptorType::Sampler, 1),
    ]];
    let bindings = [
        shader_binding(0, 0, DescriptorType::Uniform, Some(1)),
        shader_binding(0, 7, DescriptorType::Uniform, Some(1)),
    ];
    assert_eq!(
        validate_shader_bindings(&bindings, &layouts),
        Err(BindingError::Incompatible {
            location: BindingLocation { group: 0, binding: 0 },
            layout_kind: DescriptorType::Storage,
            shader_kind: DescriptorType::Uniform,
        })
    );
}
