use game_render::device::{DeviceFeatures, FeatureError};

#[test]
fn no_features_is_empty() {
    let f = DeviceFeatures::none();
    assert!(f.is_empty());
    assert!(f.names().is_empty());
}

#[test]
fn names_follow_the_listing_order() {
    let mut f = DeviceFeatures::none();
    f.mesh_shader = true;
    f.mutli_draw_indirect = true;
    f.storage_buffer_16bit_access = true;
    f.host_query_reset = true;
    assert!(!f.is_empty());
    assert_eq!(
        f.names(),
        vec![
            "storage_buffer_16bit_access",
            "mutli_draw_indirect",
            "host_query_reset",
            "mesh_shader",
        ]
    );
    assert_eq!(
        f.names().join(", "),
        "storage_buffer_16bit_access, mutli_draw_indirect, host_query_reset, mesh_shader"
    );
}

#[test]
fn requirements_met_by_a_superset() {
    let mut supported = DeviceFeatures::none();
    supported.dynamic_rendering = true;
    supported.synchronization2 = true;
    let mut required = DeviceFeatures::none();
    required.dynamic_rendering = true;
    assert_eq!(supported.validate_requirements(required), Ok(()));
    assert_eq!(supported.validate_requirements(supported), Ok(()));
    assert_eq!(supported.validate_requirements(DeviceFeatures::none()), Ok(()));
}

#[test]
fn missing_requirements_are_listed() {
    let mut supported = DeviceFeatures::none();
    supported.dynamic_rendering = true;
    let mut required = DeviceFeatures::none();
    required.dynamic_rendering = true;
    required.task_shader = true;
    required.shader_int8 = true;
    let mut missing = DeviceFeatures::none();
    missing.task_shader = true;
    missing.shader_int8 = true;
    assert_eq!(
        supported.validate_requirements(required),
        Err(FeatureError::MissingFeatures(missing))
    );
    let Err(FeatureError::MissingFeatures(m)) = supported.validate_requirements(required) else {
        panic!("expected missing features");
    };
    assert_eq!(m.names(), vec!["shader_int8", "task_shader"]);
}
