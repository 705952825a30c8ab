use game_render::access::QueueCapabilities;
use game_render::backend::{ColorSpace, PresentMode, SurfaceFormat, TextureFormat};
use game_render::device::{Config, DeviceExtensions, DeviceFeatures};
use game_render::setup::{
    check_surface, check_swapchain_config, contains_name, Extent, SwapchainCapabilities, SwapchainConfig, is_valid_request, plan_device, plan_instance, queue_capabilities,
    required_features, validation_settings, InstanceExtensions, InstanceLayers, QueueFamily,
    QueueSlot, SupportError, SurfaceKind,
};

fn all_instance_extensions() -> InstanceExtensions {
    InstanceExtensions {
        surface: true,
        surface_wayland: true,
        surface_xcb: true,
        surface_xlib: true,
        surface_win32: true,
        debug_utils: true,
        surface_maintenance1: true,
        get_surface_capabilities2: true,
    }
}

#[test]
fn names_are_matched_exactly() {
    let names = ["VK_KHR_surface", "VK_KHR_swapchain_x", "VK_EXT_mesh_shader"];
    assert!(contains_name(&names, "VK_KHR_surface"));
    assert!(!contains_name(&names, "VK_KHR_swapchain"));
    assert!(!contains_name(&[], "VK_KHR_surface"));
}

#[test]
fn instance_extensions_from_names() {
    let names = ["VK_KHR_xcb_surface", "VK_KHR_surface", "VK_LAYER_other", "VK_EXT_debug_utils"];
    let e = InstanceExtensions::from_names(&names);
    assert!(e.surface && e.surface_xcb && e.debug_utils);
    assert!(!e.surface_wayland && !e.surface_xlib && !e.surface_win32);
    assert!(!e.surface_maintenance1 && !e.get_surface_capabilities2);
    assert_eq!(e.names(), vec!["VK_KHR_surface", "VK_KHR_xcb_surface", "VK_EXT_debug_utils"]);
}

#[test]
fn instance_extension_names_round_trip() {
    let e = all_instance_extensions();
    let names = e.names();
    assert_eq!(names.len(), 8);
    assert_eq!(InstanceExtensions::from_names(&names), e);
}

#[test]
fn device_extensions_from_names() {
    let names = ["VK_EXT_mesh_shader", "VK_KHR_swapchain", "VK_KHR_maintenance4"];
    let e = DeviceExtensions::from_names(&names);
    assert!(e.swapchain && e.mesh_shader && !e.swapchain_maintenance1);
    assert_eq!(e.names(), vec!["VK_KHR_swapchain", "VK_EXT_mesh_shader"]);
    let all = DeviceExtensions { swapchain: true, swapchain_maintenance1: true, mesh_shader: true };
    assert_eq!(
        all.names(),
        vec!["VK_EXT_swapchain_maintenance1", "VK_KHR_swapchain", "VK_EXT_mesh_shader"]
    );
    let back = DeviceExtensions::from_names(&all.names());
    assert!(back.swapchain && back.swapchain_maintenance1 && back.mesh_shader);
}

#[test]
fn layers_from_names() {
    let l = InstanceLayers::from_names(&["VK_LAYER_KHRONOS_validation"]);
    assert!(l.validation);
    assert_eq!(l.names(), vec!["VK_LAYER_KHRONOS_validation"]);
    let none = InstanceLayers::from_names(&["VK_LAYER_MESA_overlay"]);
    assert!(!none.validation);
    assert!(none.names().is_empty());
}

#[test]
fn instance_without_validation() {
    let config = Config { validation: false, gpuav: true, performance_counters: false };
    let layers = InstanceLayers { validation: false };
    let mut ext = all_instance_extensions();
    ext.debug_utils = false;
    let plan = plan_instance(&config, layers, ext).unwrap();
    assert!(plan.layers.is_empty());
    assert!(!plan.debug);
    assert!(plan.layer_settings.is_empty());
    assert_eq!(plan.extensions, ext.names());
}

#[test]
fn instance_with_validation() {
    let config = Config { validation: true, gpuav: false, performance_counters: false };
    let layers = InstanceLayers { validation: true };
    let plan = plan_instance(&config, layers, all_instance_extensions()).unwrap();
    assert_eq!(plan.layers, vec!["VK_LAYER_KHRONOS_validation"]);
    assert!(plan.debug);
    assert_eq!(plan.layer_settings.len(), 15);
    assert_eq!(plan.layer_settings[0], ("validate_core", true));
    assert_eq!(plan.layer_settings[13], ("gpuav_enable", false));
    assert_eq!(plan.layer_settings[14], ("gpuav_safe_mode", false));
    assert_eq!(validation_settings(true)[13], ("gpuav_enable", true));
}

#[test]
fn instance_missing_layer_or_extension() {
    let config = Config { validation: true, gpuav: false, performance_counters: false };
    let r = plan_instance(&config, InstanceLayers { validation: false }, all_instance_extensions());
    assert_eq!(r.unwrap_err(), SupportError::MissingLayer("VK_LAYER_KHRONOS_validation"));
    let mut ext = all_instance_extensions();
    ext.debug_utils = false;
    let r = plan_instance(&config, InstanceLayers { validation: true }, ext);
    assert_eq!(r.unwrap_err(), SupportError::MissingExtension("VK_EXT_debug_utils"));
    let r = plan_instance(&config, InstanceLayers { validation: false }, ext);
    assert_eq!(r.unwrap_err(), SupportError::MissingLayer("VK_LAYER_KHRONOS_validation"));
}

#[test]
fn surface_checks() {
    let all = all_instance_extensions();
    assert_eq!(check_surface(all, SurfaceKind::Wayland), Ok(()));
    assert_eq!(check_surface(all, SurfaceKind::Unsupported), Err(SupportError::UnsupportedSurface));
    let mut e = all;
    e.surface_xlib = false;
    assert_eq!(
        check_surface(e, SurfaceKind::Xlib),
        Err(SupportError::MissingExtension("VK_KHR_xlib_surface"))
    );
    assert_eq!(check_surface(e, SurfaceKind::Xcb), Ok(()));
    e.surface_maintenance1 = false;
    assert_eq!(
        check_surface(e, SurfaceKind::Xcb),
        Err(SupportError::MissingExtension("VK_EXT_surface_maintenance1"))
    );
    e.surface = false;
    assert_eq!(
        check_surface(e, SurfaceKind::Unsupported),
        Err(SupportError::MissingExtension("VK_KHR_surface"))
    );
}

#[test]
fn queue_capabilities_from_flags() {
    let g = queue_capabilities(1);
    assert_eq!(g, QueueCapabilities::graphics().union(QueueCapabilities::transfer()));
    let c = queue_capabilities(2);
    assert_eq!(c, QueueCapabilities::compute().union(QueueCapabilities::transfer()));
    assert_eq!(queue_capabilities(4), QueueCapabilities::transfer());
    assert_eq!(queue_capabilities(8), QueueCapabilities::from_bits_retain(0));
    assert_eq!(queue_capabilities(7), QueueCapabilities::from_bits_retain(7));
}

fn families() -> Vec<QueueFamily> {
    vec![
        QueueFamily { id: 0, count: 16, capabilities: queue_capabilities(7) },
        QueueFamily { id: 1, count: 2, capabilities: queue_capabilities(4) },
        QueueFamily { id: 2, count: 8, capabilities: queue_capabilities(2) },
    ]
}

#[test]
fn queue_requests_are_checked() {
    let available = families();
    let ok = [
        QueueFamily { id: 2, count: 3, capabilities: queue_capabilities(2) },
        QueueFamily { id: 0, count: 1, capabilities: queue_capabilities(7) },
    ];
    assert!(is_valid_request(&available, &ok));
    let too_many = [QueueFamily { id: 1, count: 3, capabilities: queue_capabilities(4) }];
    assert!(!is_valid_request(&available, &too_many));
    let unknown = [QueueFamily { id: 5, count: 1, capabilities: queue_capabilities(4) }];
    assert!(!is_valid_request(&available, &unknown));
    let wrong_caps = [QueueFamily { id: 1, count: 1, capabilities: queue_capabilities(7) }];
    assert!(!is_valid_request(&available, &wrong_caps));
    let twice = [
        QueueFamily { id: 1, count: 1, capabilities: queue_capabilities(4) },
        QueueFamily { id: 1, count: 1, capabilities: queue_capabilities(4) },
    ];
    assert!(!is_valid_request(&available, &twice));
}

fn supported_features() -> DeviceFeatures {
    let mut f = required_features(true);
    f.mesh_shader = true;
    f
}

#[test]
fn device_plan() {
    let config = Config { validation: true, gpuav: false, performance_counters: false };
    let available = families();
    let requested = [
        QueueFamily { id: 2, count: 3, capabilities: queue_capabilities(2) },
        QueueFamily { id: 1, count: 1, capabilities: queue_capabilities(4) },
    ];
    let ext = DeviceExtensions { swapchain: true, swapchain_maintenance1: false, mesh_shader: true };
    let plan = plan_device(&config, &available, &requested, supported_features(), ext).unwrap();
    assert_eq!(plan.queue_priorities, 3);
    assert_eq!(plan.slots.len(), 4);
    assert_eq!(plan.slots[0], QueueSlot { family: 2, index: 0, capabilities: queue_capabilities(2) });
    assert_eq!(plan.slots[2], QueueSlot { family: 2, index: 2, capabilities: queue_capabilities(2) });
    assert_eq!(plan.slots[3], QueueSlot { family: 1, index: 0, capabilities: queue_capabilities(4) });
    assert_eq!(plan.layers, vec!["VK_LAYER_KHRONOS_validation"]);
    assert_eq!(plan.extensions, vec!["VK_KHR_swapchain", "VK_EXT_mesh_shader"]);
    assert_eq!(plan.required_features, required_features(false));
    assert!(!plan.required_features.host_query_reset);
    assert!(plan.mesh_shader && !plan.swapchain_maintenance1);
}

#[test]
fn device_needs_swapchain_then_features() {
    let config = Config { validation: false, gpuav: false, performance_counters: true };
    let available = families();
    let requested = [QueueFamily { id: 0, count: 1, capabilities: queue_capabilities(7) }];
    let no_swapchain = DeviceExtensions { swapchain: false, swapchain_maintenance1: true, mesh_shader: true };
    let r = plan_device(&config, &available, &requested, DeviceFeatures::none(), no_swapchain);
    assert_eq!(r.unwrap_err(), SupportError::MissingExtension("VK_KHR_swapchain"));

    let ext = DeviceExtensions { swapchain: true, swapchain_maintenance1: false, mesh_shader: false };
    let mut features = required_features(false);
    features.shader_int8 = false;
    let r = plan_device(&config, &available, &requested, features, ext);
    let mut missing = DeviceFeatures::none();
    missing.shader_int8 = true;
    missing.host_query_reset = true;
    assert_eq!(r.unwrap_err(), SupportError::MissingFeatures(missing));

    let plan = plan_device(&config, &available, &requested, supported_features(), ext).unwrap();
    assert!(plan.layers.is_empty());
    assert!(plan.required_features.host_query_reset);
    assert_eq!(plan.queue_priorities, 1);
}

fn caps() -> SwapchainCapabilities {
    SwapchainCapabilities {
        min_extent: Extent { x: 1, y: 1 },
        max_extent: Extent { x: 4096, y: 4096 },
        min_images: 2,
        max_images: Some(8),
        formats: vec![SurfaceFormat { format: TextureFormat::Bgra8UnormSrgb, color_space: ColorSpace::SrgbNonLinear }],
        present_modes: vec![PresentMode::Fifo, PresentMode::Mailbox],
        opaque_composite_alpha: true,
    }
}

fn config() -> SwapchainConfig {
    SwapchainConfig {
        image_count: 3,
        extent: Extent { x: 1280, y: 720 },
        format: SurfaceFormat { format: TextureFormat::Bgra8UnormSrgb, color_space: ColorSpace::SrgbNonLinear },
        present_mode: PresentMode::Mailbox,
    }
}

#[test]
fn swapchain_configs() {
    assert!(check_swapchain_config(&config(), &caps()));
    let mut c = config();
    c.extent.x = 0;
    assert!(!check_swapchain_config(&c, &caps()));
    let mut c = config();
    c.extent.y = 5000;
    assert!(!check_swapchain_config(&c, &caps()));
    let mut c = config();
    c.image_count = 9;
    assert!(!check_swapchain_config(&c, &caps()));
    let mut unlimited = caps();
    unlimited.max_images = None;
    assert!(check_swapchain_config(&c, &unlimited));
    c.image_count = 1;
    assert!(!check_swapchain_config(&c, &unlimited));
    let mut c = config();
    c.present_mode = PresentMode::Immediate;
    assert!(!check_swapchain_config(&c, &caps()));
    let mut c = config();
    c.format.format = TextureFormat::Rgba8Unorm;
    assert!(!check_swapchain_config(&c, &caps()));
    let mut no_opaque = caps();
    no_opaque.opaque_composite_alpha = false;
    assert!(!check_swapchain_config(&config(), &no_opaque));
}
