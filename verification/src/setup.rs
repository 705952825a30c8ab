use vstd::prelude::*;

use crate::access::QueueCapabilities;
use crate::backend::{PresentMode, SurfaceFormat};
use crate::device::{Config, DeviceExtensions, DeviceFeatures, FeatureError};
use crate::text::str_eq;

verus! {

/// Some entry of `names` is equal to `name`.
pub open spec fn lists(names: Seq<&str>, name: &str) -> bool {
    exists|i: int| 0 <= i < names.len() && names[i]@ == name@
}

/// `name` alone when `enabled`, nothing otherwise.
pub open spec fn when(enabled: bool, name: &'static str) -> Seq<&'static str> {
    if enabled {
        seq![name]
    } else {
        Seq::empty()
    }
}

/// Returns `true` if one of `names` is equal to `name`.
pub fn contains_name(names: &[&str], name: &str) -> (r: bool)
    ensures
        r == lists(names@, name),
{
    let mut i: usize = 0;
    while i < names.len()
        invariant
            i <= names.len(),
            forall|j: int| 0 <= j < i ==> names@[j]@ != name@,
        decreases names.len() - i,
    {
        if str_eq(names[i], name) {
            return true;
        }
        i = i + 1;
    }
    false
}

/// Appends `name` to `v` if `enabled`.
fn push_if(v: &mut Vec<&'static str>, enabled: bool, name: &'static str)
    ensures
        final(v)@ == old(v)@ + when(enabled, name),
{
    if enabled {
        v.push(name);
    }
    proof {
        assert(final(v)@ =~= old(v)@ + when(enabled, name));
    }
}

/// The instance layers that the renderer knows about.
#[derive(Copy, Clone, Debug, PartialEq, Eq, Structural)]
pub struct InstanceLayers {
    /// `VK_LAYER_KHRONOS_validation`
    pub validation: bool,
}

impl InstanceLayers {
    /// The layers among `names` that the renderer knows about.
    pub fn from_names(names: &[&str]) -> (r: Self)
        ensures
            r.validation == lists(names@, "VK_LAYER_KHRONOS_validation"),
    {
        Self { validation: contains_name(names, "VK_LAYER_KHRONOS_validation") }
    }

    /// The names of the layers that are set.
    pub fn names(&self) -> (r: Vec<&'static str>)
        ensures
            r@ == when(self.validation, "VK_LAYER_KHRONOS_validation"),
    {
        let mut v: Vec<&'static str> = Vec::new();
        push_if(&mut v, self.validation, "VK_LAYER_KHRONOS_validation");
        proof {
            assert(v@ =~= when(self.validation, "VK_LAYER_KHRONOS_validation"));
        }
        v
    }
}

/// The instance extensions that the renderer knows about.
#[derive(Copy, Clone, Debug, PartialEq, Eq, Structural)]
pub struct InstanceExtensions {
    /// `VK_KHR_surface`
    pub surface: bool,
    /// `VK_KHR_wayland_surface`
    pub surface_wayland: bool,
    /// `VK_KHR_xcb_surface`
    pub surface_xcb: bool,
    /// `VK_KHR_xlib_surface`
    pub surface_xlib: bool,
    /// `VK_KHR_win32_surface`
    pub surface_win32: bool,
    /// `VK_EXT_debug_utils`
    pub debug_utils: bool,
    /// `VK_EXT_surface_maintenance1`: a fence can be attached to a present, which is
    /// needed to destroy a swapchain legally.
    pub surface_maintenance1: bool,
    /// `VK_KHR_get_surface_capabilities2`, a dependency of `surface_maintenance1`.
    pub get_surface_capabilities2: bool,
}

impl InstanceExtensions {
    /// The extensions among `names` that the renderer knows about.
    pub fn from_names(names: &[&str]) -> (r: Self)
        ensures
            r.surface == lists(names@, "VK_KHR_surface"),
            r.surface_wayland == lists(names@, "VK_KHR_wayland_surface"),
            r.surface_xcb == lists(names@, "VK_KHR_xcb_surface"),
            r.surface_xlib == lists(names@, "VK_KHR_xlib_surface"),
            r.surface_win32 == lists(names@, "VK_KHR_win32_surface"),
            r.debug_utils == lists(names@, "VK_EXT_debug_utils"),
            r.surface_maintenance1 == lists(names@, "VK_EXT_surface_maintenance1"),
            r.get_surface_capabilities2 == lists(names@, "VK_KHR_get_surface_capabilities2"),
    {
        Self {
            surface: contains_name(names, "VK_KHR_surface"),
            surface_wayland: contains_name(names, "VK_KHR_wayland_surface"),
            surface_xcb: contains_name(names, "VK_KHR_xcb_surface"),
            surface_xlib: contains_name(names, "VK_KHR_xlib_surface"),
            surface_win32: contains_name(names, "VK_KHR_win32_surface"),
            debug_utils: contains_name(names, "VK_EXT_debug_utils"),
            surface_maintenance1: contains_name(names, "VK_EXT_surface_maintenance1"),
            get_surface_capabilities2: contains_name(names, "VK_KHR_get_surface_capabilities2"),
        }
    }

    /// The names of the extensions that are set, in a fixed order.
    pub open spec fn names_spec(self) -> Seq<&'static str> {
        when(self.surface, "VK_KHR_surface") + when(self.surface_wayland, "VK_KHR_wayland_surface")
            + when(self.surface_xcb, "VK_KHR_xcb_surface") + when(
            self.surface_xlib,
            "VK_KHR_xlib_surface",
        ) + when(self.surface_win32, "VK_KHR_win32_surface") + when(
            self.debug_utils,
            "VK_EXT_debug_utils",
        ) + when(self.surface_maintenance1, "VK_EXT_surface_maintenance1") + when(
            self.get_surface_capabilities2,
            "VK_KHR_get_surface_capabilities2",
        )
    }

    /// The names of the extensions that are set.
    pub fn names(&self) -> (r: Vec<&'static str>)
        ensures
            r@ == self.names_spec(),
    {
        let mut v: Vec<&'static str> = Vec::new();
        push_if(&mut v, self.surface, "VK_KHR_surface");
        proof {
            assert(v@ =~= when(self.surface, "VK_KHR_surface"));
        }
        push_if(&mut v, self.surface_wayland, "VK_KHR_wayland_surface");
        push_if(&mut v, self.surface_xcb, "VK_KHR_xcb_surface");
        push_if(&mut v, self.surface_xlib, "VK_KHR_xlib_surface");
        push_if(&mut v, self.surface_win32, "VK_KHR_win32_surface");
        push_if(&mut v, self.debug_utils, "VK_EXT_debug_utils");
        push_if(&mut v, self.surface_maintenance1, "VK_EXT_surface_maintenance1");
        push_if(&mut v, self.get_surface_capabilities2, "VK_KHR_get_surface_capabilities2");
        v
    }
}

impl DeviceExtensions {
    /// The extensions among `names` that the renderer knows about.
    pub fn from_names(names: &[&str]) -> (r: Self)
        ensures
            r.swapchain == lists(names@, "VK_KHR_swapchain"),
            r.swapchain_maintenance1 == lists(names@, "VK_EXT_swapchain_maintenance1"),
            r.mesh_shader == lists(names@, "VK_EXT_mesh_shader"),
    {
        DeviceExtensions {
            swapchain: contains_name(names, "VK_KHR_swapchain"),
            swapchain_maintenance1: contains_name(names, "VK_EXT_swapchain_maintenance1"),
            mesh_shader: contains_name(names, "VK_EXT_mesh_shader"),
        }
    }

    /// The names of the extensions that are set, in a fixed order.
    pub open spec fn names_spec(self) -> Seq<&'static str> {
        when(self.swapchain_maintenance1, "VK_EXT_swapchain_maintenance1") + when(
            self.swapchain,
            "VK_KHR_swapchain",
        ) + when(self.mesh_shader, "VK_EXT_mesh_shader")
    }

    /// The names of the extensions that are set.
    pub fn names(&self) -> (r: Vec<&'static str>)
        ensures
            r@ == self.names_spec(),
    {
        let mut v: Vec<&'static str> = Vec::new();
        push_if(&mut v, self.swapchain_maintenance1, "VK_EXT_swapchain_maintenance1");
        proof {
            assert(v@ =~= when(self.swapchain_maintenance1, "VK_EXT_swapchain_maintenance1"));
        }
        push_if(&mut v, self.swapchain, "VK_KHR_swapchain");
        push_if(&mut v, self.mesh_shader, "VK_EXT_mesh_shader");
        v
    }
}

/// Why the GPU cannot be set up the way the renderer needs it.
#[derive(Copy, Clone, Debug, PartialEq, Eq)]
pub enum SupportError {
    /// A required layer is not available.
    MissingLayer(&'static str),
    /// A required extension is not available.
    MissingExtension(&'static str),
    /// The window system of the surface is not supported.
    UnsupportedSurface,
    /// Required device features are not supported.
    MissingFeatures(DeviceFeatures),
}

/// The settings handed to the validation layer, each enabled or not.
pub open spec fn validation_settings_spec(gpuav: bool) -> Seq<(&'static str, bool)> {
    seq![
        ("validate_core", true),
        ("check_image_layout", true),
        ("check_command_buffer", true),
        ("check_object_in_use", true),
        ("check_query", true),
        ("check_shaders", true),
        ("check_shaders_caching", true),
        ("unique_handles", true),
        ("object_lifetime", true),
        ("stateless_param", true),
        ("thread_safety", true),
        ("validate_sync", true),
        ("validate_best_practices", true),
        ("gpuav_enable", gpuav),
        ("gpuav_safe_mode", gpuav),
    ]
}

/// The settings handed to the validation layer; GPU-assisted validation follows `gpuav`.
pub fn validation_settings(gpuav: bool) -> (r: Vec<(&'static str, bool)>)
    ensures
        r@ == validation_settings_spec(gpuav),
{
    let r = vec![
        ("validate_core", true),
        ("check_image_layout", true),
        ("check_command_buffer", true),
        ("check_object_in_use", true),
        ("check_query", true),
        ("check_shaders", true),
        ("check_shaders_caching", true),
        ("unique_handles", true),
        ("object_lifetime", true),
        ("stateless_param", true),
        ("thread_safety", true),
        ("validate_sync", true),
        ("validate_best_practices", true),
        ("gpuav_enable", gpuav),
        ("gpuav_safe_mode", gpuav),
    ];
    proof {
        assert(r@ =~= validation_settings_spec(gpuav));
    }
    r
}

/// What an instance is created with.
#[derive(Clone, Debug)]
pub struct InstancePlan {
    /// The layers to enable.
    pub layers: Vec<&'static str>,
    /// The extensions to enable: every supported one that the renderer knows.
    pub extensions: Vec<&'static str>,
    /// Whether a debug messenger and the validation layer settings are attached.
    pub debug: bool,
    /// The validation layer settings; empty when they are not attached.
    pub layer_settings: Vec<(&'static str, bool)>,
}

/// Decides how an instance is created from the configuration and the layers and
/// extensions that the system supports.
///
/// Validation needs both the validation layer and the debug utils extension; a missing
/// one is reported, the layer first.
pub fn plan_instance(config: &Config, layers: InstanceLayers, extensions: InstanceExtensions) -> (r:
    Result<InstancePlan, SupportError>)
    ensures
        config.validation && !layers.validation ==> r == Err::<InstancePlan, SupportError>(
            SupportError::MissingLayer("VK_LAYER_KHRONOS_validation"),
        ),
        config.validation && layers.validation && !extensions.debug_utils ==> r == Err::<
            InstancePlan,
            SupportError,
        >(SupportError::MissingExtension("VK_EXT_debug_utils")),
        !config.validation || (layers.validation && extensions.debug_utils) ==> (r matches Ok(
            plan,
        ) && plan.layers@ == when(config.validation, "VK_LAYER_KHRONOS_validation")
            && plan.extensions@ == extensions.names_spec() && plan.debug == config.validation
            && plan.layer_settings@ == (if config.validation {
            validation_settings_spec(config.gpuav)
        } else {
            Seq::empty()
        })),
{
    if config.validation && !layers.validation {
        return Err(SupportError::MissingLayer("VK_LAYER_KHRONOS_validation"));
    }
    if config.validation && !extensions.debug_utils {
        return Err(SupportError::MissingExtension("VK_EXT_debug_utils"));
    }
    let enabled = InstanceLayers { validation: config.validation };
    let layer_settings = if config.validation {
        validation_settings(config.gpuav)
    } else {
        Vec::new()
    };
    Ok(
        InstancePlan {
            layers: enabled.names(),
            extensions: extensions.names(),
            debug: config.validation,
            layer_settings,
        },
    )
}

/// The window system that a surface is created for.
#[derive(Copy, Clone, Debug, PartialEq, Eq, Structural)]
pub enum SurfaceKind {
    Wayland,
    Xcb,
    Xlib,
    Win32,
    /// A window system, or a pairing of display and window, that is not supported.
    Unsupported,
}

/// The result of checking that a surface of `kind` can be created.
pub open spec fn surface_check(extensions: InstanceExtensions, kind: SurfaceKind) -> Result<
    (),
    SupportError,
> {
    if !extensions.surface {
        Err(SupportError::MissingExtension("VK_KHR_surface"))
    } else if !extensions.surface_maintenance1 {
        Err(SupportError::MissingExtension("VK_EXT_surface_maintenance1"))
    } else {
        match kind {
            SurfaceKind::Wayland => if extensions.surface_wayland {
                Ok(())
            } else {
                Err(SupportError::MissingExtension("VK_KHR_wayland_surface"))
            },
            SurfaceKind::Xcb => if extensions.surface_xcb {
                Ok(())
            } else {
                Err(SupportError::MissingExtension("VK_KHR_xcb_surface"))
            },
            SurfaceKind::Xlib => if extensions.surface_xlib {
                Ok(())
            } else {
                Err(SupportError::MissingExtension("VK_KHR_xlib_surface"))
            },
            SurfaceKind::Win32 => if extensions.surface_win32 {
                Ok(())
            } else {
                Err(SupportError::MissingExtension("VK_KHR_win32_surface"))
            },
            SurfaceKind::Unsupported => Err(SupportError::UnsupportedSurface),
        }
    }
}

/// Checks that a surface of `kind` can be created with the enabled instance extensions:
/// the surface extensions first, then the one of the window system.
pub fn check_surface(extensions: InstanceExtensions, kind: SurfaceKind) -> (r: Result<
    (),
    SupportError,
>)
    ensures
        r == surface_check(extensions, kind),
{
    if !extensions.surface {
        return Err(SupportError::MissingExtension("VK_KHR_surface"));
    }
    if !extensions.surface_maintenance1 {
        return Err(SupportError::MissingExtension("VK_EXT_surface_maintenance1"));
    }
    match kind {
        SurfaceKind::Wayland => if extensions.surface_wayland {
            Ok(())
        } else {
            Err(SupportError::MissingExtension("VK_KHR_wayland_surface"))
        },
        SurfaceKind::Xcb => if extensions.surface_xcb {
            Ok(())
        } else {
            Err(SupportError::MissingExtension("VK_KHR_xcb_surface"))
        },
        SurfaceKind::Xlib => if extensions.surface_xlib {
            Ok(())
        } else {
            Err(SupportError::MissingExtension("VK_KHR_xlib_surface"))
        },
        SurfaceKind::Win32 => if extensions.surface_win32 {
            Ok(())
        } else {
            Err(SupportError::MissingExtension("VK_KHR_win32_surface"))
        },
        SurfaceKind::Unsupported => Err(SupportError::UnsupportedSurface),
    }
}

/// The capabilities of a queue family with the given Vulkan queue flags (graphics `1`,
/// compute `2`, transfer `4`); graphics and compute queues can always transfer.
pub fn queue_capabilities(flags: u32) -> (r: QueueCapabilities)
    ensures
        r.value() == (if flags & 1 != 0 {
            1u32
        } else {
            0u32
        }) + (if flags & 2 != 0 {
            2u32
        } else {
            0u32
        }) + (if flags & 1 != 0 || flags & 2 != 0 || flags & 4 != 0 {
            4u32
        } else {
            0u32
        }),
{
    let mut bits: u32 = 0;
    if flags & 1 != 0 {
        bits = bits + 1;
    }
    if flags & 2 != 0 {
        bits = bits + 2;
    }
    if flags & 1 != 0 || flags & 2 != 0 || flags & 4 != 0 {
        bits = bits + 4;
    }
    QueueCapabilities::from_bits_retain(bits)
}

/// A family of queues of a device.
#[derive(Copy, Clone, Debug, PartialEq, Eq, Structural)]
pub struct QueueFamily {
    /// The index of the family.
    pub id: u32,
    /// How many queues the family has, or is asked for.
    pub count: u32,
    pub capabilities: QueueCapabilities,
}

/// One queue of a created device.
#[derive(Copy, Clone, Debug, PartialEq, Eq, Structural)]
pub struct QueueSlot {
    /// The family of the queue.
    pub family: u32,
    /// The index of the queue in its family.
    pub index: u32,
    pub capabilities: QueueCapabilities,
}

/// The first family in `families` with the given id, if any.
pub open spec fn family_with_id(families: Seq<QueueFamily>, id: u32) -> Option<QueueFamily>
    decreases families.len(),
{
    if families.len() == 0 {
        None
    } else if families[0].id == id {
        Some(families[0])
    } else {
        family_with_id(families.drop_first(), id)
    }
}

/// `requested` can be created from `available`: each requested family exists, asks for no
/// more queues than it has and names its capabilities, and no family is asked for twice.
pub open spec fn valid_request(available: Seq<QueueFamily>, requested: Seq<QueueFamily>) -> bool {
    &&& forall|i: int|
        0 <= i < requested.len() ==> (#[trigger] family_with_id(available, requested[i].id) matches Some(
            f,
        ) && requested[i].count <= f.count && requested[i].capabilities == f.capabilities)
    &&& forall|i: int, k: int|
        0 <= i < requested.len() && 0 <= k < requested.len() && i != k ==> requested[i].id
            != requested[k].id
}

/// The queues of the families, family by family, each family's queues by index.
pub open spec fn slots_of(families: Seq<QueueFamily>) -> Seq<QueueSlot>
    decreases families.len(),
{
    if families.len() == 0 {
        Seq::empty()
    } else {
        let f = families.last();
        slots_of(families.drop_last()) + Seq::new(
            f.count as nat,
            |k: int| QueueSlot { family: f.id, index: k as u32, capabilities: f.capabilities },
        )
    }
}

/// The largest queue count of the families, `0` for none.
pub open spec fn max_count(families: Seq<QueueFamily>) -> u32
    decreases families.len(),
{
    if families.len() == 0 {
        0
    } else {
        let m = max_count(families.drop_last());
        if families.last().count > m {
            families.last().count
        } else {
            m
        }
    }
}

/// The family in `available` with the given id, if any.
fn find_family(available: &[QueueFamily], id: u32) -> (r: Option<QueueFamily>)
    ensures
        r == family_with_id(available@, id),
{
    let mut i: usize = 0;
    proof {
        assert(available@.skip(0) =~= available@);
    }
    while i < available.len()
        invariant
            i <= available.len(),
            family_with_id(available@, id) == family_with_id(available@.skip(i as int), id),
        decreases available.len() - i,
    {
        proof {
            assert(available@.skip(i as int).drop_first() =~= available@.skip(i + 1));
        }
        if available[i].id == id {
            return Some(available[i]);
        }
        i = i + 1;
    }
    proof {
        assert(available@.skip(i as int).len() == 0);
    }
    None
}

/// Returns `true` if `requested` can be created from `available`.
pub fn is_valid_request(available: &[QueueFamily], requested: &[QueueFamily]) -> (r: bool)
    ensures
        r == valid_request(available@, requested@),
{
    let mut i: usize = 0;
    while i < requested.len()
        invariant
            i <= requested.len(),
            forall|j: int|
                0 <= j < i ==> (#[trigger] family_with_id(available@, requested@[j].id) matches Some(
                    f,
                ) && requested@[j].count <= f.count && requested@[j].capabilities
                    == f.capabilities),
            forall|j: int, k: int|
                0 <= j < i && 0 <= k < requested.len() && j != k ==> requested@[j].id
                    != requested@[k].id,
        decreases requested.len() - i,
    {
        let q = requested[i];
        match find_family(available, q.id) {
            None => {
                return false;
            },
            Some(f) => {
                if q.count > f.count || q.capabilities != f.capabilities {
                    return false;
                }
            },
        }
        let mut k: usize = 0;
        while k < requested.len()
            invariant
                i < requested.len(),
                k <= requested.len(),
                q == requested@[i as int],
                forall|m: int| 0 <= m < k && m != i ==> requested@[m].id != q.id,
            decreases requested.len() - k,
        {
            if k != i && requested[k].id == q.id {
                return false;
            }
            k = k + 1;
        }
        i = i + 1;
    }
    true
}

/// The features that a device must support for the renderer; host query reset is
/// required only for performance counters.
pub open spec fn required_features_spec(performance_counters: bool) -> DeviceFeatures {
    DeviceFeatures {
        storage_buffer_16bit_access: true,
        mutli_draw_indirect: true,
        shader_draw_parameters: true,
        shader_input_attachment_array_dynamic_indexing: true,
        shader_uniform_texel_buffer_array_dynamic_indexing: true,
        shader_storage_texel_buffer_array_dynamic_indexing: true,
        shader_uniform_buffer_array_non_uniform_indexing: true,
        shader_sampled_image_array_non_uniform_indexing: true,
        shader_storage_buffer_array_non_uniform_indexing: true,
        shader_storage_image_array_non_uniform_indexing: true,
        shader_input_attachment_array_non_uniform_indexing: true,
        shader_uniform_texel_buffer_array_non_uniform_indexing: true,
        shader_storage_texel_buffer_array_non_uniform_indexing: true,
        descriptor_binding_uniform_buffer_update_after_bind: true,
        descriptor_binding_sampled_image_update_after_bind: true,
        descriptor_binding_storage_image_update_after_bind: true,
        descriptor_binding_storage_buffer_update_after_bind: true,
        descriptor_binding_uniform_texel_buffer_update_after_bind: true,
        descriptor_binding_storage_texel_buffer_update_after_bind: true,
        descriptor_binding_update_unused_while_pending: true,
        descriptor_binding_partially_bound: true,
        descriptor_binding_variable_descriptor_count: true,
        runtime_descriptor_array: true,
        shader_float16: true,
        shader_int8: true,
        storage_buffer_8bit_access: true,
        uniform_and_storage_buffer_8bit_access: true,
        storage_push_constant8: false,
        dynamic_rendering: true,
        synchronization2: true,
        task_shader: false,
        mesh_shader: false,
        swapchain_maintenace1: false,
        host_query_reset: performance_counters,
    }
}

/// The features that a device must support for the renderer.
pub fn required_features(performance_counters: bool) -> (r: DeviceFeatures)
    ensures
        r == required_features_spec(performance_counters),
{
    DeviceFeatures {
        storage_buffer_16bit_access: true,
        mutli_draw_indirect: true,
        shader_draw_parameters: true,
        shader_input_attachment_array_dynamic_indexing: true,
        shader_uniform_texel_buffer_array_dynamic_indexing: true,
        shader_storage_texel_buffer_array_dynamic_indexing: true,
        shader_uniform_buffer_array_non_uniform_indexing: true,
        shader_sampled_image_array_non_uniform_indexing: true,
        shader_storage_buffer_array_non_uniform_indexing: true,
        shader_storage_image_array_non_uniform_indexing: true,
        shader_input_attachment_array_non_uniform_indexing: true,
        shader_uniform_texel_buffer_array_non_uniform_indexing: true,
        shader_storage_texel_buffer_array_non_uniform_indexing: true,
        descriptor_binding_uniform_buffer_update_after_bind: true,
        descriptor_binding_sampled_image_update_after_bind: true,
        descriptor_binding_storage_image_update_after_bind: true,
        descriptor_binding_storage_buffer_update_after_bind: true,
        descriptor_binding_uniform_texel_buffer_update_after_bind: true,
        descriptor_binding_storage_texel_buffer_update_after_bind: true,
        descriptor_binding_update_unused_while_pending: true,
        descriptor_binding_partially_bound: true,
        descriptor_binding_variable_descriptor_count: true,
        runtime_descriptor_array: true,
        shader_float16: true,
        shader_int8: true,
        storage_buffer_8bit_access: true,
        uniform_and_storage_buffer_8bit_access: true,
        storage_push_constant8: false,
        dynamic_rendering: true,
        synchronization2: true,
        task_shader: false,
        mesh_shader: false,
        swapchain_maintenace1: false,
        host_query_reset: performance_counters,
    }
}

/// What a device is created with.
#[derive(Clone, Debug)]
pub struct DevicePlan {
    /// How many queue priorities are passed, each of the same value: the largest count
    /// of queues asked of one family.
    pub queue_priorities: u32,
    /// The queues of the device, family by family.
    pub slots: Vec<QueueSlot>,
    /// The (deprecated) device layers to pass.
    pub layers: Vec<&'static str>,
    /// The extensions to enable: every supported one that the renderer knows.
    pub extensions: Vec<&'static str>,
    /// The features that were required of the device.
    pub required_features: DeviceFeatures,
    /// Whether the swapchain maintenance features are enabled.
    pub swapchain_maintenance1: bool,
    /// Whether the mesh and task shader features are enabled.
    pub mesh_shader: bool,
}

/// The queues of `families`, family by family.
fn queue_slots(families: &[QueueFamily]) -> (r: Vec<QueueSlot>)
    ensures
        r@ == slots_of(families@),
{
    let mut slots: Vec<QueueSlot> = Vec::new();
    let mut i: usize = 0;
    while i < families.len()
        invariant
            i <= families.len(),
            slots@ == slots_of(families@.take(i as int)),
        decreases families.len() - i,
    {
        let f = families[i];
        let ghost before = slots@;
        let mut k: u32 = 0;
        while k < f.count
            invariant
                k <= f.count,
                slots@ == before + Seq::new(
                    k as nat,
                    |j: int| QueueSlot { family: f.id, index: j as u32, capabilities: f.capabilities },
                ),
            decreases f.count - k,
        {
            slots.push(QueueSlot { family: f.id, index: k, capabilities: f.capabilities });
            proof {
                assert(slots@ =~= before + Seq::new(
                    (k + 1) as nat,
                    |j: int| QueueSlot { family: f.id, index: j as u32, capabilities: f.capabilities },
                ));
            }
            k = k + 1;
        }
        proof {
            assert(families@.take(i + 1).drop_last() =~= families@.take(i as int));
        }
        i = i + 1;
    }
    proof {
        assert(families@.take(i as int) =~= families@);
    }
    slots
}

/// The largest queue count of `families`.
fn largest_count(families: &[QueueFamily]) -> (r: u32)
    ensures
        r == max_count(families@),
{
    let mut m: u32 = 0;
    let mut i: usize = 0;
    while i < families.len()
        invariant
            i <= families.len(),
            m == max_count(families@.take(i as int)),
        decreases families.len() - i,
    {
        proof {
            assert(families@.take(i + 1).drop_last() =~= families@.take(i as int));
        }
        if families[i].count > m {
            m = families[i].count;
        }
        i = i + 1;
    }
    proof {
        assert(families@.take(i as int) =~= families@);
    }
    m
}

/// Decides how a device is created with the `requested` queue families.
///
/// The swapchain extension is required, then the features of `required_features`; a
/// missing extension is reported before missing features.
pub fn plan_device(
    config: &Config,
    available: &[QueueFamily],
    requested: &[QueueFamily],
    supported_features: DeviceFeatures,
    supported_extensions: DeviceExtensions,
) -> (r: Result<DevicePlan, SupportError>)
    requires
        valid_request(available@, requested@),
    ensures
        !supported_extensions.swapchain ==> r == Err::<DevicePlan, SupportError>(
            SupportError::MissingExtension("VK_KHR_swapchain"),
        ),
        supported_extensions.swapchain && !required_features_spec(
            config.performance_counters,
        ).subset_of(supported_features) ==> r == Err::<DevicePlan, SupportError>(
            SupportError::MissingFeatures(
                supported_features.missing(required_features_spec(config.performance_counters)),
            ),
        ),
        supported_extensions.swapchain && required_features_spec(
            config.performance_counters,
        ).subset_of(supported_features) ==> (r matches Ok(plan) && plan.queue_priorities
            == max_count(requested@) && plan.slots@ == slots_of(requested@) && plan.layers@
            == when(config.validation, "VK_LAYER_KHRONOS_validation") && plan.extensions@
            == supported_extensions.names_spec() && plan.required_features
            == required_features_spec(config.performance_counters)
            && plan.swapchain_maintenance1 == supported_extensions.swapchain_maintenance1
            && plan.mesh_shader == supported_extensions.mesh_shader),
{
    let queue_priorities = largest_count(requested);
    let layers = InstanceLayers { validation: config.validation }.names();
    if !supported_extensions.swapchain {
        return Err(SupportError::MissingExtension("VK_KHR_swapchain"));
    }
    let extensions = supported_extensions.names();
    let required = required_features(config.performance_counters);
    match supported_features.validate_requirements(required) {
        Err(FeatureError::MissingFeatures(missing)) => {
            return Err(SupportError::MissingFeatures(missing));
        },
        Ok(()) => {},
    }
    Ok(
        DevicePlan {
            queue_priorities,
            slots: queue_slots(requested),
            layers,
            extensions,
            required_features: required,
            swapchain_maintenance1: supported_extensions.swapchain_maintenance1,
            mesh_shader: supported_extensions.mesh_shader,
        },
    )
}

/// A name is listed in two lists one after the other iff it is listed in either.
proof fn lemma_lists_concat(a: Seq<&'static str>, b: Seq<&'static str>, x: &str)
    ensures
        lists(a + b, x) == (lists(a, x) || lists(b, x)),
{
    let ab = a + b;
    if lists(ab, x) {
        let i = choose|i: int| 0 <= i < ab.len() && ab[i]@ == x@;
        if i < a.len() {
            assert(a[i] == ab[i]);
        } else {
            assert(b[i - a.len()] == ab[i]);
        }
    }
    if lists(a, x) {
        let i = choose|i: int| 0 <= i < a.len() && a[i]@ == x@;
        assert(ab[i] == a[i]);
    }
    if lists(b, x) {
        let i = choose|i: int| 0 <= i < b.len() && b[i]@ == x@;
        assert(ab[i + a.len()] == b[i]);
    }
}

/// A name is listed in `when(enabled, y)` iff `enabled` and it is `y`.
proof fn lemma_lists_when(enabled: bool, y: &'static str, x: &str)
    ensures
        lists(when(enabled, y), x) == (enabled && y@ == x@),
{
    if enabled {
        assert(when(enabled, y)[0] == y);
    }
}

/// Reading back the names of a set of device extensions gives the same set.
pub proof fn law_device_extension_names_round_trip(e: DeviceExtensions)
    ensures
        lists(e.names_spec(), "VK_KHR_swapchain") == e.swapchain,
        lists(e.names_spec(), "VK_EXT_swapchain_maintenance1") == e.swapchain_maintenance1,
        lists(e.names_spec(), "VK_EXT_mesh_shader") == e.mesh_shader,
{
    reveal_strlit("VK_KHR_swapchain");
    reveal_strlit("VK_EXT_swapchain_maintenance1");
    reveal_strlit("VK_EXT_mesh_shader");
    let a = when(e.swapchain_maintenance1, "VK_EXT_swapchain_maintenance1");
    let b = when(e.swapchain, "VK_KHR_swapchain");
    let c = when(e.mesh_shader, "VK_EXT_mesh_shader");
    assert forall|x: &str| #[trigger] lists(e.names_spec(), x) == (lists(a, x) || lists(b, x) || lists(c, x)) by {
        lemma_lists_concat(a, b, x);
        lemma_lists_concat(a + b, c, x);
    }
    assert forall|x: &str| #[trigger] lists(a, x) == (e.swapchain_maintenance1 && "VK_EXT_swapchain_maintenance1"@ == x@) by {
        lemma_lists_when(e.swapchain_maintenance1, "VK_EXT_swapchain_maintenance1", x);
    }
    assert forall|x: &str| #[trigger] lists(b, x) == (e.swapchain && "VK_KHR_swapchain"@ == x@) by {
        lemma_lists_when(e.swapchain, "VK_KHR_swapchain", x);
    }
    assert forall|x: &str| #[trigger] lists(c, x) == (e.mesh_shader && "VK_EXT_mesh_shader"@ == x@) by {
        lemma_lists_when(e.mesh_shader, "VK_EXT_mesh_shader", x);
    }
    assert("VK_KHR_swapchain"@.len() == 16);
    assert("VK_EXT_swapchain_maintenance1"@.len() == 29);
    assert("VK_EXT_mesh_shader"@.len() == 18);
}

/// Reading back the names of a set of instance extensions gives the same set.
pub proof fn law_instance_extension_names_round_trip(e: InstanceExtensions)
    ensures
        lists(e.names_spec(), "VK_KHR_surface") == e.surface,
        lists(e.names_spec(), "VK_KHR_wayland_surface") == e.surface_wayland,
        lists(e.names_spec(), "VK_KHR_xcb_surface") == e.surface_xcb,
        lists(e.names_spec(), "VK_KHR_xlib_surface") == e.surface_xlib,
        lists(e.names_spec(), "VK_KHR_win32_surface") == e.surface_win32,
        lists(e.names_spec(), "VK_EXT_debug_utils") == e.debug_utils,
        lists(e.names_spec(), "VK_EXT_surface_maintenance1") == e.surface_maintenance1,
        lists(e.names_spec(), "VK_KHR_get_surface_capabilities2") == e.get_surface_capabilities2,
{
    reveal_strlit("VK_KHR_surface");
    reveal_strlit("VK_KHR_wayland_surface");
    reveal_strlit("VK_KHR_xcb_surface");
    reveal_strlit("VK_KHR_xlib_surface");
    reveal_strlit("VK_KHR_win32_surface");
    reveal_strlit("VK_EXT_debug_utils");
    reveal_strlit("VK_EXT_surface_maintenance1");
    reveal_strlit("VK_KHR_get_surface_capabilities2");
    assert("VK_KHR_surface"@.len() == 14);
    assert("VK_KHR_wayland_surface"@.len() == 22);
    assert("VK_KHR_xcb_surface"@.len() == 18);
    assert("VK_KHR_xlib_surface"@.len() == 19);
    assert("VK_KHR_win32_surface"@.len() == 20);
    assert("VK_EXT_debug_utils"@.len() == 18);
    assert("VK_EXT_surface_maintenance1"@.len() == 27);
    assert("VK_KHR_get_surface_capabilities2"@.len() == 32);
    assert("VK_KHR_xcb_surface"@[3] != "VK_EXT_debug_utils"@[3]);
    let p0 = when(e.surface, "VK_KHR_surface");
    let p1 = p0 + when(e.surface_wayland, "VK_KHR_wayland_surface");
    let p2 = p1 + when(e.surface_xcb, "VK_KHR_xcb_surface");
    let p3 = p2 + when(e.surface_xlib, "VK_KHR_xlib_surface");
    let p4 = p3 + when(e.surface_win32, "VK_KHR_win32_surface");
    let p5 = p4 + when(e.debug_utils, "VK_EXT_debug_utils");
    let p6 = p5 + when(e.surface_maintenance1, "VK_EXT_surface_maintenance1");
    let p7 = p6 + when(e.get_surface_capabilities2, "VK_KHR_get_surface_capabilities2");
    assert(p7 == e.names_spec());
    assert forall|x: &str| #[trigger] lists(e.names_spec(), x) == (
        (e.surface && "VK_KHR_surface"@ == x@) || (e.surface_wayland && "VK_KHR_wayland_surface"@ == x@) || (e.surface_xcb && "VK_KHR_xcb_surface"@ == x@) || (e.surface_xlib && "VK_KHR_xlib_surface"@ == x@) || (e.surface_win32 && "VK_KHR_win32_surface"@ == x@) || (e.debug_utils && "VK_EXT_debug_utils"@ == x@) || (e.surface_maintenance1 && "VK_EXT_surface_maintenance1"@ == x@) || (e.get_surface_capabilities2 && "VK_KHR_get_surface_capabilities2"@ == x@)
    ) by {
        lemma_lists_when(e.surface, "VK_KHR_surface", x);
        lemma_lists_when(e.surface_wayland, "VK_KHR_wayland_surface", x);
        lemma_lists_when(e.surface_xcb, "VK_KHR_xcb_surface", x);
        lemma_lists_when(e.surface_xlib, "VK_KHR_xlib_surface", x);
        lemma_lists_when(e.surface_win32, "VK_KHR_win32_surface", x);
        lemma_lists_when(e.debug_utils, "VK_EXT_debug_utils", x);
        lemma_lists_when(e.surface_maintenance1, "VK_EXT_surface_maintenance1", x);
        lemma_lists_when(e.get_surface_capabilities2, "VK_KHR_get_surface_capabilities2", x);
        lemma_lists_concat(p0, when(e.surface_wayland, "VK_KHR_wayland_surface"), x);
        lemma_lists_concat(p1, when(e.surface_xcb, "VK_KHR_xcb_surface"), x);
        lemma_lists_concat(p2, when(e.surface_xlib, "VK_KHR_xlib_surface"), x);
        lemma_lists_concat(p3, when(e.surface_win32, "VK_KHR_win32_surface"), x);
        lemma_lists_concat(p4, when(e.debug_utils, "VK_EXT_debug_utils"), x);
        lemma_lists_concat(p5, when(e.surface_maintenance1, "VK_EXT_surface_maintenance1"), x);
        lemma_lists_concat(p6, when(e.get_surface_capabilities2, "VK_KHR_get_surface_capabilities2"), x);
    }
}

/// A width and a height in pixels.
#[derive(Copy, Clone, Debug, PartialEq, Eq, Structural, Hash)]
pub struct Extent {
    pub x: u32,
    pub y: u32,
}

/// What a surface supports for the swapchains presented to it.
#[derive(Clone, Debug)]
pub struct SwapchainCapabilities {
    pub min_extent: Extent,
    pub max_extent: Extent,
    /// The minimum number of images of a swapchain.
    pub min_images: u32,
    /// The maximum number of images of a swapchain; `None` for no limit.
    pub max_images: Option<u32>,
    pub formats: Vec<SurfaceFormat>,
    pub present_modes: Vec<PresentMode>,
    /// Whether the surface can be presented to as opaque.
    pub opaque_composite_alpha: bool,
}

/// How a swapchain is created.
#[derive(Copy, Clone, Debug, PartialEq, Eq, Structural)]
pub struct SwapchainConfig {
    pub image_count: u32,
    pub extent: Extent,
    pub format: SurfaceFormat,
    pub present_mode: PresentMode,
}

/// A swapchain with `config` can be created for a surface with `caps`: a non-empty extent
/// within the supported range, an image count within the supported range, opaque
/// presentation, and a supported present mode and format.
pub open spec fn swapchain_config_valid(config: SwapchainConfig, caps: SwapchainCapabilities) -> bool {
    &&& config.extent.x != 0
    &&& config.extent.y != 0
    &&& caps.min_extent.x <= config.extent.x <= caps.max_extent.x
    &&& caps.min_extent.y <= config.extent.y <= caps.max_extent.y
    &&& config.image_count <= (match caps.max_images {
        Some(m) => m,
        None => u32::MAX,
    })
    &&& config.image_count >= caps.min_images
    &&& caps.opaque_composite_alpha
    &&& caps.present_modes@.contains(config.present_mode)
    &&& caps.formats@.contains(config.format)
}

/// Returns `true` if a swapchain with `config` can be created for a surface with `caps`.
pub fn check_swapchain_config(config: &SwapchainConfig, caps: &SwapchainCapabilities) -> (ok: bool)
    ensures
        ok == swapchain_config_valid(*config, *caps),
{
    let max_images = match caps.max_images {
        Some(m) => m,
        None => u32::MAX,
    };
    if config.extent.x == 0 || config.extent.y == 0 || config.extent.x < caps.min_extent.x
        || config.extent.x > caps.max_extent.x || config.extent.y < caps.min_extent.y
        || config.extent.y > caps.max_extent.y || config.image_count > max_images
        || config.image_count < caps.min_images || !caps.opaque_composite_alpha {
        return false;
    }
    let mut found_mode = false;
    let mut i: usize = 0;
    while i < caps.present_modes.len()
        invariant
            i <= caps.present_modes.len(),
            found_mode == exists|j: int| 0 <= j < i && caps.present_modes@[j] == config.present_mode,
        decreases caps.present_modes.len() - i,
    {
        if caps.present_modes[i] == config.present_mode {
            found_mode = true;
        }
        i = i + 1;
    }
    let mut found_format = false;
    let mut k: usize = 0;
    while k < caps.formats.len()
        invariant
            k <= caps.formats.len(),
            found_format == exists|j: int| 0 <= j < k && caps.formats@[j] == config.format,
        decreases caps.formats.len() - k,
    {
        if caps.formats[k] == config.format {
            found_format = true;
        }
        k = k + 1;
    }
    found_mode && found_format
}

} // verus!
