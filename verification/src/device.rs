use vstd::prelude::*;

verus! {

/// Options for creating a Vulkan instance.
#[derive(Clone, Debug)]
pub struct Config {
    /// Enabled valiation layers if available.
    pub validation: bool,
    /// GPU Assisted validation. Expensive
    pub gpuav: bool,
    /// Enable support for GPU assisted performance counters.
    pub performance_counters: bool,
}

/// A value that does not correspond to any known enum variant.
#[derive(Copy, Clone, Debug, PartialEq, Eq, Structural, Hash)]
pub struct UnknownEnumValue;

/// Device extensions that the renderer knows about.
#[derive(Copy, Clone, Debug)]
pub struct DeviceExtensions {
    /// `VK_KHR_swapchain`
    pub swapchain: bool,
    /// `VK_EXT_swapchain_maintenance1`
    pub swapchain_maintenance1: bool,
    /// `VK_EXT_mesh_shader`
    pub mesh_shader: bool,
}

/// Optional device features, each either present or absent.
#[derive(Copy, Clone, Debug, PartialEq, Eq, Structural, Hash)]
pub struct DeviceFeatures {
    pub mutli_draw_indirect: bool,
    pub storage_buffer_16bit_access: bool,
    pub shader_draw_parameters: bool,
    pub shader_input_attachment_array_dynamic_indexing: bool,
    pub shader_uniform_texel_buffer_array_dynamic_indexing: bool,
    pub shader_storage_texel_buffer_array_dynamic_indexing: bool,
    pub shader_uniform_buffer_array_non_uniform_indexing: bool,
    pub shader_sampled_image_array_non_uniform_indexing: bool,
    pub shader_storage_buffer_array_non_uniform_indexing: bool,
    pub shader_storage_image_array_non_uniform_indexing: bool,
    pub shader_input_attachment_array_non_uniform_indexing: bool,
    pub shader_uniform_texel_buffer_array_non_uniform_indexing: bool,
    pub shader_storage_texel_buffer_array_non_uniform_indexing: bool,
    pub descriptor_binding_uniform_buffer_update_after_bind: bool,
    pub descriptor_binding_sampled_image_update_after_bind: bool,
    pub descriptor_binding_storage_image_update_after_bind: bool,
    pub descriptor_binding_storage_buffer_update_after_bind: bool,
    pub descriptor_binding_uniform_texel_buffer_update_after_bind: bool,
    pub descriptor_binding_storage_texel_buffer_update_after_bind: bool,
    pub descriptor_binding_update_unused_while_pending: bool,
    pub descriptor_binding_partially_bound: bool,
    pub descriptor_binding_variable_descriptor_count: bool,
    pub runtime_descriptor_array: bool,
    pub storage_buffer_8bit_access: bool,
    pub uniform_and_storage_buffer_8bit_access: bool,
    pub storage_push_constant8: bool,
    pub shader_float16: bool,
    pub shader_int8: bool,
    pub host_query_reset: bool,
    pub dynamic_rendering: bool,
    pub synchronization2: bool,
    pub swapchain_maintenace1: bool,
    pub task_shader: bool,
    pub mesh_shader: bool,
}

/// The error of checking device features.
#[derive(Copy, Clone, Debug, PartialEq, Eq, Structural)]
pub enum FeatureError {
    /// The listed features are required but not supported.
    MissingFeatures(DeviceFeatures),
}

/// The number of device features.
pub const FEATURE_COUNT: usize = 34;

/// The name of feature `i`, in the order in which features are listed.
pub open spec fn feature_name(i: int) -> &'static str {
    if i == 0 {
        "storage_buffer_16bit_access"
    } else if i == 1 {
        "mutli_draw_indirect"
    } else if i == 2 {
        "shader_draw_parameters"
    } else if i == 3 {
        "shader_input_attachment_array_dynamic_indexing"
    } else if i == 4 {
        "shader_uniform_texel_buffer_array_dynamic_indexing"
    } else if i == 5 {
        "shader_storage_texel_buffer_array_dynamic_indexing"
    } else if i == 6 {
        "shader_uniform_buffer_array_non_uniform_indexing"
    } else if i == 7 {
        "shader_sampled_image_array_non_uniform_indexing"
    } else if i == 8 {
        "shader_storage_buffer_array_non_uniform_indexing"
    } else if i == 9 {
        "shader_storage_image_array_non_uniform_indexing"
    } else if i == 10 {
        "shader_input_attachment_array_non_uniform_indexing"
    } else if i == 11 {
        "shader_uniform_texel_buffer_array_non_uniform_indexing"
    } else if i == 12 {
        "shader_storage_texel_buffer_array_non_uniform_indexing"
    } else if i == 13 {
        "descriptor_binding_uniform_buffer_update_after_bind"
    } else if i == 14 {
        "descriptor_binding_sampled_image_update_after_bind"
    } else if i == 15 {
        "descriptor_binding_storage_image_update_after_bind"
    } else if i == 16 {
        "descriptor_binding_storage_buffer_update_after_bind"
    } else if i == 17 {
        "descriptor_binding_uniform_texel_buffer_update_after_bind"
    } else if i == 18 {
        "descriptor_binding_storage_texel_buffer_update_after_bind"
    } else if i == 19 {
        "descriptor_binding_update_unused_while_pending"
    } else if i == 20 {
        "descriptor_binding_partially_bound"
    } else if i == 21 {
        "descriptor_binding_variable_descriptor_count"
    } else if i == 22 {
        "runtime_descriptor_array"
    } else if i == 23 {
        "storage_buffer_8bit_access"
    } else if i == 24 {
        "uniform_and_storage_buffer_8bit_access"
    } else if i == 25 {
        "storage_push_constant8"
    } else if i == 26 {
        "shader_float16"
    } else if i == 27 {
        "shader_int8"
    } else if i == 28 {
        "host_query_reset"
    } else if i == 29 {
        "dynamic_rendering"
    } else if i == 30 {
        "synchronization2"
    } else if i == 31 {
        "swapchain_maintenace1"
    } else if i == 32 {
        "task_shader"
    } else {
        "mesh_shader"
    }
}

/// Whether feature `i` is set.
pub open spec fn feature_flag(f: DeviceFeatures, i: int) -> bool {
    if i == 0 {
        f.storage_buffer_16bit_access
    } else if i == 1 {
        f.mutli_draw_indirect
    } else if i == 2 {
        f.shader_draw_parameters
    } else if i == 3 {
        f.shader_input_attachment_array_dynamic_indexing
    } else if i == 4 {
        f.shader_uniform_texel_buffer_array_dynamic_indexing
    } else if i == 5 {
        f.shader_storage_texel_buffer_array_dynamic_indexing
    } else if i == 6 {
        f.shader_uniform_buffer_array_non_uniform_indexing
    } else if i == 7 {
        f.shader_sampled_image_array_non_uniform_indexing
    } else if i == 8 {
        f.shader_storage_buffer_array_non_uniform_indexing
    } else if i == 9 {
        f.shader_storage_image_array_non_uniform_indexing
    } else if i == 10 {
        f.shader_input_attachment_array_non_uniform_indexing
    } else if i == 11 {
        f.shader_uniform_texel_buffer_array_non_uniform_indexing
    } else if i == 12 {
        f.shader_storage_texel_buffer_array_non_uniform_indexing
    } else if i == 13 {
        f.descriptor_binding_uniform_buffer_update_after_bind
    } else if i == 14 {
        f.descriptor_binding_sampled_image_update_after_bind
    } else if i == 15 {
        f.descriptor_binding_storage_image_update_after_bind
    } else if i == 16 {
        f.descriptor_binding_storage_buffer_update_after_bind
    } else if i == 17 {
        f.descriptor_binding_uniform_texel_buffer_update_after_bind
    } else if i == 18 {
        f.descriptor_binding_storage_texel_buffer_update_after_bind
    } else if i == 19 {
        f.descriptor_binding_update_unused_while_pending
    } else if i == 20 {
        f.descriptor_binding_partially_bound
    } else if i == 21 {
        f.descriptor_binding_variable_descriptor_count
    } else if i == 22 {
        f.runtime_descriptor_array
    } else if i == 23 {
        f.storage_buffer_8bit_access
    } else if i == 24 {
        f.uniform_and_storage_buffer_8bit_access
    } else if i == 25 {
        f.storage_push_constant8
    } else if i == 26 {
        f.shader_float16
    } else if i == 27 {
        f.shader_int8
    } else if i == 28 {
        f.host_query_reset
    } else if i == 29 {
        f.dynamic_rendering
    } else if i == 30 {
        f.synchronization2
    } else if i == 31 {
        f.swapchain_maintenace1
    } else if i == 32 {
        f.task_shader
    } else {
        f.mesh_shader
    }
}

/// The names of the first `k` features that are set, in order.
pub open spec fn names_upto(f: DeviceFeatures, k: int) -> Seq<&'static str>
    decreases k,
{
    if k <= 0 {
        Seq::empty()
    } else if feature_flag(f, k - 1) {
        names_upto(f, k - 1).push(feature_name(k - 1))
    } else {
        names_upto(f, k - 1)
    }
}

/// The names of the features that are set, in order.
pub open spec fn feature_names(f: DeviceFeatures) -> Seq<&'static str> {
    names_upto(f, FEATURE_COUNT as int)
}

/// The name of feature `i`.
fn name_of(i: usize) -> (r: &'static str)
    requires
        i < FEATURE_COUNT,
    ensures
        r == feature_name(i as int),
{
    if i == 0 {
        "storage_buffer_16bit_access"
    } else if i == 1 {
        "mutli_draw_indirect"
    } else if i == 2 {
        "shader_draw_parameters"
    } else if i == 3 {
        "shader_input_attachment_array_dynamic_indexing"
    } else if i == 4 {
        "shader_uniform_texel_buffer_array_dynamic_indexing"
    } else if i == 5 {
        "shader_storage_texel_buffer_array_dynamic_indexing"
    } else if i == 6 {
        "shader_uniform_buffer_array_non_uniform_indexing"
    } else if i == 7 {
        "shader_sampled_image_array_non_uniform_indexing"
    } else if i == 8 {
        "shader_storage_buffer_array_non_uniform_indexing"
    } else if i == 9 {
        "shader_storage_image_array_non_uniform_indexing"
    } else if i == 10 {
        "shader_input_attachment_array_non_uniform_indexing"
    } else if i == 11 {
        "shader_uniform_texel_buffer_array_non_uniform_indexing"
    } else if i == 12 {
        "shader_storage_texel_buffer_array_non_uniform_indexing"
    } else if i == 13 {
        "descriptor_binding_uniform_buffer_update_after_bind"
    } else if i == 14 {
        "descriptor_binding_sampled_image_update_after_bind"
    } else if i == 15 {
        "descriptor_binding_storage_image_update_after_bind"
    } else if i == 16 {
        "descriptor_binding_storage_buffer_update_after_bind"
    } else if i == 17 {
        "descriptor_binding_uniform_texel_buffer_update_after_bind"
    } else if i == 18 {
        "descriptor_binding_storage_texel_buffer_update_after_bind"
    } else if i == 19 {
        "descriptor_binding_update_unused_while_pending"
    } else if i == 20 {
        "descriptor_binding_partially_bound"
    } else if i == 21 {
        "descriptor_binding_variable_descriptor_count"
    } else if i == 22 {
        "runtime_descriptor_array"
    } else if i == 23 {
        "storage_buffer_8bit_access"
    } else if i == 24 {
        "uniform_and_storage_buffer_8bit_access"
    } else if i == 25 {
        "storage_push_constant8"
    } else if i == 26 {
        "shader_float16"
    } else if i == 27 {
        "shader_int8"
    } else if i == 28 {
        "host_query_reset"
    } else if i == 29 {
        "dynamic_rendering"
    } else if i == 30 {
        "synchronization2"
    } else if i == 31 {
        "swapchain_maintenace1"
    } else if i == 32 {
        "task_shader"
    } else {
        "mesh_shader"
    }
}

impl DeviceFeatures {
    /// Whether feature `i` is set.
    fn flag(&self, i: usize) -> (r: bool)
        requires
            i < FEATURE_COUNT,
        ensures
            r == feature_flag(*self, i as int),
    {
        if i == 0 {
            self.storage_buffer_16bit_access
        } else if i == 1 {
            self.mutli_draw_indirect
        } else if i == 2 {
            self.shader_draw_parameters
        } else if i == 3 {
            self.shader_input_attachment_array_dynamic_indexing
        } else if i == 4 {
            self.shader_uniform_texel_buffer_array_dynamic_indexing
        } else if i == 5 {
            self.shader_storage_texel_buffer_array_dynamic_indexing
        } else if i == 6 {
            self.shader_uniform_buffer_array_non_uniform_indexing
        } else if i == 7 {
            self.shader_sampled_image_array_non_uniform_indexing
        } else if i == 8 {
            self.shader_storage_buffer_array_non_uniform_indexing
        } else if i == 9 {
            self.shader_storage_image_array_non_uniform_indexing
        } else if i == 10 {
            self.shader_input_attachment_array_non_uniform_indexing
        } else if i == 11 {
            self.shader_uniform_texel_buffer_array_non_uniform_indexing
        } else if i == 12 {
            self.shader_storage_texel_buffer_array_non_uniform_indexing
        } else if i == 13 {
            self.descriptor_binding_uniform_buffer_update_after_bind
        } else if i == 14 {
            self.descriptor_binding_sampled_image_update_after_bind
        } else if i == 15 {
            self.descriptor_binding_storage_image_update_after_bind
        } else if i == 16 {
            self.descriptor_binding_storage_buffer_update_after_bind
        } else if i == 17 {
            self.descriptor_binding_uniform_texel_buffer_update_after_bind
        } else if i == 18 {
            self.descriptor_binding_storage_texel_buffer_update_after_bind
        } else if i == 19 {
            self.descriptor_binding_update_unused_while_pending
        } else if i == 20 {
            self.descriptor_binding_partially_bound
        } else if i == 21 {
            self.descriptor_binding_variable_descriptor_count
        } else if i == 22 {
            self.runtime_descriptor_array
        } else if i == 23 {
            self.storage_buffer_8bit_access
        } else if i == 24 {
            self.uniform_and_storage_buffer_8bit_access
        } else if i == 25 {
            self.storage_push_constant8
        } else if i == 26 {
            self.shader_float16
        } else if i == 27 {
            self.shader_int8
        } else if i == 28 {
            self.host_query_reset
        } else if i == 29 {
            self.dynamic_rendering
        } else if i == 30 {
            self.synchronization2
        } else if i == 31 {
            self.swapchain_maintenace1
        } else if i == 32 {
            self.task_shader
        } else {
            self.mesh_shader
        }
    }

    /// The names of the features that are set, in a fixed order; they describe the
    /// features for people.
    pub fn names(&self) -> (r: Vec<&'static str>)
        ensures
            r@ == feature_names(*self),
    {
        let mut v: Vec<&'static str> = Vec::new();
        let mut i: usize = 0;
        while i < FEATURE_COUNT
            invariant
                i <= FEATURE_COUNT,
                v@ == names_upto(*self, i as int),
            decreases FEATURE_COUNT - i,
        {
            if self.flag(i) {
                v.push(name_of(i));
            }
            i = i + 1;
        }
        v
    }

    /// At least one feature is set.
    pub open spec fn any(self) -> bool {
        self.mutli_draw_indirect
            || self.storage_buffer_16bit_access
            || self.shader_draw_parameters
            || self.shader_input_attachment_array_dynamic_indexing
            || self.shader_uniform_texel_buffer_array_dynamic_indexing
            || self.shader_storage_texel_buffer_array_dynamic_indexing
            || self.shader_uniform_buffer_array_non_uniform_indexing
            || self.shader_sampled_image_array_non_uniform_indexing
            || self.shader_storage_buffer_array_non_uniform_indexing
            || self.shader_storage_image_array_non_uniform_indexing
            || self.shader_input_attachment_array_non_uniform_indexing
            || self.shader_uniform_texel_buffer_array_non_uniform_indexing
            || self.shader_storage_texel_buffer_array_non_uniform_indexing
            || self.descriptor_binding_uniform_buffer_update_after_bind
            || self.descriptor_binding_sampled_image_update_after_bind
            || self.descriptor_binding_storage_image_update_after_bind
            || self.descriptor_binding_storage_buffer_update_after_bind
            || self.descriptor_binding_uniform_texel_buffer_update_after_bind
            || self.descriptor_binding_storage_texel_buffer_update_after_bind
            || self.descriptor_binding_update_unused_while_pending
            || self.descriptor_binding_partially_bound
            || self.descriptor_binding_variable_descriptor_count
            || self.runtime_descriptor_array
            || self.storage_buffer_8bit_access
            || self.uniform_and_storage_buffer_8bit_access
            || self.storage_push_constant8
            || self.shader_float16
            || self.shader_int8
            || self.host_query_reset
            || self.dynamic_rendering
            || self.synchronization2
            || self.swapchain_maintenace1
            || self.task_shader
            || self.mesh_shader
    }

    /// Every feature set in `self` is also set in `other`.
    pub open spec fn subset_of(self, other: Self) -> bool {
        (self.mutli_draw_indirect ==> other.mutli_draw_indirect)
            && (self.storage_buffer_16bit_access ==> other.storage_buffer_16bit_access)
            && (self.shader_draw_parameters ==> other.shader_draw_parameters)
            && (self.shader_input_attachment_array_dynamic_indexing ==> other.shader_input_attachment_array_dynamic_indexing)
            && (self.shader_uniform_texel_buffer_array_dynamic_indexing ==> other.shader_uniform_texel_buffer_array_dynamic_indexing)
            && (self.shader_storage_texel_buffer_array_dynamic_indexing ==> other.shader_storage_texel_buffer_array_dynamic_indexing)
            && (self.shader_uniform_buffer_array_non_uniform_indexing ==> other.shader_uniform_buffer_array_non_uniform_indexing)
            && (self.shader_sampled_image_array_non_uniform_indexing ==> other.shader_sampled_image_array_non_uniform_indexing)
            && (self.shader_storage_buffer_array_non_uniform_indexing ==> other.shader_storage_buffer_array_non_uniform_indexing)
            && (self.shader_storage_image_array_non_uniform_indexing ==> other.shader_storage_image_array_non_uniform_indexing)
            && (self.shader_input_attachment_array_non_uniform_indexing ==> other.shader_input_attachment_array_non_uniform_indexing)
            && (self.shader_uniform_texel_buffer_array_non_uniform_indexing ==> other.shader_uniform_texel_buffer_array_non_uniform_indexing)
            && (self.shader_storage_texel_buffer_array_non_uniform_indexing ==> other.shader_storage_texel_buffer_array_non_uniform_indexing)
            && (self.descriptor_binding_uniform_buffer_update_after_bind ==> other.descriptor_binding_uniform_buffer_update_after_bind)
            && (self.descriptor_binding_sampled_image_update_after_bind ==> other.descriptor_binding_sampled_image_update_after_bind)
            && (self.descriptor_binding_storage_image_update_after_bind ==> other.descriptor_binding_storage_image_update_after_bind)
            && (self.descriptor_binding_storage_buffer_update_after_bind ==> other.descriptor_binding_storage_buffer_update_after_bind)
            && (self.descriptor_binding_uniform_texel_buffer_update_after_bind ==> other.descriptor_binding_uniform_texel_buffer_update_after_bind)
            && (self.descriptor_binding_storage_texel_buffer_update_after_bind ==> other.descriptor_binding_storage_texel_buffer_update_after_bind)
            && (self.descriptor_binding_update_unused_while_pending ==> other.descriptor_binding_update_unused_while_pending)
            && (self.descriptor_binding_partially_bound ==> other.descriptor_binding_partially_bound)
            && (self.descriptor_binding_variable_descriptor_count ==> other.descriptor_binding_variable_descriptor_count)
            && (self.runtime_descriptor_array ==> other.runtime_descriptor_array)
            && (self.storage_buffer_8bit_access ==> other.storage_buffer_8bit_access)
            && (self.uniform_and_storage_buffer_8bit_access ==> other.uniform_and_storage_buffer_8bit_access)
            && (self.storage_push_constant8 ==> other.storage_push_constant8)
            && (self.shader_float16 ==> other.shader_float16)
            && (self.shader_int8 ==> other.shader_int8)
            && (self.host_query_reset ==> other.host_query_reset)
            && (self.dynamic_rendering ==> other.dynamic_rendering)
            && (self.synchronization2 ==> other.synchronization2)
            && (self.swapchain_maintenace1 ==> other.swapchain_maintenace1)
            && (self.task_shader ==> other.task_shader)
            && (self.mesh_shader ==> other.mesh_shader)
    }

    /// The features set in `required` but not in `self`.
    pub open spec fn missing(self, required: Self) -> Self {
        DeviceFeatures {
            mutli_draw_indirect: required.mutli_draw_indirect && !self.mutli_draw_indirect,
            storage_buffer_16bit_access: required.storage_buffer_16bit_access && !self.storage_buffer_16bit_access,
            shader_draw_parameters: required.shader_draw_parameters && !self.shader_draw_parameters,
            shader_input_attachment_array_dynamic_indexing: required.shader_input_attachment_array_dynamic_indexing && !self.shader_input_attachment_array_dynamic_indexing,
            shader_uniform_texel_buffer_array_dynamic_indexing: required.shader_uniform_texel_buffer_array_dynamic_indexing && !self.shader_uniform_texel_buffer_array_dynamic_indexing,
            shader_storage_texel_buffer_array_dynamic_indexing: required.shader_storage_texel_buffer_array_dynamic_indexing && !self.shader_storage_texel_buffer_array_dynamic_indexing,
            shader_uniform_buffer_array_non_uniform_indexing: required.shader_uniform_buffer_array_non_uniform_indexing && !self.shader_uniform_buffer_array_non_uniform_indexing,
            shader_sampled_image_array_non_uniform_indexing: required.shader_sampled_image_array_non_uniform_indexing && !self.shader_sampled_image_array_non_uniform_indexing,
            shader_storage_buffer_array_non_uniform_indexing: required.shader_storage_buffer_array_non_uniform_indexing && !self.shader_storage_buffer_array_non_uniform_indexing,
            shader_storage_image_array_non_uniform_indexing: required.shader_storage_image_array_non_uniform_indexing && !self.shader_storage_image_array_non_uniform_indexing,
            shader_input_attachment_array_non_uniform_indexing: required.shader_input_attachment_array_non_uniform_indexing && !self.shader_input_attachment_array_non_uniform_indexing,
            shader_uniform_texel_buffer_array_non_uniform_indexing: required.shader_uniform_texel_buffer_array_non_uniform_indexing && !self.shader_uniform_texel_buffer_array_non_uniform_indexing,
            shader_storage_texel_buffer_array_non_uniform_indexing: required.shader_storage_texel_buffer_array_non_uniform_indexing && !self.shader_storage_texel_buffer_array_non_uniform_indexing,
            descriptor_binding_uniform_buffer_update_after_bind: required.descriptor_binding_uniform_buffer_update_after_bind && !self.descriptor_binding_uniform_buffer_update_after_bind,
            descriptor_binding_sampled_image_update_after_bind: required.descriptor_binding_sampled_image_update_after_bind && !self.descriptor_binding_sampled_image_update_after_bind,
            descriptor_binding_storage_image_update_after_bind: required.descriptor_binding_storage_image_update_after_bind && !self.descriptor_binding_storage_image_update_after_bind,
            descriptor_binding_storage_buffer_update_after_bind: required.descriptor_binding_storage_buffer_update_after_bind && !self.descriptor_binding_storage_buffer_update_after_bind,
            descriptor_binding_uniform_texel_buffer_update_after_bind: required.descriptor_binding_uniform_texel_buffer_update_after_bind && !self.descriptor_binding_uniform_texel_buffer_update_after_bind,
            descriptor_binding_storage_texel_buffer_update_after_bind: required.descriptor_binding_storage_texel_buffer_update_after_bind && !self.descriptor_binding_storage_texel_buffer_update_after_bind,
            descriptor_binding_update_unused_while_pending: required.descriptor_binding_update_unused_while_pending && !self.descriptor_binding_update_unused_while_pending,
            descriptor_binding_partially_bound: required.descriptor_binding_partially_bound && !self.descriptor_binding_partially_bound,
            descriptor_binding_variable_descriptor_count: required.descriptor_binding_variable_descriptor_count && !self.descriptor_binding_variable_descriptor_count,
            runtime_descriptor_array: required.runtime_descriptor_array && !self.runtime_descriptor_array,
            storage_buffer_8bit_access: required.storage_buffer_8bit_access && !self.storage_buffer_8bit_access,
            uniform_and_storage_buffer_8bit_access: required.uniform_and_storage_buffer_8bit_access && !self.uniform_and_storage_buffer_8bit_access,
            storage_push_constant8: required.storage_push_constant8 && !self.storage_push_constant8,
            shader_float16: required.shader_float16 && !self.shader_float16,
            shader_int8: required.shader_int8 && !self.shader_int8,
            host_query_reset: required.host_query_reset && !self.host_query_reset,
            dynamic_rendering: required.dynamic_rendering && !self.dynamic_rendering,
            synchronization2: required.synchronization2 && !self.synchronization2,
            swapchain_maintenace1: required.swapchain_maintenace1 && !self.swapchain_maintenace1,
            task_shader: required.task_shader && !self.task_shader,
            mesh_shader: required.mesh_shader && !self.mesh_shader,
        }
    }

    /// The feature set without any feature.
    pub fn none() -> (r: Self)
        ensures
            !r.any(),
    {
        Self {
            mutli_draw_indirect: false,
            storage_buffer_16bit_access: false,
            shader_draw_parameters: false,
            shader_input_attachment_array_dynamic_indexing: false,
            shader_uniform_texel_buffer_array_dynamic_indexing: false,
            shader_storage_texel_buffer_array_dynamic_indexing: false,
            shader_uniform_buffer_array_non_uniform_indexing: false,
            shader_sampled_image_array_non_uniform_indexing: false,
            shader_storage_buffer_array_non_uniform_indexing: false,
            shader_storage_image_array_non_uniform_indexing: false,
            shader_input_attachment_array_non_uniform_indexing: false,
            shader_uniform_texel_buffer_array_non_uniform_indexing: false,
            shader_storage_texel_buffer_array_non_uniform_indexing: false,
            descriptor_binding_uniform_buffer_update_after_bind: false,
            descriptor_binding_sampled_image_update_after_bind: false,
            descriptor_binding_storage_image_update_after_bind: false,
            descriptor_binding_storage_buffer_update_after_bind: false,
            descriptor_binding_uniform_texel_buffer_update_after_bind: false,
            descriptor_binding_storage_texel_buffer_update_after_bind: false,
            descriptor_binding_update_unused_while_pending: false,
            descriptor_binding_partially_bound: false,
            descriptor_binding_variable_descriptor_count: false,
            runtime_descriptor_array: false,
            storage_buffer_8bit_access: false,
            uniform_and_storage_buffer_8bit_access: false,
            storage_push_constant8: false,
            shader_float16: false,
            shader_int8: false,
            host_query_reset: false,
            dynamic_rendering: false,
            synchronization2: false,
            swapchain_maintenace1: false,
            task_shader: false,
            mesh_shader: false,
        }
    }

    /// Returns `true` if no feature is set.
    pub fn is_empty(&self) -> (r: bool)
        ensures
            r == !self.any(),
    {
        let is_not_empty = self.mutli_draw_indirect
            || self.storage_buffer_16bit_access
            || self.shader_draw_parameters
            || self.shader_input_attachment_array_dynamic_indexing
            || self.shader_uniform_texel_buffer_array_dynamic_indexing
            || self.shader_storage_texel_buffer_array_dynamic_indexing
            || self.shader_uniform_buffer_array_non_uniform_indexing
            || self.shader_sampled_image_array_non_uniform_indexing
            || self.shader_storage_buffer_array_non_uniform_indexing
            || self.shader_storage_image_array_non_uniform_indexing
            || self.shader_input_attachment_array_non_uniform_indexing
            || self.shader_uniform_texel_buffer_array_non_uniform_indexing
            || self.shader_storage_texel_buffer_array_non_uniform_indexing
            || self.descriptor_binding_uniform_buffer_update_after_bind
            || self.descriptor_binding_sampled_image_update_after_bind
            || self.descriptor_binding_storage_image_update_after_bind
            || self.descriptor_binding_storage_buffer_update_after_bind
            || self.descriptor_binding_uniform_texel_buffer_update_after_bind
            || self.descriptor_binding_storage_texel_buffer_update_after_bind
            || self.descriptor_binding_update_unused_while_pending
            || self.descriptor_binding_partially_bound
            || self.descriptor_binding_variable_descriptor_count
            || self.runtime_descriptor_array
            || self.storage_buffer_8bit_access
            || self.uniform_and_storage_buffer_8bit_access
            || self.storage_push_constant8
            || self.shader_float16
            || self.shader_int8
            || self.host_query_reset
            || self.dynamic_rendering
            || self.synchronization2
            || self.swapchain_maintenace1
            || self.task_shader
            || self.mesh_shader;
        !is_not_empty
    }

    /// Returns `Ok(())` when `self` contains every feature that is set in `required`,
    /// otherwise the features that are required but missing.
    pub fn validate_requirements(&self, required: Self) -> (r: Result<(), FeatureError>)
        ensures
            r == if required.subset_of(*self) {
                Ok(())
            } else {
                Err(FeatureError::MissingFeatures(self.missing(required)))
            },
    {
        let missing_features = Self {
            mutli_draw_indirect: required.mutli_draw_indirect && !self.mutli_draw_indirect,
            storage_buffer_16bit_access: required.storage_buffer_16bit_access && !self.storage_buffer_16bit_access,
            shader_draw_parameters: required.shader_draw_parameters && !self.shader_draw_parameters,
            shader_input_attachment_array_dynamic_indexing: required.shader_input_attachment_array_dynamic_indexing && !self.shader_input_attachment_array_dynamic_indexing,
            shader_uniform_texel_buffer_array_dynamic_indexing: required.shader_uniform_texel_buffer_array_dynamic_indexing && !self.shader_uniform_texel_buffer_array_dynamic_indexing,
            shader_storage_texel_buffer_array_dynamic_indexing: required.shader_storage_texel_buffer_array_dynamic_indexing && !self.shader_storage_texel_buffer_array_dynamic_indexing,
            shader_uniform_buffer_array_non_uniform_indexing: required.shader_uniform_buffer_array_non_uniform_indexing && !self.shader_uniform_buffer_array_non_uniform_indexing,
            shader_sampled_image_array_non_uniform_indexing: required.shader_sampled_image_array_non_uniform_indexing && !self.shader_sampled_image_array_non_uniform_indexing,
            shader_storage_buffer_array_non_uniform_indexing: required.shader_storage_buffer_array_non_uniform_indexing && !self.shader_storage_buffer_array_non_uniform_indexing,
            shader_storage_image_array_non_uniform_indexing: required.shader_storage_image_array_non_uniform_indexing && !self.shader_storage_image_array_non_uniform_indexing,
            shader_input_attachment_array_non_uniform_indexing: required.shader_input_attachment_array_non_uniform_indexing && !self.shader_input_attachment_array_non_uniform_indexing,
            shader_uniform_texel_buffer_array_non_uniform_indexing: required.shader_uniform_texel_buffer_array_non_uniform_indexing && !self.shader_uniform_texel_buffer_array_non_uniform_indexing,
            shader_storage_texel_buffer_array_non_uniform_indexing: required.shader_storage_texel_buffer_array_non_uniform_indexing && !self.shader_storage_texel_buffer_array_non_uniform_indexing,
            descriptor_binding_uniform_buffer_update_after_bind: required.descriptor_binding_uniform_buffer_update_after_bind && !self.descriptor_binding_uniform_buffer_update_after_bind,
            descriptor_binding_sampled_image_update_after_bind: required.descriptor_binding_sampled_image_update_after_bind && !self.descriptor_binding_sampled_image_update_after_bind,
            descriptor_binding_storage_image_update_after_bind: required.descriptor_binding_storage_image_update_after_bind && !self.descriptor_binding_storage_image_update_after_bind,
            descriptor_binding_storage_buffer_update_after_bind: required.descriptor_binding_storage_buffer_update_after_bind && !self.descriptor_binding_storage_buffer_update_after_bind,
            descriptor_binding_uniform_texel_buffer_update_after_bind: required.descriptor_binding_uniform_texel_buffer_update_after_bind && !self.descriptor_binding_uniform_texel_buffer_update_after_bind,
            descriptor_binding_storage_texel_buffer_update_after_bind: required.descriptor_binding_storage_texel_buffer_update_after_bind && !self.descriptor_binding_storage_texel_buffer_update_after_bind,
            descriptor_binding_update_unused_while_pending: required.descriptor_binding_update_unused_while_pending && !self.descriptor_binding_update_unused_while_pending,
            descriptor_binding_partially_bound: required.descriptor_binding_partially_bound && !self.descriptor_binding_partially_bound,
            descriptor_binding_variable_descriptor_count: required.descriptor_binding_variable_descriptor_count && !self.descriptor_binding_variable_descriptor_count,
            runtime_descriptor_array: required.runtime_descriptor_array && !self.runtime_descriptor_array,
            storage_buffer_8bit_access: required.storage_buffer_8bit_access && !self.storage_buffer_8bit_access,
            uniform_and_storage_buffer_8bit_access: required.uniform_and_storage_buffer_8bit_access && !self.uniform_and_storage_buffer_8bit_access,
            storage_push_constant8: required.storage_push_constant8 && !self.storage_push_constant8,
            shader_float16: required.shader_float16 && !self.shader_float16,
            shader_int8: required.shader_int8 && !self.shader_int8,
            host_query_reset: required.host_query_reset && !self.host_query_reset,
            dynamic_rendering: required.dynamic_rendering && !self.dynamic_rendering,
            synchronization2: required.synchronization2 && !self.synchronization2,
            swapchain_maintenace1: required.swapchain_maintenace1 && !self.swapchain_maintenace1,
            task_shader: required.task_shader && !self.task_shader,
            mesh_shader: required.mesh_shader && !self.mesh_shader,
        };
        if missing_features.is_empty() {
            Ok(())
        } else {
            Err(FeatureError::MissingFeatures(missing_features))
        }
    }
}

} // verus!
