use vstd::prelude::*;

use crate::access::AccessFlags;
use crate::backend::{DescriptorBinding, DescriptorType, PushConstantRange, ShaderStage, ShaderStages};
use crate::binding_map::BindingMap;
use crate::shader::{BindingLocation, ShaderBinding};
use crate::descriptor_pool::{kind_total, resource_count, totals_fit, DescriptorSetResourceCount};

verus! {

/// The device limits that bound the layout of a pipeline.
#[derive(Copy, Clone, Debug, PartialEq, Eq, Structural)]
pub struct PipelineLimits {
    pub max_push_constants_size: u32,
    pub max_bound_descriptor_sets: u32,
    pub max_per_stage_descriptor_samplers: u32,
    pub max_per_stage_descriptor_uniform_buffers: u32,
    pub max_per_stage_descriptor_storage_buffers: u32,
    pub max_per_stage_descriptor_sampled_images: u32,
    pub max_per_stage_resources: u32,
    pub max_descriptor_set_samplers: u32,
    pub max_descriptor_set_uniform_buffers: u32,
    pub max_descriptor_set_storage_buffers: u32,
    pub max_descriptor_set_sampled_images: u32,
    pub max_color_attachments: u32,
}

/// Which rule a pipeline description breaks.
#[derive(Copy, Clone, Debug, PartialEq, Eq, Structural)]
pub enum PipelineError {
    /// More descriptors of a kind than all descriptor sets of a pipeline may hold.
    DescriptorSetLimit(DescriptorType),
    /// More descriptors of a kind than one shader stage may access.
    PerStageLimit(DescriptorType),
    /// More resources than one shader stage may access.
    PerStageResources,
    /// The push constant range at this index is empty, unaligned, too large or visible
    /// to no known stage.
    PushConstantRange(usize),
    /// More descriptor sets than can be bound at once.
    TooManySets,
    /// The stages are not one of the supported compositions.
    InvalidStages,
    /// Task or mesh stages are used without mesh shaders enabled.
    MeshShadersDisabled,
    /// More color targets than the device supports.
    TooManyColorAttachments,
}

/// The descriptors of kind `k` in all `layouts` together.
pub open spec fn layouts_total(layouts: Seq<Vec<DescriptorBinding>>, k: DescriptorType) -> int
    decreases layouts.len(),
{
    if layouts.len() == 0 {
        0
    } else {
        layouts_total(layouts.drop_last(), k) + kind_total(layouts.last()@, k)
    }
}

/// The totals of each kind fit in `u32`.
pub open spec fn layouts_fit(layouts: Seq<Vec<DescriptorBinding>>) -> bool {
    &&& layouts_total(layouts, DescriptorType::Uniform) <= u32::MAX
    &&& layouts_total(layouts, DescriptorType::Storage) <= u32::MAX
    &&& layouts_total(layouts, DescriptorType::Sampler) <= u32::MAX
    &&& layouts_total(layouts, DescriptorType::Texture) <= u32::MAX
}

proof fn lemma_kind_total_nonneg(bindings: Seq<DescriptorBinding>, k: DescriptorType)
    ensures
        kind_total(bindings, k) >= 0,
    decreases bindings.len(),
{
    if bindings.len() > 0 {
        lemma_kind_total_nonneg(bindings.drop_last(), k);
    }
}

proof fn lemma_layouts_total_prefix(layouts: Seq<Vec<DescriptorBinding>>, k: DescriptorType, i: int)
    requires
        0 <= i <= layouts.len(),
    ensures
        layouts_total(layouts.take(i), k) <= layouts_total(layouts, k),
        i < layouts.len() ==> layouts_total(layouts.take(i), k) + kind_total(layouts[i]@, k)
            <= layouts_total(layouts, k),
    decreases layouts.len() - i,
{
    if i < layouts.len() {
        lemma_layouts_total_prefix(layouts, k, i + 1);
        assert(layouts.take(i + 1).drop_last() =~= layouts.take(i));
        lemma_kind_total_nonneg(layouts[i]@, k);
    } else {
        assert(layouts.take(i) =~= layouts);
    }
}

/// Counts the descriptors of each kind in all `layouts` together.
pub fn descriptor_totals(layouts: &[Vec<DescriptorBinding>]) -> (r: DescriptorSetResourceCount)
    requires
        layouts_fit(layouts@),
    ensures
        r.uniform_buffers == layouts_total(layouts@, DescriptorType::Uniform),
        r.storage_buffers == layouts_total(layouts@, DescriptorType::Storage),
        r.samplers == layouts_total(layouts@, DescriptorType::Sampler),
        r.sampled_textures == layouts_total(layouts@, DescriptorType::Texture),
{
    let mut r = DescriptorSetResourceCount {
        uniform_buffers: 0,
        storage_buffers: 0,
        samplers: 0,
        sampled_textures: 0,
    };
    let mut i: usize = 0;
    while i < layouts.len()
        invariant
            i <= layouts@.len(),
            layouts_fit(layouts@),
            r.uniform_buffers == layouts_total(layouts@.take(i as int), DescriptorType::Uniform),
            r.storage_buffers == layouts_total(layouts@.take(i as int), DescriptorType::Storage),
            r.samplers == layouts_total(layouts@.take(i as int), DescriptorType::Sampler),
            r.sampled_textures == layouts_total(layouts@.take(i as int), DescriptorType::Texture),
        decreases layouts@.len() - i,
    {
        proof {
            assert(layouts@.take(i + 1).drop_last() =~= layouts@.take(i as int));
            assert(layouts@.take(i + 1).last() == layouts@[i as int]);
            lemma_layouts_total_prefix(layouts@, DescriptorType::Uniform, i as int);
            lemma_layouts_total_prefix(layouts@, DescriptorType::Storage, i as int);
            lemma_layouts_total_prefix(layouts@, DescriptorType::Sampler, i as int);
            lemma_layouts_total_prefix(layouts@, DescriptorType::Texture, i as int);
            lemma_layouts_total_prefix(layouts@, DescriptorType::Uniform, i + 1);
            lemma_layouts_total_prefix(layouts@, DescriptorType::Storage, i + 1);
            lemma_layouts_total_prefix(layouts@, DescriptorType::Sampler, i + 1);
            lemma_layouts_total_prefix(layouts@, DescriptorType::Texture, i + 1);
            lemma_kind_total_nonneg(layouts@.take(i as int).last()@, DescriptorType::Uniform);
        }
        let c = resource_count(layouts[i].as_slice());
        r.uniform_buffers = r.uniform_buffers + c.uniform_buffers;
        r.storage_buffers = r.storage_buffers + c.storage_buffers;
        r.samplers = r.samplers + c.samplers;
        r.sampled_textures = r.sampled_textures + c.sampled_textures;
        i = i + 1;
    }
    proof {
        assert(layouts@.take(i as int) =~= layouts@);
    }
    r
}

/// A push constant range is non-empty, aligned to four bytes, lies within the push
/// constant space and is visible to at least one stage, and only to known ones.
pub open spec fn push_range_valid(r: PushConstantRange, max_size: u32) -> bool {
    &&& r.end > r.start
    &&& r.start < max_size
    &&& r.start % 4 == 0
    &&& (r.end - r.start) % 4 == 0
    &&& r.end - r.start <= max_size - r.start
    &&& r.stages.bits != 0
    &&& r.stages.bits < 16
}

/// The index of the first invalid range, if any.
pub open spec fn first_invalid_range(ranges: Seq<PushConstantRange>, max_size: u32) -> Option<int> {
    if exists|i: int| 0 <= i < ranges.len() && !push_range_valid(ranges[i], max_size) {
        Some(
            choose|i: int|
                0 <= i < ranges.len() && !push_range_valid(ranges[i], max_size) && forall|j: int|
                    0 <= j < i ==> push_range_valid(ranges[j], max_size),
        )
    } else {
        None
    }
}

/// The supported compositions of pipeline stages.
pub open spec fn valid_stages(stages: Seq<ShaderStage>) -> bool {
    ||| stages == seq![ShaderStage::Vertex, ShaderStage::Fragment]
    ||| stages == seq![ShaderStage::Task, ShaderStage::Mesh, ShaderStage::Fragment]
    ||| stages == seq![ShaderStage::Mesh, ShaderStage::Fragment]
}

/// Some stage is a task or mesh stage.
pub open spec fn uses_mesh_shaders(stages: Seq<ShaderStage>) -> bool {
    exists|i: int|
        0 <= i < stages.len() && (stages[i] == ShaderStage::Task || stages[i] == ShaderStage::Mesh)
}

/// The outcome of checking a pipeline: the limits on descriptors (over all sets, then per
/// stage, then all resources of a stage), the push constant ranges in order, the number of
/// sets, the stage composition, mesh shader support and the number of color targets.
pub open spec fn pipeline_check(
    totals: DescriptorSetResourceCount,
    sets: int,
    ranges: Seq<PushConstantRange>,
    stages: Seq<ShaderStage>,
    color_targets: int,
    mesh_shaders: bool,
    limits: PipelineLimits,
) -> Result<(), PipelineError> {
    if totals.samplers > limits.max_descriptor_set_samplers {
        Err(PipelineError::DescriptorSetLimit(DescriptorType::Sampler))
    } else if totals.uniform_buffers > limits.max_descriptor_set_uniform_buffers {
        Err(PipelineError::DescriptorSetLimit(DescriptorType::Uniform))
    } else if totals.storage_buffers > limits.max_descriptor_set_storage_buffers {
        Err(PipelineError::DescriptorSetLimit(DescriptorType::Storage))
    } else if totals.sampled_textures > limits.max_descriptor_set_sampled_images {
        Err(PipelineError::DescriptorSetLimit(DescriptorType::Texture))
    } else if totals.samplers > limits.max_per_stage_descriptor_samplers {
        Err(PipelineError::PerStageLimit(DescriptorType::Sampler))
    } else if totals.uniform_buffers > limits.max_per_stage_descriptor_uniform_buffers {
        Err(PipelineError::PerStageLimit(DescriptorType::Uniform))
    } else if totals.storage_buffers > limits.max_per_stage_descriptor_storage_buffers {
        Err(PipelineError::PerStageLimit(DescriptorType::Storage))
    } else if totals.sampled_textures > limits.max_per_stage_descriptor_sampled_images {
        Err(PipelineError::PerStageLimit(DescriptorType::Texture))
    } else if totals.samplers + totals.uniform_buffers + totals.storage_buffers
        + totals.sampled_textures > limits.max_per_stage_resources {
        Err(PipelineError::PerStageResources)
    } else if first_invalid_range(ranges, limits.max_push_constants_size) is Some {
        Err(
            PipelineError::PushConstantRange(
                first_invalid_range(ranges, limits.max_push_constants_size)->0 as usize,
            ),
        )
    } else if sets > limits.max_bound_descriptor_sets {
        Err(PipelineError::TooManySets)
    } else if !valid_stages(stages) {
        Err(PipelineError::InvalidStages)
    } else if uses_mesh_shaders(stages) && !mesh_shaders {
        Err(PipelineError::MeshShadersDisabled)
    } else if color_targets > limits.max_color_attachments {
        Err(PipelineError::TooManyColorAttachments)
    } else {
        Ok(())
    }
}

/// Checks one push constant range.
fn check_push_range(r: &PushConstantRange, max_size: u32) -> (ok: bool)
    ensures
        ok == push_range_valid(*r, max_size),
{
    r.end > r.start && r.start < max_size && r.start % 4 == 0 && (r.end - r.start) % 4 == 0 && r.end
        - r.start <= max_size - r.start && r.stages.bits != 0 && r.stages.bits < 16
}

/// The index of the first invalid push constant range, if any.
fn find_invalid_range(ranges: &[PushConstantRange], max_size: u32) -> (r: Option<usize>)
    ensures
        r matches Some(i) ==> first_invalid_range(ranges@, max_size) == Some(i as int),
        r is None ==> first_invalid_range(ranges@, max_size) is None,
{
    let mut i: usize = 0;
    while i < ranges.len()
        invariant
            i <= ranges.len(),
            forall|j: int| 0 <= j < i ==> push_range_valid(ranges@[j], max_size),
        decreases ranges.len() - i,
    {
        if !check_push_range(&ranges[i], max_size) {
            proof {
                let ii = i as int;
                assert(0 <= ii < ranges@.len() && !push_range_valid(ranges@[ii], max_size) && forall|
                    j: int,
                | 0 <= j < ii ==> push_range_valid(ranges@[j], max_size));
                let k = first_invalid_range(ranges@, max_size)->0;
                assert(forall|j: int| 0 <= j < k ==> push_range_valid(ranges@[j], max_size));
                assert(!push_range_valid(ranges@[k], max_size));
                assert(k == ii);
            }
            return Some(i);
        }
        i = i + 1;
    }
    None
}

/// Checks that a pipeline with descriptor sets of `layouts`, push constant `ranges`,
/// `stages` and `color_targets` color targets can be created on a device with `limits`,
/// where `mesh_shaders` tells whether mesh shaders are enabled.
pub fn check_pipeline(
    layouts: &[Vec<DescriptorBinding>],
    ranges: &[PushConstantRange],
    stages: &[ShaderStage],
    color_targets: usize,
    mesh_shaders: bool,
    limits: &PipelineLimits,
) -> (r: Result<(), PipelineError>)
    requires
        layouts_fit(layouts@),
    ensures
        r == pipeline_check(
            DescriptorSetResourceCount {
                uniform_buffers: layouts_total(layouts@, DescriptorType::Uniform) as u32,
                storage_buffers: layouts_total(layouts@, DescriptorType::Storage) as u32,
                samplers: layouts_total(layouts@, DescriptorType::Sampler) as u32,
                sampled_textures: layouts_total(layouts@, DescriptorType::Texture) as u32,
            },
            layouts@.len() as int,
            ranges@,
            stages@,
            color_targets as int,
            mesh_shaders,
            *limits,
        ),
{
    let t = descriptor_totals(layouts);
    proof {
        assert(t == DescriptorSetResourceCount {
            uniform_buffers: layouts_total(layouts@, DescriptorType::Uniform) as u32,
            storage_buffers: layouts_total(layouts@, DescriptorType::Storage) as u32,
            samplers: layouts_total(layouts@, DescriptorType::Sampler) as u32,
            sampled_textures: layouts_total(layouts@, DescriptorType::Texture) as u32,
        });
    }
    if t.samplers > limits.max_descriptor_set_samplers {
        return Err(PipelineError::DescriptorSetLimit(DescriptorType::Sampler));
    }
    if t.uniform_buffers > limits.max_descriptor_set_uniform_buffers {
        return Err(PipelineError::DescriptorSetLimit(DescriptorType::Uniform));
    }
    if t.storage_buffers > limits.max_descriptor_set_storage_buffers {
        return Err(PipelineError::DescriptorSetLimit(DescriptorType::Storage));
    }
    if t.sampled_textures > limits.max_descriptor_set_sampled_images {
        return Err(PipelineError::DescriptorSetLimit(DescriptorType::Texture));
    }
    if t.samplers > limits.max_per_stage_descriptor_samplers {
        return Err(PipelineError::PerStageLimit(DescriptorType::Sampler));
    }
    if t.uniform_buffers > limits.max_per_stage_descriptor_uniform_buffers {
        return Err(PipelineError::PerStageLimit(DescriptorType::Uniform));
    }
    if t.storage_buffers > limits.max_per_stage_descriptor_storage_buffers {
        return Err(PipelineError::PerStageLimit(DescriptorType::Storage));
    }
    if t.sampled_textures > limits.max_per_stage_descriptor_sampled_images {
        return Err(PipelineError::PerStageLimit(DescriptorType::Texture));
    }
    let resources: u64 = t.samplers as u64 + t.uniform_buffers as u64 + t.storage_buffers as u64
        + t.sampled_textures as u64;
    if resources > limits.max_per_stage_resources as u64 {
        return Err(PipelineError::PerStageResources);
    }
    match find_invalid_range(ranges, limits.max_push_constants_size) {
        Some(i) => {
            return Err(PipelineError::PushConstantRange(i));
        },
        None => {},
    }
    if layouts.len() as u64 > limits.max_bound_descriptor_sets as u64 {
        return Err(PipelineError::TooManySets);
    }
    let n = stages.len();
    let valid = (n == 2 && stages[0] == ShaderStage::Vertex && stages[1] == ShaderStage::Fragment)
        || (n == 3 && stages[0] == ShaderStage::Task && stages[1] == ShaderStage::Mesh && stages[2]
        == ShaderStage::Fragment) || (n == 2 && stages[0] == ShaderStage::Mesh && stages[1]
        == ShaderStage::Fragment);
    proof {
        if n == 2 && stages@[0] == ShaderStage::Vertex && stages@[1] == ShaderStage::Fragment {
            assert(stages@ =~= seq![ShaderStage::Vertex, ShaderStage::Fragment]);
        }
        if n == 3 && stages@[0] == ShaderStage::Task && stages@[1] == ShaderStage::Mesh && stages@[2]
            == ShaderStage::Fragment {
            assert(stages@ =~= seq![ShaderStage::Task, ShaderStage::Mesh, ShaderStage::Fragment]);
        }
        if n == 2 && stages@[0] == ShaderStage::Mesh && stages@[1] == ShaderStage::Fragment {
            assert(stages@ =~= seq![ShaderStage::Mesh, ShaderStage::Fragment]);
        }
    }
    if !valid {
        return Err(PipelineError::InvalidStages);
    }
    let mesh = stages[0] == ShaderStage::Task || stages[0] == ShaderStage::Mesh;
    proof {
        if !mesh {
            assert(stages@ =~= seq![ShaderStage::Vertex, ShaderStage::Fragment]);
            assert(!uses_mesh_shaders(stages@));
        }
    }
    if mesh && !mesh_shaders {
        return Err(PipelineError::MeshShadersDisabled);
    }
    if color_targets as u64 > limits.max_color_attachments as u64 {
        return Err(PipelineError::TooManyColorAttachments);
    }
    Ok(())
}

/// The bindings that the shader of one pipeline stage declares.
#[derive(Clone, Debug)]
pub struct StageBindings {
    pub stage: ShaderStage,
    pub bindings: Vec<ShaderBinding>,
}

/// Why the descriptor set layouts of a pipeline do not serve its shaders.
#[derive(Copy, Clone, Debug, PartialEq, Eq, Structural)]
pub enum PipelineBindingError {
    /// The layout provides another kind of resource at the location, or none.
    KindMismatch { location: BindingLocation, expected: DescriptorType, provided: Option<DescriptorType> },
    /// The layout's binding is not visible in the stage that uses it.
    NotVisible { location: BindingLocation, stage: ShaderStage, visibility: ShaderStages },
}

/// The bit of a stage in a set of shader stages.
pub open spec fn stage_bit(stage: ShaderStage) -> u32 {
    match stage {
        ShaderStage::Vertex => 1,
        ShaderStage::Fragment => 2,
        ShaderStage::Task => 4,
        ShaderStage::Mesh => 8,
    }
}

/// The access flags of a shader of `stage` that reads (bit 0) or writes (bit 1).
pub open spec fn stage_access(stage: ShaderStage, access: u8) -> u32 {
    let (read, write) = match stage {
        ShaderStage::Vertex => (0x200u32, 0x400u32),
        ShaderStage::Fragment => (0x800u32, 0x1000u32),
        ShaderStage::Task => (0x2000u32, 0x4000u32),
        ShaderStage::Mesh => (0x8000u32, 0x10000u32),
    };
    (if access & 1 != 0 {
        read
    } else {
        0u32
    }) | (if access & 2 != 0 {
        write
    } else {
        0u32
    })
}

/// The bindings of all stages in order, each with its stage.
pub open spec fn stage_pairs(stages: Seq<StageBindings>) -> Seq<(ShaderStage, ShaderBinding)>
    decreases stages.len(),
{
    if stages.len() == 0 {
        Seq::empty()
    } else {
        let s = stages.last();
        stage_pairs(stages.drop_last()) + s.bindings@.map_values(
            |b: ShaderBinding| (s.stage, b),
        )
    }
}

/// The binding of `layouts` at position `binding` of group `group`, if any.
pub open spec fn layout_entry(layouts: Seq<Vec<DescriptorBinding>>, group: u32, binding: u32) -> Option<
    DescriptorBinding,
> {
    if group < layouts.len() && binding < layouts[group as int]@.len() {
        Some(layouts[group as int]@[binding as int])
    } else {
        None
    }
}

/// The check of one binding used in one stage: the layout's binding at the same position
/// must hold the same kind of resource and be visible in the stage.
pub open spec fn pair_error(p: (ShaderStage, ShaderBinding), layouts: Seq<Vec<DescriptorBinding>>) -> Option<
    PipelineBindingError,
> {
    let (stage, b) = p;
    let loc = BindingLocation { group: b.group, binding: b.binding };
    match layout_entry(layouts, b.group, b.binding) {
        None => Some(
            PipelineBindingError::KindMismatch { location: loc, expected: b.kind, provided: None },
        ),
        Some(d) => if d.kind != b.kind {
            Some(
                PipelineBindingError::KindMismatch {
                    location: loc,
                    expected: b.kind,
                    provided: Some(d.kind),
                },
            )
        } else if d.visibility.bits & stage_bit(stage) != stage_bit(stage) {
            Some(PipelineBindingError::NotVisible { location: loc, stage, visibility: d.visibility })
        } else {
            None
        },
    }
}

/// The first failing check among `pairs`, in order.
pub open spec fn first_pair_error(pairs: Seq<(ShaderStage, ShaderBinding)>, layouts: Seq<Vec<DescriptorBinding>>) -> Option<
    PipelineBindingError,
>
    decreases pairs.len(),
{
    if pairs.len() == 0 {
        None
    } else {
        match first_pair_error(pairs.drop_last(), layouts) {
            Some(e) => Some(e),
            None => pair_error(pairs.last(), layouts),
        }
    }
}

/// The access flags recorded for a location after the bindings of `pairs` that are read or
/// written are added in order.
pub open spec fn pairs_access(pairs: Seq<(ShaderStage, ShaderBinding)>, group: u32, binding: u32) -> Option<u32>
    decreases pairs.len(),
{
    if pairs.len() == 0 {
        None
    } else {
        let prev = pairs_access(pairs.drop_last(), group, binding);
        let (stage, b) = pairs.last();
        let f = stage_access(stage, b.access.bits);
        if b.group == group && b.binding == binding && f != 0 {
            Some(
                match prev {
                    Some(p) => p | f,
                    None => f,
                },
            )
        } else {
            prev
        }
    }
}

/// The access flags of a shader of `stage` with the given access.
fn access_of(stage: ShaderStage, access: u8) -> (r: AccessFlags)
    ensures
        r.value() == stage_access(stage, access),
{
    let (read, write) = match stage {
        ShaderStage::Vertex => (AccessFlags::vertex_shader_read(), AccessFlags::vertex_shader_write()),
        ShaderStage::Fragment => (
            AccessFlags::fragment_shader_read(),
            AccessFlags::fragment_shader_write(),
        ),
        ShaderStage::Task => (AccessFlags::task_shader_read(), AccessFlags::task_shader_write()),
        ShaderStage::Mesh => (AccessFlags::mesh_shader_read(), AccessFlags::mesh_shader_write()),
    };
    let mut flags = AccessFlags::empty();
    if access & 1 != 0 {
        flags = flags.union(read);
    }
    if access & 2 != 0 {
        flags = flags.union(write);
    }
    proof {
        assert(forall|x: u32| #[trigger] (0u32 | x) == x && (x | 0u32) == x) by (bit_vector);
    }
    flags
}

/// Checks one binding used in one stage.
fn check_pair(stage: ShaderStage, b: &ShaderBinding, layouts: &[Vec<DescriptorBinding>]) -> (r: Option<
    PipelineBindingError,
>)
    ensures
        r == pair_error((stage, *b), layouts@),
{
    let loc = BindingLocation { group: b.group, binding: b.binding };
    let gi = b.group as usize;
    let bi = b.binding as usize;
    if gi >= layouts.len() || bi >= layouts[gi].len() {
        return Some(PipelineBindingError::KindMismatch { location: loc, expected: b.kind, provided: None });
    }
    let d = layouts[gi][bi];
    if d.kind != b.kind {
        return Some(
            PipelineBindingError::KindMismatch { location: loc, expected: b.kind, provided: Some(d.kind) },
        );
    }
    let bit = stage.stages().bits;
    if d.visibility.bits & bit != bit {
        return Some(PipelineBindingError::NotVisible { location: loc, stage, visibility: d.visibility });
    }
    None
}

/// `p` is a prefix of `f`.
pub open spec fn is_prefix<A>(p: Seq<A>, f: Seq<A>) -> bool {
    p.len() <= f.len() && f.take(p.len() as int) == p
}

proof fn lemma_first_error_extends(
    p: Seq<(ShaderStage, ShaderBinding)>,
    f: Seq<(ShaderStage, ShaderBinding)>,
    layouts: Seq<Vec<DescriptorBinding>>,
)
    requires
        is_prefix(p, f),
        first_pair_error(p, layouts) is Some,
    ensures
        first_pair_error(f, layouts) == first_pair_error(p, layouts),
    decreases f.len(),
{
    if f.len() == p.len() {
        assert(f =~= p);
    } else {
        assert(f.drop_last().take(p.len() as int) =~= f.take(p.len() as int));
        lemma_first_error_extends(p, f.drop_last(), layouts);
    }
}

proof fn lemma_stage_pairs_prefix(s: Seq<StageBindings>, n: int)
    requires
        0 <= n <= s.len(),
    ensures
        is_prefix(stage_pairs(s.take(n)), stage_pairs(s)),
    decreases s.len(),
{
    if n == s.len() {
        assert(s.take(n) =~= s);
        assert(stage_pairs(s).take(stage_pairs(s).len() as int) =~= stage_pairs(s));
    } else {
        assert(s.drop_last().take(n) =~= s.take(n));
        lemma_stage_pairs_prefix(s.drop_last(), n);
        let a = stage_pairs(s.take(n));
        let b = stage_pairs(s.drop_last());
        let last = s.last();
        let c = b + last.bindings@.map_values(|x: ShaderBinding| (last.stage, x));
        assert(c.take(a.len() as int) =~= b.take(a.len() as int));
    }
}

/// Works out how a pipeline with the given stages accesses each binding, checking every
/// binding against the descriptor set layouts first.
///
/// The bindings are visited stage by stage; the first one that the layouts do not serve is
/// reported. A binding that is neither read nor written records nothing.
pub fn pipeline_bindings(stages: &[StageBindings], layouts: &[Vec<DescriptorBinding>]) -> (r: Result<
    BindingMap,
    PipelineBindingError,
>)
    ensures
        match first_pair_error(stage_pairs(stages@), layouts@) {
            Some(e) => r == Err::<BindingMap, PipelineBindingError>(e),
            None => r matches Ok(m) && forall|g: u32, b: u32| #[trigger]
                m.binding(g, b) == pairs_access(stage_pairs(stages@), g, b),
        },
{
    let mut map = BindingMap::new();
    let mut i: usize = 0;
    while i < stages.len()
        invariant
            i <= stages.len(),
            first_pair_error(stage_pairs(stages@.take(i as int)), layouts@) is None,
            forall|g: u32, b: u32| #[trigger]
                map.binding(g, b) == pairs_access(stage_pairs(stages@.take(i as int)), g, b),
        decreases stages.len() - i,
    {
        let stage = stages[i].stage;
        let bindings = &stages[i].bindings;
        let ghost before = stage_pairs(stages@.take(i as int));
        let ghost mapped = bindings@.map_values(|b: ShaderBinding| (stage, b));
        proof {
            assert(stages@.take(i + 1).drop_last() =~= stages@.take(i as int));
            assert(stages@.take(i + 1).last() == stages@[i as int]);
            assert(stage_pairs(stages@.take(i + 1)) == before + mapped);
        }
        let mut k: usize = 0;
        while k < bindings.len()
            invariant
                k <= bindings.len(),
                i < stages.len(),
                before == stage_pairs(stages@.take(i as int)),
                stage_pairs(stages@.take(i + 1)) == before + mapped,
                bindings@ == stages@[i as int].bindings@,
                stage == stages@[i as int].stage,
                mapped == bindings@.map_values(|b: ShaderBinding| (stage, b)),
                first_pair_error(before + mapped.take(k as int), layouts@) is None,
                forall|g: u32, b: u32| #[trigger]
                    map.binding(g, b) == pairs_access(before + mapped.take(k as int), g, b),
            decreases bindings.len() - k,
        {
            let b = &bindings[k];
            let ghost prefix = before + mapped.take(k as int);
            let ghost next = before + mapped.take(k + 1);
            proof {
                assert(next.drop_last() =~= prefix);
                assert(next.last() == (stage, *b));
            }
            match check_pair(stage, b, layouts) {
                Some(e) => {
                    proof {
                        assert((before + mapped).take(next.len() as int) =~= next);
                        lemma_first_error_extends(next, before + mapped, layouts@);
                        lemma_stage_pairs_prefix(stages@, i + 1);
                        lemma_first_error_extends(before + mapped, stage_pairs(stages@), layouts@);
                    }
                    return Err(e);
                },
                None => {},
            }
            let flags = access_of(stage, b.access.bits);
            if !flags.is_empty() {
                map.insert(b.group, b.binding, flags);
            }
            k = k + 1;
        }
        proof {
            assert(mapped.take(k as int) =~= mapped);
        }
        i = i + 1;
    }
    proof {
        assert(stages@.take(i as int) =~= stages@);
    }
    Ok(map)
}

/// The access flag of a shader of `stage` that reads a binding.
pub open spec fn shader_read_flag(stage: ShaderStage) -> u32 {
    match stage {
        ShaderStage::Vertex => 0x200,
        ShaderStage::Fragment => 0x800,
        ShaderStage::Task => 0x2000,
        ShaderStage::Mesh => 0x8000,
    }
}

/// The access flag of a shader of `stage` that writes a binding.
pub open spec fn shader_write_flag(stage: ShaderStage) -> u32 {
    match stage {
        ShaderStage::Vertex => 0x400,
        ShaderStage::Fragment => 0x1000,
        ShaderStage::Task => 0x4000,
        ShaderStage::Mesh => 0x10000,
    }
}

/// Selecting a read and a write flag of each stage by the access bits.
proof fn lemma_select_flags(a: u8)
    by (bit_vector)
    ensures
        ((if a & 1 != 0 { 0x200u32 } else { 0u32 }) | (if a & 2 != 0 { 0x400u32 } else { 0u32 })) & !(0x200u32 | 0x400u32) == 0,
        (((if a & 1 != 0 { 0x200u32 } else { 0u32 }) | (if a & 2 != 0 { 0x400u32 } else { 0u32 })) & 0x200u32 == 0x200u32) == (a & 1 != 0),
        (((if a & 1 != 0 { 0x200u32 } else { 0u32 }) | (if a & 2 != 0 { 0x400u32 } else { 0u32 })) & 0x400u32 == 0x400u32) == (a & 2 != 0),
        ((if a & 1 != 0 { 0x800u32 } else { 0u32 }) | (if a & 2 != 0 { 0x1000u32 } else { 0u32 })) & !(0x800u32 | 0x1000u32) == 0,
        (((if a & 1 != 0 { 0x800u32 } else { 0u32 }) | (if a & 2 != 0 { 0x1000u32 } else { 0u32 })) & 0x800u32 == 0x800u32) == (a & 1 != 0),
        (((if a & 1 != 0 { 0x800u32 } else { 0u32 }) | (if a & 2 != 0 { 0x1000u32 } else { 0u32 })) & 0x1000u32 == 0x1000u32) == (a & 2 != 0),
        ((if a & 1 != 0 { 0x2000u32 } else { 0u32 }) | (if a & 2 != 0 { 0x4000u32 } else { 0u32 })) & !(0x2000u32 | 0x4000u32) == 0,
        (((if a & 1 != 0 { 0x2000u32 } else { 0u32 }) | (if a & 2 != 0 { 0x4000u32 } else { 0u32 })) & 0x2000u32 == 0x2000u32) == (a & 1 != 0),
        (((if a & 1 != 0 { 0x2000u32 } else { 0u32 }) | (if a & 2 != 0 { 0x4000u32 } else { 0u32 })) & 0x4000u32 == 0x4000u32) == (a & 2 != 0),
        ((if a & 1 != 0 { 0x8000u32 } else { 0u32 }) | (if a & 2 != 0 { 0x10000u32 } else { 0u32 })) & !(0x8000u32 | 0x10000u32) == 0,
        (((if a & 1 != 0 { 0x8000u32 } else { 0u32 }) | (if a & 2 != 0 { 0x10000u32 } else { 0u32 })) & 0x8000u32 == 0x8000u32) == (a & 1 != 0),
        (((if a & 1 != 0 { 0x8000u32 } else { 0u32 }) | (if a & 2 != 0 { 0x10000u32 } else { 0u32 })) & 0x10000u32 == 0x10000u32) == (a & 2 != 0),
{
}

/// A binding used by a shader of `stage` is recorded with that stage's own shader access
/// flags only: its read flag exactly when the shader reads the binding, and its write flag
/// exactly when it writes it.
pub proof fn law_stage_access_is_the_stages_own(stage: ShaderStage, access: u8)
    ensures
        stage_access(stage, access) & !(shader_read_flag(stage) | shader_write_flag(stage)) == 0,
        (stage_access(stage, access) & shader_read_flag(stage) == shader_read_flag(stage)) == (access
            & 1 != 0),
        (stage_access(stage, access) & shader_write_flag(stage) == shader_write_flag(stage)) == (
        access & 2 != 0),
{
    lemma_select_flags(access);
}

/// The flags of the stages whose bindings in `pairs` sit at position `binding` of group
/// `group`.
pub open spec fn location_stage_flags(pairs: Seq<(ShaderStage, ShaderBinding)>, group: u32, binding: u32) -> u32
    decreases pairs.len(),
{
    if pairs.len() == 0 {
        0
    } else {
        let prev = location_stage_flags(pairs.drop_last(), group, binding);
        let (stage, b) = pairs.last();
        if b.group == group && b.binding == binding {
            prev | (shader_read_flag(stage) | shader_write_flag(stage))
        } else {
            prev
        }
    }
}

/// The flags recorded for a binding position include `flag`.
pub open spec fn recorded_has(pairs: Seq<(ShaderStage, ShaderBinding)>, group: u32, binding: u32, flag: u32) -> bool {
    match pairs_access(pairs, group, binding) {
        Some(f) => f & flag == flag,
        None => false,
    }
}

/// Facts on unions of flags.
proof fn lemma_union_laws()
    by (bit_vector)
    ensures
        forall|x: u32, y: u32, m: u32, n: u32|
            #![trigger (x | y) & !(m | n)]
            (x & !m == 0 && y & !n == 0) ==> (x | y) & !(m | n) == 0,
        forall|x: u32, m: u32, n: u32| #![trigger x & !(m | n)] (x & !m == 0 || x & !n == 0) ==> x & !(m | n) == 0,
        forall|x: u32, y: u32, r: u32| #![trigger (x | y) & r] (x & r == r || y & r == r) ==> (x | y) & r == r,
        forall|r: u32| #![trigger 0u32 & r] r != 0 ==> 0u32 & r != r,
        forall|m: u32| #![trigger 0u32 & !m] 0u32 & !m == 0,
{
}

/// What a pipeline records for a binding position is made of the access flags of the
/// stages that use it: nothing outside those stages' own flags, and, for every stage whose
/// shader reads (writes) the binding, that stage's read (write) flag.
pub proof fn law_recorded_access_is_the_using_stages(pairs: Seq<(ShaderStage, ShaderBinding)>, group: u32, binding: u32)
    ensures
        pairs_access(pairs, group, binding) matches Some(f) ==> f & !location_stage_flags(pairs, group, binding) == 0,
        forall|i: int|
            0 <= i < pairs.len() && (#[trigger] pairs[i]).1.group == group && pairs[i].1.binding == binding
                && pairs[i].1.access.bits & 1 != 0 ==> recorded_has(pairs, group, binding, shader_read_flag(pairs[i].0)),
        forall|i: int|
            0 <= i < pairs.len() && (#[trigger] pairs[i]).1.group == group && pairs[i].1.binding == binding
                && pairs[i].1.access.bits & 2 != 0 ==> recorded_has(pairs, group, binding, shader_write_flag(pairs[i].0)),
    decreases pairs.len(),
{
    lemma_union_laws();
    if pairs.len() > 0 {
        let p = pairs.drop_last();
        law_recorded_access_is_the_using_stages(p, group, binding);
        let (stage, b) = pairs.last();
        law_stage_access_is_the_stages_own(stage, b.access.bits);
        let f = stage_access(stage, b.access.bits);
        let n = pairs.len() - 1;
        let own = shader_read_flag(stage) | shader_write_flag(stage);
        let pl = location_stage_flags(p, group, binding);
        if b.group == group && b.binding == binding {
            assert(location_stage_flags(pairs, group, binding) == pl | own);
            match pairs_access(p, group, binding) {
                Some(q) => {
                    assert(q & !(pl | own) == 0);
                    if f != 0 {
                        assert((q | f) & !(pl | own) == 0);
                    }
                },
                None => {
                    if f != 0 {
                        assert(f & !(pl | own) == 0);
                    }
                },
            }
        }
        assert forall|i: int|
            0 <= i < pairs.len() && (#[trigger] pairs[i]).1.group == group && pairs[i].1.binding == binding
                && pairs[i].1.access.bits & 1 != 0 implies recorded_has(pairs, group, binding, shader_read_flag(pairs[i].0)) by {
            if i < n {
                assert(pairs[i] == p[i]);
            } else {
                assert(shader_read_flag(stage) != 0);
            }
        }
        assert forall|i: int|
            0 <= i < pairs.len() && (#[trigger] pairs[i]).1.group == group && pairs[i].1.binding == binding
                && pairs[i].1.access.bits & 2 != 0 implies recorded_has(pairs, group, binding, shader_write_flag(pairs[i].0)) by {
            if i < n {
                assert(pairs[i] == p[i]);
            } else {
                assert(shader_write_flag(stage) != 0);
            }
        }
    }
}

} // verus!
