use vstd::prelude::*;

use crate::accesses::{BufferId, SamplerId, TextureId};
use crate::backend::{DescriptorBinding, DescriptorType};
use crate::commands::{DescriptorSetResource, RawTextureView};
use crate::shader::{find_binding, first_binding};

verus! {

/// The usage bit that lets a buffer be bound as a uniform buffer.
pub const BUFFER_USAGE_UNIFORM: u32 = 4;

/// The usage bit that lets a buffer be bound as a storage buffer.
pub const BUFFER_USAGE_STORAGE: u32 = 8;

/// The usage bit that lets a texture be bound in a shader.
pub const TEXTURE_USAGE_TEXTURE_BINDING: u32 = 8;

/// A view of mip levels of a texture, with the usage the texture was created with.
#[derive(Copy, Clone, Debug, PartialEq, Eq, Structural)]
pub struct TextureViewRef {
    pub texture: TextureId,
    pub usage: u32,
    pub base_mip_level: u32,
    pub mip_levels: u32,
}

/// A resource handed to a descriptor set, with the usage it was created with.
#[derive(Clone, Debug)]
pub enum BindingResource {
    Buffer { id: BufferId, usage: u32 },
    Sampler(SamplerId),
    Texture(TextureViewRef),
    TextureArray(Vec<TextureViewRef>),
}

/// A resource for one binding of a descriptor set.
#[derive(Clone, Debug)]
pub struct DescriptorSetEntry {
    pub binding: u32,
    pub resource: BindingResource,
}

/// The kind of a resource handed to a descriptor set.
#[derive(Copy, Clone, Debug, PartialEq, Eq, Structural)]
pub enum ResourceKind {
    Buffer,
    Texture,
    TextureArray,
    Sampler,
}

/// Why the entries do not fit the layout of a descriptor set.
#[derive(Clone, Debug, PartialEq, Eq)]
pub enum DescriptorSetError {
    /// The layout has no binding of that number, or one of another kind.
    InvalidDescriptor { binding: u32, expected: Option<DescriptorType>, found: ResourceKind },
    /// A buffer bound as uniform buffer lacks the uniform usage.
    MissingUniformUsage { binding: u32 },
    /// A buffer bound as storage buffer lacks the storage usage.
    MissingStorageUsage { binding: u32 },
    /// A texture lacks the texture-binding usage.
    MissingTextureBinding { binding: u32 },
    /// The layout's bindings that no entry provides, in layout order.
    UnsetBindings(Vec<u32>),
}

/// What creating a descriptor set records: the resource of each binding, the number of
/// entries of each kind, and the resources whose reference count the set takes, in entry
/// order.
#[derive(Clone, Debug)]
pub struct DescriptorSetPlan {
    pub bindings: Vec<(u32, DescriptorSetResource)>,
    pub num_buffers: u32,
    pub num_samplers: u32,
    pub num_textures: u32,
    pub num_texture_arrays: u32,
    pub buffer_refs: Vec<BufferId>,
    pub sampler_refs: Vec<SamplerId>,
    pub texture_refs: Vec<TextureId>,
}

/// The kind of the resource.
pub open spec fn kind_of(r: BindingResource) -> ResourceKind {
    match r {
        BindingResource::Buffer { .. } => ResourceKind::Buffer,
        BindingResource::Sampler(_) => ResourceKind::Sampler,
        BindingResource::Texture(_) => ResourceKind::Texture,
        BindingResource::TextureArray(_) => ResourceKind::TextureArray,
    }
}

/// A resource of kind `k` can fill a binding of type `t`.
pub open spec fn compatible(k: ResourceKind, t: DescriptorType) -> bool {
    match (k, t) {
        (ResourceKind::Buffer, DescriptorType::Uniform) => true,
        (ResourceKind::Buffer, DescriptorType::Storage) => true,
        (ResourceKind::Texture, DescriptorType::Texture) => true,
        (ResourceKind::TextureArray, DescriptorType::Texture) => true,
        (ResourceKind::Sampler, DescriptorType::Sampler) => true,
        _ => false,
    }
}

/// The type of the layout's binding with number `b`, if any.
pub open spec fn layout_kind(layout: Seq<DescriptorBinding>, b: u32) -> Option<DescriptorType> {
    match first_binding(layout, b) {
        Some(i) => Some(layout[i].kind),
        None => None,
    }
}

/// The usage has the bit `bit`.
pub open spec fn has_usage(usage: u32, bit: u32) -> bool {
    usage & bit == bit
}

/// What is wrong with one entry, if anything.
pub open spec fn entry_error(layout: Seq<DescriptorBinding>, e: DescriptorSetEntry) -> Option<DescriptorSetError> {
    let t = layout_kind(layout, e.binding);
    let k = kind_of(e.resource);
    if !(t is Some && compatible(k, t->0)) {
        Some(DescriptorSetError::InvalidDescriptor { binding: e.binding, expected: t, found: k })
    } else {
        match e.resource {
            BindingResource::Buffer { usage, .. } => if t->0 == DescriptorType::Uniform {
                if !has_usage(usage, BUFFER_USAGE_UNIFORM) {
                    Some(DescriptorSetError::MissingUniformUsage { binding: e.binding })
                } else {
                    None
                }
            } else {
                if !has_usage(usage, BUFFER_USAGE_STORAGE) {
                    Some(DescriptorSetError::MissingStorageUsage { binding: e.binding })
                } else {
                    None
                }
            },
            BindingResource::Texture(v) => if !has_usage(v.usage, TEXTURE_USAGE_TEXTURE_BINDING) {
                Some(DescriptorSetError::MissingTextureBinding { binding: e.binding })
            } else {
                None
            },
            BindingResource::TextureArray(vs) => if exists|j: int|
                0 <= j < vs@.len() && !has_usage(#[trigger] vs@[j].usage, TEXTURE_USAGE_TEXTURE_BINDING) {
                Some(DescriptorSetError::MissingTextureBinding { binding: e.binding })
            } else {
                None
            },
            BindingResource::Sampler(_) => None,
        }
    }
}

/// The error of the first entry that has one, in order.
pub open spec fn first_entry_error(layout: Seq<DescriptorBinding>, es: Seq<DescriptorSetEntry>) -> Option<DescriptorSetError>
    decreases es.len(),
{
    if es.len() == 0 {
        None
    } else {
        match first_entry_error(layout, es.drop_last()) {
            Some(e) => Some(e),
            None => entry_error(layout, es.last()),
        }
    }
}

/// Some entry fills the binding `b`.
pub open spec fn is_set(es: Seq<DescriptorSetEntry>, b: u32) -> bool {
    exists|j: int| 0 <= j < es.len() && #[trigger] es[j].binding == b
}

/// The layout's binding numbers that no entry fills, in layout order.
pub open spec fn unset_bindings(layout: Seq<DescriptorBinding>, es: Seq<DescriptorSetEntry>) -> Seq<u32>
    decreases layout.len(),
{
    if layout.len() == 0 {
        Seq::empty()
    } else {
        let rest = unset_bindings(layout.drop_last(), es);
        if is_set(es, layout.last().binding) {
            rest
        } else {
            rest.push(layout.last().binding)
        }
    }
}

/// The view recorded for a texture view.
pub open spec fn raw_view(v: TextureViewRef) -> RawTextureView {
    RawTextureView { texture: v.texture, base_mip_level: v.base_mip_level, mip_levels: v.mip_levels }
}

/// `r` is what the descriptor set records for the resource `e` in a binding of type `t`.
pub open spec fn records(r: DescriptorSetResource, e: BindingResource, t: DescriptorType) -> bool {
    match e {
        BindingResource::Buffer { id, .. } => if t == DescriptorType::Uniform {
            r == DescriptorSetResource::UniformBuffer(id)
        } else {
            r == DescriptorSetResource::StorageBuffer(id)
        },
        BindingResource::Sampler(id) => r == DescriptorSetResource::Sampler(id),
        BindingResource::Texture(v) => r matches DescriptorSetResource::SampledTexture(vs) && vs@ == seq![raw_view(v)],
        BindingResource::TextureArray(views) => r matches DescriptorSetResource::SampledTexture(vs) && vs@
            == views@.map_values(|v: TextureViewRef| raw_view(v)),
    }
}

/// The number of entries of kind `k`.
pub open spec fn count_kind(es: Seq<DescriptorSetEntry>, k: ResourceKind) -> nat
    decreases es.len(),
{
    if es.len() == 0 {
        0
    } else {
        count_kind(es.drop_last(), k) + if kind_of(es.last().resource) == k {
            1nat
        } else {
            0nat
        }
    }
}

/// The buffers of the entries, in order.
pub open spec fn buffer_ids(es: Seq<DescriptorSetEntry>) -> Seq<BufferId>
    decreases es.len(),
{
    if es.len() == 0 {
        Seq::empty()
    } else {
        let rest = buffer_ids(es.drop_last());
        match es.last().resource {
            BindingResource::Buffer { id, .. } => rest.push(id),
            _ => rest,
        }
    }
}

/// The samplers of the entries, in order.
pub open spec fn sampler_ids(es: Seq<DescriptorSetEntry>) -> Seq<SamplerId>
    decreases es.len(),
{
    if es.len() == 0 {
        Seq::empty()
    } else {
        let rest = sampler_ids(es.drop_last());
        match es.last().resource {
            BindingResource::Sampler(id) => rest.push(id),
            _ => rest,
        }
    }
}

/// The textures of the views of the entries, in order.
pub open spec fn texture_ids(es: Seq<DescriptorSetEntry>) -> Seq<TextureId>
    decreases es.len(),
{
    if es.len() == 0 {
        Seq::empty()
    } else {
        let rest = texture_ids(es.drop_last());
        match es.last().resource {
            BindingResource::Texture(v) => rest.push(v.texture),
            BindingResource::TextureArray(vs) => rest + vs@.map_values(|v: TextureViewRef| v.texture),
            _ => rest,
        }
    }
}

/// The position of the last entry that fills the binding `b`, or -1.
pub open spec fn last_entry(es: Seq<DescriptorSetEntry>, b: u32) -> int
    decreases es.len(),
{
    if es.len() == 0 {
        -1
    } else if es.last().binding == b {
        es.len() - 1
    } else {
        last_entry(es.drop_last(), b)
    }
}

/// Each binding the entries fill appears once in `bindings`, holding what the last entry
/// for it records, and nothing else appears.
pub open spec fn records_entries(
    bindings: Seq<(u32, DescriptorSetResource)>,
    layout: Seq<DescriptorBinding>,
    es: Seq<DescriptorSetEntry>,
) -> bool {
    &&& forall|a: int, c: int| 0 <= a < c < bindings.len() ==> bindings[a].0 != bindings[c].0
    &&& forall|a: int| 0 <= a < bindings.len() ==> is_set(es, #[trigger] bindings[a].0)
    &&& forall|j: int| 0 <= j < es.len() ==> exists|a: int| 0 <= a < bindings.len() && #[trigger] bindings[a].0 == (
        #[trigger] es[j]).binding
    &&& forall|a: int|
        0 <= a < bindings.len() ==> {
            let e = es[last_entry(es, #[trigger] bindings[a].0)];
            records(bindings[a].1, e.resource, layout_kind(layout, e.binding)->0)
        }
}

/// The layout's binding numbers are distinct.
pub open spec fn distinct_bindings(layout: Seq<DescriptorBinding>) -> bool {
    forall|a: int, c: int| 0 <= a < c < layout.len() ==> layout[a].binding != layout[c].binding
}

/// The last entry for a binding that some entry fills is one of them.
proof fn lemma_last_entry(es: Seq<DescriptorSetEntry>, b: u32)
    requires
        is_set(es, b),
    ensures
        0 <= last_entry(es, b) < es.len(),
        es[last_entry(es, b)].binding == b,
    decreases es.len(),
{
    if es.last().binding != b {
        let j = choose|j: int| 0 <= j < es.len() && #[trigger] es[j].binding == b;
        assert(es.drop_last()[j].binding == b);
        lemma_last_entry(es.drop_last(), b);
    }
}

/// A count of entries is at most their number.
proof fn lemma_count_kind_bound(es: Seq<DescriptorSetEntry>, k: ResourceKind)
    ensures
        count_kind(es, k) <= es.len(),
    decreases es.len(),
{
    if es.len() > 0 {
        lemma_count_kind_bound(es.drop_last(), k);
    }
}

/// Once a prefix has an error, the first error of the whole sequence is that one.
proof fn lemma_entry_error_prefix(layout: Seq<DescriptorBinding>, es: Seq<DescriptorSetEntry>, k: int)
    requires
        0 <= k <= es.len(),
        first_entry_error(layout, es.take(k)) is Some,
    ensures
        first_entry_error(layout, es) == first_entry_error(layout, es.take(k)),
    decreases es.len() - k,
{
    if k == es.len() {
        assert(es.take(k) =~= es);
    } else {
        assert(es.take(k + 1).drop_last() =~= es.take(k));
        lemma_entry_error_prefix(layout, es, k + 1);
    }
}

/// Without a first error, no entry has one.
proof fn lemma_no_entry_error(layout: Seq<DescriptorBinding>, es: Seq<DescriptorSetEntry>, k: int)
    requires
        0 <= k < es.len(),
        first_entry_error(layout, es) is None,
    ensures
        entry_error(layout, es[k]) is None,
    decreases es.len(),
{
    if k < es.len() - 1 {
        assert(es.drop_last()[k] == es[k]);
        lemma_no_entry_error(layout, es.drop_last(), k);
    }
}

/// The type of the layout's binding with number `b`.
fn layout_type(layout: &[DescriptorBinding], b: u32) -> (r: Option<DescriptorType>)
    ensures
        r == layout_kind(layout@, b),
{
    match find_binding(layout, b) {
        Some(i) => Some(layout[i].kind),
        None => None,
    }
}

/// What is wrong with the entry `e`, if anything.
fn check_entry(layout: &[DescriptorBinding], e: &DescriptorSetEntry) -> (r: Option<DescriptorSetError>)
    ensures
        r == entry_error(layout@, *e),
{
    let t = layout_type(layout, e.binding);
    let kind = match &e.resource {
        BindingResource::Buffer { .. } => ResourceKind::Buffer,
        BindingResource::Sampler(_) => ResourceKind::Sampler,
        BindingResource::Texture(_) => ResourceKind::Texture,
        BindingResource::TextureArray(_) => ResourceKind::TextureArray,
    };
    let ok = match (kind, t) {
        (ResourceKind::Buffer, Some(DescriptorType::Uniform)) => true,
        (ResourceKind::Buffer, Some(DescriptorType::Storage)) => true,
        (ResourceKind::Texture, Some(DescriptorType::Texture)) => true,
        (ResourceKind::TextureArray, Some(DescriptorType::Texture)) => true,
        (ResourceKind::Sampler, Some(DescriptorType::Sampler)) => true,
        _ => false,
    };
    if !ok {
        return Some(DescriptorSetError::InvalidDescriptor { binding: e.binding, expected: t, found: kind });
    }
    match &e.resource {
        BindingResource::Buffer { usage, .. } => {
            if t == Some(DescriptorType::Uniform) {
                if *usage & BUFFER_USAGE_UNIFORM != BUFFER_USAGE_UNIFORM {
                    return Some(DescriptorSetError::MissingUniformUsage { binding: e.binding });
                }
            } else {
                if *usage & BUFFER_USAGE_STORAGE != BUFFER_USAGE_STORAGE {
                    return Some(DescriptorSetError::MissingStorageUsage { binding: e.binding });
                }
            }
            None
        },
        BindingResource::Texture(v) => {
            if v.usage & TEXTURE_USAGE_TEXTURE_BINDING != TEXTURE_USAGE_TEXTURE_BINDING {
                return Some(DescriptorSetError::MissingTextureBinding { binding: e.binding });
            }
            None
        },
        BindingResource::TextureArray(vs) => {
            let mut j: usize = 0;
            while j < vs.len()
                invariant
                    j <= vs@.len(),
                    forall|x: int| 0 <= x < j ==> has_usage(#[trigger] vs@[x].usage, TEXTURE_USAGE_TEXTURE_BINDING),
                    t == layout_kind(layout@, e.binding),
                    t == Some(DescriptorType::Texture),
                    e.resource matches BindingResource::TextureArray(ws) && ws@ == vs@,
                decreases vs@.len() - j,
            {
                if vs[j].usage & TEXTURE_USAGE_TEXTURE_BINDING != TEXTURE_USAGE_TEXTURE_BINDING {
                    proof {
                        assert(!has_usage(vs@[j as int].usage, TEXTURE_USAGE_TEXTURE_BINDING));
                    }
                    return Some(DescriptorSetError::MissingTextureBinding { binding: e.binding });
                }
                j = j + 1;
            }
            None
        },
        BindingResource::Sampler(_) => None,
    }
}

/// Some entry fills the binding `b`.
fn entries_set(entries: &[DescriptorSetEntry], b: u32) -> (r: bool)
    ensures
        r == is_set(entries@, b),
{
    let mut k: usize = 0;
    while k < entries.len()
        invariant
            k <= entries@.len(),
            forall|j: int| 0 <= j < k ==> entries@[j].binding != b,
        decreases entries@.len() - k,
    {
        if entries[k].binding == b {
            return true;
        }
        k = k + 1;
    }
    false
}


/// Checks the entries of a new descriptor set against its layout and works out what the set
/// records. Each entry must name a binding of the layout with a matching type: a buffer for a
/// uniform or storage binding, with the matching usage, a texture or texture array for a
/// texture binding, with the texture-binding usage, a sampler for a sampler binding. The
/// first entry that fails gives the error; then every binding of the layout must be filled.
/// A later entry for the same binding replaces the earlier one, though both are counted and
/// both take references.
pub fn plan_descriptor_set(layout: &[DescriptorBinding], entries: &[DescriptorSetEntry]) -> (r: Result<
    DescriptorSetPlan,
    DescriptorSetError,
>)
    requires
        distinct_bindings(layout@),
        entries@.len() <= u32::MAX,
    ensures
        match first_entry_error(layout@, entries@) {
            Some(e) => r == Err::<DescriptorSetPlan, DescriptorSetError>(e),
            None => if unset_bindings(layout@, entries@).len() > 0 {
                r matches Err(DescriptorSetError::UnsetBindings(v)) && v@ == unset_bindings(layout@, entries@)
            } else {
                r matches Ok(p) && plan_of(p, layout@, entries@)
            },
        },
{
    let mut k: usize = 0;
    while k < entries.len()
        invariant
            k <= entries@.len(),
            first_entry_error(layout@, entries@.take(k as int)) is None,
        decreases entries@.len() - k,
    {
        proof {
            assert(entries@.take(k + 1).drop_last() =~= entries@.take(k as int));
            assert(entries@.take(k + 1).last() == entries@[k as int]);
        }
        match check_entry(layout, &entries[k]) {
            Some(e) => {
                proof {
                    lemma_entry_error_prefix(layout@, entries@, k + 1);
                }
                return Err(e);
            },
            None => {},
        }
        k = k + 1;
    }
    proof {
        assert(entries@.take(k as int) =~= entries@);
    }
    let mut unset: Vec<u32> = Vec::new();
    let mut i: usize = 0;
    while i < layout.len()
        invariant
            i <= layout@.len(),
            unset@ == unset_bindings(layout@.take(i as int), entries@),
        decreases layout@.len() - i,
    {
        proof {
            assert(layout@.take(i + 1).drop_last() =~= layout@.take(i as int));
            assert(layout@.take(i + 1).last() == layout@[i as int]);
        }
        if !entries_set(entries, layout[i].binding) {
            unset.push(layout[i].binding);
        }
        i = i + 1;
    }
    proof {
        assert(layout@.take(i as int) =~= layout@);
    }
    if unset.len() > 0 {
        return Err(DescriptorSetError::UnsetBindings(unset));
    }
    Ok(build_plan(layout, entries))
}

/// `p` is the plan for `es` on `layout`.
pub open spec fn plan_of(p: DescriptorSetPlan, layout: Seq<DescriptorBinding>, es: Seq<DescriptorSetEntry>) -> bool {
    &&& records_entries(p.bindings@, layout, es)
    &&& p.num_buffers == count_kind(es, ResourceKind::Buffer)
    &&& p.num_samplers == count_kind(es, ResourceKind::Sampler)
    &&& p.num_textures == count_kind(es, ResourceKind::Texture)
    &&& p.num_texture_arrays == count_kind(es, ResourceKind::TextureArray)
    &&& p.buffer_refs@ == buffer_ids(es)
    &&& p.sampler_refs@ == sampler_ids(es)
    &&& p.texture_refs@ == texture_ids(es)
}

/// Works out what a descriptor set records for entries without errors.
fn build_plan(layout: &[DescriptorBinding], entries: &[DescriptorSetEntry]) -> (p: DescriptorSetPlan)
    requires
        first_entry_error(layout@, entries@) is None,
        entries@.len() <= u32::MAX,
    ensures
        plan_of(p, layout@, entries@),
{
    let mut p = DescriptorSetPlan {
        bindings: Vec::new(),
        num_buffers: 0,
        num_samplers: 0,
        num_textures: 0,
        num_texture_arrays: 0,
        buffer_refs: Vec::new(),
        sampler_refs: Vec::new(),
        texture_refs: Vec::new(),
    };
    let mut k: usize = 0;
    while k < entries.len()
        invariant
            k <= entries@.len(),
            entries@.len() <= u32::MAX,
            first_entry_error(layout@, entries@) is None,
            plan_of(p, layout@, entries@.take(k as int)),
        decreases entries@.len() - k,
    {
        let ghost es = entries@.take(k as int);
        let ghost es1 = entries@.take(k + 1);
        let ghost before = p.bindings@;
        let e = &entries[k];
        proof {
            assert(es1.drop_last() =~= es);
            assert(es1.last() == entries@[k as int]);
            lemma_no_entry_error(layout@, entries@, k as int);
            lemma_count_kind_bound(es, ResourceKind::Buffer);
            lemma_count_kind_bound(es, ResourceKind::Sampler);
            lemma_count_kind_bound(es, ResourceKind::Texture);
            lemma_count_kind_bound(es, ResourceKind::TextureArray);
        }
        let t = layout_type(layout, e.binding);
        let res = match &e.resource {
            BindingResource::Buffer { id, .. } => {
                p.num_buffers = p.num_buffers + 1;
                p.buffer_refs.push(*id);
                if t == Some(DescriptorType::Uniform) {
                    DescriptorSetResource::UniformBuffer(*id)
                } else {
                    DescriptorSetResource::StorageBuffer(*id)
                }
            },
            BindingResource::Sampler(id) => {
                p.num_samplers = p.num_samplers + 1;
                p.sampler_refs.push(*id);
                DescriptorSetResource::Sampler(*id)
            },
            BindingResource::Texture(v) => {
                p.num_textures = p.num_textures + 1;
                p.texture_refs.push(v.texture);
                let mut views: Vec<RawTextureView> = Vec::new();
                views.push(RawTextureView { texture: v.texture, base_mip_level: v.base_mip_level, mip_levels: v.mip_levels });
                proof {
                    assert(views@ =~= seq![raw_view(*v)]);
                }
                DescriptorSetResource::SampledTexture(views)
            },
            BindingResource::TextureArray(vs) => {
                p.num_texture_arrays = p.num_texture_arrays + 1;
                let ghost refs0 = p.texture_refs@;
                let ghost p0 = p;
                let mut views: Vec<RawTextureView> = Vec::new();
                let mut j: usize = 0;
                while j < vs.len()
                    invariant
                        j <= vs@.len(),
                        p.bindings == p0.bindings,
                        p.num_buffers == p0.num_buffers,
                        p.num_samplers == p0.num_samplers,
                        p.num_textures == p0.num_textures,
                        p.num_texture_arrays == p0.num_texture_arrays,
                        p.buffer_refs == p0.buffer_refs,
                        p.sampler_refs == p0.sampler_refs,
                        views@ == vs@.take(j as int).map_values(|v: TextureViewRef| raw_view(v)),
                        p.texture_refs@ == refs0 + vs@.take(j as int).map_values(|v: TextureViewRef| v.texture),
                    decreases vs@.len() - j,
                {
                    let v = vs[j];
                    views.push(RawTextureView { texture: v.texture, base_mip_level: v.base_mip_level, mip_levels: v.mip_levels });
                    p.texture_refs.push(v.texture);
                    proof {
                        assert(vs@.take(j + 1) =~= vs@.take(j as int).push(v));
                        assert(views@ =~= vs@.take(j + 1).map_values(|v: TextureViewRef| raw_view(v)));
                        assert(p.texture_refs@ =~= refs0 + vs@.take(j + 1).map_values(|v: TextureViewRef| v.texture));
                    }
                    j = j + 1;
                }
                proof {
                    assert(vs@.take(j as int) =~= vs@);
                }
                DescriptorSetResource::SampledTexture(views)
            },
        };
        proof {
            assert(records(res, e.resource, layout_kind(layout@, e.binding)->0));
        }
        let mut a: usize = 0;
        let mut found: bool = false;
        while a < p.bindings.len() && !found
            invariant
                a <= p.bindings@.len(),
                p.bindings@ == before,
                found ==> a < before.len() && before[a as int].0 == e.binding,
                !found ==> forall|x: int| 0 <= x < a ==> (#[trigger] before[x]).0 != e.binding,
            decreases p.bindings@.len() - a + if found {
                0int
            } else {
                1int
            },
        {
            if p.bindings[a].0 == e.binding {
                found = true;
            } else {
                a = a + 1;
            }
        }
        let ghost old_plan_bindings = p.bindings@;
        if found {
            p.bindings.set(a, (e.binding, res));
        } else {
            p.bindings.push((e.binding, res));
        }
        proof {
            lemma_plan_step(old_plan_bindings, p.bindings@, layout@, entries@, k as int, a as int, found, res);
        }
        k = k + 1;
    }
    proof {
        assert(entries@.take(k as int) =~= entries@);
    }
    p
}


/// One more entry keeps the bindings a faithful record of the entries.
proof fn lemma_plan_step(
    old_b: Seq<(u32, DescriptorSetResource)>,
    new_b: Seq<(u32, DescriptorSetResource)>,
    layout: Seq<DescriptorBinding>,
    entries: Seq<DescriptorSetEntry>,
    k: int,
    a: int,
    found: bool,
    res: DescriptorSetResource,
)
    requires
        0 <= k < entries.len(),
        records_entries(old_b, layout, entries.take(k)),
        records(res, entries[k].resource, layout_kind(layout, entries[k].binding)->0),
        found ==> 0 <= a < old_b.len() && old_b[a].0 == entries[k].binding && new_b == old_b.update(
            a,
            (entries[k].binding, res),
        ),
        !found ==> (forall|x: int| 0 <= x < old_b.len() ==> (#[trigger] old_b[x]).0 != entries[k].binding)
            && new_b == old_b.push((entries[k].binding, res)),
    ensures
        records_entries(new_b, layout, entries.take(k + 1)),
{
    let es = entries.take(k);
    let es1 = entries.take(k + 1);
    let b = entries[k].binding;
    assert(es1.drop_last() =~= es);
    assert(es1.last() == entries[k]);
    assert(last_entry(es1, b) == k);
    assert forall|x: int| 0 <= x < new_b.len() && new_b[x].0 != b implies #[trigger] new_b[x] == old_b[x] by {
        if !found {
            assert(x < old_b.len());
        }
    }
    assert forall|x: int, y: int| 0 <= x < y < new_b.len() implies new_b[x].0 != new_b[y].0 by {
        if found {
            if x != a && y != a {
                assert(old_b[x].0 != old_b[y].0);
            } else if x == a {
                assert(old_b[a].0 != old_b[y].0);
            } else {
                assert(old_b[x].0 != old_b[a].0);
            }
        } else if y < old_b.len() {
            assert(old_b[x].0 != old_b[y].0);
        }
    }
    assert forall|x: int| 0 <= x < new_b.len() implies is_set(es1, #[trigger] new_b[x].0) by {
        if new_b[x].0 == b {
            assert(es1[k].binding == b);
        } else {
            assert(is_set(es, old_b[x].0));
            let j = choose|j: int| 0 <= j < es.len() && #[trigger] es[j].binding == old_b[x].0;
            assert(es1[j] == es[j]);
        }
    }
    assert forall|j: int| 0 <= j < es1.len() implies exists|x: int| 0 <= x < new_b.len() && #[trigger] new_b[x].0 == (
        #[trigger] es1[j]).binding by {
        if j == k {
            if found {
                assert(new_b[a].0 == b);
            } else {
                assert(new_b[old_b.len() as int].0 == b);
            }
        } else {
            assert(es1[j] == es[j]);
            let x = choose|x: int| 0 <= x < old_b.len() && #[trigger] old_b[x].0 == (#[trigger] es[j]).binding;
            assert(new_b[x].0 == old_b[x].0);
        }
    }
    assert forall|x: int| 0 <= x < new_b.len() implies {
        let e = es1[last_entry(es1, #[trigger] new_b[x].0)];
        records(new_b[x].1, e.resource, layout_kind(layout, e.binding)->0)
    } by {
        if new_b[x].0 == b {
            if found {
                if x != a {
                    assert(old_b[x].0 != old_b[a].0 || x == a);
                }
                assert(x == a);
            } else {
                if x < old_b.len() {
                    assert(old_b[x].0 != b);
                }
                assert(x == old_b.len());
            }
        } else {
            let c = old_b[x].0;
            assert(new_b[x] == old_b[x]);
            assert(last_entry(es1, c) == last_entry(es, c));
            assert(is_set(es, c));
            lemma_last_entry(es, c);
            assert(es1[last_entry(es, c)] == es[last_entry(es, c)]);
        }
    }
}


/// Every entry is counted once, under its kind, and each buffer and sampler entry takes one
/// reference.
pub proof fn law_counts_cover_entries(es: Seq<DescriptorSetEntry>)
    ensures
        count_kind(es, ResourceKind::Buffer) + count_kind(es, ResourceKind::Sampler) + count_kind(
            es,
            ResourceKind::Texture,
        ) + count_kind(es, ResourceKind::TextureArray) == es.len(),
        buffer_ids(es).len() == count_kind(es, ResourceKind::Buffer),
        sampler_ids(es).len() == count_kind(es, ResourceKind::Sampler),
    decreases es.len(),
{
    if es.len() > 0 {
        law_counts_cover_entries(es.drop_last());
    }
}

/// Why a write of descriptors does not fit the layout of a descriptor set.
#[derive(Copy, Clone, Debug, PartialEq, Eq, Structural)]
pub enum DescriptorWriteError {
    /// The binding lies past the layout's bindings.
    OutOfLayout { binding: u32, layout_len: usize },
    /// No descriptor is written.
    Empty { binding: u32 },
    /// More descriptors are written than the binding holds.
    TooMany { binding: u32, count: usize, layout_count: u32 },
    /// The descriptors are of another kind than the binding holds.
    KindMismatch { binding: u32, write: DescriptorType, layout: DescriptorType },
}

/// A write of `count` descriptors of a kind to the binding at a position of the layout.
pub type DescriptorWrite = (u32, DescriptorType, usize);

/// The check of one write against the layout's bindings, indexed by position.
pub open spec fn write_error(layout: Seq<DescriptorBinding>, w: DescriptorWrite) -> Option<DescriptorWriteError> {
    let (binding, kind, count) = w;
    if binding >= layout.len() {
        Some(DescriptorWriteError::OutOfLayout { binding, layout_len: layout.len() as usize })
    } else if count == 0 {
        Some(DescriptorWriteError::Empty { binding })
    } else if count > layout[binding as int].count {
        Some(DescriptorWriteError::TooMany { binding, count, layout_count: layout[binding as int].count })
    } else if layout[binding as int].kind != kind {
        Some(DescriptorWriteError::KindMismatch { binding, write: kind, layout: layout[binding as int].kind })
    } else {
        None
    }
}

/// The first write, in order, that does not fit the layout.
pub open spec fn first_write_error(layout: Seq<DescriptorBinding>, writes: Seq<DescriptorWrite>) -> Option<DescriptorWriteError>
    decreases writes.len(),
{
    if writes.len() == 0 {
        None
    } else {
        match first_write_error(layout, writes.drop_last()) {
            Some(e) => Some(e),
            None => write_error(layout, writes.last()),
        }
    }
}

/// Checks writes of descriptors to a descriptor set with the bindings `layout`: each write
/// names a binding by its position in the layout, writes at least one and at most as many
/// descriptors as the binding holds, and of the binding's kind. Returns the first write
/// that does not fit.
pub fn check_descriptor_writes(layout: &[DescriptorBinding], writes: &[DescriptorWrite]) -> (r: Result<(), DescriptorWriteError>)
    ensures
        match first_write_error(layout@, writes@) {
            None => r is Ok,
            Some(e) => r == Err::<(), DescriptorWriteError>(e),
        },
{
    let mut i: usize = 0;
    while i < writes.len()
        invariant
            i <= writes.len(),
            first_write_error(layout@, writes@.take(i as int)) is None,
        decreases writes.len() - i,
    {
        proof {
            assert(writes@.take(i + 1).drop_last() =~= writes@.take(i as int));
        }
        let (binding, kind, count) = writes[i];
        let err = if binding as usize >= layout.len() {
            Some(DescriptorWriteError::OutOfLayout { binding, layout_len: layout.len() })
        } else if count == 0 {
            Some(DescriptorWriteError::Empty { binding })
        } else if count > layout[binding as usize].count as usize {
            Some(DescriptorWriteError::TooMany { binding, count, layout_count: layout[binding as usize].count })
        } else if layout[binding as usize].kind != kind {
            Some(DescriptorWriteError::KindMismatch { binding, write: kind, layout: layout[binding as usize].kind })
        } else {
            None
        };
        match err {
            Some(e) => {
                proof {
                    lemma_first_write_error_extends(layout@, writes@, i as int + 1);
                }
                return Err(e);
            },
            None => {},
        }
        i = i + 1;
    }
    proof {
        assert(writes@.take(i as int) =~= writes@);
    }
    Ok(())
}

proof fn lemma_first_write_error_extends(layout: Seq<DescriptorBinding>, writes: Seq<DescriptorWrite>, n: int)
    requires
        0 <= n <= writes.len(),
        first_write_error(layout, writes.take(n)) is Some,
    ensures
        first_write_error(layout, writes) == first_write_error(layout, writes.take(n)),
    decreases writes.len() - n,
{
    if n < writes.len() {
        assert(writes.take(n + 1).drop_last() =~= writes.take(n));
        lemma_first_write_error_extends(layout, writes, n + 1);
    } else {
        assert(writes.take(n) =~= writes);
    }
}

} // verus!
