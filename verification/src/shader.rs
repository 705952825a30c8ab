use vstd::prelude::*;

use crate::backend::{DescriptorBinding, DescriptorType};

verus! {

/// How a shader uses a binding: bit 0 read, bit 1 write.
#[derive(Copy, Clone, Debug, PartialEq, Eq, Structural, Hash, Default)]
pub struct ShaderAccess {
    pub bits: u8,
}

impl ShaderAccess {
    /// The resource is read.
    pub fn read() -> (r: Self)
        ensures
            r.bits == 1,
    {
        Self { bits: 1 }
    }

    /// The resource is written.
    pub fn write() -> (r: Self)
        ensures
            r.bits == 2,
    {
        Self { bits: 2 }
    }

    /// Both uses.
    pub fn union(self, other: Self) -> (r: Self)
        ensures
            r.bits == self.bits | other.bits,
    {
        Self { bits: self.bits | other.bits }
    }
}

/// Where a resource is bound: the descriptor set (group) and the binding in it.
#[derive(Copy, Clone, Debug, PartialEq, Eq, Structural, Hash)]
pub struct BindingLocation {
    pub group: u32,
    pub binding: u32,
}

/// The number of descriptors given to a binding array when the shader is instantiated.
#[derive(Copy, Clone, Debug, PartialEq, Eq, Structural)]
pub struct BindingInfo {
    /// Never zero.
    pub count: u32,
}

/// A resource that a shader declares.
#[derive(Copy, Clone, Debug, PartialEq, Eq, Structural)]
pub struct ShaderBinding {
    pub group: u32,
    pub binding: u32,
    pub kind: DescriptorType,
    pub access: ShaderAccess,
    /// The number of descriptors, greater than 1 for a binding array and never zero; `None`
    /// while the array's size is left to the instantiation.
    pub count: Option<u32>,
}

impl ShaderBinding {
    /// The location of the binding.
    pub fn location(&self) -> (r: BindingLocation)
        ensures
            r == (BindingLocation { group: self.group, binding: self.binding }),
    {
        BindingLocation { group: self.group, binding: self.binding }
    }
}

/// Why the descriptor set layouts cannot serve a shader.
#[derive(Copy, Clone, Debug, PartialEq, Eq, Structural)]
pub enum BindingError {
    /// The shader uses a group past the layouts that are bound.
    MissingGroup { group: u32, bound: usize },
    /// The layout of the group has no such binding.
    MissingBinding { group: u32, binding: u32 },
    /// The layout's binding holds another number of descriptors.
    CountMismatch { location: BindingLocation, layout_count: u32, shader_count: Option<u32> },
    /// The layout's binding holds another kind of resource.
    Incompatible { location: BindingLocation, layout_kind: DescriptorType, shader_kind: DescriptorType },
}

/// The first binding of `bs` with the number `n`, if any.
pub open spec fn first_binding(bs: Seq<DescriptorBinding>, n: u32) -> Option<int> {
    if exists|i: int| 0 <= i < bs.len() && #[trigger] bs[i].binding == n && forall|j: int| 0 <= j < i ==> bs[j].binding != n {
        Some(choose|i: int| 0 <= i < bs.len() && #[trigger] bs[i].binding == n && forall|j: int| 0 <= j < i ==> bs[j].binding != n)
    } else {
        None
    }
}

/// The check of one shader binding against the layouts bound to the groups.
pub open spec fn check_binding(b: ShaderBinding, layouts: Seq<Seq<DescriptorBinding>>) -> Result<(), BindingError> {
    let loc = BindingLocation { group: b.group, binding: b.binding };
    if b.group >= layouts.len() {
        Err(BindingError::MissingGroup { group: b.group, bound: layouts.len() as usize })
    } else {
        match first_binding(layouts[b.group as int], b.binding) {
            None => Err(BindingError::MissingBinding { group: b.group, binding: b.binding }),
            Some(i) => {
                let d = layouts[b.group as int][i];
                if b.count != Some(d.count) {
                    Err(BindingError::CountMismatch { location: loc, layout_count: d.count, shader_count: b.count })
                } else if b.kind != d.kind {
                    Err(BindingError::Incompatible { location: loc, layout_kind: d.kind, shader_kind: b.kind })
                } else {
                    Ok(())
                }
            },
        }
    }
}

/// The first failing check among `bs`, in order, or success.
pub open spec fn check_bindings(bs: Seq<ShaderBinding>, layouts: Seq<Seq<DescriptorBinding>>) -> Result<(), BindingError>
    decreases bs.len(),
{
    if bs.len() == 0 {
        Ok(())
    } else {
        match check_bindings(bs.drop_last(), layouts) {
            Err(e) => Err(e),
            Ok(()) => check_binding(bs.last(), layouts),
        }
    }
}

/// The bindings of each layout.
pub open spec fn layout_views(v: Seq<Vec<DescriptorBinding>>) -> Seq<Seq<DescriptorBinding>> {
    v.map_values(|l: Vec<DescriptorBinding>| l@)
}

/// Returns the position of the first binding of `bs` with the number `n`.
pub fn find_binding(bs: &[DescriptorBinding], n: u32) -> (r: Option<usize>)
    ensures
        match r {
            Some(i) => first_binding(bs@, n) == Some(i as int),
            None => first_binding(bs@, n) is None,
        },
{
    let mut k: usize = 0;
    while k < bs.len()
        invariant
            k <= bs@.len(),
            forall|j: int| 0 <= j < k ==> bs@[j].binding != n,
        decreases bs@.len() - k,
    {
        if bs[k].binding == n {
            proof {
                let i = k as int;
                assert(0 <= i < bs@.len() && bs@[i].binding == n && forall|j: int| 0 <= j < i ==> bs@[j].binding != n);
                let c = choose|c: int| 0 <= c < bs@.len() && #[trigger] bs@[c].binding == n && forall|j: int|
                    0 <= j < c ==> bs@[j].binding != n;
                if c < i {
                    assert(bs@[c].binding != n);
                } else if c > i {
                    assert(bs@[i].binding != n);
                }
            }
            return Some(k);
        }
        k = k + 1;
    }
    None
}

/// Checks that the layouts bound to the groups provide every binding a shader declares: the
/// group must be bound, its layout must hold the binding, with the same number of
/// descriptors and the same kind of resource. The first binding that fails, in order, gives
/// the error.
pub fn validate_shader_bindings(bindings: &[ShaderBinding], layouts: &[Vec<DescriptorBinding>]) -> (r: Result<(), BindingError>)
    ensures
        r == check_bindings(bindings@, layout_views(layouts@)),
{
    let ghost lv = layout_views(layouts@);
    let mut k: usize = 0;
    while k < bindings.len()
        invariant
            k <= bindings@.len(),
            lv == layout_views(layouts@),
            check_bindings(bindings@.take(k as int), lv) == Ok::<(), BindingError>(()),
        decreases bindings@.len() - k,
    {
        let b = bindings[k];
        proof {
            assert(bindings@.take(k + 1).drop_last() =~= bindings@.take(k as int));
            assert(bindings@.take(k + 1).last() == b);
        }
        let loc = b.location();
        let result: Result<(), BindingError> = if b.group as usize >= layouts.len() {
            Err(BindingError::MissingGroup { group: b.group, bound: layouts.len() })
        } else {
            let layout = &layouts[b.group as usize];
            proof {
                assert(lv[b.group as int] == layout@);
            }
            match find_binding(layout.as_slice(), b.binding) {
                None => Err(BindingError::MissingBinding { group: b.group, binding: b.binding }),
                Some(i) => {
                    let d = layout[i];
                    if b.count != Some(d.count) {
                        Err(BindingError::CountMismatch { location: loc, layout_count: d.count, shader_count: b.count })
                    } else if b.kind != d.kind {
                        Err(BindingError::Incompatible { location: loc, layout_kind: d.kind, shader_kind: b.kind })
                    } else {
                        Ok(())
                    }
                },
            }
        };
        proof {
            assert(result == check_binding(b, lv));
        }
        match result {
            Err(e) => {
                proof {
                    lemma_check_prefix(bindings@, lv, k as int + 1);
                }
                return Err(e);
            },
            Ok(()) => {},
        }
        k = k + 1;
    }
    proof {
        assert(bindings@.take(k as int) =~= bindings@);
    }
    Ok(())
}

/// Once a prefix fails, the whole sequence fails with the same error.
proof fn lemma_check_prefix(bs: Seq<ShaderBinding>, layouts: Seq<Seq<DescriptorBinding>>, k: int)
    requires
        0 <= k <= bs.len(),
        check_bindings(bs.take(k), layouts) is Err,
    ensures
        check_bindings(bs, layouts) == check_bindings(bs.take(k), layouts),
    decreases bs.len() - k,
{
    if k == bs.len() {
        assert(bs.take(k) =~= bs);
    } else {
        assert(bs.take(k + 1).drop_last() =~= bs.take(k));
        lemma_check_prefix(bs, layouts, k + 1);
    }
}

} // verus!
