use vstd::prelude::*;

use crate::access::AccessFlags;

verus! {

/// Tracks how a pipeline accesses each binding.
///
/// Bindings are usually compact and continuous, so they are indexed directly and empty slots
/// are padded.
#[derive(Clone, Debug)]
pub struct BindingMap {
    groups: Vec<Vec<Option<AccessFlags>>>,
}

impl BindingMap {
    /// The flags recorded for a binding, if any.
    pub closed spec fn binding(&self, group: u32, binding: u32) -> Option<u32> {
        if group < self.groups@.len() && binding < self.groups@[group as int]@.len() {
            match self.groups@[group as int]@[binding as int] {
                Some(f) => Some(f.value()),
                None => None,
            }
        } else {
            None
        }
    }

    /// Creates a map without bindings.
    pub fn new() -> (r: Self)
        ensures
            forall|g: u32, b: u32| #[trigger] r.binding(g, b) is None,
    {
        Self { groups: Vec::new() }
    }

    /// Adds `flags` to the access of binding `binding` in group `group`.
    pub fn insert(&mut self, group: u32, binding: u32, flags: AccessFlags)
        ensures
            forall|g: u32, b: u32|
                #[trigger] final(self).binding(g, b) == if g == group && b == binding {
                    Some(
                        match old(self).binding(group, binding) {
                            Some(p) => p | flags.value(),
                            None => flags.value(),
                        },
                    )
                } else {
                    old(self).binding(g, b)
                },
    {
        let gi = group as usize;
        let bi = binding as usize;
        let ghost old_groups = self.groups@;
        while self.groups.len() <= gi
            invariant
                self.groups@.len() >= old_groups.len(),
                forall|k: int| 0 <= k < old_groups.len() ==> #[trigger] self.groups@[k] == old_groups[k],
                forall|k: int| old_groups.len() <= k < self.groups@.len() ==> #[trigger] self.groups@[k]@.len() == 0,
            decreases gi + 1 - self.groups@.len(),
        {
            self.groups.push(Vec::new());
        }
        let ghost padded = self.groups@;
        let mut inner: Vec<Option<AccessFlags>> = Vec::new();
        std::mem::swap(&mut inner, &mut self.groups[gi]);
        let ghost old_inner = inner@;
        while inner.len() <= bi
            invariant
                inner@.len() >= old_inner.len(),
                forall|k: int| 0 <= k < old_inner.len() ==> #[trigger] inner@[k] == old_inner[k],
                forall|k: int| old_inner.len() <= k < inner@.len() ==> #[trigger] inner@[k] is None,
            decreases bi + 1 - inner@.len(),
        {
            inner.push(None);
        }
        let updated = match inner[bi] {
            Some(p) => p.union(flags),
            None => flags,
        };
        inner.set(bi, Some(updated));
        std::mem::swap(&mut inner, &mut self.groups[gi]);
        proof {
            assert forall|g: u32, b: u32|
                #[trigger] self.binding(g, b) == if g == group && b == binding {
                    Some(
                        match old(self).binding(group, binding) {
                            Some(p) => p | flags.value(),
                            None => flags.value(),
                        },
                    )
                } else {
                    old(self).binding(g, b)
                } by {
                if g != group {
                    if (g as int) < padded.len() {
                        assert(self.groups@[g as int] == padded[g as int]);
                    }
                }
            }
        }
    }

    /// The flags recorded for a binding, if any.
    pub fn get(&self, group: u32, binding: u32) -> (r: Option<AccessFlags>)
        ensures
            match r {
                Some(f) => self.binding(group, binding) == Some(f.value()),
                None => self.binding(group, binding) is None,
            },
    {
        let gi = group as usize;
        let bi = binding as usize;
        if gi >= self.groups.len() {
            return None;
        }
        let inner = &self.groups[gi];
        if bi >= inner.len() {
            return None;
        }
        inner[bi]
    }
}

} // verus!
