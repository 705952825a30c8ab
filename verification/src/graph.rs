use vstd::prelude::*;

use crate::text::str_eq;

pub mod scheduler;

verus! {

/// The name of a node of a render graph.
#[derive(Copy, Clone, Debug, PartialEq, Eq, Hash)]
pub struct NodeLabel(&'static str);

impl NodeLabel {
    /// The name.
    pub closed spec fn name(self) -> &'static str {
        self.0
    }

    /// The characters that identify the node.
    pub open spec fn key(self) -> Seq<char> {
        self.name()@
    }

    /// Creates a label with the given name.
    pub fn new(name: &'static str) -> (r: Self)
        ensures
            r.name() == name,
    {
        Self(name)
    }

    /// Returns `true` if both labels name the same node.
    pub fn same(&self, other: &Self) -> (r: bool)
        ensures
            r == (self.key() == other.key()),
    {
        str_eq(self.0, other.0)
    }
}

/// The name of a slot through which nodes hand resources to each other.
#[derive(Copy, Clone, Debug, PartialEq, Eq, Hash)]
pub struct SlotLabel(&'static str);

impl SlotLabel {
    /// The name.
    pub closed spec fn name(self) -> &'static str {
        self.0
    }

    /// The characters that identify the slot.
    pub open spec fn key(self) -> Seq<char> {
        self.name()@
    }

    /// Creates a label with the given name.
    pub fn new(name: &'static str) -> (r: Self)
        ensures
            r.name() == name,
    {
        Self(name)
    }

    /// The slot of the texture that is presented.
    pub fn surface() -> (r: Self)
        ensures
            r.name() == "_SURFACE_TEXTURE",
    {
        Self("_SURFACE_TEXTURE")
    }

    /// Returns `true` if both labels name the same slot.
    pub fn same(&self, other: &Self) -> (r: bool)
        ensures
            r == (self.key() == other.key()),
    {
        str_eq(self.0, other.0)
    }
}

/// The kind of resource a slot holds.
#[derive(Copy, Clone, Debug, PartialEq, Eq, Hash)]
pub enum SlotKind {
    Buffer,
    Texture,
}

/// How a node uses a slot.
#[derive(Copy, Clone, Debug, PartialEq, Eq, Hash)]
pub struct SlotFlags {
    bits: u32,
}

impl SlotFlags {
    /// The raw bits.
    pub closed spec fn value(self) -> u32 {
        self.bits
    }

    /// The node reads the slot.
    pub fn read() -> (r: Self)
        ensures
            r.value() == 1,
    {
        Self { bits: 1 }
    }

    /// The node writes the slot.
    pub fn write() -> (r: Self)
        ensures
            r.value() == 2,
    {
        Self { bits: 2 }
    }

    /// No use.
    pub fn empty() -> (r: Self)
        ensures
            r.value() == 0,
    {
        Self { bits: 0 }
    }

    /// Both uses.
    pub fn union(self, other: Self) -> (r: Self)
        ensures
            r.value() == self.value() | other.value(),
    {
        Self { bits: self.bits | other.bits }
    }

    /// Returns `true` if every use of `other` is among these.
    pub fn contains(&self, other: Self) -> (r: bool)
        ensures
            r == (self.value() & other.value() == other.value()),
    {
        self.bits & other.bits == other.bits
    }
}

/// What a node needs before it runs.
#[derive(Copy, Clone, Debug)]
pub enum Dependency {
    /// The node runs after another node.
    Node(NodeLabel),
    /// The node uses a slot.
    Slot(SlotLabel, SlotKind, SlotFlags),
}

/// Why a node could not read a slot.
#[derive(Clone, Debug, PartialEq, Eq)]
pub enum InputSlotError {
    NotRegistered,
    InvalidType,
}

/// Why a node could not write a slot.
#[derive(Clone, Debug, PartialEq, Eq)]
pub enum OutputSlotError {
    NotRegistered,
    InvalidType,
}

/// A node of the graph: its dependencies, in the order they were added, and the combined
/// use of each slot it names.
#[derive(Clone, Debug)]
pub struct NodeState {
    pub label: NodeLabel,
    pub dependencies: Vec<Dependency>,
    pub permissions: Vec<(SlotLabel, SlotFlags)>,
}

/// The combined use of the slot with key `key` that `perms` records: the flags of its last
/// entry, or none.
pub open spec fn permission(perms: Seq<(SlotLabel, SlotFlags)>, key: Seq<char>) -> u32
    decreases perms.len(),
{
    if perms.len() == 0 {
        0
    } else if perms.last().0.key() == key {
        perms.last().1.value()
    } else {
        permission(perms.drop_last(), key)
    }
}

/// Writing `f` at position `j`, the last entry for its key, changes only that key's use.
proof fn lemma_permission_update(perms: Seq<(SlotLabel, SlotFlags)>, j: int, e: (SlotLabel, SlotFlags), key: Seq<char>)
    requires
        0 <= j < perms.len(),
        e.0.key() == perms[j].0.key(),
        forall|t: int| j < t < perms.len() ==> #[trigger] perms[t].0.key() != e.0.key(),
    ensures
        permission(perms.update(j, e), key) == if key == e.0.key() {
            e.1.value()
        } else {
            permission(perms, key)
        },
    decreases perms.len(),
{
    let n = perms.update(j, e);
    if j == perms.len() - 1 {
        assert(n.drop_last() =~= perms.drop_last());
    } else {
        assert(n.drop_last() =~= perms.drop_last().update(j, e));
        lemma_permission_update(perms.drop_last(), j, e, key);
    }
}

/// The use of a key with no entry after position `j` is that of the entry at `j`.
proof fn lemma_permission_last(perms: Seq<(SlotLabel, SlotFlags)>, j: int)
    requires
        0 <= j < perms.len(),
        forall|t: int| j < t < perms.len() ==> #[trigger] perms[t].0.key() != perms[j].0.key(),
    ensures
        permission(perms, perms[j].0.key()) == perms[j].1.value(),
    decreases perms.len(),
{
    if j < perms.len() - 1 {
        assert(perms.drop_last()[j] == perms[j]);
        lemma_permission_last(perms.drop_last(), j);
    }
}

/// A key with no entry has no use.
proof fn lemma_permission_absent(perms: Seq<(SlotLabel, SlotFlags)>, key: Seq<char>)
    requires
        forall|t: int| 0 <= t < perms.len() ==> #[trigger] perms[t].0.key() != key,
    ensures
        permission(perms, key) == 0,
    decreases perms.len(),
{
    if perms.len() > 0 {
        lemma_permission_absent(perms.drop_last(), key);
    }
}

impl NodeState {
    /// The combined use of the slot `label`.
    pub fn permission_of(&self, label: &SlotLabel) -> (r: SlotFlags)
        ensures
            r.value() == permission(self.permissions@, label.key()),
    {
        let mut k: usize = self.permissions.len();
        while k > 0
            invariant
                k <= self.permissions@.len(),
                forall|t: int| k <= t < self.permissions@.len() ==> #[trigger] self.permissions@[t].0.key() != label.key(),
            decreases k,
        {
            if self.permissions[k - 1].0.same(label) {
                proof {
                    lemma_permission_last(self.permissions@, k - 1);
                }
                return self.permissions[k - 1].1;
            }
            k = k - 1;
        }
        proof {
            lemma_permission_absent(self.permissions@, label.key());
        }
        SlotFlags::empty()
    }

    /// Checks that the node may read the slot `label`: it must have declared a read of it.
    pub fn read_access(&self, label: &SlotLabel) -> (r: Result<(), InputSlotError>)
        ensures
            r is Ok <==> permission(self.permissions@, label.key()) & 1 == 1,
            r matches Err(e) ==> e == InputSlotError::NotRegistered,
    {
        let flags = self.permission_of(label);
        if flags.contains(SlotFlags::read()) {
            Ok(())
        } else {
            Err(InputSlotError::NotRegistered)
        }
    }

    /// Checks that the node may write the slot `label`: it must have declared a write of it.
    pub fn write_access(&self, label: &SlotLabel) -> (r: Result<(), OutputSlotError>)
        ensures
            r is Ok <==> permission(self.permissions@, label.key()) & 2 == 2,
            r matches Err(e) ==> e == OutputSlotError::NotRegistered,
    {
        let flags = self.permission_of(label);
        if flags.contains(SlotFlags::write()) {
            Ok(())
        } else {
            Err(OutputSlotError::NotRegistered)
        }
    }
}

/// A graph of rendering nodes and their dependencies.
#[derive(Clone, Debug)]
pub struct RenderGraph {
    nodes: Vec<NodeState>,
    has_changed: bool,
}

/// The position of the node with key `k`, if any.
pub open spec fn position_of(nodes: Seq<NodeState>, k: Seq<char>) -> Option<int> {
    if exists|i: int| 0 <= i < nodes.len() && #[trigger] nodes[i].label.key() == k {
        Some(choose|i: int| 0 <= i < nodes.len() && #[trigger] nodes[i].label.key() == k)
    } else {
        None
    }
}

impl RenderGraph {
    /// The nodes, in the order they were first added.
    pub closed spec fn nodes(&self) -> Seq<NodeState> {
        self.nodes@
    }

    /// Whether the graph changed since it was last marked unchanged.
    pub closed spec fn changed(&self) -> bool {
        self.has_changed
    }

    /// No two nodes share a label.
    pub open spec fn wf(&self) -> bool {
        forall|i: int, j: int|
            0 <= i < j < self.nodes().len() ==> self.nodes()[i].label.key() != self.nodes()[j].label.key()
    }

    /// The nodes, in the order they were first added.
    pub fn states(&self) -> (r: &[NodeState])
        ensures
            r@ == self.nodes(),
    {
        self.nodes.as_slice()
    }

    /// Creates an empty graph.
    pub fn new() -> (r: Self)
        ensures
            r.wf(),
            r.nodes().len() == 0,
            !r.changed(),
    {
        Self { nodes: Vec::new(), has_changed: false }
    }

    /// Returns the position of the node labelled `label`.
    fn find(&self, label: &NodeLabel) -> (r: Option<usize>)
        requires
            self.wf(),
        ensures
            match r {
                Some(i) => i < self.nodes@.len() && self.nodes@[i as int].label.key() == label.key(),
                None => forall|i: int| 0 <= i < self.nodes@.len() ==> #[trigger] self.nodes@[i].label.key() != label.key(),
            },
    {
        let mut i: usize = 0;
        while i < self.nodes.len()
            invariant
                i <= self.nodes@.len(),
                forall|k: int| 0 <= k < i ==> #[trigger] self.nodes@[k].label.key() != label.key(),
            decreases self.nodes@.len() - i,
        {
            if self.nodes[i].label.same(label) {
                return Some(i);
            }
            i = i + 1;
        }
        None
    }

    /// Adds a node without dependencies; a node with the same label is replaced.
    pub fn add_node(&mut self, label: NodeLabel)
        requires
            old(self).wf(),
        ensures
            final(self).wf(),
            final(self).changed(),
            ({
                let n = final(self).nodes();
                let o = old(self).nodes();
                &&& (exists|i: int| 0 <= i < o.len() && #[trigger] o[i].label.key() == label.key()) ==> n.len() == o.len()
                &&& (forall|i: int| 0 <= i < o.len() ==> #[trigger] o[i].label.key() != label.key()) ==> n.len() == o.len() + 1
                    && n.last().label == label
                &&& forall|i: int| 0 <= i < o.len() && #[trigger] o[i].label.key() != label.key() ==> n[i] == o[i]
                &&& forall|i: int| 0 <= i < n.len() && #[trigger] n[i].label.key() == label.key() ==> n[i].label == label
                    && n[i].dependencies@.len() == 0 && n[i].permissions@.len() == 0
            }),
    {
        let state = NodeState { label, dependencies: Vec::new(), permissions: Vec::new() };
        match self.find(&label) {
            Some(i) => {
                let ghost o = self.nodes@;
                self.nodes.set(i, state);
                proof {
                    assert forall|a: int, b: int| 0 <= a < b < self.nodes@.len() implies self.nodes@[a].label.key()
                        != self.nodes@[b].label.key() by {
                        if a != i && b != i {
                            assert(o[a].label.key() != o[b].label.key());
                        } else if a == i {
                            assert(o[i as int].label.key() != o[b].label.key());
                        } else {
                            assert(o[a].label.key() != o[i as int].label.key());
                        }
                    }
                    assert forall|j: int| 0 <= j < self.nodes@.len() && #[trigger] self.nodes@[j].label.key() == label.key()
                        implies j == i by {
                        if j != i {
                            assert(o[j] == self.nodes@[j]);
                            if j < i {
                                assert(o[j].label.key() != o[i as int].label.key());
                            } else {
                                assert(o[i as int].label.key() != o[j].label.key());
                            }
                        }
                    }
                }
            },
            None => {
                let ghost o = self.nodes@;
                self.nodes.push(state);
                proof {
                    assert forall|a: int, b: int| 0 <= a < b < self.nodes@.len() implies self.nodes@[a].label.key()
                        != self.nodes@[b].label.key() by {
                        if b < o.len() {
                            assert(o[a].label.key() != o[b].label.key());
                        }
                    }
                }
            },
        }
        self.has_changed = true;
    }

    /// Records that the node `node` runs after the node `depends_on`.
    pub fn add_node_dependency(&mut self, node: NodeLabel, depends_on: NodeLabel)
        requires
            old(self).wf(),
            exists|i: int| 0 <= i < old(self).nodes().len() && #[trigger] old(self).nodes()[i].label.key() == node.key(),
        ensures
            final(self).wf(),
            final(self).changed(),
            final(self).nodes().len() == old(self).nodes().len(),
            forall|i: int| 0 <= i < old(self).nodes().len() ==> {
                let o = #[trigger] old(self).nodes()[i];
                let n = final(self).nodes()[i];
                if o.label.key() == node.key() {
                    &&& n.label == o.label
                    &&& n.dependencies@ == o.dependencies@.push(Dependency::Node(depends_on))
                    &&& n.permissions@ == o.permissions@
                } else {
                    n == o
                }
            },
    {
        let i = match self.find(&node) {
            Some(i) => i,
            None => {
                proof {
                    let j = choose|j: int| 0 <= j < self.nodes@.len() && #[trigger] self.nodes@[j].label.key() == node.key();
                    assert(self.nodes@[j].label.key() != node.key());
                }
                return;
            },
        };
        let ghost o = self.nodes@;
        let mut state = self.nodes.remove(i);
        state.dependencies.push(Dependency::Node(depends_on));
        self.nodes.insert(i, state);
        proof {
            assert(self.nodes@ =~= o.update(i as int, state));
            assert forall|j: int| 0 <= j < o.len() && j != i implies o[j].label.key() != node.key() by {
                if j < i {
                    assert(o[j].label.key() != o[i as int].label.key());
                } else {
                    assert(o[i as int].label.key() != o[j].label.key());
                }
            }
        }
        self.has_changed = true;
    }

    /// Records that the node `node` uses the slot `label` in the way `flags` says, and adds
    /// `flags` to the node's combined use of that slot.
    pub fn add_slot_dependency(&mut self, node: NodeLabel, label: SlotLabel, kind: SlotKind, flags: SlotFlags)
        requires
            old(self).wf(),
            exists|i: int| 0 <= i < old(self).nodes().len() && #[trigger] old(self).nodes()[i].label.key() == node.key(),
        ensures
            final(self).wf(),
            final(self).changed(),
            final(self).nodes().len() == old(self).nodes().len(),
            forall|i: int| 0 <= i < old(self).nodes().len() ==> {
                let o = #[trigger] old(self).nodes()[i];
                let n = final(self).nodes()[i];
                if o.label.key() == node.key() {
                    &&& n.label == o.label
                    &&& n.dependencies@ == o.dependencies@.push(Dependency::Slot(label, kind, flags))
                    &&& forall|key: Seq<char>| #[trigger] permission(n.permissions@, key) == if key == label.key() {
                        permission(o.permissions@, key) | flags.value()
                    } else {
                        permission(o.permissions@, key)
                    }
                } else {
                    n == o
                }
            },
    {
        let i = match self.find(&node) {
            Some(i) => i,
            None => {
                proof {
                    let j = choose|j: int| 0 <= j < self.nodes@.len() && #[trigger] self.nodes@[j].label.key() == node.key();
                    assert(self.nodes@[j].label.key() != node.key());
                }
                return;
            },
        };
        let ghost o = self.nodes@;
        let mut state = self.nodes.remove(i);
        let ghost old_perms = state.permissions@;
        state.dependencies.push(Dependency::Slot(label, kind, flags));
        let mut k: usize = state.permissions.len();
        let mut at: Option<usize> = None;
        while at.is_none() && k > 0
            invariant
                k <= state.permissions@.len(),
                state.permissions@ == old_perms,
                match at {
                    Some(j) => j < old_perms.len() && old_perms[j as int].0.key() == label.key()
                        && forall|t: int| j < t < old_perms.len() ==> #[trigger] old_perms[t].0.key() != label.key(),
                    None => forall|t: int| k <= t < old_perms.len() ==> #[trigger] old_perms[t].0.key() != label.key(),
                },
            decreases k,
        {
            if state.permissions[k - 1].0.same(&label) {
                at = Some(k - 1);
            }
            k = k - 1;
        }
        match at {
            Some(j) => {
                let entry = (state.permissions[j].0, state.permissions[j].1.union(flags));
                proof {
                    lemma_permission_last(old_perms, j as int);
                    assert forall|key: Seq<char>| #[trigger] permission(old_perms.update(j as int, entry), key) == if key
                        == label.key() {
                        permission(old_perms, key) | flags.value()
                    } else {
                        permission(old_perms, key)
                    } by {
                        lemma_permission_update(old_perms, j as int, entry, key);
                    }
                }
                state.permissions.set(j, entry);
            },
            None => {
                proof {
                    lemma_permission_absent(old_perms, label.key());
                    let pushed = old_perms.push((label, flags));
                    assert forall|key: Seq<char>| #[trigger] permission(pushed, key) == if key == label.key() {
                        permission(old_perms, key) | flags.value()
                    } else {
                        permission(old_perms, key)
                    } by {
                        assert(pushed.drop_last() =~= old_perms);
                        let f: u32 = flags.value();
                        assert((0u32 | f) == f) by (bit_vector);
                    }
                }
                state.permissions.push((label, flags));
            },
        }
        self.nodes.insert(i, state);
        proof {
            assert(self.nodes@ =~= o.update(i as int, state));
            assert forall|j: int| 0 <= j < o.len() && j != i implies o[j].label.key() != node.key() by {
                if j < i {
                    assert(o[j].label.key() != o[i as int].label.key());
                } else {
                    assert(o[i as int].label.key() != o[j].label.key());
                }
            }
        }
        self.has_changed = true;
    }

    /// The node labelled `node`, if any.
    pub fn get(&self, node: NodeLabel) -> (r: Option<&NodeState>)
        requires
            self.wf(),
        ensures
            match r {
                Some(s) => exists|i: int| 0 <= i < self.nodes().len() && #[trigger] self.nodes()[i] == *s
                    && s.label.key() == node.key(),
                None => forall|i: int| 0 <= i < self.nodes().len() ==> #[trigger] self.nodes()[i].label.key() != node.key(),
            },
    {
        match self.find(&node) {
            Some(i) => {
                assert(self.nodes()[i as int] == self.nodes@[i as int]);
                Some(&self.nodes[i])
            },
            None => None,
        }
    }
}


/// Why a render graph could not be scheduled.
#[derive(Copy, Clone, Debug, PartialEq, Eq)]
pub enum ScheduleError {
    /// The dependencies form a cycle, or name a node that does not exist.
    Cycle,
    /// No other node writes a slot that the node reads.
    NoSource(NodeLabel, SlotLabel),
    /// No choice of writers for the slots gives a valid order.
    NoValidPermutation,
}

/// The keys of the labels.
pub open spec fn label_keys(ls: Seq<NodeLabel>) -> Seq<Seq<char>> {
    ls.map_values(|l: NodeLabel| l.key())
}

/// The keys at the positions `ord`, in order.
pub open spec fn ordered_keys(keys: Seq<Seq<char>>, ord: Seq<int>) -> Seq<Seq<char>> {
    ord.map_values(|j: int| keys[j])
}

/// The contents of each list.
pub open spec fn list_views(v: Seq<Vec<NodeLabel>>) -> Seq<Seq<NodeLabel>> {
    v.map_values(|l: Vec<NodeLabel>| l@)
}

/// Every node that the list of the node at position `p` of `ord` names is at an earlier
/// position.
pub open spec fn deps_before(keys: Seq<Seq<char>>, lists: Seq<Seq<NodeLabel>>, ord: Seq<int>, p: int) -> bool {
    all_done(lists[ord[p]], ord.take(p).map_values(|j: int| keys[j]))
}

/// `ord` lists every node exactly once, and each node comes after every node its list
/// names.
pub open spec fn valid_order(keys: Seq<Seq<char>>, lists: Seq<Seq<NodeLabel>>, ord: Seq<int>) -> bool {
    &&& ord.len() == keys.len()
    &&& ord.no_duplicates()
    &&& forall|p: int| 0 <= p < ord.len() ==> 0 <= #[trigger] ord[p] < keys.len()
    &&& forall|p: int| 0 <= p < ord.len() ==> #[trigger] deps_before(keys, lists, ord, p)
}

/// Every label in `deps` is one of `done`.
pub open spec fn all_done(deps: Seq<NodeLabel>, done: Seq<Seq<char>>) -> bool {
    forall|k: int| 0 <= k < deps.len() ==> done.contains(#[trigger] deps[k].key())
}

/// Returns `true` if some label in `out` has the key of `label`.
pub(crate) fn contains_label(out: &Vec<NodeLabel>, label: &NodeLabel) -> (r: bool)
    ensures
        r == label_keys(out@).contains(label.key()),
{
    let mut i: usize = 0;
    while i < out.len()
        invariant
            i <= out@.len(),
            forall|k: int| 0 <= k < i ==> out@[k].key() != label.key(),
        decreases out@.len() - i,
    {
        if out[i].same(label) {
            proof {
                assert(label_keys(out@)[i as int] == label.key());
            }
            return true;
        }
        i = i + 1;
    }
    proof {
        if label_keys(out@).contains(label.key()) {
            let k = choose|k: int| 0 <= k < out@.len() && label_keys(out@)[k] == label.key();
            assert(out@[k].key() == label.key());
        }
    }
    false
}

/// Returns `true` if every label in `deps` has its key among `out`.
fn deps_done(deps: &Vec<NodeLabel>, out: &Vec<NodeLabel>) -> (r: bool)
    ensures
        r == all_done(deps@, label_keys(out@)),
{
    let mut k: usize = 0;
    while k < deps.len()
        invariant
            k <= deps@.len(),
            forall|j: int| 0 <= j < k ==> label_keys(out@).contains(#[trigger] deps@[j].key()),
        decreases deps@.len() - k,
    {
        if !contains_label(out, &deps[k]) {
            return false;
        }
        k = k + 1;
    }
    true
}

/// If no pending node has all its dependencies done, no valid order exists.
proof fn lemma_stuck_no_order(keys: Seq<Seq<char>>, lists: Seq<Seq<NodeLabel>>, order: Seq<int>, ord: Seq<int>)
    requires
        keys.no_duplicates(),
        lists.len() == keys.len(),
        order.no_duplicates(),
        order.len() < keys.len(),
        forall|p: int| 0 <= p < order.len() ==> 0 <= #[trigger] order[p] < keys.len(),
        forall|i: int|
            0 <= i < keys.len() && !order.contains(i) ==> !all_done(
                #[trigger] lists[i],
                order.map_values(|j: int| keys[j]),
            ),
    ensures
        !valid_order(keys, lists, ord),
{
    if valid_order(keys, lists, ord) {
        let done = order.map_values(|j: int| keys[j]);
        assert(exists|p: int| 0 <= p < ord.len() && !order.contains(#[trigger] ord[p])) by {
            if forall|p: int| 0 <= p < ord.len() ==> order.contains(#[trigger] ord[p]) {
                assert forall|x: int| 0 <= x < keys.len() implies order.contains(x) by {
                    lemma_perm_covers(ord, keys.len() as int, x);
                    let p = choose|p: int| 0 <= p < ord.len() && ord[p] == x;
                    assert(order.contains(ord[p]));
                }
                lemma_covers_len(order, keys.len() as int);
            }
        }
        let p0 = choose|p: int| 0 <= p < ord.len() && !order.contains(#[trigger] ord[p]);
        let p = lemma_first_pending(ord, order, p0);
        let u = ord[p];
        assert(all_done(lists[u], done)) by {
            assert forall|k: int| 0 <= k < lists[u].len() implies done.contains(#[trigger] lists[u][k].key()) by {
                assert(deps_before(keys, lists, ord, p));
                let pre = ord.take(p).map_values(|j: int| keys[j]);
                assert(pre.contains(lists[u][k].key()));
                let q = choose|q: int| 0 <= q < pre.len() && pre[q] == lists[u][k].key();
                assert(pre[q] == keys[ord[q]]);
                assert(order.contains(ord[q]));
                let r = choose|r: int| 0 <= r < order.len() && order[r] == ord[q];
                assert(done[r] == keys[ord[q]]);
            }
        }
    }
}

/// The earliest position of `ord` whose node is not in `order`.
proof fn lemma_first_pending(ord: Seq<int>, order: Seq<int>, p0: int) -> (p: int)
    requires
        0 <= p0 < ord.len(),
        !order.contains(ord[p0]),
    ensures
        0 <= p <= p0,
        !order.contains(ord[p]),
        forall|q: int| 0 <= q < p ==> order.contains(#[trigger] ord[q]),
    decreases p0,
{
    if exists|q: int| 0 <= q < p0 && !order.contains(#[trigger] ord[q]) {
        let q = choose|q: int| 0 <= q < p0 && !order.contains(#[trigger] ord[q]);
        lemma_first_pending(ord, order, q)
    } else {
        p0
    }
}

/// A sequence of `n` distinct positions below `n` holds every position.
proof fn lemma_perm_covers(ord: Seq<int>, n: int, x: int)
    requires
        ord.len() == n,
        ord.no_duplicates(),
        forall|p: int| 0 <= p < ord.len() ==> 0 <= #[trigger] ord[p] < n,
        0 <= x < n,
    ensures
        ord.contains(x),
{
    if !ord.contains(x) {
        ord.unique_seq_to_set();
        assert(ord.to_set().subset_of(vstd::set_lib::set_int_range(0, n).remove(x))) by {
            assert forall|y: int| ord.to_set().contains(y) implies vstd::set_lib::set_int_range(0, n).remove(x).contains(y) by {
                let p = choose|p: int| 0 <= p < ord.len() && ord[p] == y;
            }
        }
        vstd::set_lib::lemma_int_range(0, n);
        vstd::set_lib::lemma_len_subset(ord.to_set(), vstd::set_lib::set_int_range(0, n).remove(x));
    }
}

/// A sequence of distinct values holding every position below `n` has at least `n` elements.
proof fn lemma_covers_len(order: Seq<int>, n: int)
    requires
        order.no_duplicates(),
        0 <= n,
        forall|x: int| 0 <= x < n ==> order.contains(x),
    ensures
        order.len() >= n,
{
    order.unique_seq_to_set();
    assert(vstd::set_lib::set_int_range(0, n).subset_of(order.to_set()));
    vstd::set_lib::lemma_int_range(0, n);
    vstd::seq_lib::seq_to_set_is_finite(order);
    vstd::set_lib::lemma_len_subset(vstd::set_lib::set_int_range(0, n), order.to_set());
}

/// Orders the nodes so that each comes after the nodes its list names, repeatedly taking
/// the first pending node whose dependencies have all run. Fails with `Cycle` exactly when
/// no such order exists.
pub fn order_nodes(labels: &Vec<NodeLabel>, lists: &Vec<Vec<NodeLabel>>) -> (r: Result<Vec<NodeLabel>, ScheduleError>)
    requires
        label_keys(labels@).no_duplicates(),
        lists@.len() == labels@.len(),
    ensures
        ({
            let lv = list_views(lists@);
            match r {
                Ok(out) => exists|ord: Seq<int>|
                    valid_order(label_keys(labels@), lv, ord) && #[trigger] label_keys(out@) == ordered_keys(
                        label_keys(labels@),
                        ord,
                    ),
                Err(e) => e == ScheduleError::Cycle && !exists|ord: Seq<int>|
                    #[trigger] valid_order(label_keys(labels@), lv, ord),
            }
        }),
{
    let ghost keys = label_keys(labels@);
    let ghost lv = list_views(lists@);
    let n = labels.len();
    let mut out: Vec<NodeLabel> = Vec::new();
    let mut done: Vec<bool> = Vec::new();
    let mut k: usize = 0;
    while k < n
        invariant
            k <= n,
            n == labels@.len(),
            done@.len() == k,
            forall|j: int| 0 <= j < k ==> !#[trigger] done@[j],
        decreases n - k,
    {
        done.push(false);
        k = k + 1;
    }
    let ghost mut order: Seq<int> = Seq::empty();
    while out.len() < n
        invariant
            n == labels@.len(),
            n == lists@.len(),
            keys == label_keys(labels@),
            lv == list_views(lists@),
            keys.no_duplicates(),
            done@.len() == n,
            out@.len() == order.len(),
            order.len() <= n,
            order.no_duplicates(),
            forall|p: int| 0 <= p < order.len() ==> 0 <= #[trigger] order[p] < n,
            forall|j: int| 0 <= j < n ==> #[trigger] done@[j] == order.contains(j),
            label_keys(out@) == order.map_values(|j: int| keys[j]),
            forall|p: int| 0 <= p < order.len() ==> #[trigger] deps_before(keys, lv, order, p),
        decreases n - out@.len(),
    {
        let mut i: usize = 0;
        let mut found: Option<usize> = None;
        while i < n
            invariant
                n == labels@.len(),
                n == lists@.len(),
                done@.len() == n,
                i <= n,
                found matches Some(j) ==> j < n && !done@[j as int] && all_done(lists@[j as int]@, label_keys(out@)),
                found is None ==> forall|j: int| 0 <= j < i && !done@[j] ==> !all_done(#[trigger] lists@[j]@, label_keys(out@)),
            decreases n - i,
        {
            if found.is_none() && !done[i] && deps_done(&lists[i], &out) {
                found = Some(i);
            }
            i = i + 1;
        }
        match found {
            None => {
                proof {
                    assert forall|ord: Seq<int>| !#[trigger] valid_order(keys, lv, ord) by {
                        if valid_order(keys, lv, ord) {
                            assert forall|j: int| 0 <= j < keys.len() && !order.contains(j) implies !all_done(
                                #[trigger] lv[j],
                                order.map_values(|x: int| keys[x]),
                            ) by {
                                assert(lv[j] == lists@[j]@);
                                assert(!done@[j]);
                            }
                            lemma_stuck_no_order(keys, lv, order, ord);
                        }
                    }
                }
                return Err(ScheduleError::Cycle);
            },
            Some(i) => {
                let ghost before = order;
                let ghost out_before = out@;
                assert(!done@[i as int]);
                assert(all_done(lists@[i as int]@, label_keys(out@)));
                out.push(labels[i]);
                done.set(i, true);
                proof {
                    order = order.push(i as int);
                    assert(label_keys(out@) =~= order.map_values(|j: int| keys[j])) by {
                        assert forall|t: int| 0 <= t < out@.len() implies #[trigger] label_keys(out@)[t]
                            == order.map_values(|j: int| keys[j])[t] by {
                            if t < out_before.len() {
                                assert(out@[t] == out_before[t]);
                                assert(label_keys(out_before)[t] == before.map_values(|j: int| keys[j])[t]);
                            }
                        }
                    }
                    assert(order.no_duplicates()) by {
                        assert(!before.contains(i as int));
                    }
                    assert forall|j: int| 0 <= j < n implies #[trigger] done@[j] == order.contains(j) by {
                        if j == i {
                            assert(order[order.len() - 1] == i);
                        } else if before.contains(j) {
                            let t = choose|t: int| 0 <= t < before.len() && before[t] == j;
                            assert(order[t] == j);
                        } else if order.contains(j) {
                            let t = choose|t: int| 0 <= t < order.len() && order[t] == j;
                            assert(t < before.len());
                        }
                    }
                    assert forall|p: int| 0 <= p < order.len() implies #[trigger] deps_before(keys, lv, order, p) by {
                        if p < before.len() {
                            assert(deps_before(keys, lv, before, p));
                            assert(order.take(p) =~= before.take(p));
                            assert(order[p] == before[p]);
                        } else {
                            assert(order.take(p) =~= before);
                            assert(order[p] == i);
                            assert(lv[i as int] == lists@[i as int]@);
                        }
                    }
                    lemma_distinct_bound(order, n as int);
                }
            },
        }
    }
    proof {
        assert(keys.len() == n);
        assert(order.len() == n);
        assert(valid_order(keys, lv, order));
        assert(label_keys(out@) == ordered_keys(keys, order));
    }
    Ok(out)
}

/// A sequence of distinct positions below `n` has at most `n` elements.
proof fn lemma_distinct_bound(order: Seq<int>, n: int)
    requires
        order.no_duplicates(),
        0 <= n,
        forall|p: int| 0 <= p < order.len() ==> 0 <= #[trigger] order[p] < n,
    ensures
        order.len() <= n,
{
    order.unique_seq_to_set();
    assert(order.to_set().subset_of(vstd::set_lib::set_int_range(0, n)));
    vstd::set_lib::lemma_int_range(0, n);
    vstd::set_lib::lemma_len_subset(order.to_set(), vstd::set_lib::set_int_range(0, n));
}
} // verus!
