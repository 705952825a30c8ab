use vstd::prelude::*;

use crate::pow2::{
    is_next_pow2, is_pow2, lemma_next_pow2_unique, lemma_pow2_double, lemma_pow2_half,
    lemma_pow2_le, lemma_pow2_pos, next_power_of_two,
};
use crate::region::{Layout, Region};

verus! {

/// What a node of the buddy tree currently represents.
#[derive(Copy, Clone, Debug)]
pub enum State {
    /// The whole block is available.
    Free,
    /// The whole block has been handed out by `alloc`.
    Used,
    /// The block is divided into two halves, stored under the given slab keys.
    Split { left: usize, right: usize },
}

impl State {
    /// Returns `true` for a block that is available.
    pub fn is_free(&self) -> (r: bool)
        ensures
            r == (*self is Free),
    {
        matches!(self, State::Free)
    }
}

/// A node of the buddy tree.
#[derive(Copy, Clone, Debug)]
pub struct Block {
    pub size: usize,
    pub offset: usize,
    pub state: State,
    pub parent: Option<usize>,
}

/// A block as it is held by the slab: size, offset, state tag (0 free, 1 used, 2 split),
/// left and right child keys, parent key.
pub type RawBlock = (usize, usize, u8, usize, usize, Option<usize>);

pub open spec fn raw_block(b: Block) -> RawBlock {
    match b.state {
        State::Free => (b.size, b.offset, 0u8, 0usize, 0usize, b.parent),
        State::Used => (b.size, b.offset, 1u8, 0usize, 0usize, b.parent),
        State::Split { left, right } => (b.size, b.offset, 2u8, left, right, b.parent),
    }
}

pub open spec fn block_of_raw(t: RawBlock) -> Block {
    Block {
        size: t.0,
        offset: t.1,
        state: if t.2 == 0u8 {
            State::Free
        } else if t.2 == 1u8 {
            State::Used
        } else {
            State::Split { left: t.3, right: t.4 }
        },
        parent: t.5,
    }
}

#[verifier::external_type_specification]
#[verifier::external_body]
#[verifier::reject_recursive_types(T)]
pub struct ExSlab<T>(slab::Slab<T>);

/// The entries of a slab of buddy blocks, by key.
pub uninterp spec fn slab_entries(s: slab::Slab<Block>) -> Map<usize, RawBlock>;

/// The key that the next insertion into the slab will use.
pub uninterp spec fn slab_vacant_key(s: slab::Slab<Block>) -> usize;

/// `slab::Slab::new`: an empty slab whose first insertion uses key 0.
#[verifier::external_body]
fn slab_new() -> (fresh: slab::Slab<Block>)
    ensures
        slab_entries(fresh).is_empty(),
        0 == slab_vacant_key(fresh),
{
    slab::Slab::new()
}

/// `slab::Slab::insert`: stores the block under the vacant key, which was not in use,
/// and returns that key.
#[verifier::external_body]
fn slab_insert(s: &mut slab::Slab<Block>, b: Block) -> (k: usize)
    ensures
        k == slab_vacant_key(*old(s)),
        !slab_entries(*old(s)).dom().contains(k),
        slab_entries(*final(s)) == slab_entries(*old(s)).insert(k, raw_block(b)),
{
    s.insert(b)
}

/// `slab::Slab` indexing: the block stored under `k`; panics for a vacant key.
#[verifier::external_body]
fn slab_get(s: &slab::Slab<Block>, k: usize) -> (b: Block)
    requires
        slab_entries(*s).dom().contains(k),
    ensures
        raw_block(b) == slab_entries(*s)[k],
{
    s[k]
}

/// `slab::Slab` mutable indexing: replaces the block stored under the occupied key `k`.
#[verifier::external_body]
fn slab_set(s: &mut slab::Slab<Block>, k: usize, b: Block)
    requires
        slab_entries(*old(s)).dom().contains(k),
    ensures
        slab_entries(*final(s)) == slab_entries(*old(s)).insert(k, raw_block(b)),
{
    s[k] = b;
}

/// `slab::Slab::remove`: removes the block stored under the occupied key `k`.
#[verifier::external_body]
fn slab_remove(s: &mut slab::Slab<Block>, k: usize)
    requires
        slab_entries(*old(s)).dom().contains(k),
    ensures
        slab_entries(*final(s)) == slab_entries(*old(s)).remove(k),
{
    s.remove(k);
}

/// `slab::Slab::contains`: whether a block is stored under `k`.
#[verifier::external_body]
fn slab_contains(s: &slab::Slab<Block>, k: usize) -> (r: bool)
    ensures
        r == slab_entries(*s).dom().contains(k),
{
    s.contains(k)
}

/// `slab::Slab::len`: the number of occupied keys.
#[verifier::external_body]
fn slab_len(s: &slab::Slab<Block>) -> (n: usize)
    ensures
        n == slab_entries(*s).len(),
{
    s.len()
}

/// `slab::Slab::clone`: a copy holding the same blocks under the same keys, with the same
/// next key.
#[verifier::external_body]
fn slab_clone(s: &slab::Slab<Block>) -> (c: slab::Slab<Block>)
    ensures
        slab_entries(c) == slab_entries(*s),
        slab_vacant_key(c) == slab_vacant_key(*s),
{
    s.clone()
}

/// The blocks of a slab, by key.
pub open spec fn slab_blocks(s: slab::Slab<Block>) -> Map<usize, Block> {
    Map::new(
        |k: usize| slab_entries(s).dom().contains(k),
        |k: usize| block_of_raw(slab_entries(s)[k]),
    )
}

proof fn lemma_blocks_insert(s1: slab::Slab<Block>, s2: slab::Slab<Block>, k: usize, b: Block)
    requires
        slab_entries(s2) == slab_entries(s1).insert(k, raw_block(b)),
    ensures
        slab_blocks(s2) == slab_blocks(s1).insert(k, b),
        slab_entries(s2).dom() == slab_entries(s1).dom().insert(k),
{
    assert(block_of_raw(raw_block(b)) == b);
    assert(slab_blocks(s2) =~= slab_blocks(s1).insert(k, b));
}

proof fn lemma_blocks_remove(s1: slab::Slab<Block>, s2: slab::Slab<Block>, k: usize)
    requires
        slab_entries(s2) == slab_entries(s1).remove(k),
    ensures
        slab_blocks(s2) == slab_blocks(s1).remove(k),
        slab_entries(s2).dom() == slab_entries(s1).dom().remove(k),
{
    assert(slab_blocks(s2) =~= slab_blocks(s1).remove(k));
}

pub open spec fn region_of(b: Block) -> Region {
    Region { offset: b.offset, size: b.size }
}

pub open spec fn is_leaf(b: Block) -> bool {
    !(b.state is Split)
}

/// `c` is a child of `k` covering the half of `k` that starts at `offset`.
pub open spec fn child_ok(m: Map<usize, Block>, k: usize, c: usize, offset: int) -> bool {
    &&& m.dom().contains(c)
    &&& c != k
    &&& m[c].size * 2 == m[k].size
    &&& m[c].offset == offset
    &&& m[c].parent == Some(k)
}

/// The local shape conditions of node `k` in a tree rooted at `root`.
pub open spec fn node_ok(m: Map<usize, Block>, root: usize, k: usize) -> bool {
    let b = m[k];
    &&& is_pow2(b.size as int)
    &&& b.offset + b.size <= m[root].size
    &&& match b.state {
        State::Split { left, right } => {
            &&& left != right
            &&& child_ok(m, k, left, b.offset as int)
            &&& child_ok(m, k, right, b.offset + b.size / 2)
        },
        _ => true,
    }
    &&& match b.parent {
        None => k == root,
        Some(p) => {
            &&& p != k
            &&& m.dom().contains(p)
            &&& (m[p].state matches State::Split { left, right } && (left == k || right == k))
        },
    }
}

/// The nodes `i` and `j`, if they are distinct leaves, do not share a byte.
pub open spec fn leaf_pair_ok(m: Map<usize, Block>, i: usize, j: usize) -> bool {
    (m.dom().contains(i) && m.dom().contains(j) && i != j && is_leaf(m[i]) && is_leaf(m[j]))
        ==> !region_of(m[i]).overlaps(region_of(m[j]))
}

/// Distinct leaves never share a byte.
pub open spec fn leaves_disjoint(m: Map<usize, Block>) -> bool {
    forall|i: usize, j: usize| #[trigger] leaf_pair_ok(m, i, j)
}

/// If `k` is split, one of its children is not free.
pub open spec fn merged_at(m: Map<usize, Block>, k: usize) -> bool {
    (m.dom().contains(k) && (m[k].state is Split)) ==> {
        let left = m[k].state->left;
        let right = m[k].state->right;
        !((m[left].state is Free) && (m[right].state is Free))
    }
}

/// Every split node except possibly `e` has a child that is not free, i.e. free buddies
/// have always been merged.
pub open spec fn merged_except(m: Map<usize, Block>, e: Option<usize>) -> bool {
    forall|k: usize| e != Some(k) ==> #[trigger] merged_at(m, k)
}

/// The well-formedness of a buddy tree rooted at `root`, where free buddies below `e` may
/// still be waiting to be merged.
pub open spec fn tree_wf(m: Map<usize, Block>, root: usize, e: Option<usize>) -> bool {
    &&& m.dom().finite()
    &&& m.dom().contains(root)
    &&& m[root].offset == 0
    &&& m[root].parent.is_none()
    &&& forall|k: usize| m.dom().contains(k) ==> #[trigger] node_ok(m, root, k)
    &&& leaves_disjoint(m)
    &&& merged_except(m, e)
}

/// The regions of all used blocks.
pub open spec fn used_regions(m: Map<usize, Block>) -> Set<Region> {
    Set::new(
        |r: Region|
            exists|k: usize|
                #![trigger m[k]]
                m.dom().contains(k) && (m[k].state is Used) && region_of(m[k]) == r,
    )
}

/// Where a left-first walk below `k` would place a block of `size` bytes aligned to
/// `align`: the offset of the first free block of at least `size` bytes, descending into a
/// right half only when that half starts aligned.
pub open spec fn find(m: Map<usize, Block>, k: usize, size: int, align: int) -> Option<usize>
    decreases m[k].size,
{
    if !m.dom().contains(k) {
        None
    } else {
        let b = m[k];
        if size > b.size {
            None
        } else {
            match b.state {
                State::Free => Some(b.offset),
                State::Used => None,
                State::Split { left, right } => {
                    if m.dom().contains(left) && m.dom().contains(right) && m[left].size < b.size
                        && m[right].size < b.size {
                        match find(m, left, size, align) {
                            Some(o) => Some(o),
                            None => {
                                if (b.offset + b.size / 2) % align == 0 {
                                    find(m, right, size, align)
                                } else {
                                    None
                                }
                            },
                        }
                    } else {
                        None
                    }
                },
            }
        }
    }
}

/// A non-split node with the same offset as `k` lies in `k`'s subtree.
proof fn lemma_leftmost_leaf(m: Map<usize, Block>, root: usize, e: Option<usize>, k: usize) -> (j:
    usize)
    requires
        tree_wf(m, root, e),
        m.dom().contains(k),
    ensures
        m.dom().contains(j),
        is_leaf(m[j]),
        m[j].offset == m[k].offset,
        1 <= m[j].size <= m[k].size,
        (m[k].state is Split) ==> m[j].size < m[k].size,
    decreases m[k].size,
{
    assert(node_ok(m, root, k));
    lemma_pow2_pos(m[k].size as int);
    match m[k].state {
        State::Split { left, right } => {
            assert(node_ok(m, root, left));
            let j = lemma_leftmost_leaf(m, root, e, left);
            j
        },
        _ => k,
    }
}

/// A split node has a used block below it.
proof fn lemma_split_has_used(m: Map<usize, Block>, root: usize, k: usize)
    requires
        tree_wf(m, root, None),
        m.dom().contains(k),
        m[k].state is Split,
    ensures
        !used_regions(m).is_empty(),
    decreases m[k].size,
{
    assert(node_ok(m, root, k));
    let left = m[k].state->left;
    let right = m[k].state->right;
    assert(merged_at(m, k));
    let c = if !(m[left].state is Free) {
        left
    } else {
        right
    };
    assert(!(m[c].state is Free));
    assert(node_ok(m, root, c));
    if m[c].state is Used {
        assert(used_regions(m).contains(region_of(m[c])));
    } else {
        lemma_split_has_used(m, root, c);
    }
}

/// When the root is not split the tree consists of the root alone.
proof fn lemma_only_root(m: Map<usize, Block>, root: usize, e: Option<usize>, k: usize)
    requires
        tree_wf(m, root, e),
        !(m[root].state is Split),
        m.dom().contains(k),
    ensures
        k == root,
    decreases m[root].size - m[k].size,
{
    assert(node_ok(m, root, k));
    if k != root {
        let p = m[k].parent->0;
        assert(node_ok(m, root, p));
        assert(m[p].state is Split);
        let left = m[p].state->left;
        let right = m[p].state->right;
        assert(child_ok(m, p, k, m[k].offset as int));
        lemma_pow2_pos(m[k].size as int);
        lemma_only_root(m, root, e, p);
    }
}

/// With nothing allocated, the tree is a single free root.
proof fn lemma_empty_tree(m: Map<usize, Block>, root: usize)
    requires
        tree_wf(m, root, None),
        used_regions(m).is_empty(),
    ensures
        m[root].state is Free,
        m.dom() == set![root],
{
    if m[root].state is Split {
        lemma_split_has_used(m, root, root);
    }
    if m[root].state is Used {
        assert(used_regions(m).contains(region_of(m[root])));
    }
    assert forall|k: usize| m.dom().contains(k) implies k == root by {
        lemma_only_root(m, root, None, k);
    }
    assert(m.dom() =~= set![root]);
}

/// A buddy allocator over a region starting at offset 0 whose size is a power of two.
///
/// Blocks are split in halves until they fit a request, and two free halves are merged
/// back into their parent as soon as both are free.
#[derive(Debug)]
pub struct BuddyAllocator {
    blocks: slab::Slab<Block>,
    root: usize,
}

impl Clone for BuddyAllocator {
    /// A copy of the allocator with the same blocks, which hands out the same regions.
    fn clone(&self) -> (c: Self)
        ensures
            c.tree() == self.tree(),
            c.wf() == self.wf(),
            c.capacity() == self.capacity(),
            c.allocated() == self.allocated(),
    {
        Self { blocks: slab_clone(&self.blocks), root: self.root }
    }
}

impl BuddyAllocator {
    /// The nodes of the tree, by slab key.
    pub closed spec fn tree(&self) -> Map<usize, Block> {
        slab_blocks(self.blocks)
    }

    /// The allocator's internal invariant.
    pub closed spec fn wf(&self) -> bool {
        tree_wf(self.tree(), self.root, None)
    }

    /// The number of bytes managed by the allocator.
    pub closed spec fn capacity(&self) -> nat {
        self.tree()[self.root].size as nat
    }

    /// The regions currently handed out.
    pub closed spec fn allocated(&self) -> Set<Region> {
        used_regions(self.tree())
    }

    /// Where `alloc` places a request of `size` bytes (already rounded to a power of two)
    /// with alignment `align`, or `None` if no free block is reachable for it.
    pub closed spec fn placement(&self, size: int, align: int) -> Option<usize> {
        find(self.tree(), self.root, size, align)
    }

    /// Whether `grow` accepts `new_region`: it starts at 0, has a power-of-two size, the block
    /// stored under slab key 0 (the first root) still exists and is smaller, and the size is
    /// at least the current capacity.
    pub closed spec fn can_grow_to(&self, new_region: Region) -> bool {
        &&& new_region.offset == 0
        &&& is_pow2(new_region.size as int)
        &&& self.tree().dom().contains(0)
        &&& new_region.size > self.tree()[0].size
        &&& new_region.size >= self.capacity()
    }

    /// Creates an allocator managing `region`, which must start at 0 and have a power-of-two
    /// size.
    pub fn new(region: Region) -> (r: Self)
        requires
            region.offset == 0,
            is_pow2(region.size as int),
        ensures
            r.wf(),
            r.capacity() == region.size,
            r.allocated().is_empty(),
            forall|s: usize|
                is_pow2(s as int) && s > region.size ==> #[trigger] r.can_grow_to(
                    Region { offset: 0, size: s },
                ),
            forall|p: int, a: int| p <= region.size ==> #[trigger] r.placement(p, a) == Some(0usize),
    {
        let mut blocks = slab_new();
        let ghost s0 = blocks;
        let root = slab_insert(
            &mut blocks,
            Block { offset: 0, size: region.size, state: State::Free, parent: None },
        );
        let r = Self { blocks, root };
        proof {
            lemma_blocks_insert(s0, blocks, root, Block { offset: 0, size: region.size, state: State::Free, parent: None });
            let m = r.tree();
            assert(m.dom() =~= set![root]);
            assert forall|k: usize| m.dom().contains(k) implies #[trigger] node_ok(m, root, k) by {
                assert(k == root);
            }
            assert(used_regions(m) =~= Set::empty());
        }
        r
    }

    /// Returns `true` if `grow` accepts `new_region`.
    pub fn can_grow(&self, new_region: Region) -> (r: bool)
        requires
            self.wf(),
        ensures
            r == self.can_grow_to(new_region),
    {
        proof {
            assert(node_ok(self.tree(), self.root, self.root));
        }
        let root_size = slab_get(&self.blocks, self.root).size;
        if new_region.offset != 0 || !crate::pow2::is_power_of_two(new_region.size) || !slab_contains(&self.blocks, 0) {
            return false;
        }
        new_region.size > slab_get(&self.blocks, 0).size && new_region.size >= root_size
    }

    /// Returns the number of tree nodes currently stored.
    pub fn num_blocks(&self) -> (n: usize)
        requires
            self.wf(),
        ensures
            n == self.tree().len(),
            self.allocated().is_empty() ==> n == 1,
    {
        proof {
            assert(self.tree().dom() =~= slab_entries(self.blocks).dom());
            if self.allocated().is_empty() {
                lemma_empty_tree(self.tree(), self.root);
                assert(slab_entries(self.blocks).dom() =~= set![self.root]);
            }
        }
        slab_len(&self.blocks)
    }
}



/// Every used region of `m2` is one of `m` and vice versa, when the used nodes agree.
proof fn lemma_used_same(m: Map<usize, Block>, m2: Map<usize, Block>)
    requires
        forall|k: usize|
            #![trigger m2[k]]
            m2.dom().contains(k) && (m2[k].state is Used) ==> m.dom().contains(k) && (
            m[k].state is Used) && region_of(m[k]) == region_of(m2[k]),
        forall|k: usize|
            #![trigger m[k]]
            m.dom().contains(k) && (m[k].state is Used) ==> m2.dom().contains(k) && (
            m2[k].state is Used) && region_of(m[k]) == region_of(m2[k]),
    ensures
        used_regions(m2) == used_regions(m),
{
    assert forall|r: Region| used_regions(m2).contains(r) <==> used_regions(m).contains(r) by {
        if used_regions(m2).contains(r) {
            let k = choose|k: usize|
                #![trigger m2[k]]
                m2.dom().contains(k) && (m2[k].state is Used) && region_of(m2[k]) == r;
            assert(m[k] == m[k]);
        }
        if used_regions(m).contains(r) {
            let k = choose|k: usize|
                #![trigger m[k]]
                m.dom().contains(k) && (m[k].state is Used) && region_of(m[k]) == r;
            assert(m2[k] == m2[k]);
        }
    }
    assert(used_regions(m2) =~= used_regions(m));
}

pub open spec fn split_result(m: Map<usize, Block>, cur: usize, left: usize, right: usize) -> Map<
    usize,
    Block,
> {
    let b = m[cur];
    let half = (b.size / 2) as usize;
    let lblock = Block { offset: b.offset, size: half, state: State::Free, parent: Some(cur) };
    let rblock = Block {
        offset: (b.offset + half) as usize,
        size: half,
        state: State::Free,
        parent: Some(cur),
    };
    let sblock = Block { state: State::Split { left, right }, ..b };
    m.insert(left, lblock).insert(right, rblock).insert(cur, sblock)
}

proof fn lemma_split_nodes(
    m: Map<usize, Block>,
    root: usize,
    exc: Option<usize>,
    cur: usize,
    left: usize,
    right: usize,
)
    requires
        tree_wf(m, root, exc),
        m.dom().contains(cur),
        m[cur].state is Free,
        m[cur].size >= 2,
        !m.dom().contains(left),
        !m.dom().contains(right),
        left != right,
    ensures
        forall|k: usize|
            split_result(m, cur, left, right).dom().contains(k) ==> #[trigger] node_ok(
                split_result(m, cur, left, right),
                root,
                k,
            ),
        split_result(m, cur, left, right)[root] == (if cur == root {
            split_result(m, cur, left, right)[root]
        } else {
            m[root]
        }),
        split_result(m, cur, left, right)[root].size == m[root].size,
{
    let m2 = split_result(m, cur, left, right);
    let b = m[cur];
    assert(node_ok(m, root, cur));
    lemma_pow2_half(b.size as int);
    assert forall|k: usize| m2.dom().contains(k) implies #[trigger] node_ok(m2, root, k) by {
        if k == cur || k == left || k == right {
        } else {
            assert(m.dom().contains(k));
            assert(node_ok(m, root, k));
            assert(m2[k] == m[k]);
            if let Some(p) = m[k].parent {
                assert(p != cur);
                assert(m.dom().contains(p));
            }
        }
    }
}

proof fn lemma_split_leaves(
    m: Map<usize, Block>,
    root: usize,
    exc: Option<usize>,
    cur: usize,
    left: usize,
    right: usize,
)
    requires
        tree_wf(m, root, exc),
        m.dom().contains(cur),
        m[cur].state is Free,
        m[cur].size >= 2,
        !m.dom().contains(left),
        !m.dom().contains(right),
        left != right,
    ensures
        leaves_disjoint(split_result(m, cur, left, right)),
{
    let m2 = split_result(m, cur, left, right);
    assert(node_ok(m, root, cur));
    lemma_pow2_half(m[cur].size as int);
    assert forall|i: usize, j: usize| #[trigger] leaf_pair_ok(m2, i, j) by {
        if (i == left || i == right) && j != left && j != right {
            assert(leaf_pair_ok(m, cur, j));
        } else if (j == left || j == right) && i != left && i != right {
            assert(leaf_pair_ok(m, i, cur));
        } else if i != left && i != right && j != left && j != right {
            assert(leaf_pair_ok(m, i, j));
        }
    }
}

proof fn lemma_split_merged(
    m: Map<usize, Block>,
    root: usize,
    exc: Option<usize>,
    cur: usize,
    left: usize,
    right: usize,
)
    requires
        tree_wf(m, root, exc),
        m.dom().contains(cur),
        m[cur].state is Free,
        exc is Some ==> m[cur].parent == exc,
        !m.dom().contains(left),
        !m.dom().contains(right),
        left != right,
    ensures
        merged_except(split_result(m, cur, left, right), Some(cur)),
{
    let m2 = split_result(m, cur, left, right);
    assert forall|k: usize| Some(cur) != Some(k) implies #[trigger] merged_at(m2, k) by {
        if m2.dom().contains(k) && (m2[k].state is Split) {
            assert(m.dom().contains(k));
            assert(node_ok(m, root, k));
            let l = m[k].state->left;
            let r = m[k].state->right;
            if exc == Some(k) {
                assert(node_ok(m, root, cur));
                assert(l == cur || r == cur);
            } else {
                assert(merged_at(m, k));
            }
        }
    }
}

/// Splitting the free leaf `cur` into two free halves keeps the tree well formed (with the
/// merge exception moving to `cur`) and leaves the used regions unchanged.
proof fn lemma_split_step(
    m: Map<usize, Block>,
    root: usize,
    exc: Option<usize>,
    cur: usize,
    left: usize,
    right: usize,
)
    requires
        tree_wf(m, root, exc),
        m.dom().contains(cur),
        m[cur].state is Free,
        m[cur].size >= 2,
        exc is Some ==> m[cur].parent == exc,
        !m.dom().contains(left),
        !m.dom().contains(right),
        left != right,
    ensures
        tree_wf(split_result(m, cur, left, right), root, Some(cur)),
        used_regions(split_result(m, cur, left, right)) == used_regions(m),
        split_result(m, cur, left, right)[root].size == m[root].size,
{
    let m2 = split_result(m, cur, left, right);
    lemma_split_nodes(m, root, exc, cur, left, right);
    lemma_split_leaves(m, root, exc, cur, left, right);
    lemma_split_merged(m, root, exc, cur, left, right);
    assert(m2.dom() == m.dom().insert(left).insert(right).insert(cur));
    assert(m2[root].offset == 0 && m2[root].parent.is_none()) by {
        if root == cur {
        } else {
            assert(m2[root] == m[root]);
        }
    }
    lemma_used_same(m, m2);
}

/// Replacing the leaf `cur` by a leaf with another state keeps the shape of the tree.
proof fn lemma_restate_leaf(
    m: Map<usize, Block>,
    root: usize,
    exc: Option<usize>,
    cur: usize,
    st: State,
)
    requires
        tree_wf(m, root, exc),
        m.dom().contains(cur),
        is_leaf(m[cur]),
        !(st is Split),
    ensures
        ({
            let m2 = m.insert(cur, Block { state: st, ..m[cur] });
            &&& m2.dom() == m.dom()
            &&& m2[root].size == m[root].size
            &&& m2[root].offset == 0
            &&& m2[root].parent.is_none()
            &&& forall|k: usize| m2.dom().contains(k) ==> #[trigger] node_ok(m2, root, k)
            &&& leaves_disjoint(m2)
        }),
{
    let m2 = m.insert(cur, Block { state: st, ..m[cur] });
    assert(m2.dom() =~= m.dom());
    assert forall|k: usize| m2.dom().contains(k) implies #[trigger] node_ok(m2, root, k) by {
        assert(node_ok(m, root, k));
        if k != cur {
            assert(m2[k] == m[k]);
            if let Some(p) = m[k].parent {
                assert(p != cur);
            }
        }
    }
    assert forall|i: usize, j: usize| #[trigger] leaf_pair_ok(m2, i, j) by {
        assert(leaf_pair_ok(m, i, j));
    }
}

/// Marking the free leaf `cur` as used completes the tree (no merge exception remains) and
/// adds its region to the used regions.
proof fn lemma_mark_used(m: Map<usize, Block>, root: usize, exc: Option<usize>, cur: usize)
    requires
        tree_wf(m, root, exc),
        m.dom().contains(cur),
        m[cur].state is Free,
        exc is Some ==> m[cur].parent == exc,
    ensures
        tree_wf(m.insert(cur, Block { state: State::Used, ..m[cur] }), root, None),
        !used_regions(m).contains(region_of(m[cur])),
        used_regions(m.insert(cur, Block { state: State::Used, ..m[cur] })) == used_regions(
            m,
        ).insert(region_of(m[cur])),
        m.insert(cur, Block { state: State::Used, ..m[cur] })[root].size == m[root].size,
{
    let b = m[cur];
    let m2 = m.insert(cur, Block { state: State::Used, ..b });
    let reg = region_of(b);
    lemma_restate_leaf(m, root, exc, cur, State::Used);
    assert(node_ok(m, root, cur));
    assert forall|k: usize| None::<usize> != Some(k) implies #[trigger] merged_at(m2, k) by {
        if m2.dom().contains(k) && (m2[k].state is Split) {
            assert(node_ok(m, root, k));
            let l = m[k].state->left;
            let r = m[k].state->right;
            if exc == Some(k) {
                assert(l == cur || r == cur);
            } else {
                assert(merged_at(m, k));
            }
        }
    }
    lemma_pow2_pos(b.size as int);
    assert(!used_regions(m).contains(reg)) by {
        if used_regions(m).contains(reg) {
            let k = choose|k: usize|
                #![trigger m[k]]
                m.dom().contains(k) && (m[k].state is Used) && region_of(m[k]) == reg;
            assert(leaf_pair_ok(m, k, cur));
        }
    }
    assert forall|r: Region| used_regions(m2).contains(r) <==> used_regions(m).insert(
        reg,
    ).contains(r) by {
        if used_regions(m2).contains(r) {
            let k = choose|k: usize|
                #![trigger m2[k]]
                m2.dom().contains(k) && (m2[k].state is Used) && region_of(m2[k]) == r;
            if k != cur {
                assert(m[k] == m2[k]);
                assert(used_regions(m).contains(r));
            } else {
                assert(r == reg);
            }
        }
        if used_regions(m).contains(r) {
            let k = choose|k: usize|
                #![trigger m[k]]
                m.dom().contains(k) && (m[k].state is Used) && region_of(m[k]) == r;
            assert(k != cur);
            assert(m2[k] == m[k]);
            assert(used_regions(m2).contains(r));
        }
        if r == reg {
            assert(m2[cur].state is Used);
            assert(region_of(m2[cur]) == r);
            assert(used_regions(m2).contains(r));
        }
    }
    assert(used_regions(m2) =~= used_regions(m).insert(reg));
}

impl BuddyAllocator {
    /// Splits the free block `index` along its left edge until a block of exactly `size`
    /// bytes remains, and marks that block as used.
    fn split_down(&mut self, index: usize, size: usize)
        requires
            old(self).wf(),
            old(self).tree().dom().contains(index),
            old(self).tree()[index].state is Free,
            is_pow2(size as int),
            size <= old(self).tree()[index].size,
        ensures
            final(self).wf(),
            final(self).capacity() == old(self).capacity(),
            final(self).root == old(self).root,
            !old(self).allocated().contains(
                Region { offset: old(self).tree()[index].offset, size },
            ),
            final(self).allocated() == old(self).allocated().insert(
                Region { offset: old(self).tree()[index].offset, size },
            ),
    {
        let ghost m0 = self.tree();
        let ghost root = self.root;
        let ghost cap = m0[root].size;
        let ghost offset0 = m0[index].offset;
        let mut cur = index;
        let mut block = slab_get(&self.blocks, cur);
        let ghost mut exc: Option<usize> = None;
        while block.size != size
            invariant
                tree_wf(self.tree(), root, exc),
                self.root == root,
                self.tree()[root].size == cap,
                self.tree().dom().contains(cur),
                block == self.tree()[cur],
                block.state is Free,
                block.offset == offset0,
                size <= block.size,
                is_pow2(size as int),
                used_regions(self.tree()) == used_regions(m0),
                exc is Some ==> self.tree()[cur].parent == exc,
            decreases block.size,
        {
            let ghost m = self.tree();
            let ghost s1 = self.blocks;
            proof {
                assert(node_ok(m, root, cur));
                lemma_pow2_pos(size as int);
                lemma_pow2_le(size as int, block.size as int);
                lemma_pow2_half(block.size as int);
            }
            let half = block.size / 2;
            let lblock = Block { offset: block.offset, size: half, state: State::Free, parent: Some(cur) };
            let left = slab_insert(&mut self.blocks, lblock);
            let ghost s2 = self.blocks;
            proof {
                lemma_blocks_insert(s1, s2, left, lblock);
            }
            let rblock = Block {
                offset: block.offset + half,
                size: half,
                state: State::Free,
                parent: Some(cur),
            };
            let right = slab_insert(&mut self.blocks, rblock);
            let ghost s3 = self.blocks;
            proof {
                lemma_blocks_insert(s2, s3, right, rblock);
            }
            let sblock = Block {
                offset: block.offset,
                size: block.size,
                state: State::Split { left, right },
                parent: block.parent,
            };
            slab_set(&mut self.blocks, cur, sblock);
            proof {
                lemma_blocks_insert(s3, self.blocks, cur, sblock);
                lemma_split_step(m, root, exc, cur, left, right);
                assert(self.tree() == split_result(m, cur, left, right));
                exc = Some(cur);
            }
            cur = left;
            block = lblock;
        }
        let ublock = Block {
            offset: block.offset,
            size: block.size,
            state: State::Used,
            parent: block.parent,
        };
        let ghost m = self.tree();
        let ghost s1 = self.blocks;
        slab_set(&mut self.blocks, cur, ublock);
        proof {
            lemma_blocks_insert(s1, self.blocks, cur, ublock);
            lemma_mark_used(m, root, exc, cur);
            assert(self.tree() == m.insert(cur, Block { state: State::Used, ..m[cur] }));
        }
    }
}


impl BuddyAllocator {
    /// Looks for a place for `size` bytes aligned to `align` in the subtree of `index`,
    /// left half first, and allocates it there.
    fn search(&mut self, index: usize, size: usize, align: usize) -> (r: Option<Region>)
        requires
            old(self).wf(),
            old(self).tree().dom().contains(index),
            is_pow2(size as int),
            align >= 1,
            old(self).tree()[index].offset % align == 0,
        ensures
            r == (match find(old(self).tree(), index, size as int, align as int) {
                Some(o) => Some(Region { offset: o, size }),
                None => None,
            }),
            r is None ==> *final(self) == *old(self),
            r matches Some(reg) ==> {
                &&& final(self).wf()
                &&& final(self).root == old(self).root
                &&& final(self).capacity() == old(self).capacity()
                &&& !old(self).allocated().contains(reg)
                &&& final(self).allocated() == old(self).allocated().insert(reg)
                &&& reg.within(region_of(old(self).tree()[index]))
                &&& reg.offset % align == 0
            },
        decreases old(self).tree()[index].size,
    {
        let block = slab_get(&self.blocks, index);
        proof {
            assert(block == self.tree()[index]);
            assert(node_ok(self.tree(), self.root, index));
        }
        if size > block.size {
            return None;
        }
        match block.state {
            State::Free => {
                self.split_down(index, size);
                Some(Region { offset: block.offset, size })
            },
            State::Used => None,
            State::Split { left, right } => {
                proof {
                    let m = self.tree();
                    assert(node_ok(m, self.root, left));
                    assert(node_ok(m, self.root, right));
                    lemma_pow2_pos(m[left].size as int);
                }
                let r = self.search(left, size, align);
                if r.is_some() {
                    return r;
                }
                if (block.offset + block.size / 2) % align == 0 {
                    self.search(right, size, align)
                } else {
                    None
                }
            },
        }
    }

    /// Allocates a block for `layout`.
    ///
    /// The size is rounded up to a power of two; the returned region has exactly that size.
    /// Returns `None` if no suitably aligned free block is large enough.
    pub fn allocate(&mut self, layout: Layout) -> (r: Option<Region>)
        requires
            old(self).wf(),
        ensures
            final(self).wf(),
            final(self).capacity() == old(self).capacity(),
            r matches Some(reg) ==> {
                &&& is_next_pow2(reg.size as int, layout.size_spec() as int)
                &&& reg.offset % layout.align_spec() == 0
                &&& reg.offset + reg.size <= old(self).capacity()
                &&& !old(self).allocated().contains(reg)
                &&& forall|q: Region| #[trigger]
                    old(self).allocated().contains(q) ==> !q.overlaps(reg)
                &&& final(self).allocated() == old(self).allocated().insert(reg)
                &&& old(self).placement(reg.size as int, layout.align_spec() as int) == Some(
                    reg.offset,
                )
            },
            r is None ==> *final(self) == *old(self),
            r is None ==> forall|p: int| #[trigger]
                is_next_pow2(p, layout.size_spec() as int) ==> old(self).placement(
                    p,
                    layout.align_spec() as int,
                ) is None,
            old(self).allocated().is_empty() && layout.size_spec() <= old(self).capacity()
                ==> r is Some,
    {
        let size = next_power_of_two(layout.size());
        let align = layout.align();
        proof {
            crate::pow2::lemma_pow2_pos(align as int);
            assert(node_ok(self.tree(), self.root, self.root));
            if self.allocated().is_empty() {
                lemma_empty_tree(self.tree(), self.root);
                if layout.size_spec() <= self.capacity() {
                    lemma_pow2_pos(self.capacity() as int);
                    if size > self.capacity() {
                        lemma_pow2_le(self.capacity() as int, size as int);
                    }
                }
            }
        }
        let ghost old_self = *self;
        let r = self.search(self.root, size, align);
        proof {
            if let Some(reg) = r {
                lemma_pow2_pos(size as int);
                assert forall|q: Region| #[trigger]
                    old_self.allocated().contains(q) implies !q.overlaps(reg) by {
                    lemma_used_disjoint(self.tree(), self.root, q, reg);
                }
            } else {
                assert forall|p: int| #[trigger]
                    is_next_pow2(p, layout.size_spec() as int) implies old_self.placement(
                    p,
                    align as int,
                ) is None by {
                    lemma_next_pow2_unique(p, size as int, layout.size_spec() as int);
                }
            }
        }
        r
    }
}

/// Distinct used regions of a well-formed tree do not overlap.
proof fn lemma_used_disjoint(m: Map<usize, Block>, root: usize, q: Region, r: Region)
    requires
        tree_wf(m, root, None),
        used_regions(m).contains(q),
        used_regions(m).contains(r),
        q != r,
    ensures
        !q.overlaps(r),
{
    let i = choose|k: usize|
        #![trigger m[k]]
        m.dom().contains(k) && (m[k].state is Used) && region_of(m[k]) == q;
    let j = choose|k: usize|
        #![trigger m[k]]
        m.dom().contains(k) && (m[k].state is Used) && region_of(m[k]) == r;
    assert(leaf_pair_ok(m, i, j));
}


/// Walking down from `idx` towards the used block `t`: a node whose region strictly contains
/// the region of `t` is split, and the half chosen by offset still contains it.
proof fn lemma_descend(m: Map<usize, Block>, root: usize, idx: usize, t: usize)
    requires
        tree_wf(m, root, None),
        m.dom().contains(idx),
        m.dom().contains(t),
        m[t].state is Used,
        region_of(m[t]).within(region_of(m[idx])),
        region_of(m[t]) != region_of(m[idx]),
    ensures
        m[idx].state is Split,
        ({
            let b = m[idx];
            let mid = b.offset + b.size / 2;
            let next = if m[t].offset < mid {
                b.state->left
            } else {
                b.state->right
            };
            &&& m.dom().contains(next)
            &&& region_of(m[t]).within(region_of(m[next]))
            &&& m[next].size < b.size
        }),
{
    assert(node_ok(m, root, t));
    assert(node_ok(m, root, idx));
    lemma_pow2_pos(m[t].size as int);
    if is_leaf(m[idx]) {
        assert(leaf_pair_ok(m, idx, t));
    } else {
        let b = m[idx];
        let left = b.state->left;
        let right = b.state->right;
        lemma_pow2_half(b.size as int);
        assert(node_ok(m, root, right));
        if m[t].offset < b.offset + b.size / 2 {
            if m[t].offset + m[t].size > b.offset + b.size / 2 {
                let j = lemma_leftmost_leaf(m, root, None, right);
                assert(leaf_pair_ok(m, j, t));
            }
        }
    }
}

/// When the walk reaches a node with exactly the region of the used block `t`, it has reached
/// `t` itself.
proof fn lemma_found(m: Map<usize, Block>, root: usize, idx: usize, t: usize)
    requires
        tree_wf(m, root, None),
        m.dom().contains(idx),
        m.dom().contains(t),
        m[t].state is Used,
        region_of(m[t]) == region_of(m[idx]),
    ensures
        idx == t,
{
    assert(node_ok(m, root, t));
    lemma_pow2_pos(m[t].size as int);
    if m[idx].state is Split {
        let j = lemma_leftmost_leaf(m, root, None, idx);
        assert(leaf_pair_ok(m, j, t));
    } else if idx != t {
        assert(leaf_pair_ok(m, idx, t));
    }
}

/// Freeing the used leaf `t` leaves a tree in which only the parent of `t` may have two free
/// children, and removes `t`'s region from the used regions.
proof fn lemma_free_used(m: Map<usize, Block>, root: usize, t: usize)
    requires
        tree_wf(m, root, None),
        m.dom().contains(t),
        m[t].state is Used,
    ensures
        tree_wf(m.insert(t, Block { state: State::Free, ..m[t] }), root, m[t].parent),
        used_regions(m.insert(t, Block { state: State::Free, ..m[t] })) == used_regions(
            m,
        ).remove(region_of(m[t])),
        m.insert(t, Block { state: State::Free, ..m[t] })[root].size == m[root].size,
{
    let m2 = m.insert(t, Block { state: State::Free, ..m[t] });
    let reg = region_of(m[t]);
    lemma_restate_leaf(m, root, None, t, State::Free);
    assert(node_ok(m, root, t));
    assert forall|k: usize| m[t].parent != Some(k) implies #[trigger] merged_at(m2, k) by {
        if m2.dom().contains(k) && (m2[k].state is Split) {
            assert(node_ok(m, root, k));
            assert(merged_at(m, k));
            let l = m[k].state->left;
            let r = m[k].state->right;
            assert(l != t && r != t);
        }
    }
    lemma_pow2_pos(m[t].size as int);
    assert forall|r: Region| used_regions(m2).contains(r) <==> used_regions(m).remove(
        reg,
    ).contains(r) by {
        if used_regions(m2).contains(r) {
            let k = choose|k: usize|
                #![trigger m2[k]]
                m2.dom().contains(k) && (m2[k].state is Used) && region_of(m2[k]) == r;
            assert(k != t);
            assert(m[k] == m2[k]);
            assert(leaf_pair_ok(m, k, t));
            assert(used_regions(m).contains(r));
        }
        if used_regions(m).contains(r) && r != reg {
            let k = choose|k: usize|
                #![trigger m[k]]
                m.dom().contains(k) && (m[k].state is Used) && region_of(m[k]) == r;
            assert(k != t);
            assert(m2[k] == m[k]);
            assert(used_regions(m2).contains(r));
        }
    }
    assert(used_regions(m2) =~= used_regions(m).remove(reg));
}

pub open spec fn merge_result(m: Map<usize, Block>, p: usize) -> Map<usize, Block> {
    m.remove(m[p].state->left).remove(m[p].state->right).insert(
        p,
        Block { state: State::Free, ..m[p] },
    )
}

/// Merging the two free children of `p` back into `p` keeps the tree well formed, with the
/// merge exception moving up to `p`'s parent, and keeps the used regions.
proof fn lemma_merge_step(m: Map<usize, Block>, root: usize, p: usize)
    requires
        tree_wf(m, root, Some(p)),
        m.dom().contains(p),
        m[p].state is Split,
        m[m[p].state->left].state is Free,
        m[m[p].state->right].state is Free,
    ensures
        tree_wf(merge_result(m, p), root, m[p].parent),
        used_regions(merge_result(m, p)) == used_regions(m),
        merge_result(m, p)[root].size == m[root].size,
        merge_result(m, p).dom().contains(p),
{
    let l = m[p].state->left;
    let r = m[p].state->right;
    let m2 = merge_result(m, p);
    assert(node_ok(m, root, p));
    assert(node_ok(m, root, l));
    assert(node_ok(m, root, r));
    assert(node_ok(m, root, root));
    assert(l != root && r != root);
    assert(m2.dom() == m.dom().remove(l).remove(r));
    assert forall|k: usize| m2.dom().contains(k) implies #[trigger] node_ok(m2, root, k) by {
        assert(node_ok(m, root, k));
        if k != p {
            assert(m2[k] == m[k]);
            if let Some(pk) = m[k].parent {
                assert(node_ok(m, root, pk));
                assert(pk != l && pk != r);
                if pk == p {
                    assert(false);
                }
            }
            match m[k].state {
                State::Split { left: l2, right: r2 } => {
                    assert(l2 != l && l2 != r && r2 != l && r2 != r);
                },
                _ => {},
            }
        } else {
            if let Some(pp) = m[p].parent {
                assert(node_ok(m, root, pp));
                assert(pp != l && pp != r);
            }
        }
    }
    lemma_pow2_half(m[p].size as int);
    assert(region_of(m2[p]) == region_of(m[p]));
    assert(child_ok(m, p, l, m[p].offset as int));
    assert(child_ok(m, p, r, m[p].offset + m[p].size / 2));
    assert(m[l].size * 2 == m[p].size && m[r].size * 2 == m[p].size);
    assert forall|i: usize, j: usize| #[trigger] leaf_pair_ok(m2, i, j) by {
        if i == p && m2.dom().contains(j) && j != p {
            assert(j != l && j != r);
            assert(m2[j] == m[j]);
            assert(leaf_pair_ok(m, l, j));
            assert(leaf_pair_ok(m, r, j));
            assert(node_ok(m, root, j));
            lemma_pow2_pos(m[j].size as int);
        } else if j == p && m2.dom().contains(i) && i != p {
            assert(i != l && i != r);
            assert(m2[i] == m[i]);
            assert(leaf_pair_ok(m, i, l));
            assert(leaf_pair_ok(m, i, r));
            assert(node_ok(m, root, i));
            lemma_pow2_pos(m[i].size as int);
        } else if m2.dom().contains(i) && m2.dom().contains(j) && i != p && j != p {
            assert(m2[i] == m[i]);
            assert(m2[j] == m[j]);
            assert(leaf_pair_ok(m, i, j));
        }
    }
    assert forall|k: usize| m[p].parent != Some(k) implies #[trigger] merged_at(m2, k) by {
        if m2.dom().contains(k) && (m2[k].state is Split) && k != p {
            assert(node_ok(m, root, k));
            assert(merged_at(m, k));
            let l2 = m[k].state->left;
            let r2 = m[k].state->right;
            assert(l2 != p && r2 != p);
            assert(l2 != l && l2 != r && r2 != l && r2 != r);
        }
    }
    lemma_used_same(m, m2);
}

/// Putting a new root of twice the size above the non-free root keeps the tree well formed
/// and keeps the used regions.
proof fn lemma_grow_step(m: Map<usize, Block>, root: usize, nr: usize, right: usize)
    requires
        tree_wf(m, root, None),
        !(m[root].state is Free),
        !m.dom().contains(nr),
        !m.dom().contains(right),
        nr != right,
        2 * m[root].size <= usize::MAX,
    ensures
        ({
            let s = m[root].size;
            let m2 = m.insert(
                right,
                Block { size: s, offset: s, state: State::Free, parent: Some(nr) },
            ).insert(root, Block { parent: Some(nr), ..m[root] }).insert(
                nr,
                Block {
                    size: (2 * s) as usize,
                    offset: 0,
                    state: State::Split { left: root, right },
                    parent: None,
                },
            );
            &&& tree_wf(m2, nr, None)
            &&& used_regions(m2) == used_regions(m)
            &&& m2[nr].size == 2 * s
            &&& !(m2[nr].state is Free)
        }),
{
    let s = m[root].size;
    let m2 = m.insert(right, Block { size: s, offset: s, state: State::Free, parent: Some(nr) }).insert(
        root,
        Block { parent: Some(nr), ..m[root] },
    ).insert(
        nr,
        Block {
            size: (2 * s) as usize,
            offset: 0,
            state: State::Split { left: root, right },
            parent: None,
        },
    );
    assert(node_ok(m, root, root));
    lemma_pow2_double(s as int);
    assert(root != nr && root != right);
    assert forall|k: usize| m2.dom().contains(k) implies #[trigger] node_ok(m2, nr, k) by {
        if k != nr && k != right {
            assert(node_ok(m, root, k));
            if k != root {
                assert(m2[k] == m[k]);
                let pk = m[k].parent->0;
                assert(pk != nr && pk != right);
                assert(node_ok(m, root, pk));
            }
            match m[k].state {
                State::Split { left: l2, right: r2 } => {
                    assert(l2 != nr && l2 != right && r2 != nr && r2 != right);
                    assert(node_ok(m, root, l2));
                    assert(node_ok(m, root, r2));
                    assert(l2 != root && r2 != root);
                },
                _ => {},
            }
        }
    }
    assert forall|i: usize, j: usize| #[trigger] leaf_pair_ok(m2, i, j) by {
        if i == right && m.dom().contains(j) {
            assert(node_ok(m, root, j));
        } else if j == right && m.dom().contains(i) {
            assert(node_ok(m, root, i));
        } else {
            assert(leaf_pair_ok(m, i, j));
        }
    }
    assert forall|k: usize| None::<usize> != Some(k) implies #[trigger] merged_at(m2, k) by {
        if m2.dom().contains(k) && (m2[k].state is Split) && k != nr {
            assert(node_ok(m, root, k));
            assert(merged_at(m, k));
            let l2 = m[k].state->left;
            let r2 = m[k].state->right;
            assert(l2 != nr && l2 != right && r2 != nr && r2 != right);
            assert(node_ok(m, root, l2));
            assert(node_ok(m, root, r2));
            assert(l2 != root && r2 != root);
        }
    }
    lemma_used_same(m, m2);
}

impl BuddyAllocator {
    /// Returns a previously allocated region to the allocator and merges free buddies.
    pub fn dealloc(&mut self, region: Region)
        requires
            old(self).wf(),
            old(self).allocated().contains(region),
        ensures
            final(self).wf(),
            final(self).capacity() == old(self).capacity(),
            final(self).allocated() == old(self).allocated().remove(region),
    {
        let ghost m = self.tree();
        let ghost root = self.root;
        let ghost cap = m[root].size;
        let ghost t = choose|k: usize|
            #![trigger m[k]]
            m.dom().contains(k) && (m[k].state is Used) && region_of(m[k]) == region;
        let mut index = self.root;
        let mut block = slab_get(&self.blocks, index);
        proof {
            assert(node_ok(m, root, t));
        }
        while block.offset != region.offset || block.size != region.size
            invariant
                self.wf(),
                self.tree() == m,
                self.root == root,
                m.dom().contains(index),
                block == m[index],
                m.dom().contains(t),
                m[t].state is Used,
                region_of(m[t]) == region,
                region.within(region_of(block)),
            decreases block.size,
        {
            proof {
                lemma_descend(m, root, index, t);
                assert(node_ok(m, root, index));
            }
            let (left, right) = match block.state {
                State::Split { left, right } => (left, right),
                _ => {
                    proof {
                        assert(false);
                    }
                    (0, 0)
                },
            };
            let mid = block.offset + block.size / 2;
            index = if region.offset < mid {
                left
            } else {
                right
            };
            block = slab_get(&self.blocks, index);
        }
        proof {
            lemma_found(m, root, index, t);
            lemma_free_used(m, root, t);
        }
        let fblock = Block { offset: block.offset, size: block.size, state: State::Free, parent: block.parent };
        let ghost s1 = self.blocks;
        slab_set(&mut self.blocks, index, fblock);
        proof {
            lemma_blocks_insert(s1, self.blocks, index, fblock);
            assert(fblock == Block { state: State::Free, ..m[t] });
        }
        let ghost target = used_regions(m).remove(region);
        let mut block = fblock;
        loop
            invariant
                tree_wf(self.tree(), root, block.parent),
                self.root == root,
                self.tree()[root].size == cap,
                self.tree().dom().contains(index),
                block == self.tree()[index],
                block.state is Free,
                used_regions(self.tree()) == target,
            ensures
                tree_wf(self.tree(), root, None),
                self.root == root,
                self.tree()[root].size == cap,
                used_regions(self.tree()) == target,
            decreases cap - block.size,
        {
            let parent_index = match block.parent {
                None => break,
                Some(p) => p,
            };
            let ghost m1 = self.tree();
            proof {
                assert(node_ok(m1, root, index));
                assert(node_ok(m1, root, parent_index));
            }
            let parent = slab_get(&self.blocks, parent_index);
            let (left, right) = match parent.state {
                State::Split { left, right } => (left, right),
                _ => {
                    proof {
                        assert(false);
                    }
                    (0, 0)
                },
            };
            let other = if index == left {
                right
            } else {
                left
            };
            let other_block = slab_get(&self.blocks, other);
            if !other_block.state.is_free() {
                proof {
                    assert forall|k: usize| None::<usize> != Some(k) implies #[trigger] merged_at(
                        m1,
                        k,
                    ) by {
                        if k != parent_index {
                            assert(merged_at(m1, k));
                        }
                    }
                }
                break;
            }
            proof {
                lemma_merge_step(m1, root, parent_index);
                assert(node_ok(m1, root, root));
            }
            let ghost s2 = self.blocks;
            slab_remove(&mut self.blocks, left);
            let ghost s3 = self.blocks;
            slab_remove(&mut self.blocks, right);
            let ghost s4 = self.blocks;
            let pblock = Block {
                offset: parent.offset,
                size: parent.size,
                state: State::Free,
                parent: parent.parent,
            };
            slab_set(&mut self.blocks, parent_index, pblock);
            proof {
                lemma_blocks_remove(s2, s3, left);
                lemma_blocks_remove(s3, s4, right);
                lemma_blocks_insert(s4, self.blocks, parent_index, pblock);
                assert(self.tree() == merge_result(m1, parent_index));
            }
            index = parent_index;
            block = pblock;
        }
    }

    /// Grows the managed region to `new_region`, keeping every allocation.
    pub fn grow(&mut self, new_region: Region)
        requires
            old(self).wf(),
            old(self).can_grow_to(new_region),
        ensures
            final(self).wf(),
            final(self).capacity() == new_region.size,
            final(self).allocated() == old(self).allocated(),
            new_region.size > old(self).capacity() ==> forall|p: int, a: int|
                is_pow2(p) && is_pow2(a) && p <= new_region.size / 2 && a <= new_region.size / 2
                    ==> #[trigger] final(self).placement(p, a) is Some,
    {
        let root_block = slab_get(&self.blocks, self.root);
        if root_block.state.is_free() {
            let ghost m = self.tree();
            proof {
                assert forall|k: usize| m.dom().contains(k) implies k == self.root by {
                    lemma_only_root(m, self.root, None, k);
                }
            }
            let nb = Block {
                offset: root_block.offset,
                size: new_region.size,
                state: root_block.state,
                parent: root_block.parent,
            };
            let ghost s1 = self.blocks;
            slab_set(&mut self.blocks, self.root, nb);
            proof {
                lemma_blocks_insert(s1, self.blocks, self.root, nb);
                let m2 = self.tree();
                assert(m2.dom() =~= m.dom());
                assert forall|k: usize| m2.dom().contains(k) implies #[trigger] node_ok(
                    m2,
                    self.root,
                    k,
                ) by {
                    assert(k == self.root);
                }
                assert forall|i: usize, j: usize| #[trigger] leaf_pair_ok(m2, i, j) by {}
                assert forall|k: usize| None::<usize> != Some(k) implies #[trigger] merged_at(
                    m2,
                    k,
                ) by {}
                lemma_used_same(m, m2);
                assert forall|p: int, a: int|
                    is_pow2(p) && is_pow2(a) && p <= new_region.size / 2 && a <= new_region.size / 2
                        implies #[trigger] self.placement(p, a) is Some by {
                    assert(m2[self.root] == nb);
                }
            }
            return;
        }
        let mut size = root_block.size;
        let ghost size0 = size;
        let ghost allocated0 = self.allocated();
        proof {
            assert(node_ok(self.tree(), self.root, self.root));
        }
        while size != new_region.size
            invariant
                tree_wf(self.tree(), self.root, None),
                self.tree()[self.root].size == size,
                !(self.tree()[self.root].state is Free),
                is_pow2(size as int),
                is_pow2(new_region.size as int),
                size <= new_region.size,
                used_regions(self.tree()) == allocated0,
                size0 <= size,
                size > size0 ==> (self.tree()[self.root].state matches State::Split { left, right } && {
                    &&& self.tree().dom().contains(left)
                    &&& self.tree().dom().contains(right)
                    &&& self.tree()[left].size == size / 2
                    &&& self.tree()[right].size == size / 2
                    &&& self.tree()[right].offset == size / 2
                    &&& self.tree()[right].state is Free
                    &&& self.tree()[self.root].offset == 0
                }),
            decreases new_region.size - size,
        {
            let ghost m = self.tree();
            proof {
                lemma_pow2_le(size as int, new_region.size as int);
            }
            let ghost s0 = self.blocks;
            let nr_block = Block { size: size * 2, offset: 0, state: State::Free, parent: None };
            let new_root = slab_insert(&mut self.blocks, nr_block);
            let ghost s1 = self.blocks;
            let rblock = Block { size, offset: size, state: State::Free, parent: Some(new_root) };
            let right = slab_insert(&mut self.blocks, rblock);
            let ghost s2 = self.blocks;
            proof {
                lemma_blocks_insert(s0, s1, new_root, nr_block);
                lemma_blocks_insert(s1, s2, right, rblock);
            }
            let old_root = slab_get(&self.blocks, self.root);
            let moved = Block {
                size: old_root.size,
                offset: old_root.offset,
                state: old_root.state,
                parent: Some(new_root),
            };
            slab_set(&mut self.blocks, self.root, moved);
            let ghost s3 = self.blocks;
            let split_root = Block {
                size: size * 2,
                offset: 0,
                state: State::Split { left: self.root, right },
                parent: None,
            };
            slab_set(&mut self.blocks, new_root, split_root);
            proof {
                lemma_blocks_insert(s2, s3, self.root, moved);
                lemma_blocks_insert(s3, self.blocks, new_root, split_root);
                lemma_grow_step(m, self.root, new_root, right);
                assert(self.tree() =~= m.insert(right, rblock).insert(self.root, moved).insert(
                    new_root,
                    split_root,
                ));
            }
            self.root = new_root;
            size = size * 2;
            proof {
                lemma_pow2_double(size as int / 2);
            }
        }
        proof {
            let m = self.tree();
            let c = new_region.size as int;
            if size > size0 {
            assert forall|p: int, a: int|
                is_pow2(p) && is_pow2(a) && p <= c / 2 && a <= c / 2 implies #[trigger] self.placement(p, a) is Some by {
                let (left, right) = match m[self.root].state {
                    State::Split { left, right } => (left, right),
                    _ => (0, 0),
                };
                assert(find(m, right, p, a) == Some(m[right].offset));
                if (c / 2) % a != 0 {
                    if a == c / 2 {
                    } else {
                        lemma_pow2_le(a, c / 2);
                    }
                }
                assert((m[self.root].offset + m[self.root].size / 2) % a == 0);
            }
            }
        }
    }
}


/// Every block of a well-formed tree starts at a multiple of its size.
proof fn lemma_node_aligned(m: Map<usize, Block>, root: usize, e: Option<usize>, k: usize)
    requires
        tree_wf(m, root, e),
        m.dom().contains(k),
    ensures
        m[k].offset % m[k].size == 0,
    decreases m[root].size - m[k].size,
{
    assert(node_ok(m, root, k));
    let b = m[k];
    crate::pow2::lemma_pow2_pos(b.size as int);
    match b.parent {
        None => {
            assert(k == root);
            assert(b.offset == 0);
            vstd::arithmetic::div_mod::lemma_small_mod(0, b.size as nat);
        },
        Some(p) => {
            assert(node_ok(m, root, p));
            let pb = m[p];
            let (left, right) = (pb.state->left, pb.state->right);
            assert(child_ok(m, p, left, pb.offset as int));
            assert(child_ok(m, p, right, pb.offset + pb.size / 2));
            assert(pb.size == 2 * b.size);
            assert(pb.offset + pb.size <= m[root].size);
            lemma_node_aligned(m, root, e, p);
            let s = b.size as int;
            let po = pb.offset as int;
            assert(po % (2 * s) == 0);
            assert(b.offset == po || b.offset == po + s);
            assert(po % s == 0) by (nonlinear_arith)
                requires
                    s > 0,
                    po >= 0,
                    po % (2 * s) == 0,
            {
                vstd::arithmetic::div_mod::lemma_fundamental_div_mod(po, 2 * s);
                vstd::arithmetic::div_mod::lemma_mod_multiples_basic(2 * (po / (2 * s)), s);
            }
            assert((po + s) % s == 0) by (nonlinear_arith)
                requires
                    s > 0,
                    po % s == 0,
            {
                vstd::arithmetic::div_mod::lemma_mod_adds(po, s, s);
            }
        },
    }
}

/// Every region handed out starts at a multiple of its size: blocks are halves of halves
/// of the managed memory.
pub proof fn law_allocations_naturally_aligned(a: BuddyAllocator, r: Region)
    requires
        a.wf(),
        a.allocated().contains(r),
    ensures
        r.offset % r.size == 0,
{
    let m = a.tree();
    let k = choose|k: usize|
        #![trigger m[k]]
        m.dom().contains(k) && (m[k].state is Used) && region_of(m[k]) == r;
    lemma_node_aligned(m, a.root, None, k);
}

/// Regions handed out by an allocator never overlap.
pub proof fn law_allocations_disjoint(a: BuddyAllocator, q: Region, r: Region)
    requires
        a.wf(),
        a.allocated().contains(q),
        a.allocated().contains(r),
        q != r,
    ensures
        !q.overlaps(r),
{
    lemma_used_disjoint(a.tree(), a.root, q, r);
}

/// Every region handed out by an allocator lies within the memory it manages and has a
/// power-of-two size.
pub proof fn law_allocations_within(a: BuddyAllocator, r: Region)
    requires
        a.wf(),
        a.allocated().contains(r),
    ensures
        r.offset + r.size <= a.capacity(),
        is_pow2(r.size as int),
{
    let m = a.tree();
    let k = choose|k: usize|
        #![trigger m[k]]
        m.dom().contains(k) && (m[k].state is Used) && region_of(m[k]) == r;
    assert(node_ok(m, a.root, k));
}

/// Giving back a region just handed out restores the regions handed out.
pub proof fn law_dealloc_undoes_allocate(before: BuddyAllocator, after_alloc: BuddyAllocator, after_dealloc: BuddyAllocator, r: Region)
    requires
        !before.allocated().contains(r),
        after_alloc.allocated() == before.allocated().insert(r),
        after_dealloc.allocated() == after_alloc.allocated().remove(r),
    ensures
        after_dealloc.allocated() == before.allocated(),
{
    assert(before.allocated().insert(r).remove(r) =~= before.allocated());
}

/// Facts on multiples used when walking down the tree.
proof fn lemma_multiples(x: int, y: int, m: int)
    requires
        m > 0,
        x % m == 0,
        y % m == 0,
    ensures
        x < y ==> x + m <= y,
        (x + y) % m == 0,
{
    vstd::arithmetic::div_mod::lemma_fundamental_div_mod(x, m);
    vstd::arithmetic::div_mod::lemma_fundamental_div_mod(y, m);
    let qx = x / m;
    let qy = y / m;
    if x < y {
        assert(qx < qy) by (nonlinear_arith)
            requires
                x == m * qx,
                y == m * qy,
                x < y,
                m > 0,
        ;
        assert(x + m <= y) by (nonlinear_arith)
            requires
                x == m * qx,
                y == m * qy,
                qx + 1 <= qy,
                m > 0,
        ;
    }
    assert((x + y) % m == 0) by {
        assert(x + y == m * (qx + qy)) by (nonlinear_arith)
            requires
                x == m * qx,
                y == m * qy,
        ;
        vstd::arithmetic::div_mod::lemma_mod_multiples_basic(qx + qy, m);
        assert(m * (qx + qy) == (qx + qy) * m) by (nonlinear_arith);
    }
}

/// A multiple of `b` is a multiple of every divisor `a` of `b`.
proof fn lemma_multiple_of_divisor(x: int, a: int, b: int)
    requires
        a > 0,
        b > 0,
        x % b == 0,
        b % a == 0,
    ensures
        x % a == 0,
{
    vstd::arithmetic::div_mod::lemma_fundamental_div_mod(x, b);
    vstd::arithmetic::div_mod::lemma_fundamental_div_mod(b, a);
    let qx = x / b;
    let qb = b / a;
    assert(x == (qx * qb) * a) by (nonlinear_arith)
        requires
            x == b * qx,
            b == a * qb,
    ;
    vstd::arithmetic::div_mod::lemma_mod_multiples_basic(qx * qb, a);
}

/// Of two powers of two, the smaller divides the larger.
proof fn lemma_pow2_divides(a: int, b: int)
    requires
        is_pow2(a),
        is_pow2(b),
        a <= b,
    ensures
        b % a == 0,
{
    lemma_pow2_pos(a);
    if a < b {
        crate::pow2::lemma_pow2_le(a, b);
    } else {
        vstd::arithmetic::div_mod::lemma_mod_self_0(a);
    }
}

/// A split node has a used block inside its own range.
proof fn lemma_split_used_within(m: Map<usize, Block>, root: usize, k: usize) -> (j: usize)
    requires
        tree_wf(m, root, None),
        m.dom().contains(k),
        m[k].state is Split,
    ensures
        m.dom().contains(j),
        m[j].state is Used,
        m[k].offset <= m[j].offset,
        m[j].offset + m[j].size <= m[k].offset + m[k].size,
    decreases m[k].size,
{
    assert(node_ok(m, root, k));
    let left = m[k].state->left;
    let right = m[k].state->right;
    assert(merged_at(m, k));
    let c = if !(m[left].state is Free) {
        left
    } else {
        right
    };
    assert(child_ok(m, k, c, m[c].offset as int));
    assert(node_ok(m, root, c));
    lemma_pow2_pos(m[c].size as int);
    if m[c].state is Used {
        c
    } else {
        lemma_split_used_within(m, root, c)
    }
}

/// If the range of `r`, a power of two aligned to its size and to `align`, lies inside node
/// `k` and overlaps no used block, the walk below `k` finds a place for `r.size` bytes.
proof fn lemma_find_room(m: Map<usize, Block>, root: usize, k: usize, r: Region, align: int)
    requires
        tree_wf(m, root, None),
        m.dom().contains(k),
        is_pow2(r.size as int),
        is_pow2(align),
        r.offset % r.size == 0,
        (r.offset as int) % align == 0,
        m[k].offset <= r.offset,
        r.offset + r.size <= m[k].offset + m[k].size,
        forall|q: Region| #[trigger] used_regions(m).contains(q) ==> !q.overlaps(r),
    ensures
        find(m, k, r.size as int, align) is Some,
    decreases m[k].size,
{
    assert(node_ok(m, root, k));
    let b = m[k];
    let p = r.size as int;
    let o = r.offset as int;
    let off = b.offset as int;
    let size = b.size as int;
    lemma_pow2_pos(size);
    lemma_pow2_pos(p);
    lemma_pow2_pos(align);
    match b.state {
        State::Free => {},
        State::Used => {
            assert(used_regions(m).contains(region_of(b)));
            assert(region_of(b).overlaps(r));
        },
        State::Split { left, right } => {
            assert(child_ok(m, k, left, off));
            assert(child_ok(m, k, right, off + size / 2));
            assert(node_ok(m, root, left));
            let half = m[left].size as int;
            lemma_pow2_pos(half);
            if p > half {
                let j = lemma_split_used_within(m, root, k);
                assert(node_ok(m, root, j));
                lemma_pow2_pos(m[j].size as int);
                lemma_pow2_le(half, p);
                assert(used_regions(m).contains(region_of(m[j])));
                assert(region_of(m[j]).overlaps(r));
            } else {
                lemma_node_aligned(m, root, None, k);
                lemma_pow2_divides(p, half);
                lemma_pow2_divides(p, size);
                lemma_multiple_of_divisor(off, p, size);
                lemma_multiples(off, half, p);
                lemma_multiples(o, off + half, p);
                if o < off + half {
                    lemma_find_room(m, root, left, r, align);
                } else {
                    assert(node_ok(m, root, right));
                    lemma_find_room(m, root, right, r, align);
                    if align <= half {
                        lemma_pow2_divides(align, half);
                        lemma_pow2_divides(align, size);
                        lemma_multiple_of_divisor(off, align, size);
                        lemma_multiples(off, half, align);
                    } else {
                        lemma_pow2_le(half, align);
                        lemma_pow2_divides(size, align);
                        lemma_multiple_of_divisor(o, size, align);
                        lemma_multiples(off, o, size);
                    }
                }
            }
        },
    }
}

/// A request is placed whenever there is room for it: if a block of `r.size` bytes (a power
/// of two), starting at a multiple of both its size and `align` (a power of two), lies inside
/// the managed memory and overlaps no allocated region, `alloc` finds a place for
/// `r.size` bytes aligned to `align`.
pub proof fn law_free_room_is_found(a: BuddyAllocator, r: Region, align: int)
    requires
        a.wf(),
        is_pow2(r.size as int),
        is_pow2(align),
        r.offset % r.size == 0,
        (r.offset as int) % align == 0,
        r.offset + r.size <= a.capacity(),
        forall|q: Region| #[trigger] a.allocated().contains(q) ==> !q.overlaps(r),
    ensures
        a.placement(r.size as int, align) is Some,
{
    let m = a.tree();
    assert(node_ok(m, a.root, a.root));
    assert forall|q: Region| #[trigger] used_regions(m).contains(q) implies !q.overlaps(r) by {
        assert(a.allocated().contains(q));
    }
    lemma_find_room(m, a.root, a.root, r, align);
}

/// Free buddies are merged back: once nothing is allocated the allocator is a single free
/// block again, and places any request that fits at offset 0.
pub proof fn law_empty_allocator_is_one_block(a: BuddyAllocator, p: int, align: int)
    requires
        a.wf(),
        a.allocated().is_empty(),
    ensures
        a.tree().len() == 1,
        p <= a.capacity() ==> a.placement(p, align) == Some(0usize),
{
    lemma_empty_tree(a.tree(), a.root);
    assert(a.tree().dom().len() == 1);
}

} // verus!
