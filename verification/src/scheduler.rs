use vstd::prelude::*;

use crate::access::{write_mask, AccessFlags};
use crate::access_table::{distinct_ids, AccessTable, ResourceKey};
use crate::accesses::Resource;

verus! {

/// A transition of a resource from one access to another.
#[derive(Copy, Clone, Debug, PartialEq, Eq)]
pub struct Barrier<T> {
    pub resource: T,
    pub src_access: AccessFlags,
    pub dst_access: AccessFlags,
}

/// One step of a schedule: run a node, or place a barrier.
#[derive(Copy, Clone, Debug, PartialEq, Eq)]
pub enum Step<N, R> {
    Node(N),
    Barrier(Barrier<R>),
}

impl<N, R> Step<N, R> {
    /// Returns `true` for a barrier.
    pub fn is_barrier(&self) -> (r: bool)
        ensures
            r == (self is Barrier),
    {
        matches!(self, Self::Barrier(_))
    }
}

/// The flags only read.
pub open spec fn read_only(f: AccessFlags) -> bool {
    f.value() & write_mask() == 0
}

/// The two lists of resources have a resource in common.
pub open spec fn shares<Id>(a: Seq<Resource<Id>>, b: Seq<Resource<Id>>) -> bool {
    exists|x: int, y: int| 0 <= x < a.len() && 0 <= y < b.len() && #[trigger] a[x].id == #[trigger] b[y].id
}

/// Node `i` must run after node `j`: `j` comes first in the input and they access a
/// common resource.
pub open spec fn depends<Id>(nodes: Seq<&[Resource<Id>]>, j: int, i: int) -> bool {
    0 <= j < i < nodes.len() && shares(nodes[j]@, nodes[i]@)
}

/// The accesses after carrying out the barriers of `steps`, starting from `t`.
pub open spec fn apply<Id>(t: Map<Id, AccessFlags>, steps: Seq<Step<usize, Id>>) -> Map<Id, AccessFlags>
    decreases steps.len(),
{
    if steps.len() == 0 {
        t
    } else {
        let t1 = apply(t, steps.drop_last());
        match steps.last() {
            Step::Barrier(b) => t1.insert(b.resource, b.dst_access),
            Step::Node(_) => t1,
        }
    }
}

/// The nodes that `steps` runs, in order.
pub open spec fn nodes_run<Id>(steps: Seq<Step<usize, Id>>) -> Seq<usize>
    decreases steps.len(),
{
    if steps.len() == 0 {
        Seq::empty()
    } else {
        match steps.last() {
            Step::Node(i) => nodes_run(steps.drop_last()).push(i),
            Step::Barrier(_) => nodes_run(steps.drop_last()),
        }
    }
}

/// Every barrier of `steps` starts from the access its resource has at that point, and
/// none merely repeats a read-only access.
pub open spec fn barriers_ok<Id>(t: Map<Id, AccessFlags>, steps: Seq<Step<usize, Id>>) -> bool {
    forall|s: int|
        0 <= s < steps.len() ==> match #[trigger] steps[s] {
            Step::Barrier(b) => {
                &&& apply(t, steps.take(s)).dom().contains(b.resource)
                &&& b.src_access == apply(t, steps.take(s))[b.resource]
                &&& !(b.dst_access == b.src_access && read_only(b.dst_access))
            },
            Step::Node(_) => true,
        }
}

/// Whenever `steps` runs a node, each resource of the node has the access it needs.
pub open spec fn nodes_ready<Id>(
    t: Map<Id, AccessFlags>,
    nodes: Seq<&[Resource<Id>]>,
    steps: Seq<Step<usize, Id>>,
) -> bool {
    forall|s: int|
        0 <= s < steps.len() ==> match #[trigger] steps[s] {
            Step::Node(i) => forall|k: int|
                0 <= k < nodes[i as int]@.len() ==> apply(t, steps.take(s))[#[trigger] nodes[i as int]@[k].id]
                    == nodes[i as int]@[k].access,
            Step::Barrier(_) => true,
        }
}

/// The barriers that give each resource of a node the access the node needs, starting from
/// the accesses `t`: a barrier from the current access to the needed one, in the order of
/// the node's resources, except where the resource already has exactly the needed access
/// and that access only reads.
pub open spec fn node_barriers<Id>(t: Map<Id, AccessFlags>, res: Seq<Resource<Id>>) -> Seq<Step<usize, Id>>
    decreases res.len(),
{
    if res.len() == 0 {
        Seq::empty()
    } else {
        let prev = node_barriers(t, res.drop_last());
        let r = res.last();
        if r.access == t[r.id] && read_only(r.access) {
            prev
        } else {
            prev.push(Step::Barrier(Barrier { resource: r.id, src_access: t[r.id], dst_access: r.access }))
        }
    }
}

/// A node gets a barrier for each of its resources, from the resource's current access to
/// the one the node needs, unless the two are equal and only read: a write after an equal
/// write still gets its barrier.
pub proof fn law_barrier_unless_unchanged_read<Id>(t: Map<Id, AccessFlags>, res: Seq<Resource<Id>>, k: int)
    requires
        distinct_ids(res),
        0 <= k < res.len(),
    ensures
        node_barriers(t, res).contains(
            Step::Barrier(Barrier { resource: res[k].id, src_access: t[res[k].id], dst_access: res[k].access }),
        ) <==> !(res[k].access == t[res[k].id] && read_only(res[k].access)),
    decreases res.len(),
{
    let b = Step::Barrier(Barrier { resource: res[k].id, src_access: t[res[k].id], dst_access: res[k].access });
    let prev = node_barriers(t, res.drop_last());
    let r = res.last();
    lemma_node_barriers_ids(t, res.drop_last());
    if k < res.len() - 1 {
        law_barrier_unless_unchanged_read(t, res.drop_last(), k);
        assert(res.drop_last()[k] == res[k]);
        assert(r.id != res[k].id);
        if node_barriers(t, res).contains(b) && !prev.contains(b) {
            let p = choose|p: int| 0 <= p < node_barriers(t, res).len() && node_barriers(t, res)[p] == b;
            assert(p == prev.len());
        }
        if prev.contains(b) {
            let p = choose|p: int| 0 <= p < prev.len() && prev[p] == b;
            assert(node_barriers(t, res)[p] == b);
        }
    } else {
        if prev.contains(b) {
            let p = choose|p: int| 0 <= p < prev.len() && prev[p] == b;
            assert(prev[p]->Barrier_0.resource == r.id);
        }
        if !(r.access == t[r.id] && read_only(r.access)) {
            assert(node_barriers(t, res)[prev.len() as int] == b);
        }
    }
}

/// Every barrier of a node is for one of its resources, the earlier ones first.
proof fn lemma_node_barriers_ids<Id>(t: Map<Id, AccessFlags>, res: Seq<Resource<Id>>)
    ensures
        forall|p: int| 0 <= p < node_barriers(t, res).len() ==> (#[trigger] node_barriers(t, res)[p]) is Barrier
            && exists|q: int| 0 <= q < res.len() && res[q].id == node_barriers(t, res)[p]->Barrier_0.resource,
    decreases res.len(),
{
    if res.len() > 0 {
        lemma_node_barriers_ids(t, res.drop_last());
        let prev = node_barriers(t, res.drop_last());
        assert forall|p: int| 0 <= p < node_barriers(t, res).len() implies (#[trigger] node_barriers(t, res)[p]) is Barrier
            && exists|q: int| 0 <= q < res.len() && res[q].id == node_barriers(t, res)[p]->Barrier_0.resource by {
            if p < prev.len() {
                assert(node_barriers(t, res)[p] == prev[p]);
                let q = choose|q: int| 0 <= q < res.drop_last().len() && res.drop_last()[q].id == prev[p]->Barrier_0.resource;
                assert(res[q].id == res.drop_last()[q].id);
            } else {
                assert(res[res.len() - 1].id == node_barriers(t, res)[p]->Barrier_0.resource);
            }
        }
    }
}

/// The barriers of the nodes of a wave, node after node, starting from the accesses `t`.
pub open spec fn wave_barriers<Id>(t: Map<Id, AccessFlags>, nodes: Seq<&[Resource<Id>]>, wave: Seq<usize>) -> Seq<
    Step<usize, Id>,
>
    decreases wave.len(),
{
    if wave.len() == 0 {
        Seq::empty()
    } else {
        let prev = wave_barriers(t, nodes, wave.drop_last());
        prev + node_barriers(apply(t, prev), nodes[wave.last() as int]@)
    }
}

/// The steps that run the nodes of a wave, in order.
pub open spec fn node_steps<Id>(wave: Seq<usize>) -> Seq<Step<usize, Id>> {
    wave.map_values(|i: usize| Step::<usize, Id>::Node(i))
}

/// The later nodes that depend on node `j`, among the first `k` nodes, in increasing order.
pub open spec fn succ_list<Id>(nodes: Seq<&[Resource<Id>]>, j: int, k: int) -> Seq<usize>
    decreases k,
{
    if k <= 0 {
        Seq::empty()
    } else if depends(nodes, j, k - 1) {
        succ_list(nodes, j, k - 1).push((k - 1) as usize)
    } else {
        succ_list(nodes, j, k - 1)
    }
}

/// Every node that node `b` depends on is among `done`.
pub open spec fn ready<Id>(nodes: Seq<&[Resource<Id>]>, done: Seq<usize>, b: int) -> bool {
    forall|j: int| #[trigger] depends(nodes, j, b) ==> done.contains(j as usize)
}

/// The nodes of `l`, in order, whose predecessors are all among `done`.
pub open spec fn release_list<Id>(nodes: Seq<&[Resource<Id>]>, done: Seq<usize>, l: Seq<usize>) -> Seq<usize>
    decreases l.len(),
{
    if l.len() == 0 {
        Seq::empty()
    } else {
        let prev = release_list(nodes, done, l.drop_last());
        if ready(nodes, done, l.last() as int) {
            prev.push(l.last())
        } else {
            prev
        }
    }
}

/// The nodes among the first `k` that depend on no node, in increasing order.
pub open spec fn roots<Id>(nodes: Seq<&[Resource<Id>]>, k: int) -> Seq<usize>
    decreases k,
{
    if k <= 0 {
        Seq::empty()
    } else if ready(nodes, Seq::empty(), k - 1) {
        roots(nodes, k - 1).push((k - 1) as usize)
    } else {
        roots(nodes, k - 1)
    }
}

/// The order in which nodes become ready, once the first `m` of them have run: the nodes
/// without predecessors first, in increasing order; then, as each node runs, those of its
/// successors, in increasing order, whose predecessors have all run.
pub open spec fn queue_after<Id>(nodes: Seq<&[Resource<Id>]>, m: nat) -> Seq<usize>
    decreases m,
{
    if m == 0 {
        roots(nodes, nodes.len() as int)
    } else {
        let q = queue_after(nodes, (m - 1) as nat);
        if m - 1 < q.len() {
            q + release_list(nodes, q.take(m as int), succ_list(nodes, q[m - 1] as int, nodes.len() as int))
        } else {
            q
        }
    }
}

/// The schedule from the wave that starts at position `b` of the ready order, with the
/// accesses `t`: each wave is every node that became ready while the previous wave ran; its
/// barriers come first, then its nodes.
pub open spec fn schedule_from<Id>(t: Map<Id, AccessFlags>, nodes: Seq<&[Resource<Id>]>, b: nat) -> Seq<Step<usize, Id>>
    decreases nodes.len() - b,
{
    let q = queue_after(nodes, b);
    let e = q.len();
    if b < e <= nodes.len() {
        let w = q.subrange(b as int, e as int);
        let s = wave_barriers(t, nodes, w) + node_steps::<Id>(w);
        s + schedule_from(apply(t, s), nodes, e)
    } else {
        Seq::empty()
    }
}

/// Carrying out two lists of steps one after the other.
proof fn lemma_apply_concat<Id>(t: Map<Id, AccessFlags>, a: Seq<Step<usize, Id>>, b: Seq<Step<usize, Id>>)
    ensures
        apply(t, a + b) == apply(apply(t, a), b),
    decreases b.len(),
{
    if b.len() == 0 {
        assert(a + b =~= a);
    } else {
        lemma_apply_concat(t, a, b.drop_last());
        assert((a + b).drop_last() =~= a + b.drop_last());
        assert((a + b).last() == b.last());
    }
}

/// Running nodes changes no access.
proof fn lemma_apply_nodes<Id>(t: Map<Id, AccessFlags>, w: Seq<usize>)
    ensures
        apply(t, node_steps::<Id>(w)) == t,
    decreases w.len(),
{
    if w.len() > 0 {
        lemma_apply_nodes::<Id>(t, w.drop_last());
        assert(node_steps::<Id>(w).drop_last() =~= node_steps::<Id>(w.drop_last()));
    }
}

/// Appending a step leaves the earlier prefixes alone.
proof fn lemma_take_push<T>(s: Seq<T>, x: T, k: int)
    requires
        0 <= k <= s.len(),
    ensures
        s.push(x).take(k) == s.take(k),
{
    assert(s.push(x).take(k) =~= s.take(k));
}

/// Unfolds `apply` and `nodes_run` over an appended step.
proof fn lemma_apply_push<Id>(t: Map<Id, AccessFlags>, steps: Seq<Step<usize, Id>>, x: Step<usize, Id>)
    ensures
        apply(t, steps.push(x)) == match x {
            Step::Barrier(b) => apply(t, steps).insert(b.resource, b.dst_access),
            Step::Node(_) => apply(t, steps),
        },
        nodes_run(steps.push(x)) == match x {
            Step::Node(i) => nodes_run(steps).push(i),
            Step::Barrier(_) => nodes_run(steps),
        },
        steps.push(x).take(steps.len() as int) == steps,
{
    assert(steps.push(x).drop_last() =~= steps);
    assert(steps.push(x).take(steps.len() as int) =~= steps);
}

/// Returns `true` if the two lists of resources have a resource in common.
fn shares_resource<Id: ResourceKey>(a: &[Resource<Id>], b: &[Resource<Id>]) -> (r: bool)
    ensures
        r == shares(a@, b@),
{
    let mut x: usize = 0;
    while x < a.len()
        invariant
            x <= a@.len(),
            forall|i: int, j: int| 0 <= i < x && 0 <= j < b@.len() ==> a@[i].id != b@[j].id,
        decreases a@.len() - x,
    {
        let mut y: usize = 0;
        while y < b.len()
            invariant
                x < a@.len(),
                y <= b@.len(),
                forall|j: int| 0 <= j < y ==> a@[x as int].id != b@[j].id,
            decreases b@.len() - y,
        {
            if a[x].id.same(&b[y].id) {
                return true;
            }
            y = y + 1;
        }
        x = x + 1;
    }
    false
}

/// For each node, the earlier nodes it depends on; for each node, the later nodes that
/// depend on it, in increasing order.
fn build_graph<Id: ResourceKey>(nodes: &[&[Resource<Id>]]) -> (r: (Vec<Vec<usize>>, Vec<Vec<usize>>))
    ensures
        r.0@.len() == nodes@.len(),
        r.1@.len() == nodes@.len(),
        forall|i: int|
            0 <= i < nodes@.len() ==> (#[trigger] r.0@[i])@.no_duplicates()
                && forall|j: usize| #[trigger] r.0@[i]@.contains(j) == depends(nodes@, j as int, i),
        forall|j: int|
            0 <= j < nodes@.len() ==> (#[trigger] r.1@[j])@.no_duplicates()
                && forall|i: usize| #[trigger] r.1@[j]@.contains(i) == depends(nodes@, j, i as int),
        forall|j: int| 0 <= j < nodes@.len() ==> #[trigger] r.1@[j]@ == succ_list(nodes@, j, nodes@.len() as int),
{
    let n = nodes.len();
    let mut successors: Vec<Vec<usize>> = Vec::new();
    let mut k: usize = 0;
    while k < n
        invariant
            k <= n,
            n == nodes@.len(),
            successors@.len() == k,
            forall|j: int| 0 <= j < k ==> (#[trigger] successors@[j])@.len() == 0,
            forall|j: int| 0 <= j < k ==> #[trigger] successors@[j]@ == succ_list(nodes@, j, 0),
        decreases n - k,
    {
        successors.push(Vec::new());
        k = k + 1;
    }
    let mut pending: Vec<Vec<usize>> = Vec::new();
    let mut i: usize = 0;
    while i < n
        invariant
            i <= n,
            n == nodes@.len(),
            pending@.len() == i,
            successors@.len() == n,
            forall|a: int|
                0 <= a < i ==> (#[trigger] pending@[a])@.no_duplicates()
                    && forall|j: usize| #[trigger] pending@[a]@.contains(j) == depends(nodes@, j as int, a),
            forall|j: int|
                0 <= j < n ==> (#[trigger] successors@[j])@.no_duplicates()
                    && (forall|b: usize| #[trigger] successors@[j]@.contains(b) == (b < i && depends(nodes@, j, b as int)))
                    && (forall|q: int| 0 <= q < successors@[j]@.len() ==> #[trigger] successors@[j]@[q] < i),
            forall|a: int| 0 <= a < n ==> #[trigger] successors@[a]@ == succ_list(nodes@, a, i as int),
        decreases n - i,
    {
        let mut preds: Vec<usize> = Vec::new();
        let mut j: usize = 0;
        while j < i
            invariant
                j <= i,
                i < n,
                n == nodes@.len(),
                successors@.len() == n,
                preds@.no_duplicates(),
                forall|q: int| 0 <= q < preds@.len() ==> #[trigger] preds@[q] < j,
                forall|b: usize| #[trigger] preds@.contains(b) == (b < j && depends(nodes@, b as int, i as int)),
                forall|a: int|
                    0 <= a < n ==> (#[trigger] successors@[a])@.no_duplicates()
                        && (forall|b: usize| #[trigger] successors@[a]@.contains(b) == ((b < i && depends(nodes@, a, b as int))
                            || (b == i && a < j && depends(nodes@, a, i as int))))
                        && (forall|q: int| 0 <= q < successors@[a]@.len() ==> #[trigger] successors@[a]@[q] <= i),
                forall|a: int| 0 <= a < n ==> #[trigger] successors@[a]@ == if a < j {
                    succ_list(nodes@, a, i + 1)
                } else {
                    succ_list(nodes@, a, i as int)
                },
            decreases i - j,
        {
            proof {
                assert(succ_list(nodes@, j as int, i + 1) == if depends(nodes@, j as int, i as int) {
                    succ_list(nodes@, j as int, i as int).push(i)
                } else {
                    succ_list(nodes@, j as int, i as int)
                });
            }
            if shares_resource(nodes[j], nodes[i]) {
                let ghost old_preds = preds@;
                preds.push(j);
                proof {
                    assert forall|b: usize| #[trigger] preds@.contains(b) == (b < j + 1 && depends(nodes@, b as int, i as int)) by {
                        if preds@.contains(b) && b != j {
                            let q = choose|q: int| 0 <= q < preds@.len() && preds@[q] == b;
                            assert(old_preds[q] == b);
                        }
                        if old_preds.contains(b) {
                            let q = choose|q: int| 0 <= q < old_preds.len() && old_preds[q] == b;
                            assert(preds@[q] == b);
                        }
                        if b == j {
                            assert(preds@[preds@.len() - 1] == j);
                        }
                    }
                }
                let ghost old_succ = successors@;
                let mut list: Vec<usize> = Vec::new();
                std::mem::swap(&mut list, &mut successors[j]);
                let ghost old_list = list@;
                assert(old_list == old_succ[j as int]@);
                proof {
                    assert(!old_list.contains(i)) by {
                        if old_list.contains(i) {
                            let q = choose|q: int| 0 <= q < old_list.len() && old_list[q] == i;
                        }
                    }
                }
                list.push(i);
                std::mem::swap(&mut list, &mut successors[j]);
                proof {
                    assert forall|a: int| 0 <= a < n implies (#[trigger] successors@[a])@.no_duplicates()
                        && (forall|b: usize| #[trigger] successors@[a]@.contains(b) == ((b < i && depends(nodes@, a, b as int))
                            || (b == i && a < j + 1 && depends(nodes@, a, i as int))))
                        && (forall|q: int| 0 <= q < successors@[a]@.len() ==> #[trigger] successors@[a]@[q] <= i) by {
                        if a != j {
                            assert(successors@[a] == old_succ[a]);
                        } else {
                            assert(successors@[a]@ == old_list.push(i));
                            let l = successors@[a]@;
                            assert(l == old_list.push(i));
                            assert forall|b: usize| #[trigger] l.contains(b) == ((b < i && depends(nodes@, a, b as int))
                                || (b == i && a < j + 1 && depends(nodes@, a, i as int))) by {
                                if l.contains(b) && b != i {
                                    let q = choose|q: int| 0 <= q < l.len() && l[q] == b;
                                    assert(old_list[q] == b);
                                }
                                if old_list.contains(b) {
                                    let q = choose|q: int| 0 <= q < old_list.len() && old_list[q] == b;
                                    assert(l[q] == b);
                                }
                                if b == i {
                                    assert(l[l.len() - 1] == i);
                                }
                            }
                        }
                    }
                }
            }
            j = j + 1;
        }
        pending.push(preds);
        proof {
            assert forall|a: int| 0 <= a < n implies #[trigger] successors@[a]@ == succ_list(nodes@, a, i + 1) by {
                if a >= i {
                    assert(!depends(nodes@, a, i as int));
                }
            }
            assert forall|j: int| 0 <= j < n implies (#[trigger] successors@[j])@.no_duplicates()
                && (forall|b: usize| #[trigger] successors@[j]@.contains(b) == (b < i + 1 && depends(nodes@, j, b as int)))
                && (forall|q: int| 0 <= q < successors@[j]@.len() ==> #[trigger] successors@[j]@[q] < i + 1) by {
                assert forall|b: usize| #[trigger] successors@[j]@.contains(b) == (b < i + 1 && depends(nodes@, j, b as int)) by {
                    if b == i && depends(nodes@, j, b as int) {
                        assert(j < i);
                    }
                }
            }
        }
        i = i + 1;
    }
    (pending, successors)
}


/// A queue of fixed size that keeps every element ever pushed: taking returns the elements
/// pushed since the previous take.
#[derive(Debug)]
pub struct Queue<T> {
    items: Vec<T>,
    cap: usize,
    offset: usize,
}

impl<T: Copy> Queue<T> {
    /// Every element pushed so far, in order.
    pub closed spec fn items(&self) -> Seq<T> {
        self.items@
    }

    /// The number of elements that can ever be pushed.
    pub closed spec fn capacity(&self) -> nat {
        self.cap as nat
    }

    /// The number of elements already taken.
    pub closed spec fn taken(&self) -> nat {
        self.offset as nat
    }

    /// Creates an empty queue that accepts `len` elements in total.
    pub fn new_in(len: usize) -> (r: Self)
        ensures
            r.items().len() == 0,
            r.capacity() == len,
            r.taken() == 0,
    {
        Self { items: Vec::new(), cap: len, offset: 0 }
    }

    /// Pushes a new element to the back of the queue.
    pub fn push(&mut self, elem: T)
        requires
            old(self).items().len() < old(self).capacity(),
            old(self).taken() <= old(self).items().len(),
        ensures
            final(self).items() == old(self).items().push(elem),
            final(self).capacity() == old(self).capacity(),
            final(self).taken() == old(self).taken(),
    {
        self.items.push(elem);
    }

    /// Returns the elements pushed since the previous take.
    pub fn take_and_advance(&mut self) -> (r: Vec<T>)
        requires
            old(self).taken() <= old(self).items().len(),
        ensures
            r@ == old(self).items().subrange(old(self).taken() as int, old(self).items().len() as int),
            final(self).items() == old(self).items(),
            final(self).capacity() == old(self).capacity(),
            final(self).taken() == old(self).items().len(),
    {
        let mut r: Vec<T> = Vec::new();
        let mut i = self.offset;
        while i < self.items.len()
            invariant
                self.offset <= i <= self.items@.len(),
                r@ == self.items@.subrange(self.offset as int, i as int),
            decreases self.items@.len() - i,
        {
            r.push(self.items[i]);
            i = i + 1;
        }
        self.offset = self.items.len();
        r
    }
}

/// A sequence of distinct indices below `n` has at most `n` elements.
proof fn lemma_distinct_bounded(q: Seq<usize>, n: int)
    requires
        q.no_duplicates(),
        0 <= n,
        forall|p: int| 0 <= p < q.len() ==> q[p] < n,
    ensures
        q.len() <= n,
{
    let qi = q.map_values(|x: usize| x as int);
    assert(qi.no_duplicates()) by {
        assert forall|a: int, b: int| 0 <= a < qi.len() && 0 <= b < qi.len() && a != b implies qi[a] != qi[b] by {
            assert(q[a] != q[b]);
        }
    }
    qi.unique_seq_to_set();
    assert(qi.to_set().subset_of(vstd::set_lib::set_int_range(0, n))) by {
        assert forall|x: int| qi.to_set().contains(x) implies vstd::set_lib::set_int_range(0, n).contains(x) by {
            let p = choose|p: int| 0 <= p < qi.len() && qi[p] == x;
            assert(q[p] < n);
        }
    }
    vstd::set_lib::lemma_int_range(0, n);
    vstd::set_lib::lemma_len_subset(qi.to_set(), vstd::set_lib::set_int_range(0, n));
}

/// A sequence of distinct indices holding every index below `n` has at least `n` elements.
proof fn lemma_covering_len(q: Seq<usize>, n: int)
    requires
        q.no_duplicates(),
        0 <= n <= usize::MAX,
        forall|i: usize| i < n ==> #[trigger] q.contains(i),
    ensures
        q.len() >= n,
{
    let qi = q.map_values(|x: usize| x as int);
    assert(qi.no_duplicates()) by {
        assert forall|a: int, b: int| 0 <= a < qi.len() && 0 <= b < qi.len() && a != b implies qi[a] != qi[b] by {
            assert(q[a] != q[b]);
        }
    }
    qi.unique_seq_to_set();
    assert(vstd::set_lib::set_int_range(0, n).subset_of(qi.to_set())) by {
        assert forall|x: int| vstd::set_lib::set_int_range(0, n).contains(x) implies qi.to_set().contains(x) by {
            assert(q.contains(x as usize));
            let p = choose|p: int| 0 <= p < q.len() && q[p] == x as usize;
            assert(qi[p] == x);
        }
    }
    vstd::set_lib::lemma_int_range(0, n);
    vstd::seq_lib::seq_to_set_is_finite(qi);
    vstd::set_lib::lemma_len_subset(vstd::set_lib::set_int_range(0, n), qi.to_set());
}

/// Removes the value `x` from a vector without duplicates that holds it.
fn remove_value(v: &mut Vec<usize>, x: usize)
    requires
        old(v)@.contains(x),
        old(v)@.no_duplicates(),
    ensures
        final(v)@.no_duplicates(),
        forall|y: usize| #[trigger] final(v)@.contains(y) == (old(v)@.contains(y) && y != x),
        final(v)@.len() == old(v)@.len() - 1,
{
    let len = v.len();
    let mut i: usize = 0;
    while v[i] != x
        invariant
            i < v@.len(),
            len == v@.len(),
            v@ == old(v)@,
            v@.contains(x),
            forall|k: int| 0 <= k < i ==> v@[k] != x,
        decreases v@.len() - i,
    {
        proof {
            let k = choose|k: int| 0 <= k < v@.len() && v@[k] == x;
            assert(k != i);
            assert(k > i);
        }
        i = i + 1;
    }
    let ghost s = v@;
    v.remove(i);
    proof {
        assert(v@ == s.remove(i as int));
        assert forall|y: usize| #[trigger] v@.contains(y) == (s.contains(y) && y != x) by {
            if v@.contains(y) {
                let k = choose|k: int| 0 <= k < v@.len() && v@[k] == y;
                if k < i {
                    assert(s[k] == y);
                } else {
                    assert(s[k + 1] == y);
                    assert(k + 1 != i);
                }
            }
            if s.contains(y) && y != x {
                let k = choose|k: int| 0 <= k < s.len() && s[k] == y;
                assert(k != i);
                if k < i {
                    assert(v@[k] == y);
                } else {
                    assert(v@[k - 1] == y);
                }
            }
        }
    }
}

/// Appending a step that is a valid barrier, or a node whose resources are ready, keeps
/// the schedule's guarantees.
proof fn lemma_push_step<Id>(
    t0: Map<Id, AccessFlags>,
    nodes: Seq<&[Resource<Id>]>,
    before: Seq<Step<usize, Id>>,
    step: Step<usize, Id>,
)
    requires
        barriers_ok(t0, before),
        nodes_ready(t0, nodes, before),
        match step {
            Step::Barrier(b) => {
                &&& apply(t0, before).dom().contains(b.resource)
                &&& b.src_access == apply(t0, before)[b.resource]
                &&& !(b.dst_access == b.src_access && read_only(b.dst_access))
            },
            Step::Node(i) => forall|q: int|
                0 <= q < nodes[i as int]@.len() ==> apply(t0, before)[#[trigger] nodes[i as int]@[q].id]
                    == nodes[i as int]@[q].access,
        },
    ensures
        barriers_ok(t0, before.push(step)),
        nodes_ready(t0, nodes, before.push(step)),
        apply(t0, before.push(step)) == match step {
            Step::Barrier(b) => apply(t0, before).insert(b.resource, b.dst_access),
            Step::Node(_) => apply(t0, before),
        },
        nodes_run(before.push(step)) == match step {
            Step::Node(i) => nodes_run(before).push(i),
            Step::Barrier(_) => nodes_run(before),
        },
        before.push(step).take(before.len() as int) == before,
{
    lemma_apply_push(t0, before, step);
    let after = before.push(step);
    assert forall|s: int| 0 <= s < after.len() implies #[trigger] after[s] == (if s < before.len() {
        before[s]
    } else {
        step
    }) && after.take(s) == (if s < before.len() {
        before.take(s)
    } else {
        before
    }) by {
        lemma_take_push(before, step, s);
    }
}

/// Places the barriers that give each resource of a node the access the node needs,
/// skipping a resource that already has exactly the needed read-only access.
fn emit_barriers<Id: ResourceKey>(
    table: &mut AccessTable<Id>,
    res: &[Resource<Id>],
    steps: &mut Vec<Step<usize, Id>>,
    Ghost(t0): Ghost<Map<Id, AccessFlags>>,
    Ghost(nodes): Ghost<Seq<&[Resource<Id>]>>,
)
    requires
        old(table).wf(),
        old(table)@ == apply(t0, old(steps)@),
        barriers_ok(t0, old(steps)@),
        nodes_ready(t0, nodes, old(steps)@),
        distinct_ids(res@),
        forall|k: int| 0 <= k < res@.len() ==> old(table)@.dom().contains(#[trigger] res@[k].id),
    ensures
        final(table).wf(),
        final(table)@ == apply(t0, final(steps)@),
        barriers_ok(t0, final(steps)@),
        nodes_ready(t0, nodes, final(steps)@),
        final(steps)@.len() >= old(steps)@.len(),
        final(steps)@.take(old(steps)@.len() as int) == old(steps)@,
        nodes_run(final(steps)@) == nodes_run(old(steps)@),
        final(steps)@ == old(steps)@ + node_barriers(old(table)@, res@),
        final(table)@.dom() == old(table)@.dom(),
        forall|k: int| 0 <= k < res@.len() ==> final(table)@[#[trigger] res@[k].id] == res@[k].access,
        forall|x: Id|
            (forall|k: int| 0 <= k < res@.len() ==> #[trigger] res@[k].id != x) ==> final(table)@[x]
                == old(table)@[x],
{
    let ghost s0 = steps@;
    let mut k: usize = 0;
    while k < res.len()
        invariant
            k <= res@.len(),
            distinct_ids(res@),
            forall|q: int| 0 <= q < res@.len() ==> old(table)@.dom().contains(#[trigger] res@[q].id),
            table.wf(),
            table@ == apply(t0, steps@),
            barriers_ok(t0, steps@),
            nodes_ready(t0, nodes, steps@),
            steps@.len() >= s0.len(),
            steps@.take(s0.len() as int) == s0,
            nodes_run(steps@) == nodes_run(s0),
            steps@ == s0 + node_barriers(old(table)@, res@.take(k as int)),
            table@.dom() == old(table)@.dom(),
            forall|q: int| 0 <= q < k ==> table@[#[trigger] res@[q].id] == res@[q].access,
            forall|x: Id|
                (forall|q: int| 0 <= q < k ==> #[trigger] res@[q].id != x) ==> table@[x] == old(table)@[x],
        decreases res@.len() - k,
    {
        let r = res[k];
        assert(res@[k as int] == r);
        proof {
            assert(res@.take(k + 1).drop_last() =~= res@.take(k as int));
            assert(res@.take(k + 1).last() == r);
            assert forall|q: int| 0 <= q < k implies #[trigger] res@[q].id != r.id by {
                assert(res@[q].id != res@[k as int].id);
            }
        }
        let current = table.access(r.id);
        if !(r.access == current && r.access.is_read_only()) {
            let ghost before = steps@;
            let step = Step::Barrier(Barrier { resource: r.id, src_access: current, dst_access: r.access });
            steps.push(step);
            table.set_access(r.id, r.access);
            proof {
                lemma_push_step(t0, nodes, before, step);
                assert(steps@ =~= s0 + node_barriers(old(table)@, res@.take(k + 1)));
                assert(steps@.take(s0.len() as int) =~= s0) by {
                    assert(steps@.take(s0.len() as int) =~= before.take(s0.len() as int));
                }
                assert forall|q: int| 0 <= q < k + 1 implies table@[#[trigger] res@[q].id] == res@[q].access by {
                    if q < k {
                        assert(res@[q].id != res@[k as int].id);
                    }
                }
            }
        } else {
            proof {
                assert forall|q: int| 0 <= q < k + 1 implies table@[#[trigger] res@[q].id] == res@[q].access by {
                }
            }
        }
        k = k + 1;
    }
    proof {
        assert(res@.take(k as int) =~= res@);
    }
}


/// Every later node that a node depends on is listed before the position `ws[p]`.
pub open spec fn preds_before<Id>(nodes: Seq<&[Resource<Id>]>, items: Seq<usize>, ws: Seq<int>) -> bool {
    forall|p: int, j: int|
        0 <= p < items.len() && #[trigger] depends(nodes, j, items[p] as int) ==> items.take(ws[p]).contains(
            j as usize,
        )
}

/// Two nodes pushed while the same wave was processed access no common resource.
proof fn lemma_wave_independent<Id>(
    nodes: Seq<&[Resource<Id>]>,
    items: Seq<usize>,
    ws: Seq<int>,
    start: int,
    p1: int,
    p2: int,
)
    requires
        items.no_duplicates(),
        forall|p: int| 0 <= p < items.len() ==> #[trigger] items[p] < nodes.len(),
        ws.len() == items.len(),
        preds_before(nodes, items, ws),
        0 <= start <= p1 < items.len(),
        start <= p2 < items.len(),
        p1 != p2,
        ws[p1] == start,
        ws[p2] == start,
    ensures
        !shares(nodes[items[p1] as int]@, nodes[items[p2] as int]@),
{
    let a = items[p1] as int;
    let b = items[p2] as int;
    if shares(nodes[a]@, nodes[b]@) {
        assert(a != b);
        if a < b {
            assert(depends(nodes, a, items[p2] as int));
            assert(items.take(ws[p2]).contains(a as usize));
            let p = choose|p: int| 0 <= p < start && items.take(start)[p] == a as usize;
            assert(items[p] == items[p1]);
        } else {
            let (x, y) = choose|x: int, y: int|
                0 <= x < nodes[a]@.len() && 0 <= y < nodes[b]@.len() && #[trigger] nodes[a]@[x].id
                    == #[trigger] nodes[b]@[y].id;
            assert(shares(nodes[b]@, nodes[a]@)) by {
                assert(nodes[b]@[y].id == nodes[a]@[x].id);
            }
            assert(depends(nodes, b, items[p1] as int));
            assert(items.take(ws[p1]).contains(b as usize));
            let p = choose|p: int| 0 <= p < start && items.take(start)[p] == b as usize;
            assert(items[p] == items[p2]);
        }
    }
}

/// Once no node is waiting, every node has been queued.
proof fn lemma_all_queued<Id>(nodes: Seq<&[Resource<Id>]>, pending: Seq<Vec<usize>>, items: Seq<usize>, m: int)
    requires
        pending.len() == nodes.len(),
        0 <= m <= nodes.len(),
        forall|i: int, j: usize|
            0 <= i < nodes.len() ==> #[trigger] pending[i]@.contains(j) == (depends(nodes, j as int, i)
                && !items.contains(j)),
        forall|i: int| 0 <= i < nodes.len() ==> (#[trigger] pending[i]@.len() == 0) == items.contains(i as usize),
    ensures
        forall|i: usize| i < m ==> #[trigger] items.contains(i),
    decreases m,
{
    if m > 0 {
        lemma_all_queued(nodes, pending, items, m - 1);
        let i = m - 1;
        if pending[i]@.len() > 0 {
            let j = pending[i]@[0];
            assert(pending[i]@.contains(j));
            assert(depends(nodes, j as int, i));
            assert(items.contains(j));
        }
        assert(items.contains(i as usize));
    }
}


/// Marks node `idx`, at position `pos` of the queue, as run: it stops being a pending
/// predecessor of its successors, and each successor left without pending predecessors is
/// queued, in increasing order.
fn release_successors<Id>(
    pending: &mut Vec<Vec<usize>>,
    successors: &Vec<Vec<usize>>,
    queue: &mut Queue<usize>,
    idx: usize,
    Ghost(nv): Ghost<Seq<&[Resource<Id>]>>,
    Ghost(pos): Ghost<int>,
    Ghost(end): Ghost<int>,
    Ghost(ws): Ghost<Seq<int>>,
) -> (ws2: Ghost<Seq<int>>)
    requires
        old(pending)@.len() == nv.len(),
        successors@.len() == nv.len(),
        forall|j: int|
            0 <= j < nv.len() ==> (#[trigger] successors@[j])@.no_duplicates()
                && forall|b: usize| #[trigger] successors@[j]@.contains(b) == depends(nv, j, b as int),
        forall|a: int| 0 <= a < nv.len() ==> (#[trigger] old(pending)@[a])@.no_duplicates(),
        forall|a: int, j: usize|
            0 <= a < nv.len() ==> #[trigger] old(pending)@[a]@.contains(j) == (depends(nv, j as int, a)
                && !old(queue).items().take(pos).contains(j)),
        forall|x: usize| x < nv.len() ==> #[trigger] old(queue).items().contains(x) == (old(pending)@[x as int]@.len() == 0),
        old(queue).items().no_duplicates(),
        forall|p: int| 0 <= p < old(queue).items().len() ==> #[trigger] old(queue).items()[p] < nv.len(),
        0 <= pos < end <= old(queue).items().len() <= nv.len(),
        old(queue).taken() == end,
        old(queue).capacity() == nv.len(),
        old(queue).items()[pos] == idx,
        ws.len() == old(queue).items().len(),
        forall|p: int| 0 <= p < ws.len() ==> 0 <= #[trigger] ws[p] <= p,
        forall|p: int| end <= p < ws.len() ==> #[trigger] ws[p] == end,
        preds_before(nv, old(queue).items(), ws),
    ensures
        final(pending)@.len() == nv.len(),
        forall|a: int| 0 <= a < nv.len() ==> (#[trigger] final(pending)@[a])@.no_duplicates(),
        forall|a: int, j: usize|
            0 <= a < nv.len() ==> #[trigger] final(pending)@[a]@.contains(j) == (depends(nv, j as int, a)
                && !final(queue).items().take(pos + 1).contains(j)),
        forall|x: usize| x < nv.len() ==> #[trigger] final(queue).items().contains(x) == (final(pending)@[x as int]@.len() == 0),
        final(queue).items().no_duplicates(),
        forall|p: int| 0 <= p < final(queue).items().len() ==> #[trigger] final(queue).items()[p] < nv.len(),
        old(queue).items().len() <= final(queue).items().len() <= nv.len(),
        final(queue).items().take(old(queue).items().len() as int) == old(queue).items(),
        final(queue).taken() == end,
        final(queue).capacity() == nv.len(),
        ws2@.len() == final(queue).items().len(),
        ws2@.take(ws.len() as int) == ws,
        forall|p: int| 0 <= p < ws2@.len() ==> 0 <= #[trigger] ws2@[p] <= p,
        forall|p: int| end <= p < ws2@.len() ==> #[trigger] ws2@[p] == end,
        preds_before(nv, final(queue).items(), ws2@),
        final(queue).items() == old(queue).items() + release_list(nv, old(queue).items().take(pos + 1), successors@[idx as int]@),
{
    let ghost n = nv.len();
    let ghost items0 = queue.items();
    let ghost mut w = ws;
    let succs = &successors[idx];
    let mut k: usize = 0;
    while k < succs.len()
        invariant
            n == nv.len(),
            succs@ == successors@[idx as int]@,
            succs@.no_duplicates(),
            forall|b: usize| #[trigger] succs@.contains(b) == depends(nv, idx as int, b as int),
            k <= succs@.len(),
            pending@.len() == n,
            forall|a: int| 0 <= a < n ==> (#[trigger] pending@[a])@.no_duplicates(),
            forall|a: int, j: usize|
                0 <= a < n ==> #[trigger] pending@[a]@.contains(j) == (depends(nv, j as int, a)
                    && !items0.take(pos).contains(j) && !(j == idx && succs@.take(k as int).contains(a as usize))),
            forall|x: usize| x < n ==> #[trigger] queue.items().contains(x) == (pending@[x as int]@.len() == 0),
            queue.items().no_duplicates(),
            forall|p: int| 0 <= p < queue.items().len() ==> #[trigger] queue.items()[p] < n,
            items0.len() <= queue.items().len() <= n,
            queue.items().take(items0.len() as int) == items0,
            0 <= pos < end <= items0.len(),
            items0[pos] == idx,
            items0.no_duplicates(),
            queue.taken() == end,
            queue.capacity() == n,
            w.len() == queue.items().len(),
            w.take(ws.len() as int) == ws,
            ws.len() == items0.len(),
            forall|p: int| 0 <= p < w.len() ==> 0 <= #[trigger] w[p] <= p,
            forall|p: int| end <= p < w.len() ==> #[trigger] w[p] == end,
            preds_before(nv, queue.items(), w),
            queue.items() == items0 + release_list(nv, items0.take(pos + 1), succs@.take(k as int)),
        decreases succs@.len() - k,
    {
        let succ = succs[k];
        proof {
            assert(succs@.contains(succ));
            assert(depends(nv, idx as int, succ as int));
            assert(!items0.take(pos).contains(idx)) by {
                if items0.take(pos).contains(idx) {
                    let p = choose|p: int| 0 <= p < pos && items0.take(pos)[p] == idx;
                    assert(items0[p] == items0[pos]);
                }
            }
            assert(!succs@.take(k as int).contains(succ)) by {
                if succs@.take(k as int).contains(succ) {
                    let p = choose|p: int| 0 <= p < k && succs@.take(k as int)[p] == succ;
                    assert(succs@[p] == succs@[k as int]);
                }
            }
            assert(pending@[succ as int]@.contains(idx));
        }
        let ghost old_pending = pending@;
        let mut list: Vec<usize> = Vec::new();
        std::mem::swap(&mut list, &mut pending[succ]);
        let ghost list_before = list@;
        assert(list_before == old_pending[succ as int]@);
        remove_value(&mut list, idx);
        let ghost list_after = list@;
        let now_empty = list.len() == 0;
        std::mem::swap(&mut list, &mut pending[succ]);
        proof {
            let done = items0.take(pos + 1);
            assert(succs@.take(k + 1).drop_last() =~= succs@.take(k as int));
            assert(succs@.take(k + 1).last() == succ);
            assert forall|j: usize| #[trigger] done.contains(j) == (items0.take(pos).contains(j) || j == idx) by {
                if done.contains(j) {
                    let r = choose|r: int| 0 <= r < pos + 1 && done[r] == j;
                    if r < pos {
                        assert(items0.take(pos)[r] == j);
                    }
                }
                if items0.take(pos).contains(j) {
                    let r = choose|r: int| 0 <= r < pos && items0.take(pos)[r] == j;
                    assert(done[r] == j);
                }
                if j == idx {
                    assert(done[pos] == idx);
                }
            }
            assert forall|j: usize| #[trigger] list_after.contains(j) == (depends(nv, j as int, succ as int) && !done.contains(j)) by {
                assert(list_after.contains(j) == (list_before.contains(j) && j != idx));
                assert(list_before == old_pending[succ as int]@);
            }
            if now_empty {
                assert forall|j: int| #[trigger] depends(nv, j, succ as int) implies done.contains(j as usize) by {
                    assert(j >= 0);
                    assert(!list_after.contains(j as usize));
                }
            } else {
                let j = list_after[0];
                assert(list_after.contains(j));
                assert(depends(nv, j as int, succ as int));
            }
            assert(now_empty == ready(nv, done, succ as int));
        }
        proof {
            assert(pending@[succ as int]@ == list_after);
            assert(succs@.take(k + 1) =~= succs@.take(k as int).push(succ));
            assert forall|a: int, j: usize| 0 <= a < n implies #[trigger] pending@[a]@.contains(j) == (depends(nv, j as int, a)
                && !items0.take(pos).contains(j) && !(j == idx && succs@.take(k + 1).contains(a as usize))) by {
                if a != succ as int {
                    assert(pending@[a] == old_pending[a]);
                    assert(succs@.take(k + 1).contains(a as usize) == succs@.take(k as int).contains(a as usize)) by {
                        if succs@.take(k + 1).contains(a as usize) {
                            let r = choose|r: int| 0 <= r < k + 1 && #[trigger] succs@.take(k + 1)[r] == a as usize;
                            if r < k {
                                assert(succs@.take(k as int)[r] == a as usize);
                            }
                        }
                        if succs@.take(k as int).contains(a as usize) {
                            let r = choose|r: int| 0 <= r < k && #[trigger] succs@.take(k as int)[r] == a as usize;
                            assert(succs@.take(k + 1)[r] == a as usize);
                        }
                    }
                } else {
                    assert(list_after.contains(j) == (list_before.contains(j) && j != idx));
                    assert(succs@.take(k + 1).contains(succ)) by {
                        assert(succs@.take(k + 1)[k as int] == succ);
                    }
                }
            }
        }
        if now_empty {
            let ghost before = queue.items();
            proof {
                assert(!before.contains(succ));
                let after = before.push(succ);
                assert(after.no_duplicates()) by {
                    assert forall|a: int, b: int| 0 <= a < after.len() && 0 <= b < after.len() && a != b implies after[a] != after[b] by {
                        if a < before.len() && b < before.len() {
                        } else if a < before.len() {
                            assert(before.contains(after[a]));
                        } else {
                            assert(before.contains(after[b]));
                        }
                    }
                }
                lemma_distinct_bounded(after, n as int);
            }
            queue.push(succ);
            proof {
                let items = queue.items();
                assert(items == before.push(succ));
                w = w.push(end);
                assert(items.take(items0.len() as int) =~= before.take(items0.len() as int));
                assert(w.take(ws.len() as int) =~= ws) by {
                    assert(w.take(ws.len() as int) =~= w.drop_last().take(ws.len() as int));
                }
                assert forall|p: int, j: int|
                    0 <= p < items.len() && #[trigger] depends(nv, j, items[p] as int) implies items.take(w[p]).contains(j as usize) by {
                    if p < before.len() {
                        assert(items[p] == before[p]);
                        assert(before.take(w[p]).contains(j as usize));
                        let r = choose|r: int| 0 <= r < w[p] && before.take(w[p])[r] == j as usize;
                        assert(items.take(w[p])[r] == j as usize);
                    } else {
                        assert(items[p] == succ);
                        assert(!pending@[succ as int]@.contains(j as usize));
                        assert(j as usize == idx || items0.take(pos).contains(j as usize));
                        if j as usize == idx {
                            assert(items.take(end)[pos] == idx);
                        } else {
                            let r = choose|r: int| 0 <= r < pos && items0.take(pos)[r] == j as usize;
                            assert(items.take(end)[r] == j as usize);
                        }
                    }
                }
                assert forall|x: usize| x < n implies #[trigger] items.contains(x) == (pending@[x as int]@.len() == 0) by {
                    if items.contains(x) && x != succ {
                        let p = choose|p: int| 0 <= p < items.len() && items[p] == x;
                        assert(before[p] == x);
                    }
                    if x == succ {
                        assert(items[before.len() as int] == succ);
                    }
                    if before.contains(x) {
                        let p = choose|p: int| 0 <= p < before.len() && before[p] == x;
                        assert(items[p] == x);
                    }
                }
            }
        }
        k = k + 1;
    }
    proof {
        let items = queue.items();
        assert(succs@.take(succs@.len() as int) =~= succs@);
        assert(items.take(pos + 1) =~= items0.take(pos).push(idx)) by {
            assert(items.take(pos + 1) =~= items0.take(pos + 1));
        }
    }
    Ghost(w)
}

/// Orders nodes by their resource accesses and places the barriers they need.
#[derive(Debug)]
pub struct Scheduler {}

impl Scheduler {
    /// Creates a scheduler.
    pub fn new() -> (r: Self)
        ensures
            r == (Scheduler {}),
    {
        Self {}
    }

    /// Orders the nodes and places the barriers they need.
    ///
    /// A node runs after every earlier node that accesses a resource it accesses. Nodes run
    /// in waves: all nodes whose predecessors have run form the next wave, the barriers of
    /// the wave's nodes come first, then its nodes. A barrier moves a resource from its
    /// current access to the one a node needs; none is placed when the resource already has
    /// exactly the needed access and that access only reads.
    pub fn schedule<Id: ResourceKey>(
        &mut self,
        table: &mut AccessTable<Id>,
        nodes: &[&[Resource<Id>]],
    ) -> (steps: Vec<Step<usize, Id>>)
        requires
            old(table).wf(),
            forall|i: int| 0 <= i < nodes@.len() ==> distinct_ids(#[trigger] nodes@[i]@),
            forall|i: int, k: int|
                0 <= i < nodes@.len() && 0 <= k < nodes@[i]@.len() ==> old(table)@.dom().contains(
                    #[trigger] nodes@[i]@[k].id,
                ),
        ensures
            final(table).wf(),
            final(table)@ == apply(old(table)@, steps@),
            barriers_ok(old(table)@, steps@),
            nodes_ready(old(table)@, nodes@, steps@),
            nodes_run(steps@).len() == nodes@.len(),
            nodes_run(steps@).no_duplicates(),
            forall|i: usize| i < nodes@.len() ==> #[trigger] nodes_run(steps@).contains(i),
            forall|p: int, q: int|
                0 <= p < q < nodes@.len() ==> !depends(
                    nodes@,
                    #[trigger] nodes_run(steps@)[q] as int,
                    #[trigger] nodes_run(steps@)[p] as int,
                ),
            steps@ == schedule_from(old(table)@, nodes@, 0),
    {
        let n = nodes.len();
        let ghost t0 = table@;
        let ghost nv = nodes@;
        let (mut pending, successors) = build_graph(nodes);
        let mut queue: Queue<usize> = Queue::new_in(n);
        let ghost mut ws: Seq<int> = Seq::empty();
        let mut i: usize = 0;
        while i < n
            invariant
                i <= n,
                n == nv.len(),
                nv == nodes@,
                pending@.len() == n,
                forall|a: int|
                    0 <= a < n ==> (#[trigger] pending@[a])@.no_duplicates()
                        && forall|j: usize| #[trigger] pending@[a]@.contains(j) == depends(nv, j as int, a),
                queue.items().no_duplicates(),
                forall|p: int| 0 <= p < queue.items().len() ==> #[trigger] queue.items()[p] < i,
                forall|x: usize| x < n ==> #[trigger] queue.items().contains(x) == (x < i && pending@[x as int]@.len() == 0),
                queue.taken() == 0,
                queue.capacity() == n,
                ws.len() == queue.items().len(),
                forall|p: int| 0 <= p < ws.len() ==> #[trigger] ws[p] == 0,
                preds_before(nv, queue.items(), ws),
                queue.items() == roots(nv, i as int),
            decreases n - i,
        {
            proof {
                if pending@[i as int]@.len() == 0 {
                    assert forall|j: int| #[trigger] depends(nv, j, i as int) implies Seq::<usize>::empty().contains(j as usize) by {
                        assert(pending@[i as int]@.contains(j as usize) == depends(nv, j, i as int));
                    }
                } else {
                    let j = pending@[i as int]@[0];
                    assert(pending@[i as int]@.contains(j));
                    assert(depends(nv, j as int, i as int));
                    assert(!Seq::<usize>::empty().contains(j));
                }
                assert((pending@[i as int]@.len() == 0) == ready(nv, Seq::<usize>::empty(), i as int));
            }
            if pending[i].len() == 0 {
                let ghost before = queue.items();
                proof {
                    lemma_distinct_bounded(before, i as int);
                }
                queue.push(i);
                proof {
                    ws = ws.push(0);
                    assert forall|p: int, j: int|
                        0 <= p < queue.items().len() && #[trigger] depends(nv, j, queue.items()[p] as int) implies queue.items().take(ws[p]).contains(j as usize) by {
                        if p < before.len() {
                            assert(queue.items()[p] == before[p]);
                            assert(before.take(ws[p]).contains(j as usize));
                        } else {
                            assert(pending@[i as int]@.contains(j as usize) == depends(nv, j, i as int));
                            if pending@[i as int]@.len() == 0 {
                                assert(!pending@[i as int]@.contains(j as usize));
                            }
                        }
                    }
                    assert forall|x: usize| x < n implies #[trigger] queue.items().contains(x) == (x < i + 1 && pending@[x as int]@.len() == 0) by {
                        if queue.items().contains(x) && x != i {
                            let p = choose|p: int| 0 <= p < queue.items().len() && queue.items()[p] == x;
                            assert(before[p] == x);
                        }
                        if x == i {
                            assert(queue.items()[before.len() as int] == i);
                        }
                        if before.contains(x) {
                            let p = choose|p: int| 0 <= p < before.len() && before[p] == x;
                            assert(queue.items()[p] == x);
                        }
                    }
                }
            }
            i = i + 1;
        }
        let mut steps: Vec<Step<usize, Id>> = Vec::new();
        proof {
            lemma_distinct_bounded(queue.items(), n as int);
            assert forall|a: int, j: usize| 0 <= a < n implies #[trigger] pending@[a]@.contains(j) == (depends(nv, j as int, a)
                && !queue.items().take(0).contains(j)) by {
            }
            assert(nodes_run(steps@) =~= queue.items().take(0));
            assert(queue.items() == queue_after(nv, 0));
            assert(steps@ + schedule_from(table@, nv, 0) =~= schedule_from(t0, nv, 0));
        }
        loop
            invariant
                n == nv.len(),
                nv == nodes@,
                pending@.len() == n,
                successors@.len() == n,
                forall|j: int|
                    0 <= j < n ==> (#[trigger] successors@[j])@.no_duplicates()
                        && forall|b: usize| #[trigger] successors@[j]@.contains(b) == depends(nv, j, b as int),
                forall|a: int| 0 <= a < n ==> (#[trigger] pending@[a])@.no_duplicates(),
                forall|a: int, j: usize|
                    0 <= a < n ==> #[trigger] pending@[a]@.contains(j) == (depends(nv, j as int, a)
                        && !queue.items().take(queue.taken() as int).contains(j)),
                forall|x: usize| x < n ==> #[trigger] queue.items().contains(x) == (pending@[x as int]@.len() == 0),
                queue.items().no_duplicates(),
                forall|p: int| 0 <= p < queue.items().len() ==> #[trigger] queue.items()[p] < n,
                queue.taken() <= queue.items().len() <= n,
                queue.capacity() == n,
                ws.len() == queue.items().len(),
                forall|p: int| 0 <= p < ws.len() ==> 0 <= #[trigger] ws[p] <= p,
                forall|p: int| queue.taken() <= p < ws.len() ==> #[trigger] ws[p] == queue.taken(),
                preds_before(nv, queue.items(), ws),
                forall|a: int| 0 <= a < n ==> distinct_ids(#[trigger] nv[a]@),
                forall|a: int, k: int|
                    0 <= a < n && 0 <= k < nv[a]@.len() ==> t0.dom().contains(#[trigger] nv[a]@[k].id),
                table.wf(),
                table@.dom() == t0.dom(),
                table@ == apply(t0, steps@),
                barriers_ok(t0, steps@),
                nodes_ready(t0, nv, steps@),
                nodes_run(steps@) == queue.items().take(queue.taken() as int),
                forall|j: int| 0 <= j < n ==> #[trigger] successors@[j]@ == succ_list(nv, j, n as int),
                queue.items() == queue_after(nv, queue.taken()),
                steps@ + schedule_from(table@, nv, queue.taken()) == schedule_from(t0, nv, 0),
            ensures
                queue.taken() == queue.items().len(),
                forall|a: int, j: usize|
                    0 <= a < n ==> #[trigger] pending@[a]@.contains(j) == (depends(nv, j as int, a)
                        && !queue.items().contains(j)),
                forall|x: usize| x < n ==> #[trigger] queue.items().contains(x) == (pending@[x as int]@.len() == 0),
                queue.items().no_duplicates(),
                forall|p: int| 0 <= p < queue.items().len() ==> #[trigger] queue.items()[p] < n,
                queue.items().len() <= n,
                ws.len() == queue.items().len(),
                forall|p: int| 0 <= p < ws.len() ==> 0 <= #[trigger] ws[p] <= p,
                preds_before(nv, queue.items(), ws),
                table.wf(),
                table@ == apply(t0, steps@),
                barriers_ok(t0, steps@),
                nodes_ready(t0, nv, steps@),
                nodes_run(steps@) == queue.items(),
                steps@ == schedule_from(t0, nv, 0),
            decreases n - queue.taken(),
        {
            let ghost start = queue.taken() as int;
            let wave = queue.take_and_advance();
            let ghost end = queue.taken() as int;
            let ghost qs = queue.items();
            let ghost sb = steps@;
            let ghost tb = table@;
            if wave.len() == 0 {
                proof {
                    assert(queue.items().take(end) =~= queue.items());
                    assert(schedule_from(table@, nv, end as nat) == Seq::<Step<usize, Id>>::empty());
                    assert(steps@ + Seq::<Step<usize, Id>>::empty() =~= steps@);
                }
                break;
            }
            proof {
                lemma_apply_concat(t0, sb, Seq::<Step<usize, Id>>::empty());
                assert(sb + Seq::<Step<usize, Id>>::empty() =~= sb);
                assert(wave@.take(0) =~= Seq::<usize>::empty());
                assert(sb + wave_barriers(tb, nv, wave@.take(0)) =~= sb);
            }
            proof {
                assert forall|p: int| start <= p < end implies #[trigger] ws[p] == start by {}
            }
            let mut t: usize = 0;
            while t < wave.len()
                invariant
                    n == nv.len(),
                    nv == nodes@,
                    0 <= start < end <= queue.items().len() <= n,
                    end == start + wave@.len(),
                    queue.taken() == end,
                    queue.capacity() == n,
                    wave@ == queue.items().subrange(start, end),
                    t <= wave@.len(),
                    pending@.len() == n,
                    successors@.len() == n,
                    forall|j: int|
                        0 <= j < n ==> (#[trigger] successors@[j])@.no_duplicates()
                            && forall|b: usize| #[trigger] successors@[j]@.contains(b) == depends(nv, j, b as int),
                    forall|a: int| 0 <= a < n ==> (#[trigger] pending@[a])@.no_duplicates(),
                    forall|a: int, j: usize|
                        0 <= a < n ==> #[trigger] pending@[a]@.contains(j) == (depends(nv, j as int, a)
                            && !queue.items().take(start + t).contains(j)),
                    forall|x: usize| x < n ==> #[trigger] queue.items().contains(x) == (pending@[x as int]@.len() == 0),
                    queue.items().no_duplicates(),
                    forall|p: int| 0 <= p < queue.items().len() ==> #[trigger] queue.items()[p] < n,
                    ws.len() == queue.items().len(),
                    forall|p: int| 0 <= p < ws.len() ==> 0 <= #[trigger] ws[p] <= p,
                    forall|p: int| start <= p < end ==> #[trigger] ws[p] == start,
                    forall|p: int| end <= p < ws.len() ==> #[trigger] ws[p] == end,
                    preds_before(nv, queue.items(), ws),
                    forall|a: int| 0 <= a < n ==> distinct_ids(#[trigger] nv[a]@),
                    forall|a: int, k: int|
                        0 <= a < n && 0 <= k < nv[a]@.len() ==> t0.dom().contains(#[trigger] nv[a]@[k].id),
                    table.wf(),
                    table@.dom() == t0.dom(),
                    table@ == apply(t0, steps@),
                    barriers_ok(t0, steps@),
                    nodes_ready(t0, nv, steps@),
                    nodes_run(steps@) == queue.items().take(start),
                    forall|u: int, k: int|
                        0 <= u < t && 0 <= k < nv[wave@[u] as int]@.len() ==> table@[#[trigger] nv[wave@[u] as int]@[k].id]
                            == nv[wave@[u] as int]@[k].access,
                    forall|j: int| 0 <= j < n ==> #[trigger] successors@[j]@ == succ_list(nv, j, n as int),
                    queue.items() == queue_after(nv, (start + t) as nat),
                    qs == queue_after(nv, start as nat),
                    qs.len() == end,
                    wave@ == qs.subrange(start, end),
                    tb == apply(t0, sb),
                    sb + schedule_from(tb, nv, start as nat) == schedule_from(t0, nv, 0),
                    steps@ == sb + wave_barriers(tb, nv, wave@.take(t as int)),
                decreases wave@.len() - t,
            {
                let idx = wave[t];
                assert(queue.items()[start + t] == idx);
                let ghost items_before = queue.items();
                let ghost ws_before = ws;
                let Ghost(ws2) = release_successors::<Id>(
                    &mut pending,
                    &successors,
                    &mut queue,
                    idx,
                    Ghost(nv),
                    Ghost(start + t),
                    Ghost(end),
                    Ghost(ws),
                );
                proof {
                    ws = ws2;
                    assert(queue.items().subrange(start, end) =~= items_before.subrange(start, end)) by {
                        assert forall|p: int| 0 <= p < end - start implies #[trigger] queue.items().subrange(start, end)[p]
                            == items_before.subrange(start, end)[p] by {
                            assert(queue.items().take(items_before.len() as int)[start + p] == items_before[start + p]);
                        }
                    }
                    assert forall|p: int| 0 <= p < ws_before.len() implies #[trigger] ws[p] == ws_before[p] by {
                        assert(ws.take(ws_before.len() as int)[p] == ws[p]);
                    }
                    assert(queue.items().take(start + t) =~= items_before.take(start + t)) by {
                        assert forall|p: int| 0 <= p < start + t implies #[trigger] queue.items().take(start + t)[p]
                            == items_before.take(start + t)[p] by {
                            assert(queue.items().take(items_before.len() as int)[p] == items_before[p]);
                        }
                    }
                    assert(queue.items()[start + t] == idx) by {
                        assert(queue.items().take(items_before.len() as int)[start + t] == items_before[start + t]);
                    }
                }
                let ghost table_before = table@;
                let ghost steps_before = steps@;
                proof {
                    lemma_apply_concat(t0, sb, wave_barriers(tb, nv, wave@.take(t as int)));
                }
                emit_barriers(table, nodes[idx], &mut steps, Ghost(t0), Ghost(nv));
                proof {
                    assert(wave@.take(t + 1).drop_last() =~= wave@.take(t as int));
                    assert(wave@.take(t + 1).last() == idx);
                    assert(steps@ =~= sb + wave_barriers(tb, nv, wave@.take(t + 1)));
                    assert(items_before == queue_after(nv, (start + t) as nat));
                    assert(items_before[start + t] == idx);
                    assert(queue.items() == queue_after(nv, (start + t + 1) as nat));
                }
                proof {
                    assert forall|u: int, k: int|
                        0 <= u < t + 1 && 0 <= k < nv[wave@[u] as int]@.len() implies table@[#[trigger] nv[wave@[u] as int]@[k].id]
                            == nv[wave@[u] as int]@[k].access by {
                        if u < t {
                            lemma_wave_independent(nv, queue.items(), ws, start, start + u, start + t);
                            let x = nv[wave@[u] as int]@[k].id;
                            assert forall|q: int| 0 <= q < nv[idx as int]@.len() implies #[trigger] nv[idx as int]@[q].id != x by {
                                if nv[idx as int]@[q].id == x {
                                    assert(shares(nv[wave@[u] as int]@, nv[idx as int]@));
                                }
                            }
                        }
                    }
                }
                t = t + 1;
            }
            proof {
                assert(wave@.take(t as int) =~= wave@);
                assert(wave@.take(0) =~= Seq::<usize>::empty());
                assert(node_steps::<Id>(wave@.take(0)) =~= Seq::<Step<usize, Id>>::empty());
                assert(steps@ =~= sb + wave_barriers(tb, nv, wave@) + node_steps::<Id>(wave@.take(0)));
            }
            let mut t: usize = 0;
            while t < wave.len()
                invariant
                    n == nv.len(),
                    0 <= start < end <= queue.items().len() <= n,
                    end == start + wave@.len(),
                    wave@ == queue.items().subrange(start, end),
                    t <= wave@.len(),
                    table@ == apply(t0, steps@),
                    barriers_ok(t0, steps@),
                    nodes_ready(t0, nv, steps@),
                    nodes_run(steps@) == queue.items().take(start + t),
                    forall|u: int, k: int|
                        0 <= u < wave@.len() && 0 <= k < nv[wave@[u] as int]@.len() ==> table@[#[trigger] nv[wave@[u] as int]@[k].id]
                            == nv[wave@[u] as int]@[k].access,
                    queue.items() == queue_after(nv, end as nat),
                    steps@ == sb + wave_barriers(tb, nv, wave@) + node_steps::<Id>(wave@.take(t as int)),
                decreases wave@.len() - t,
            {
                let ghost before = steps@;
                let step = Step::Node(wave[t]);
                proof {
                    assert forall|q: int| 0 <= q < nv[wave@[t as int] as int]@.len() implies apply(t0, before)[#[trigger] nv[wave@[t as int] as int]@[q].id]
                        == nv[wave@[t as int] as int]@[q].access by {
                    }
                    lemma_push_step(t0, nv, before, step);
                }
                steps.push(step);
                proof {
                    assert(queue.items().take(start + t + 1) =~= queue.items().take(start + t).push(wave@[t as int]));
                    assert(node_steps::<Id>(wave@.take(t + 1)) =~= node_steps::<Id>(wave@.take(t as int)).push(step));
                    assert(steps@ =~= sb + wave_barriers(tb, nv, wave@) + node_steps::<Id>(wave@.take(t + 1)));
                }
                t = t + 1;
            }
            proof {
                let wb = wave_barriers(tb, nv, wave@);
                let ns = node_steps::<Id>(wave@);
                assert(wave@.take(t as int) =~= wave@);
                assert(wave@ == qs.subrange(start, end));
                lemma_apply_concat(tb, wb, ns);
                lemma_apply_nodes::<Id>(apply(tb, wb), wave@);
                lemma_apply_concat(t0, sb, wb + ns);
                assert(sb + (wb + ns) =~= steps@);
                assert(schedule_from(tb, nv, start as nat) == (wb + ns) + schedule_from(apply(tb, wb + ns), nv, end as nat));
                assert(steps@ + schedule_from(table@, nv, end as nat) =~= sb + schedule_from(tb, nv, start as nat));
            }
            proof {
                assert forall|a: int, j: usize| 0 <= a < n implies #[trigger] pending@[a]@.contains(j) == (depends(nv, j as int, a)
                        && !queue.items().take(queue.taken() as int).contains(j)) by {
                }
            }
        }
        proof {
            lemma_all_queued(nv, pending@, queue.items(), n as int);
            let items = queue.items();
            lemma_distinct_bounded(items, n as int);
            lemma_covering_len(items, n as int);
            assert forall|p: int, q: int| 0 <= p < q < n implies !depends(nv, #[trigger] items[q] as int, #[trigger] items[p] as int) by {
                if depends(nv, items[q] as int, items[p] as int) {
                    assert(items.take(ws[p]).contains(items[q]));
                    let r = choose|r: int| 0 <= r < ws[p] && items.take(ws[p])[r] == items[q];
                    assert(items[r] == items[q]);
                }
            }
        }
        steps
    }
}

} // verus!
