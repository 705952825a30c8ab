use vstd::prelude::*;

use crate::graph::{
    contains_label, label_keys, list_views, order_nodes, ordered_keys, valid_order, Dependency, NodeLabel,
    NodeState, RenderGraph, ScheduleError, SlotFlags, SlotLabel,
};
use crate::permutation::{mix, PermutationSet};

verus! {

/// Orders the nodes of a render graph so that every node runs after the nodes it depends on
/// and after a node that writes each slot it reads.
pub struct RenderGraphScheduler;

/// The flags include a read.
pub open spec fn reads(f: SlotFlags) -> bool {
    f.value() & 1 == 1
}

/// The flags include a write.
pub open spec fn writes(f: SlotFlags) -> bool {
    f.value() & 2 == 2
}

/// The nodes that `deps` names directly, in order.
pub open spec fn declared_nodes(deps: Seq<Dependency>) -> Seq<NodeLabel>
    decreases deps.len(),
{
    if deps.len() == 0 {
        Seq::empty()
    } else {
        let rest = declared_nodes(deps.drop_last());
        match deps.last() {
            Dependency::Node(l) => rest.push(l),
            Dependency::Slot(..) => rest,
        }
    }
}

/// The entry `i` once for each dependency in `deps` that writes the slot with key `key`.
pub open spec fn write_entries(deps: Seq<Dependency>, key: Seq<char>, i: int) -> Seq<int>
    decreases deps.len(),
{
    if deps.len() == 0 {
        Seq::empty()
    } else {
        let rest = write_entries(deps.drop_last(), key, i);
        match deps.last() {
            Dependency::Slot(l, _, f) => if l.key() == key && writes(f) {
                rest.push(i)
            } else {
                rest
            },
            Dependency::Node(_) => rest,
        }
    }
}

/// The positions of the nodes that write the slot with key `key`, in graph order, once per
/// dependency that declares the write.
pub open spec fn writers(nodes: Seq<NodeState>, key: Seq<char>) -> Seq<int>
    decreases nodes.len(),
{
    if nodes.len() == 0 {
        Seq::empty()
    } else {
        writers(nodes.drop_last(), key) + write_entries(nodes.last().dependencies@, key, nodes.len() - 1)
    }
}

/// The slots that `deps` reads, in order, each paired with the reading node `i`.
pub open spec fn read_entries(deps: Seq<Dependency>, i: int) -> Seq<(int, SlotLabel)>
    decreases deps.len(),
{
    if deps.len() == 0 {
        Seq::empty()
    } else {
        let rest = read_entries(deps.drop_last(), i);
        match deps.last() {
            Dependency::Slot(l, _, f) => if reads(f) {
                rest.push((i, l))
            } else {
                rest
            },
            Dependency::Node(_) => rest,
        }
    }
}

/// Every slot read of the graph, node by node in graph order.
pub open spec fn read_requests(nodes: Seq<NodeState>) -> Seq<(int, SlotLabel)>
    decreases nodes.len(),
{
    if nodes.len() == 0 {
        Seq::empty()
    } else {
        read_requests(nodes.drop_last()) + read_entries(nodes.last().dependencies@, nodes.len() - 1)
    }
}

/// The writers among `ws` that can provide a slot to the node `i`: not the node itself, and
/// not a node that already has to run after it.
pub open spec fn eligible(nodes: Seq<NodeState>, fixed: Seq<Seq<NodeLabel>>, i: int, ws: Seq<int>) -> Seq<int>
    decreases ws.len(),
{
    if ws.len() == 0 {
        Seq::empty()
    } else {
        let rest = eligible(nodes, fixed, i, ws.drop_last());
        let w = ws.last();
        if nodes[w].label.key() != nodes[i].label.key() && !label_keys(fixed[w]).contains(
            nodes[i].label.key(),
        ) {
            rest.push(w)
        } else {
            rest
        }
    }
}

/// The dependency lists before any slot is resolved: the nodes each node names.
pub open spec fn initial_lists(nodes: Seq<NodeState>) -> Seq<Seq<NodeLabel>> {
    Seq::new(nodes.len(), |i: int| declared_nodes(nodes[i].dependencies@))
}

/// Resolves the slot reads `reqs` in order. A read with no possible writer fails; a read with
/// exactly one adds that writer to the reader's list; a read with several is kept as a choice
/// `(reader, writers)`.
pub open spec fn resolve(nodes: Seq<NodeState>, reqs: Seq<(int, SlotLabel)>) -> Result<
    (Seq<Seq<NodeLabel>>, Seq<(int, Seq<int>)>),
    ScheduleError,
>
    decreases reqs.len(),
{
    if reqs.len() == 0 {
        Ok((initial_lists(nodes), Seq::empty()))
    } else {
        match resolve(nodes, reqs.drop_last()) {
            Err(e) => Err(e),
            Ok(state) => {
                let fixed = state.0;
                let opts = state.1;
                let i = reqs.last().0;
                let s = reqs.last().1;
                let src = eligible(nodes, fixed, i, writers(nodes, s.key()));
                if src.len() == 0 {
                    Err(ScheduleError::NoSource(nodes[i].label, s))
                } else if src.len() == 1 {
                    Ok((fixed.update(i, fixed[i].push(nodes[src[0]].label)), opts))
                } else {
                    Ok((fixed, opts.push((i, src))))
                }
            },
        }
    }
}

/// The lists after each choice takes its first writer.
pub open spec fn apply_choices(nodes: Seq<NodeState>, fixed: Seq<Seq<NodeLabel>>, opts: Seq<(int, Seq<int>)>) -> Seq<
    Seq<NodeLabel>,
>
    decreases opts.len(),
{
    if opts.len() == 0 {
        fixed
    } else {
        let f = apply_choices(nodes, fixed, opts.drop_last());
        let i = opts.last().0;
        f.update(i, f[i].push(nodes[opts.last().1[0]].label))
    }
}

/// The labels of the nodes, in order.
pub open spec fn node_labels(nodes: Seq<NodeState>) -> Seq<NodeLabel> {
    nodes.map_values(|s: NodeState| s.label)
}

/// The positions as mathematical integers.
pub open spec fn ints(v: Seq<usize>) -> Seq<int> {
    v.map_values(|x: usize| x as int)
}

/// The slot reads with their positions as mathematical integers.
pub open spec fn request_view(v: Seq<(usize, SlotLabel)>) -> Seq<(int, SlotLabel)> {
    v.map_values(|p: (usize, SlotLabel)| (p.0 as int, p.1))
}

/// The choices with their positions as mathematical integers.
pub open spec fn choice_view(v: Seq<(usize, Vec<usize>)>) -> Seq<(int, Seq<int>)> {
    v.map_values(|p: (usize, Vec<usize>)| (p.0 as int, ints(p.1@)))
}

/// Every entry of `writers` is the position of a node.
proof fn lemma_writers_bound(nodes: Seq<NodeState>, key: Seq<char>)
    ensures
        forall|k: int| 0 <= k < writers(nodes, key).len() ==> 0 <= #[trigger] writers(nodes, key)[k] < nodes.len(),
    decreases nodes.len(),
{
    if nodes.len() > 0 {
        let a = writers(nodes.drop_last(), key);
        let b = write_entries(nodes.last().dependencies@, key, nodes.len() - 1);
        lemma_writers_bound(nodes.drop_last(), key);
        lemma_write_entries_all(nodes.last().dependencies@, key, nodes.len() - 1);
        assert forall|k: int| 0 <= k < writers(nodes, key).len() implies 0 <= #[trigger] writers(nodes, key)[k]
            < nodes.len() by {
            if k < a.len() {
                assert(writers(nodes, key)[k] == a[k]);
            } else {
                assert(writers(nodes, key)[k] == b[k - a.len()]);
            }
        }
    }
}

/// Every entry of `write_entries` is `i`.
proof fn lemma_write_entries_all(deps: Seq<Dependency>, key: Seq<char>, i: int)
    ensures
        forall|k: int| 0 <= k < write_entries(deps, key, i).len() ==> #[trigger] write_entries(deps, key, i)[k] == i,
    decreases deps.len(),
{
    if deps.len() > 0 {
        let rest = write_entries(deps.drop_last(), key, i);
        lemma_write_entries_all(deps.drop_last(), key, i);
        assert forall|k: int| 0 <= k < write_entries(deps, key, i).len() implies #[trigger] write_entries(
            deps,
            key,
            i,
        )[k] == i by {
            if k < rest.len() {
                assert(write_entries(deps, key, i)[k] == rest[k]);
            }
        }
    }
}

/// Every entry of `read_entries` belongs to the node `i`.
proof fn lemma_read_entries_all(deps: Seq<Dependency>, i: int)
    ensures
        forall|k: int| 0 <= k < read_entries(deps, i).len() ==> #[trigger] read_entries(deps, i)[k].0 == i,
    decreases deps.len(),
{
    if deps.len() > 0 {
        let rest = read_entries(deps.drop_last(), i);
        lemma_read_entries_all(deps.drop_last(), i);
        assert forall|k: int| 0 <= k < read_entries(deps, i).len() implies #[trigger] read_entries(deps, i)[k].0
            == i by {
            if k < rest.len() {
                assert(read_entries(deps, i)[k] == rest[k]);
            }
        }
    }
}

/// Every slot read belongs to a node of the graph.
proof fn lemma_requests_bound(nodes: Seq<NodeState>)
    ensures
        forall|k: int| 0 <= k < read_requests(nodes).len() ==> 0 <= #[trigger] read_requests(nodes)[k].0 < nodes.len(),
    decreases nodes.len(),
{
    if nodes.len() > 0 {
        let a = read_requests(nodes.drop_last());
        let b = read_entries(nodes.last().dependencies@, nodes.len() - 1);
        lemma_requests_bound(nodes.drop_last());
        lemma_read_entries_all(nodes.last().dependencies@, nodes.len() - 1);
        assert forall|k: int| 0 <= k < read_requests(nodes).len() implies 0 <= #[trigger] read_requests(nodes)[k].0
            < nodes.len() by {
            if k < a.len() {
                assert(read_requests(nodes)[k] == a[k]);
            } else {
                assert(read_requests(nodes)[k] == b[k - a.len()]);
            }
        }
    }
}

/// `eligible` keeps only entries of `ws`.
proof fn lemma_eligible_bound(nodes: Seq<NodeState>, fixed: Seq<Seq<NodeLabel>>, i: int, ws: Seq<int>)
    requires
        forall|k: int| 0 <= k < ws.len() ==> 0 <= #[trigger] ws[k] < nodes.len(),
    ensures
        forall|k: int|
            0 <= k < eligible(nodes, fixed, i, ws).len() ==> 0 <= #[trigger] eligible(nodes, fixed, i, ws)[k]
                < nodes.len(),
    decreases ws.len(),
{
    if ws.len() > 0 {
        let rest = ws.drop_last();
        assert forall|k: int| 0 <= k < rest.len() implies 0 <= #[trigger] rest[k] < nodes.len() by {
            assert(rest[k] == ws[k]);
        }
        lemma_eligible_bound(nodes, fixed, i, rest);
        assert(0 <= ws[ws.len() - 1] < nodes.len());
        let er = eligible(nodes, fixed, i, rest);
        assert forall|k: int| 0 <= k < eligible(nodes, fixed, i, ws).len() implies 0 <= #[trigger] eligible(
            nodes,
            fixed,
            i,
            ws,
        )[k] < nodes.len() by {
            if k < er.len() {
                assert(eligible(nodes, fixed, i, ws)[k] == er[k]);
            }
        }
    }
}

/// Once a prefix of the reads fails, the whole resolution fails the same way.
proof fn lemma_resolve_err(nodes: Seq<NodeState>, reqs: Seq<(int, SlotLabel)>, k: int)
    requires
        0 <= k <= reqs.len(),
        resolve(nodes, reqs.take(k)) is Err,
    ensures
        resolve(nodes, reqs) == resolve(nodes, reqs.take(k)),
    decreases reqs.len() - k,
{
    if k == reqs.len() {
        assert(reqs.take(k) =~= reqs);
    } else {
        let reqs2 = reqs.take(k + 1);
        assert(reqs2.drop_last() =~= reqs.take(k));
        assert(reqs2.take(k) =~= reqs.take(k));
        assert(resolve(nodes, reqs2) == resolve(nodes, reqs.take(k)));
        assert(reqs.take(k + 1) =~= reqs2);
        lemma_resolve_err(nodes, reqs, k + 1);
    }
}

/// The entries of a choice point at nodes, every choice has at least two writers, and the
/// lists cover the nodes.
pub open spec fn resolution_wf(n: int, fixed: Seq<Seq<NodeLabel>>, opts: Seq<(int, Seq<int>)>) -> bool {
    &&& fixed.len() == n
    &&& forall|u: int| 0 <= u < opts.len() ==> 0 <= #[trigger] opts[u].0 < n
    &&& forall|u: int| 0 <= u < opts.len() ==> #[trigger] opts[u].1.len() >= 2
    &&& forall|u: int, e: int| 0 <= u < opts.len() && 0 <= e < opts[u].1.len() ==> 0 <= #[trigger] opts[u].1[e] < n
}

/// The node labels that `deps` names directly.
fn declared(deps: &Vec<Dependency>) -> (r: Vec<NodeLabel>)
    ensures
        r@ == declared_nodes(deps@),
{
    let mut r: Vec<NodeLabel> = Vec::new();
    let mut d: usize = 0;
    while d < deps.len()
        invariant
            d <= deps@.len(),
            r@ == declared_nodes(deps@.take(d as int)),
        decreases deps@.len() - d,
    {
        proof {
            assert(deps@.take(d + 1).drop_last() =~= deps@.take(d as int));
        }
        match deps[d] {
            Dependency::Node(l) => {
                r.push(l);
            },
            Dependency::Slot(..) => {},
        }
        d = d + 1;
    }
    proof {
        assert(deps@.take(d as int) =~= deps@);
    }
    r
}

/// The positions of the writers of the slot `label`.
fn writers_of(nodes: &[NodeState], label: &SlotLabel) -> (r: Vec<usize>)
    ensures
        ints(r@) == writers(nodes@, label.key()),
{
    let mut r: Vec<usize> = Vec::new();
    let mut i: usize = 0;
    while i < nodes.len()
        invariant
            i <= nodes@.len(),
            ints(r@) == writers(nodes@.take(i as int), label.key()),
        decreases nodes@.len() - i,
    {
        let deps = &nodes[i].dependencies;
        let ghost base = writers(nodes@.take(i as int), label.key());
        let mut d: usize = 0;
        while d < deps.len()
            invariant
                i < nodes@.len(),
                deps == &nodes@[i as int].dependencies,
                d <= deps@.len(),
                ints(r@) == base + write_entries(deps@.take(d as int), label.key(), i as int),
            decreases deps@.len() - d,
        {
            let ghost before = r@;
            proof {
                assert(deps@.take(d + 1).drop_last() =~= deps@.take(d as int));
            }
            match deps[d] {
                Dependency::Slot(l, _, f) => {
                    if l.same(label) && f.contains(SlotFlags::write()) {
                        r.push(i);
                        proof {
                            assert(ints(r@) =~= ints(before).push(i as int));
                        }
                    }
                },
                Dependency::Node(_) => {},
            }
            d = d + 1;
        }
        proof {
            assert(deps@.take(d as int) =~= deps@);
            let t = nodes@.take(i + 1);
            assert(t.drop_last() =~= nodes@.take(i as int));
            assert(t.last() == nodes@[i as int]);
        }
        i = i + 1;
    }
    proof {
        assert(nodes@.take(i as int) =~= nodes@);
    }
    r
}

/// Every slot read of the nodes, node by node.
fn read_requests_of(nodes: &[NodeState]) -> (r: Vec<(usize, SlotLabel)>)
    ensures
        request_view(r@) == read_requests(nodes@),
{
    let mut r: Vec<(usize, SlotLabel)> = Vec::new();
    let mut i: usize = 0;
    while i < nodes.len()
        invariant
            i <= nodes@.len(),
            request_view(r@) == read_requests(nodes@.take(i as int)),
        decreases nodes@.len() - i,
    {
        let deps = &nodes[i].dependencies;
        let ghost base = read_requests(nodes@.take(i as int));
        let mut d: usize = 0;
        while d < deps.len()
            invariant
                i < nodes@.len(),
                deps == &nodes@[i as int].dependencies,
                d <= deps@.len(),
                request_view(r@) == base + read_entries(deps@.take(d as int), i as int),
            decreases deps@.len() - d,
        {
            let ghost before = r@;
            proof {
                assert(deps@.take(d + 1).drop_last() =~= deps@.take(d as int));
            }
            match deps[d] {
                Dependency::Slot(l, _, f) => {
                    if f.contains(SlotFlags::read()) {
                        r.push((i, l));
                        proof {
                            assert(request_view(r@) =~= request_view(before).push((i as int, l)));
                        }
                    }
                },
                Dependency::Node(_) => {},
            }
            d = d + 1;
        }
        proof {
            assert(deps@.take(d as int) =~= deps@);
            let t = nodes@.take(i + 1);
            assert(t.drop_last() =~= nodes@.take(i as int));
            assert(t.last() == nodes@[i as int]);
        }
        i = i + 1;
    }
    proof {
        assert(nodes@.take(i as int) =~= nodes@);
    }
    r
}

/// The writers in `ws` that can provide a slot to the node `i`.
fn eligible_of(nodes: &[NodeState], fixed: &Vec<Vec<NodeLabel>>, i: usize, ws: &Vec<usize>) -> (r: Vec<usize>)
    requires
        i < nodes@.len(),
        fixed@.len() == nodes@.len(),
        forall|k: int| 0 <= k < ws@.len() ==> #[trigger] ws@[k] < nodes@.len(),
    ensures
        ints(r@) == eligible(nodes@, list_views(fixed@), i as int, ints(ws@)),
{
    let ghost fv = list_views(fixed@);
    let mut r: Vec<usize> = Vec::new();
    let mut k: usize = 0;
    while k < ws.len()
        invariant
            i < nodes@.len(),
            fixed@.len() == nodes@.len(),
            fv == list_views(fixed@),
            forall|t: int| 0 <= t < ws@.len() ==> #[trigger] ws@[t] < nodes@.len(),
            k <= ws@.len(),
            ints(r@) == eligible(nodes@, fv, i as int, ints(ws@).take(k as int)),
        decreases ws@.len() - k,
    {
        let ghost before = r@;
        let w = ws[k];
        proof {
            assert(ints(ws@).take(k + 1).drop_last() =~= ints(ws@).take(k as int));
            assert(ints(ws@).take(k + 1).last() == w as int);
            assert(fv[w as int] == fixed@[w as int]@);
        }
        if !nodes[w].label.same(&nodes[i].label) && !contains_label(&fixed[w], &nodes[i].label) {
            r.push(w);
            proof {
                assert(ints(r@) =~= ints(before).push(w as int));
            }
        }
        k = k + 1;
    }
    proof {
        assert(ints(ws@).take(k as int) =~= ints(ws@));
    }
    r
}

impl RenderGraphScheduler {
    /// Orders the nodes of `graph`. The slot reads are resolved node by node, in graph order:
    /// a read whose slot no other node can provide fails with `NoSource`; a read with a single
    /// possible writer makes the reader run after it; where several nodes could provide the
    /// slot, the first of them is taken. The nodes are then ordered so that each runs after
    /// every node in its list, and `Cycle` is returned exactly when no such order exists.
    pub fn schedule(&mut self, graph: &RenderGraph) -> (r: Result<Vec<NodeLabel>, ScheduleError>)
        requires
            graph.wf(),
        ensures
            match resolve(graph.nodes(), read_requests(graph.nodes())) {
                Err(e) => r == Err::<Vec<NodeLabel>, ScheduleError>(e),
                Ok(state) => {
                    let lists = apply_choices(graph.nodes(), state.0, state.1);
                    let keys = label_keys(node_labels(graph.nodes()));
                    match r {
                        Ok(out) => exists|ord: Seq<int>|
                            valid_order(keys, lists, ord) && #[trigger] label_keys(out@) == ordered_keys(keys, ord),
                        Err(e) => e == ScheduleError::Cycle && !exists|ord: Seq<int>|
                            #[trigger] valid_order(keys, lists, ord),
                    }
                },
            },
    {
        let nodes = graph.states();
        let ghost ns = nodes@;
        let n = nodes.len();
        let mut fixed: Vec<Vec<NodeLabel>> = Vec::new();
        let mut i: usize = 0;
        while i < n
            invariant
                n == ns.len(),
                ns == nodes@,
                i <= n,
                list_views(fixed@) == initial_lists(ns).take(i as int),
            decreases n - i,
        {
            let ghost before = fixed@;
            let d = declared(&nodes[i].dependencies);
            fixed.push(d);
            proof {
                assert(list_views(fixed@) =~= initial_lists(ns).take(i + 1)) by {
                    assert(list_views(fixed@) =~= list_views(before).push(d@));
                }
            }
            i = i + 1;
        }
        proof {
            assert(initial_lists(ns).take(n as int) =~= initial_lists(ns));
        }
        let reqs = read_requests_of(nodes);
        let ghost rs = read_requests(ns);
        proof {
            lemma_requests_bound(ns);
            assert(reqs@.take(0) =~= Seq::<(usize, SlotLabel)>::empty());
            assert(rs.take(0) =~= Seq::<(int, SlotLabel)>::empty());
        }
        let mut opts: Vec<(usize, Vec<usize>)> = Vec::new();
        proof {
            assert(choice_view(opts@) =~= Seq::<(int, Seq<int>)>::empty());
        }
        let mut k: usize = 0;
        while k < reqs.len()
            invariant
                n == ns.len(),
                ns == nodes@,
                ns == graph.nodes(),
                rs == read_requests(ns),
                request_view(reqs@) == rs,
                forall|t: int| 0 <= t < rs.len() ==> 0 <= #[trigger] rs[t].0 < n,
                k <= reqs@.len(),
                resolve(ns, rs.take(k as int)) == Ok::<(Seq<Seq<NodeLabel>>, Seq<(int, Seq<int>)>), ScheduleError>(
                    (list_views(fixed@), choice_view(opts@)),
                ),
                resolution_wf(n as int, list_views(fixed@), choice_view(opts@)),
            decreases reqs@.len() - k,
        {
            let (i, slot) = reqs[k];
            let ghost fv = list_views(fixed@);
            let ghost ov = choice_view(opts@);
            proof {
                assert(rs[k as int] == (i as int, slot));
                assert(rs.take(k + 1).drop_last() =~= rs.take(k as int));
                assert(rs.take(k + 1).last() == rs[k as int]);
            }
            let ws = writers_of(nodes, &slot);
            proof {
                lemma_writers_bound(ns, slot.key());
                assert forall|t: int| 0 <= t < ws@.len() implies #[trigger] ws@[t] < nodes@.len() by {
                    assert(ints(ws@)[t] == ws@[t] as int);
                }
            }
            let src = eligible_of(nodes, &fixed, i, &ws);
            proof {
                lemma_eligible_bound(ns, fv, i as int, ints(ws@));
            }
            if src.len() == 0 {
                proof {
                    assert(ints(src@).len() == 0);
                    assert(resolve(ns, rs.take(k + 1)) == Err::<(Seq<Seq<NodeLabel>>, Seq<(int, Seq<int>)>), ScheduleError>(
                        ScheduleError::NoSource(ns[i as int].label, slot),
                    ));
                    lemma_resolve_err(ns, rs, k + 1);
                    assert(rs.take(rs.len() as int) =~= rs);
                    assert(resolve(ns, rs) == Err::<(Seq<Seq<NodeLabel>>, Seq<(int, Seq<int>)>), ScheduleError>(
                        ScheduleError::NoSource(ns[i as int].label, slot),
                    ));
                    assert(nodes@[i as int] == ns[i as int]);
                }
                return Err(ScheduleError::NoSource(nodes[i].label, slot));
            } else if src.len() == 1 {
                let w = src[0];
                proof {
                    assert(ints(src@)[0] == w as int);
                }
                let mut list = fixed.remove(i);
                list.push(nodes[w].label);
                fixed.insert(i, list);
                proof {
                    assert(list_views(fixed@) =~= fv.update(i as int, fv[i as int].push(ns[w as int].label)));
                }
            } else {
                opts.push((i, src));
                proof {
                    assert(choice_view(opts@) =~= ov.push((i as int, ints(src@))));
                    assert forall|u: int, e: int|
                        0 <= u < choice_view(opts@).len() && 0 <= e < choice_view(opts@)[u].1.len() implies 0
                        <= #[trigger] choice_view(opts@)[u].1[e] < n by {
                        if u < ov.len() {
                            assert(choice_view(opts@)[u] == ov[u]);
                        }
                    }
                }
            }
            k = k + 1;
        }
        proof {
            assert(rs.take(k as int) =~= rs);
        }
        let ghost fv = list_views(fixed@);
        let ghost ov = choice_view(opts@);
        let mut perms: PermutationSet<(usize, usize)> = PermutationSet::new();
        let mut u: usize = 0;
        while u < opts.len()
            invariant
                u <= opts@.len(),
                ov == choice_view(opts@),
                resolution_wf(n as int, fv, ov),
                (perms.view().len() == 0) == (u == 0),
                u > 0 ==> perms.view()[0] == Seq::new(
                    u as nat,
                    |t: int| (opts@[t].0, opts@[t].1@[0]),
                ),
            decreases opts@.len() - u,
        {
            let ghost old_view = perms.view();
            let i = opts[u].0;
            let src = &opts[u].1;
            let mut values: Vec<(usize, usize)> = Vec::new();
            let mut e: usize = 0;
            while e < src.len()
                invariant
                    e <= src@.len(),
                    values@.len() == e,
                    forall|t: int| 0 <= t < e ==> #[trigger] values@[t] == (i, src@[t]),
                decreases src@.len() - e,
            {
                values.push((i, src[e]));
                e = e + 1;
            }
            proof {
                assert(ov[u as int].1.len() >= 2);
                assert(ints(src@).len() == src@.len());
            }
            perms.add(values.as_slice());
            proof {
                let m = mix(old_view, values@);
                if u == 0 {
                    assert(m[0] =~= Seq::new(1, |t: int| (opts@[t].0, opts@[t].1@[0])));
                } else {
                    let c = old_view.len() as int;
                    assert(0int % c == 0 && 0int / c == 0) by (nonlinear_arith)
                        requires
                            c > 0,
                    ;
                    assert(values@.len() * c > 0) by (nonlinear_arith)
                        requires
                            c > 0,
                            values@.len() >= 2,
                    ;
                    assert(m[0] == old_view[0].push(values@[0]));
                    assert(m[0] =~= Seq::new((u + 1) as nat, |t: int| (opts@[t].0, opts@[t].1@[0])));
                }
            }
            u = u + 1;
        }
        let combos = perms.iter();
        let mut lists = fixed;
        let ghost chosen: Seq<(usize, usize)> = Seq::new(opts@.len(), |t: int| (opts@[t].0, opts@[t].1@[0]));
        if combos.len() > 0 {
            let first = combos[0];
            proof {
                assert(first@ == chosen);
            }
            let mut t: usize = 0;
            while t < first.len()
                invariant
                    first@ == chosen,
                    chosen.len() == ov.len(),
                    chosen.len() == opts@.len(),
                    forall|x: int| 0 <= x < chosen.len() ==> #[trigger] chosen[x] == (opts@[x].0, opts@[x].1@[0]),
                    ov == choice_view(opts@),
                    resolution_wf(n as int, fv, ov),
                    n == ns.len(),
                    ns == nodes@,
                    t <= first@.len(),
                    list_views(lists@) == apply_choices(ns, fv, ov.take(t as int)),
                    lists@.len() == n,
                decreases first@.len() - t,
            {
                let (i, w) = first[t];
                let ghost before = list_views(lists@);
                proof {
                    assert(first@[t as int] == chosen[t as int]);
                    assert(ov[t as int] == (opts@[t as int].0 as int, ints(opts@[t as int].1@)));
                    assert(ov[t as int].0 == i as int);
                    assert(ov[t as int].1[0] == w as int) by {
                        assert(ov[t as int].1 == ints(opts@[t as int].1@));
                        assert(ov[t as int].1.len() >= 2);
                        assert(ints(opts@[t as int].1@)[0] == opts@[t as int].1@[0] as int);
                    }
                    assert(ov.take(t + 1).drop_last() =~= ov.take(t as int));
                    assert(ov.take(t + 1).last() == ov[t as int]);
                    assert(0 <= ov[t as int].1[0] < n);
                }
                let mut list = lists.remove(i);
                list.push(nodes[w].label);
                lists.insert(i, list);
                proof {
                    assert(list_views(lists@) =~= before.update(i as int, before[i as int].push(ns[w as int].label)));
                }
                t = t + 1;
            }
            proof {
                assert(ov.take(t as int) =~= ov);
            }
        } else if !perms.is_empty() {
            return Err(ScheduleError::NoValidPermutation);
        } else {
            proof {
                assert(ov.len() == 0);
                assert(ov.take(0) =~= ov);
            }
        }
        let mut labels: Vec<NodeLabel> = Vec::new();
        let mut j: usize = 0;
        while j < n
            invariant
                n == ns.len(),
                ns == nodes@,
                j <= n,
                labels@ == node_labels(ns).take(j as int),
            decreases n - j,
        {
            labels.push(nodes[j].label);
            proof {
                assert(labels@ =~= node_labels(ns).take(j + 1));
            }
            j = j + 1;
        }
        proof {
            assert(labels@ =~= node_labels(ns));
            assert(label_keys(labels@).no_duplicates()) by {
                assert forall|a: int, b: int| 0 <= a < b < label_keys(labels@).len() implies label_keys(labels@)[a]
                    != label_keys(labels@)[b] by {
                    assert(ns[a].label.key() != ns[b].label.key());
                }
            }
        }
        proof {
            assert(resolve(ns, rs) == Ok::<(Seq<Seq<NodeLabel>>, Seq<(int, Seq<int>)>), ScheduleError>((fv, ov)));
            assert(list_views(lists@) == apply_choices(ns, fv, ov));
            assert(lists@.len() == labels@.len());
        }
        order_nodes(&labels, &lists)
    }
}

} // verus!
