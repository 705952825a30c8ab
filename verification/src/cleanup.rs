use vstd::prelude::*;

use crate::commands::{Command, DescriptorSetResource, RawTextureView};
use crate::resources::RefCount;
use crate::retain::DeletionEvent;

verus! {

/// A descriptor set that is alive: its layout and the resources bound to it, in binding
/// order.
#[derive(Debug)]
pub struct LiveSet {
    pub layout: usize,
    pub bindings: Vec<DescriptorSetResource>,
}

/// The resources of the renderer with their reference counts, indexed by id; `None` for a
/// vacant id.
#[derive(Debug)]
pub struct Registry {
    pub buffers: Vec<Option<RefCount>>,
    pub textures: Vec<Option<RefCount>>,
    pub samplers: Vec<Option<RefCount>>,
    pub pipelines: Vec<Option<RefCount>>,
    pub layouts: Vec<Option<RefCount>>,
    pub sets: Vec<Option<LiveSet>>,
}

/// The reference counts of a table, `None` for a vacant id.
pub open spec fn counts(t: Seq<Option<RefCount>>) -> Seq<Option<usize>> {
    t.map_values(|o: Option<RefCount>| match o {
        Some(r) => Some(r.value()),
        None => None,
    })
}

/// A descriptor set by its layout and bindings.
pub open spec fn set_model(s: Option<LiveSet>) -> Option<(usize, Seq<DescriptorSetResource>)> {
    match s {
        Some(l) => Some((l.layout, l.bindings@)),
        None => None,
    }
}

/// The tables that the release of a descriptor set changes: buffers, textures, samplers,
/// layouts.
pub type Tables = (Seq<Option<usize>>, Seq<Option<usize>>, Seq<Option<usize>>, Seq<Option<usize>>);

/// The state of a registry: the reference counts of buffers, textures, samplers, pipelines
/// and layouts, and the descriptor sets.
pub type Model = (Tables, Seq<Option<usize>>, Seq<Option<(usize, Seq<DescriptorSetResource>)>>);

impl Registry {
    /// The state of the registry.
    pub open spec fn model(&self) -> Model {
        (
            (counts(self.buffers@), counts(self.textures@), counts(self.samplers@), counts(self.layouts@)),
            counts(self.pipelines@),
            self.sets@.map_values(|s: Option<LiveSet>| set_model(s)),
        )
    }
}

/// Drops one reference of entry `id`: `None` if there is no such entry, otherwise the new
/// table and whether it was the last reference. The count wraps around below zero.
pub open spec fn drop_one(t: Seq<Option<usize>>, id: usize) -> Option<(Seq<Option<usize>>, bool)> {
    if id < t.len() && t[id as int] is Some {
        let v = t[id as int]->Some_0;
        let nv: usize = if v >= 1 {
            (v - 1) as usize
        } else {
            usize::MAX
        };
        Some((t.update(id as int, Some(nv)), v == 1))
    } else {
        None
    }
}

/// Drops one reference of each view's texture in order, collecting the textures that lost
/// their last reference.
pub open spec fn drop_views(t: Seq<Option<usize>>, views: Seq<RawTextureView>) -> Option<(Seq<Option<usize>>, Seq<DeletionEvent>)>
    decreases views.len(),
{
    if views.len() == 0 {
        Some((t, Seq::empty()))
    } else {
        match drop_views(t, views.drop_last()) {
            None => None,
            Some((t1, ev)) => {
                let id = views.last().texture;
                match drop_one(t1, id) {
                    None => None,
                    Some((t2, last)) => {
                        let ev2 = if last {
                            ev.push(DeletionEvent::Texture(id))
                        } else {
                            ev
                        };
                        Some((t2, ev2))
                    },
                }
            },
        }
    }
}

/// The event of `e` when `last`, nothing otherwise.
pub open spec fn if_last(last: bool, e: DeletionEvent) -> Seq<DeletionEvent> {
    if last {
        seq![e]
    } else {
        Seq::empty()
    }
}

/// Drops the references that one binding of a released descriptor set holds.
pub open spec fn drop_binding(t: Tables, b: DescriptorSetResource) -> Option<(Tables, Seq<DeletionEvent>)> {
    let (bufs, texs, samps, lays) = t;
    match b {
        DescriptorSetResource::UniformBuffer(id) | DescriptorSetResource::StorageBuffer(id) => match drop_one(bufs, id) {
            None => None,
            Some((nb, last)) => Some(((nb, texs, samps, lays), if_last(last, DeletionEvent::Buffer(id)))),
        },
        DescriptorSetResource::SampledTexture(views) | DescriptorSetResource::StorageTexture(views) => match drop_views(texs, views@) {
            None => None,
            Some((nt, ev)) => Some(((bufs, nt, samps, lays), ev)),
        },
        DescriptorSetResource::Sampler(id) => match drop_one(samps, id) {
            None => None,
            Some((ns, last)) => Some(((bufs, texs, ns, lays), if_last(last, DeletionEvent::Sampler(id)))),
        },
    }
}

/// Drops the references of the bindings in order.
pub open spec fn drop_bindings(t: Tables, bs: Seq<DescriptorSetResource>) -> Option<(Tables, Seq<DeletionEvent>)>
    decreases bs.len(),
{
    if bs.len() == 0 {
        Some((t, Seq::empty()))
    } else {
        match drop_bindings(t, bs.drop_last()) {
            None => None,
            Some((t1, ev)) => match drop_binding(t1, bs.last()) {
                None => None,
                Some((t2, ev2)) => Some((t2, ev + ev2)),
            },
        }
    }
}

/// The number of live descriptor sets.
pub open spec fn live_count(sets: Seq<Option<(usize, Seq<DescriptorSetResource>)>>) -> nat
    decreases sets.len(),
{
    if sets.len() == 0 {
        0
    } else {
        live_count(sets.drop_last()) + if sets.last() is Some {
            1nat
        } else {
            0nat
        }
    }
}

pub proof fn lemma_live_count_remove(sets: Seq<Option<(usize, Seq<DescriptorSetResource>)>>, i: int)
    requires
        0 <= i < sets.len(),
        sets[i] is Some,
    ensures
        live_count(sets.update(i, None)) + 1 == live_count(sets),
    decreases sets.len(),
{
    let u = sets.update(i, None);
    if i < sets.len() - 1 {
        assert(u.drop_last() =~= sets.drop_last().update(i, None));
        lemma_live_count_remove(sets.drop_last(), i);
    } else {
        assert(u.drop_last() =~= sets.drop_last());
    }
}

/// The table with entry `id` removed, if there is such an entry.
pub open spec fn remove_at(t: Seq<Option<usize>>, id: usize) -> Seq<Option<usize>> {
    if id < t.len() {
        t.update(id as int, None)
    } else {
        t
    }
}

/// The release of descriptor set `id`: its bindings' references are dropped in order, then
/// its layout's; a layout that loses its last reference is reported under the id of the
/// set.
pub open spec fn release_set(m: Model, id: usize) -> Option<(Model, Seq<DeletionEvent>, Seq<Command>)> {
    let (t, pipes, sets) = m;
    if id < sets.len() && sets[id as int] is Some {
        let (layout, bindings) = sets[id as int]->Some_0;
        match drop_bindings(t, bindings) {
            None => None,
            Some((t1, ev)) => match drop_one(t1.3, layout) {
                None => None,
                Some((nl, last)) => {
                    let ev2 = if last {
                        ev.push(DeletionEvent::DescriptorSetLayout(id))
                    } else {
                        ev
                    };
                    let m2 = ((t1.0, t1.1, t1.2, nl), pipes, sets.update(id as int, None));
                    Some((m2, ev2, seq![Command::DestroyDescriptorSet(id)]))
                },
            },
        }
    } else {
        None
    }
}

/// Handles one deletion event: `None` where an entry that must exist is missing, otherwise
/// the new state, the events that follow from it and the commands it records. Removing a
/// buffer or a texture records a command that destroys it.
pub open spec fn step(m: Model, e: DeletionEvent) -> Option<(Model, Seq<DeletionEvent>, Seq<Command>)> {
    let (t, pipes, sets) = m;
    let (bufs, texs, samps, lays) = t;
    match e {
        DeletionEvent::Buffer(id) => {
            let m2 = ((remove_at(bufs, id), texs, samps, lays), pipes, sets);
            Some((m2, Seq::empty(), seq![Command::DestoryBuffer(id)]))
        },
        DeletionEvent::Texture(id) => {
            let m2 = ((bufs, remove_at(texs, id), samps, lays), pipes, sets);
            Some((m2, Seq::empty(), seq![Command::DestroyTexture(id)]))
        },
        DeletionEvent::DescriptorSetLayout(id) => {
            let m2 = ((bufs, texs, samps, remove_at(lays, id)), pipes, sets);
            Some((m2, Seq::empty(), Seq::empty()))
        },
        DeletionEvent::Pipeline(id) => Some(((t, remove_at(pipes, id), sets), Seq::empty(), Seq::empty())),
        DeletionEvent::Sampler(id) => {
            let m2 = ((bufs, texs, remove_at(samps, id), lays), pipes, sets);
            Some((m2, Seq::empty(), Seq::empty()))
        },
        DeletionEvent::DescriptorSet(id) => release_set(m, id),
    }
}

/// Handles the events of `queue` first to last, appending the events that follow to its
/// end, until it is empty: `None` if an entry that must exist is missing on the way,
/// otherwise the final state and the commands recorded.
pub open spec fn run(m: Model, queue: Seq<DeletionEvent>) -> Option<(Model, Seq<Command>)>
    decreases live_count(m.2), queue.len(),
{
    if queue.len() == 0 {
        Some((m, Seq::empty()))
    } else {
        match step(m, queue[0]) {
            None => None,
            Some((m1, pushed, cmds)) => {
                proof {
                    if queue[0] is DescriptorSet {
                        lemma_live_count_remove(m.2, queue[0]->DescriptorSet_0 as int);
                    }
                }
                match run(m1, queue.drop_first() + pushed) {
                    None => None,
                    Some((m2, cmds2)) => Some((m2, cmds + cmds2)),
                }
            },
        }
    }
}

/// Drops one reference of entry `id`; `None` if there is no such entry.
fn drop_ref(t: &mut Vec<Option<RefCount>>, id: usize) -> (r: Option<bool>)
    ensures
        match drop_one(counts(old(t)@), id) {
            None => r is None,
            Some((nt, last)) => r == Some(last) && counts(final(t)@) == nt,
        },
{
    if id >= t.len() {
        return None;
    }
    let mut slot: Option<RefCount> = None;
    std::mem::swap(&mut slot, &mut t[id]);
    match slot {
        None => None,
        Some(mut rc) => {
            let last = rc.decrement();
            t.set(id, Some(rc));
            proof {
                assert(counts(t@) =~= counts(old(t)@).update(id as int, Some(rc.value())));
            }
            Some(last)
        },
    }
}

/// Drops one reference of each view's texture in order and appends the textures that lost
/// their last reference to `events`; `false` if a texture is missing.
fn drop_views_exec(t: &mut Vec<Option<RefCount>>, views: &[RawTextureView], events: &mut Vec<DeletionEvent>) -> (ok: bool)
    ensures
        match drop_views(counts(old(t)@), views@) {
            None => !ok,
            Some((nt, ev)) => ok && counts(final(t)@) == nt && final(events)@ == old(events)@ + ev,
        },
{
    let mut i: usize = 0;
    while i < views.len()
        invariant
            i <= views.len(),
            drop_views(counts(old(t)@), views@.take(i as int)) == Some((counts(t@), events@.skip(old(events)@.len() as int))),
            events@.len() >= old(events)@.len(),
            events@.take(old(events)@.len() as int) == old(events)@,
        decreases views.len() - i,
    {
        proof {
            assert(views@.take(i + 1).drop_last() =~= views@.take(i as int));
        }
        let id = views[i].texture;
        match drop_ref(t, id) {
            None => {
                proof {
                    lemma_drop_views_none(counts(old(t)@), views@, i as int + 1);
                }
                return false;
            },
            Some(last) => {
                let ghost e0 = events@;
                if last {
                    events.push(DeletionEvent::Texture(id));
                }
                proof {
                    assert(events@.take(old(events)@.len() as int) =~= old(events)@);
                    if last {
                        assert(events@.skip(old(events)@.len() as int) =~= e0.skip(old(events)@.len() as int).push(DeletionEvent::Texture(id)));
                    } else {
                        assert(events@.skip(old(events)@.len() as int) =~= e0.skip(old(events)@.len() as int));
                    }
                }
            },
        }
        i = i + 1;
    }
    proof {
        assert(views@.take(i as int) =~= views@);
        assert(events@ =~= old(events)@ + events@.skip(old(events)@.len() as int));
    }
    true
}

/// A prefix of the views that fails makes the whole fail.
proof fn lemma_drop_views_none(t: Seq<Option<usize>>, views: Seq<RawTextureView>, n: int)
    requires
        0 <= n <= views.len(),
        drop_views(t, views.take(n)) is None,
    ensures
        drop_views(t, views) is None,
    decreases views.len() - n,
{
    if n < views.len() {
        assert(views.take(n + 1).drop_last() =~= views.take(n));
        lemma_drop_views_none(t, views, n + 1);
    } else {
        assert(views.take(n) =~= views);
    }
}

/// Drops the references that one binding holds and appends the resources that lost their
/// last reference to `events`; `false` if one of them is missing.
fn drop_binding_exec(reg: &mut Registry, b: &DescriptorSetResource, events: &mut Vec<DeletionEvent>) -> (ok: bool)
    ensures
        final(reg).model().1 == old(reg).model().1,
        final(reg).model().2 == old(reg).model().2,
        match drop_binding(old(reg).model().0, *b) {
            None => !ok,
            Some((nt, ev)) => ok && final(reg).model().0 == nt && final(events)@ == old(events)@ + ev,
        },
{
    match b {
        DescriptorSetResource::UniformBuffer(id) | DescriptorSetResource::StorageBuffer(id) => {
            match drop_ref(&mut reg.buffers, *id) {
                None => false,
                Some(last) => {
                    if last {
                        events.push(DeletionEvent::Buffer(*id));
                    }
                    proof {
                        assert(events@ =~= old(events)@ + if_last(last, DeletionEvent::Buffer(*id)));
                    }
                    true
                },
            }
        },
        DescriptorSetResource::SampledTexture(views) | DescriptorSetResource::StorageTexture(views) => {
            drop_views_exec(&mut reg.textures, views.as_slice(), events)
        },
        DescriptorSetResource::Sampler(id) => {
            match drop_ref(&mut reg.samplers, *id) {
                None => false,
                Some(last) => {
                    if last {
                        events.push(DeletionEvent::Sampler(*id));
                    }
                    proof {
                        assert(events@ =~= old(events)@ + if_last(last, DeletionEvent::Sampler(*id)));
                    }
                    true
                },
            }
        },
    }
}

/// A prefix of the bindings that fails makes the whole fail.
proof fn lemma_drop_bindings_none(t: Tables, bs: Seq<DescriptorSetResource>, n: int)
    requires
        0 <= n <= bs.len(),
        drop_bindings(t, bs.take(n)) is None,
    ensures
        drop_bindings(t, bs) is None,
    decreases bs.len() - n,
{
    if n < bs.len() {
        assert(bs.take(n + 1).drop_last() =~= bs.take(n));
        lemma_drop_bindings_none(t, bs, n + 1);
    } else {
        assert(bs.take(n) =~= bs);
    }
}

/// Drops the references of the bindings in order; `false` if a resource is missing.
fn drop_bindings_exec(reg: &mut Registry, bs: &[DescriptorSetResource], events: &mut Vec<DeletionEvent>) -> (ok: bool)
    ensures
        final(reg).model().1 == old(reg).model().1,
        final(reg).model().2 == old(reg).model().2,
        match drop_bindings(old(reg).model().0, bs@) {
            None => !ok,
            Some((nt, ev)) => ok && final(reg).model().0 == nt && final(events)@ == old(events)@ + ev,
        },
{
    let mut i: usize = 0;
    while i < bs.len()
        invariant
            i <= bs.len(),
            reg.model().1 == old(reg).model().1,
            reg.model().2 == old(reg).model().2,
            drop_bindings(old(reg).model().0, bs@.take(i as int)) == Some((reg.model().0, events@.skip(old(events)@.len() as int))),
            events@.len() >= old(events)@.len(),
            events@.take(old(events)@.len() as int) == old(events)@,
        decreases bs.len() - i,
    {
        proof {
            assert(bs@.take(i + 1).drop_last() =~= bs@.take(i as int));
        }
        let ghost e0 = events@;
        if !drop_binding_exec(reg, &bs[i], events) {
            proof {
                lemma_drop_bindings_none(old(reg).model().0, bs@, i as int + 1);
            }
            return false;
        }
        proof {
            assert(events@.take(old(events)@.len() as int) =~= old(events)@);
            assert(events@.skip(old(events)@.len() as int) =~= e0.skip(old(events)@.len() as int) + (events@.skip(e0.len() as int)));
        }
        i = i + 1;
    }
    proof {
        assert(bs@.take(i as int) =~= bs@);
        assert(events@ =~= old(events)@ + events@.skip(old(events)@.len() as int));
    }
    true
}

impl Registry {
    /// Releases descriptor set `id`: appends the events that follow to `queue` and the
    /// command that destroys the set to `cmds`; `false` if an entry is missing.
    fn release_set_exec(&mut self, id: usize, queue: &mut Vec<DeletionEvent>, cmds: &mut Vec<Command>) -> (ok: bool)
        ensures
            match release_set(old(self).model(), id) {
                None => !ok,
                Some((m2, ev, c)) => ok && final(self).model() == m2 && final(queue)@ == old(queue)@ + ev
                    && final(cmds)@ == old(cmds)@ + c,
            },
    {
        if id >= self.sets.len() {
            return false;
        }
        let mut slot: Option<LiveSet> = None;
        std::mem::swap(&mut slot, &mut self.sets[id]);
        let live = match slot {
            None => {
                return false;
            },
            Some(live) => live,
        };
        proof {
            assert(self.model().2 =~= old(self).model().2.update(id as int, None));
            assert(self.model().0 == old(self).model().0);
        }
        let mut events: Vec<DeletionEvent> = Vec::new();
        if !drop_bindings_exec(self, live.bindings.as_slice(), &mut events) {
            return false;
        }
        proof {
            assert(events@ =~= Seq::<DeletionEvent>::empty() + events@);
        }
        match drop_ref(&mut self.layouts, live.layout) {
            None => {
                return false;
            },
            Some(last) => {
                if last {
                    events.push(DeletionEvent::DescriptorSetLayout(id));
                }
            },
        }
        cmds.push(Command::DestroyDescriptorSet(id));
        let ghost q0 = queue@;
        let mut k: usize = 0;
        while k < events.len()
            invariant
                k <= events.len(),
                queue@ == q0 + events@.take(k as int),
            decreases events.len() - k,
        {
            proof {
                assert(events@.take(k + 1) =~= events@.take(k as int).push(events@[k as int]));
            }
            queue.push(events[k]);
            k = k + 1;
        }
        proof {
            assert(events@.take(k as int) =~= events@);
        }
        true
    }

    /// Handles one deletion event: appends the events that follow to `queue` and the
    /// commands it records to `cmds`; `false` if an entry that must exist is missing.
    fn step_exec(&mut self, e: DeletionEvent, queue: &mut Vec<DeletionEvent>, cmds: &mut Vec<Command>) -> (ok: bool)
        ensures
            match step(old(self).model(), e) {
                None => !ok,
                Some((m2, ev, c)) => ok && final(self).model() == m2 && final(queue)@ == old(queue)@ + ev
                    && final(cmds)@ == old(cmds)@ + c,
            },
    {
        match e {
            DeletionEvent::Buffer(id) => {
                if id < self.buffers.len() {
                    self.buffers.set(id, None);
                }
                cmds.push(Command::DestoryBuffer(id));
            },
            DeletionEvent::Texture(id) => {
                if id < self.textures.len() {
                    self.textures.set(id, None);
                }
                cmds.push(Command::DestroyTexture(id));
            },
            DeletionEvent::DescriptorSetLayout(id) => {
                if id < self.layouts.len() {
                    self.layouts.set(id, None);
                }
            },
            DeletionEvent::Pipeline(id) => {
                if id < self.pipelines.len() {
                    self.pipelines.set(id, None);
                }
            },
            DeletionEvent::Sampler(id) => {
                if id < self.samplers.len() {
                    self.samplers.set(id, None);
                }
            },
            DeletionEvent::DescriptorSet(id) => {
                return self.release_set_exec(id, queue, cmds);
            },
        }
        proof {
            assert(queue@ =~= old(queue)@ + Seq::<DeletionEvent>::empty());
            assert(self.model() =~= step(old(self).model(), e)->Some_0.0);
        }
        true
    }
}

/// The outcome of `run` with `done` recorded before.
pub open spec fn after(r: Option<(Model, Seq<Command>)>, done: Seq<Command>) -> Option<(Model, Seq<Command>)> {
    match r {
        None => None,
        Some((m, c)) => Some((m, done + c)),
    }
}

impl Registry {
    /// Handles the deletion events of `queue` first to last, and the events that follow from
    /// them, until none is left; returns the commands that destroy GPU objects, in order.
    ///
    /// Returns `None` when an entry that must exist is missing: a released descriptor set,
    /// or a resource or layout that a released set refers to.
    pub fn cleanup(&mut self, queue: Vec<DeletionEvent>) -> (cmds: Option<Vec<Command>>)
        ensures
            match run(old(self).model(), queue@) {
                None => cmds is None,
                Some((m, c)) => cmds matches Some(v) && v@ == c && final(self).model() == m,
            },
    {
        let mut q = queue;
        let mut cmds: Vec<Command> = Vec::new();
        let mut i: usize = 0;
        proof {
            assert(q@.skip(0) =~= queue@);
            let r = run(self.model(), q@.skip(0));
            if r is Some {
                assert(cmds@ + r->Some_0.1 =~= r->Some_0.1);
            }
        }
        while i < q.len()
            invariant
                i <= q.len(),
                run(old(self).model(), queue@) == after(run(self.model(), q@.skip(i as int)), cmds@),
            decreases live_count(self.model().2), q.len() - i,
        {
            let e = q[i];
            let ghost m0 = self.model();
            let ghost rest = q@.skip(i as int);
            let ghost c0 = cmds@;
            proof {
                assert(rest[0] == e);
            }
            let ok = self.step_exec(e, &mut q, &mut cmds);
            if !ok {
                return None;
            }
            proof {
                let (m1, pushed, c) = step(m0, e)->Some_0;
                assert(q@.skip(i + 1) =~= rest.drop_first() + pushed);
                let r1 = run(m1, rest.drop_first() + pushed);
                if r1 is Some {
                    assert(cmds@ + r1->Some_0.1 =~= c0 + (c + r1->Some_0.1));
                }
                if e is DescriptorSet {
                    lemma_live_count_remove(m0.2, e->DescriptorSet_0 as int);
                }
            }
            i = i + 1;
        }
        proof {
            assert(q@.skip(i as int) =~= Seq::<DeletionEvent>::empty());
            assert(cmds@ + Seq::<Command>::empty() =~= cmds@);
        }
        Some(cmds)
    }
}

/// The command destroys a buffer, a texture or a descriptor set.
pub open spec fn is_destroy(c: Command) -> bool {
    c is DestoryBuffer || c is DestroyTexture || c is DestroyDescriptorSet
}

/// Cleaning up records nothing but commands that destroy buffers, textures and descriptor
/// sets.
pub proof fn law_cleanup_only_destroys(m: Model, queue: Seq<DeletionEvent>)
    ensures
        run(m, queue) matches Some((_, cmds)) ==> forall|i: int| 0 <= i < cmds.len() ==> is_destroy(#[trigger] cmds[i]),
    decreases live_count(m.2), queue.len(),
{
    if queue.len() > 0 {
        match step(m, queue[0]) {
            None => {},
            Some((m1, pushed, c)) => {
                if queue[0] is DescriptorSet {
                    lemma_live_count_remove(m.2, queue[0]->DescriptorSet_0 as int);
                }
                law_cleanup_only_destroys(m1, queue.drop_first() + pushed);
                match run(m1, queue.drop_first() + pushed) {
                    None => {},
                    Some((m2, c2)) => {
                        let all = c + c2;
                        assert forall|i: int| 0 <= i < all.len() implies is_destroy(#[trigger] all[i]) by {
                            if i >= c.len() {
                                assert(all[i] == c2[i - c.len()]);
                            }
                        }
                    },
                }
            },
        }
    }
}

} // verus!
