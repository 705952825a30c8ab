use vstd::prelude::*;

use std::collections::HashMap;

verus! {

broadcast use vstd::std_specs::hash::group_hash_axioms;

/// The values staged by `(key, value)` entries, later entries winning.
pub open spec fn staged_map<T>(s: Seq<(usize, T)>) -> Map<usize, T>
    decreases s.len(),
{
    if s.len() == 0 {
        Map::empty()
    } else {
        staged_map(s.drop_last()).insert(s.last().0, s.last().1)
    }
}

/// The values and the freed keys after processing the deletions `dels` in order: a key
/// that holds a value loses it and is freed; any other key is ignored.
pub open spec fn apply_deletions<T>(m: Map<usize, T>, free: Seq<usize>, dels: Seq<usize>) -> (Map<usize, T>, Seq<usize>)
    decreases dels.len(),
{
    if dels.len() == 0 {
        (m, free)
    } else {
        let (m1, f1) = apply_deletions(m, free, dels.drop_last());
        let k = dels.last();
        if m1.contains_key(k) {
            (m1.remove(k), f1.push(k))
        } else {
            (m1, f1)
        }
    }
}

/// A key is staged exactly when some entry holds it.
proof fn lemma_staged_dom<T>(s: Seq<(usize, T)>, k: usize)
    ensures
        staged_map(s).contains_key(k) == exists|i: int| 0 <= i < s.len() && #[trigger] s[i].0 == k,
    decreases s.len(),
{
    if s.len() > 0 {
        lemma_staged_dom(s.drop_last(), k);
        if staged_map(s.drop_last()).contains_key(k) {
            let i = choose|i: int| 0 <= i < s.len() - 1 && #[trigger] s.drop_last()[i].0 == k;
            assert(s[i].0 == k);
        }
        if exists|i: int| 0 <= i < s.len() && #[trigger] s[i].0 == k {
            let i = choose|i: int| 0 <= i < s.len() && #[trigger] s[i].0 == k;
            if i < s.len() - 1 {
                assert(s.drop_last()[i].0 == k);
            }
        }
    }
}

/// Removing the entry of a key, with distinct keys, unstages that key.
proof fn lemma_staged_remove<T>(s: Seq<(usize, T)>, i: int)
    requires
        0 <= i < s.len(),
        forall|a: int, b: int| 0 <= a < b < s.len() ==> s[a].0 != s[b].0,
    ensures
        staged_map(s.remove(i)) == staged_map(s).remove(s[i].0),
    decreases s.len(),
{
    let k = s[i].0;
    if i == s.len() - 1 {
        assert(s.remove(i) =~= s.drop_last());
        lemma_staged_dom(s.drop_last(), k);
        assert forall|j: int| 0 <= j < s.len() - 1 implies s.drop_last()[j].0 != k by {
            assert(s[j].0 != s[i].0);
        }
        assert(staged_map(s.drop_last()) =~= staged_map(s).remove(k));
    } else {
        let t = s.drop_last();
        assert(s.remove(i).drop_last() =~= t.remove(i));
        assert(s.remove(i).last() == s.last());
        assert(t[i] == s[i]);
        lemma_staged_remove(t, i);
        assert(s.last().0 != k);
        assert(staged_map(s.remove(i)) =~= staged_map(s).remove(k));
    }
}

/// A collection written by one side and read by another: insertions and removals are
/// staged and become visible to readers only when they are committed.
///
/// A key is either taken from the freed keys, the most recently freed first, or is the next
/// never used key.
#[derive(Debug)]
pub struct Pool<T> {
    values: HashMap<usize, T>,
    free: Vec<usize>,
    next: usize,
    queued: Vec<(usize, T)>,
    queued_deletion: Vec<usize>,
}

impl<T> Pool<T> {
    /// The committed values, which readers see.
    pub closed spec fn committed(&self) -> Map<usize, T> {
        self.values@
    }

    /// The staged insertions.
    pub closed spec fn staged(&self) -> Map<usize, T> {
        staged_map(self.queued@)
    }

    /// The staged removals of committed keys, in order.
    pub closed spec fn deletions(&self) -> Seq<usize> {
        self.queued_deletion@
    }

    /// The keys that were freed and may be reused, the most recently freed last.
    pub closed spec fn free_keys(&self) -> Seq<usize> {
        self.free@
    }

    /// The smallest key never handed out.
    pub closed spec fn next_key(&self) -> usize {
        self.next
    }

    /// Keys in use are below the next key, staged keys are distinct and not committed, and
    /// freed keys are distinct and in use by no one.
    pub closed spec fn wf(&self) -> bool {
        &&& forall|i: int, j: int|
            0 <= i < j < self.queued@.len() ==> self.queued@[i].0 != self.queued@[j].0
        &&& self.free@.no_duplicates()
        &&& forall|i: int| 0 <= i < self.free@.len() ==> #[trigger] self.free@[i] < self.next
        &&& forall|k: usize| #[trigger] self.values@.contains_key(k) ==> k < self.next
        &&& forall|i: int| 0 <= i < self.queued@.len() ==> #[trigger] self.queued@[i].0 < self.next
        &&& forall|i: int|
            0 <= i < self.queued@.len() ==> !self.values@.contains_key(#[trigger] self.queued@[i].0)
        &&& forall|i: int|
            0 <= i < self.free@.len() ==> !self.values@.contains_key(#[trigger] self.free@[i])
        &&& forall|i: int, j: int|
            0 <= i < self.free@.len() && 0 <= j < self.queued@.len() ==> self.free@[i] != self.queued@[j].0
    }

    /// Creates an empty pool.
    pub fn new() -> (r: Self)
        ensures
            r.wf(),
            r.committed() == Map::<usize, T>::empty(),
            r.staged() == Map::<usize, T>::empty(),
            r.deletions().len() == 0,
            r.free_keys().len() == 0,
            r.next_key() == 0,
    {
        let r = Self {
            values: HashMap::new(),
            free: Vec::new(),
            next: 0,
            queued: Vec::new(),
            queued_deletion: Vec::new(),
        };
        proof {
            assert(r.values@ =~= Map::<usize, T>::empty());
        }
        r
    }

    /// The committed value of `key`.
    pub fn get(&self, key: usize) -> (r: Option<&T>)
        ensures
            match r {
                Some(v) => self.committed().contains_key(key) && *v == self.committed()[key],
                None => !self.committed().contains_key(key),
            },
    {
        self.values.get(&key)
    }

    /// Stages `value` under a key that is neither committed nor staged, and returns the key.
    pub fn insert(&mut self, value: T) -> (key: usize)
        requires
            old(self).wf(),
            old(self).free_keys().len() == 0 ==> old(self).next_key() < usize::MAX,
        ensures
            final(self).wf(),
            !old(self).committed().contains_key(key),
            !old(self).staged().contains_key(key),
            key == if old(self).free_keys().len() > 0 {
                old(self).free_keys().last()
            } else {
                old(self).next_key()
            },
            final(self).free_keys() == if old(self).free_keys().len() > 0 {
                old(self).free_keys().drop_last()
            } else {
                old(self).free_keys()
            },
            final(self).next_key() == if old(self).free_keys().len() > 0 {
                old(self).next_key() as int
            } else {
                old(self).next_key() + 1
            },
            final(self).staged() == old(self).staged().insert(key, value),
            final(self).committed() == old(self).committed(),
            final(self).deletions() == old(self).deletions(),
    {
        let key = match self.free.pop() {
            Some(key) => key,
            None => {
                let key = self.next;
                self.next = self.next + 1;
                key
            },
        };
        proof {
            lemma_staged_dom(self.queued@, key);
            if old(self).free@.len() > 0 {
                assert(old(self).free@[old(self).free@.len() - 1] == key);
            }
        }
        let ghost q = self.queued@;
        self.queued.push((key, value));
        proof {
            assert(self.queued@.drop_last() =~= q);
            assert forall|i: int| 0 <= i < self.free@.len() implies #[trigger] self.free@[i] != key by {
                if old(self).free@.len() > 0 {
                    assert(old(self).free@[i] == self.free@[i]);
                    assert(old(self).free@.no_duplicates());
                }
            }
        }
        key
    }

    /// Unstages a staged `key`, or else stages the removal of `key` from the committed
    /// values.
    pub fn remove(&mut self, key: usize)
        requires
            old(self).wf(),
        ensures
            final(self).wf(),
            final(self).committed() == old(self).committed(),
            final(self).free_keys() == old(self).free_keys(),
            final(self).next_key() == old(self).next_key(),
            old(self).staged().contains_key(key) ==> {
                &&& final(self).staged() == old(self).staged().remove(key)
                &&& final(self).deletions() == old(self).deletions()
            },
            !old(self).staged().contains_key(key) ==> {
                &&& final(self).staged() == old(self).staged()
                &&& final(self).deletions() == old(self).deletions().push(key)
            },
    {
        let mut i: usize = 0;
        while i < self.queued.len()
            invariant
                i <= self.queued@.len(),
                self.queued@ == old(self).queued@,
                self.values@ == old(self).values@,
                self.free@ == old(self).free@,
                self.next == old(self).next,
                self.queued_deletion@ == old(self).queued_deletion@,
                old(self).wf(),
                forall|j: int| 0 <= j < i ==> self.queued@[j].0 != key,
            decreases self.queued@.len() - i,
        {
            if self.queued[i].0 == key {
                let ghost q = self.queued@;
                proof {
                    lemma_staged_remove(q, i as int);
                    lemma_staged_dom(q, key);
                }
                self.queued.remove(i);
                proof {
                    let r = self.queued@;
                    assert(r == q.remove(i as int));
                    assert forall|j: int| 0 <= j < r.len() implies #[trigger] r[j] == q[if j < i { j } else { j + 1 }] by {}
                    assert forall|a: int, b: int| 0 <= a < b < r.len() implies r[a].0 != r[b].0 by {
                        let qa = if a < i { a } else { a + 1 };
                        let qb = if b < i { b } else { b + 1 };
                        assert(r[a] == q[qa] && r[b] == q[qb]);
                        assert(q[qa].0 != q[qb].0);
                    }
                    assert forall|j: int| 0 <= j < r.len() implies #[trigger] r[j].0 < self.next by {
                        assert(r[j] == q[if j < i { j } else { j + 1 }]);
                    }
                    assert forall|j: int| 0 <= j < r.len() implies !self.values@.contains_key(#[trigger] r[j].0) by {
                        assert(r[j] == q[if j < i { j } else { j + 1 }]);
                    }
                    assert forall|a: int, b: int| 0 <= a < self.free@.len() && 0 <= b < r.len() implies self.free@[a] != r[b].0 by {
                        assert(r[b] == q[if b < i { b } else { b + 1 }]);
                    }
                }
                return;
            }
            i = i + 1;
        }
        proof {
            lemma_staged_dom(self.queued@, key);
        }
        self.queued_deletion.push(key);
    }

    /// Commits the staged insertions, then the staged removals: a removed key that holds a
    /// value loses it and is freed for reuse.
    pub fn commit(&mut self)
        requires
            old(self).wf(),
        ensures
            final(self).wf(),
            ({
                let r = apply_deletions(
                    old(self).committed().union_prefer_right(old(self).staged()),
                    old(self).free_keys(),
                    old(self).deletions(),
                );
                &&& final(self).committed() == r.0
                &&& final(self).free_keys() == r.1
            }),
            final(self).staged() == Map::<usize, T>::empty(),
            final(self).deletions().len() == 0,
            final(self).next_key() == old(self).next_key(),
    {
        let ghost u = old(self).committed().union_prefer_right(old(self).staged());
        while self.queued.len() > 0
            invariant
                self.wf(),
                self.values@.union_prefer_right(staged_map(self.queued@)) == u,
                self.free@ == old(self).free@,
                self.next == old(self).next,
                self.queued_deletion@ == old(self).queued_deletion@,
            decreases self.queued@.len(),
        {
            let ghost q = self.queued@;
            let ghost v0 = self.values@;
            let entry = self.queued.pop();
            match entry {
                Some((k, v)) => {
                    proof {
                        assert(self.queued@ =~= q.drop_last());
                        lemma_staged_dom(q.drop_last(), k);
                        assert(forall|j: int| 0 <= j < q.len() - 1 ==> q.drop_last()[j].0 != k) by {
                            assert forall|j: int| 0 <= j < q.len() - 1 implies q.drop_last()[j].0 != k by {
                                assert(q[j].0 != q[q.len() - 1].0);
                            }
                        }
                        assert(!v0.contains_key(k)) by {
                            assert(q[q.len() - 1].0 == k);
                        }
                    }
                    self.values.insert(k, v);
                    proof {
                        assert(self.values@.union_prefer_right(staged_map(self.queued@)) =~= u);
                        assert forall|j: int| 0 <= j < self.free@.len() implies !self.values@.contains_key(#[trigger] self.free@[j]) by {
                            assert(self.free@[j] != q[q.len() - 1].0);
                        }
                        assert forall|j: int| 0 <= j < self.queued@.len() implies !self.values@.contains_key(#[trigger] self.queued@[j].0) by {
                            assert(q[j].0 != q[q.len() - 1].0);
                            assert(self.queued@[j] == q[j]);
                        }
                        assert forall|x: usize| #[trigger] self.values@.contains_key(x) implies x < self.next by {
                            if x == k {
                                assert(q[q.len() - 1].0 < self.next);
                            }
                        }
                    }
                },
                None => {},
            }
        }
        proof {
            assert(staged_map(self.queued@) =~= Map::<usize, T>::empty());
            assert(self.values@ =~= u);
        }
        let ghost dels = self.queued_deletion@;
        let mut j: usize = 0;
        while j < self.queued_deletion.len()
            invariant
                j <= dels.len(),
                self.queued_deletion@ == dels,
                self.queued@.len() == 0,
                (self.values@, self.free@) == apply_deletions(u, old(self).free@, dels.take(j as int)),
                self.free@.no_duplicates(),
                forall|i: int| 0 <= i < self.free@.len() ==> #[trigger] self.free@[i] < self.next,
                forall|i: int| 0 <= i < self.free@.len() ==> !self.values@.contains_key(#[trigger] self.free@[i]),
                forall|k: usize| #[trigger] self.values@.contains_key(k) ==> k < self.next,
                self.next == old(self).next,
            decreases dels.len() - j,
        {
            let key = self.queued_deletion[j];
            let ghost f0 = self.free@;
            let removed = self.values.remove(&key);
            proof {
                assert(dels.take(j + 1).drop_last() =~= dels.take(j as int));
                assert(dels.take(j + 1).last() == key);
            }
            if removed.is_some() {
                self.free.push(key);
                proof {
                    assert forall|i: int| 0 <= i < self.free@.len() implies !self.values@.contains_key(#[trigger] self.free@[i]) by {
                        if i < f0.len() {
                            assert(self.free@[i] == f0[i]);
                        }
                    }
                    assert(self.free@.no_duplicates()) by {
                        assert forall|a: int, b: int| 0 <= a < self.free@.len() && 0 <= b < self.free@.len() && a != b implies self.free@[a] != self.free@[b] by {
                            if a < f0.len() && b < f0.len() {
                                assert(f0[a] != f0[b]);
                            } else if a < f0.len() {
                                assert(!self.values@.contains_key(f0[a]));
                            } else {
                                assert(!self.values@.contains_key(f0[b]));
                            }
                        }
                    }
                }
            }
            j = j + 1;
        }
        self.queued_deletion.clear();
        proof {
            assert(dels.take(dels.len() as int) =~= dels);
        }
    }
}


/// Committing publishes the values of every key that no staged removal names: such a key
/// keeps its staged value, or else its committed one.
pub proof fn law_commit_keeps_unremoved<T>(
    committed: Map<usize, T>,
    staged: Map<usize, T>,
    free: Seq<usize>,
    dels: Seq<usize>,
    key: usize,
)
    requires
        !dels.contains(key),
    ensures
        apply_deletions(committed.union_prefer_right(staged), free, dels).0.contains_key(key)
            == committed.union_prefer_right(staged).contains_key(key),
        committed.union_prefer_right(staged).contains_key(key) ==> apply_deletions(
            committed.union_prefer_right(staged),
            free,
            dels,
        ).0[key] == (if staged.contains_key(key) {
            staged[key]
        } else {
            committed[key]
        }),
    decreases dels.len(),
{
    if dels.len() > 0 {
        assert(!dels.drop_last().contains(key)) by {
            if dels.drop_last().contains(key) {
                let i = choose|i: int| 0 <= i < dels.len() - 1 && dels.drop_last()[i] == key;
                assert(dels[i] == key);
            }
        }
        assert(dels.last() != key) by {
            assert(dels[dels.len() - 1] == dels.last());
        }
        law_commit_keeps_unremoved(committed, staged, free, dels.drop_last(), key);
    }
}

/// After committing, no key named by a staged removal holds a value.
pub proof fn law_commit_drops_removed<T>(m: Map<usize, T>, free: Seq<usize>, dels: Seq<usize>, key: usize)
    requires
        dels.contains(key),
    ensures
        !apply_deletions(m, free, dels).0.contains_key(key),
    decreases dels.len(),
{
    if dels.last() != key {
        assert(dels.drop_last().contains(key)) by {
            let i = choose|i: int| 0 <= i < dels.len() && dels[i] == key;
            assert(i != dels.len() - 1);
            assert(dels.drop_last()[i] == key);
        }
        law_commit_drops_removed(m, free, dels.drop_last(), key);
    } else if dels.drop_last().contains(key) {
        law_commit_drops_removed(m, free, dels.drop_last(), key);
    }
}

} // verus!
