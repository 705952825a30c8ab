use vstd::prelude::*;

verus! {

/// A set that mixes sets of possible values together: every stored combination picks one
/// value from each set added so far.
#[derive(Debug)]
pub struct PermutationSet<T> {
    sets: Vec<Vec<T>>,
}

/// The combinations after adding the choices `values` to the combinations `sets`: each
/// combination extended by the first value, then each extended by the second value, and so on.
pub open spec fn mix<T>(sets: Seq<Seq<T>>, values: Seq<T>) -> Seq<Seq<T>> {
    if sets.len() == 0 {
        Seq::new(values.len(), |i: int| seq![values[i]])
    } else {
        Seq::new(
            values.len() * sets.len(),
            |k: int| sets[k % (sets.len() as int)].push(values[k / (sets.len() as int)]),
        )
    }
}

impl<T: Copy> PermutationSet<T> {
    /// The stored combinations, in order.
    pub closed spec fn view(&self) -> Seq<Seq<T>> {
        Seq::new(self.sets@.len(), |i: int| self.sets@[i]@)
    }

    /// Creates an empty set.
    pub fn new() -> (r: Self)
        ensures
            r.view() == Seq::<Seq<T>>::empty(),
    {
        let r = Self { sets: Vec::new() };
        proof {
            assert(r.view() =~= Seq::<Seq<T>>::empty());
        }
        r
    }

    /// Returns `true` if no combination is stored.
    pub fn is_empty(&self) -> (r: bool)
        ensures
            r == (self.view().len() == 0),
    {
        self.sets.len() == 0
    }

    /// Adds a new set of possible values.
    pub fn add(&mut self, values: &[T])
        ensures
            final(self).view() == mix(old(self).view(), values@),
    {
        let ghost old_view = self.view();
        if self.sets.len() == 0 {
            let mut i: usize = 0;
            while i < values.len()
                invariant
                    i <= values@.len(),
                    old_view.len() == 0,
                    self.sets@.len() == i,
                    forall|k: int| 0 <= k < i ==> #[trigger] self.sets@[k]@ == seq![values@[k]],
                decreases values.len() - i,
            {
                let mut one = Vec::new();
                one.push(values[i]);
                proof {
                    assert(one@ =~= seq![values@[i as int]]);
                }
                self.sets.push(one);
                i = i + 1;

            }
            proof {
                assert(self.view() =~= mix(old_view, values@));
            }
        } else {
            let n = self.sets.len();
            let mut new_sets: Vec<Vec<T>> = Vec::new();
            let mut i: usize = 0;
            while i < values.len()
                invariant
                    i <= values@.len(),
                    n == self.sets@.len(),
                    n > 0,
                    self.view() == old_view,
                    new_sets@.len() == i * n,
                    forall|k: int|
                        0 <= k < i * n ==> #[trigger] new_sets@[k]@ == old_view[k % (n as int)].push(
                            values@[k / (n as int)],
                        ),
                decreases values.len() - i,
            {
                let mut j: usize = 0;
                while j < n
                    invariant
                        i < values@.len(),
                        j <= n,
                        n == self.sets@.len(),
                        n > 0,
                        self.view() == old_view,
                        new_sets@.len() == i * n + j,
                        forall|k: int|
                            0 <= k < i * n + j ==> #[trigger] new_sets@[k]@ == old_view[k % (
                            n as int)].push(values@[k / (n as int)]),
                    decreases n - j,
                {
                    let set = &self.sets[j];
                    let mut new_set: Vec<T> = Vec::new();
                    let mut x: usize = 0;
                    while x < set.len()
                        invariant
                            x <= set@.len(),
                            new_set@ == set@.subrange(0, x as int),
                        decreases set.len() - x,
                    {
                        new_set.push(set[x]);
                        x = x + 1;
                        proof {
                            assert(new_set@ =~= set@.subrange(0, x as int));
                        }
                    }
                    new_set.push(values[i]);
                    proof {
                        assert(set@.subrange(0, set@.len() as int) =~= set@);
                        let k = i * n + j;
                        assert(k % (n as int) == j as int && k / (n as int) == i as int) by (
                        nonlinear_arith)
                            requires
                                k == i * n + j,
                                0 <= j < n,
                                0 <= i,
                        {
                            vstd::arithmetic::div_mod::lemma_fundamental_div_mod_converse(
                                k as int,
                                n as int,
                                i as int,
                                j as int,
                            );
                        }
                        assert(self.view()[j as int] == set@);
                    }
                    new_sets.push(new_set);
                    j = j + 1;
                }
                proof {
                    assert((i + 1) * n == i * n + n) by (nonlinear_arith);
                }
                i = i + 1;
            }
            proof {
                assert(values@.len() * n == i * n) by (nonlinear_arith)
                    requires
                        i == values@.len(),
                ;
            }
            self.sets = new_sets;
            proof {
                assert(self.view() =~= mix(old_view, values@));
            }
        }
    }

    /// Returns all combinations in order.
    pub fn iter(&self) -> (r: Vec<&[T]>)
        ensures
            r@.len() == self.view().len(),
            forall|i: int| 0 <= i < r@.len() ==> #[trigger] r@[i]@ == self.view()[i],
    {
        let mut r: Vec<&[T]> = Vec::new();
        let mut i: usize = 0;
        while i < self.sets.len()
            invariant
                i <= self.sets@.len(),
                r@.len() == i,
                forall|k: int| 0 <= k < i ==> #[trigger] r@[k]@ == self.view()[k],
            decreases self.sets.len() - i,
        {
            r.push(self.sets[i].as_slice());
            i = i + 1;
        }
        r
    }
}

} // verus!
