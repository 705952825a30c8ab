use vstd::prelude::*;

verus! {

/// The sequence is strictly increasing.
pub open spec fn increasing(s: Seq<u32>) -> bool {
    forall|i: int, j: int| 0 <= i < j < s.len() ==> s[i] < s[j]
}

/// Inserts `x` into the strictly increasing `v`, keeping it strictly increasing.
pub fn sorted_insert(v: &mut Vec<u32>, x: u32)
    requires
        increasing(old(v)@),
        !old(v)@.contains(x),
    ensures
        increasing(final(v)@),
        final(v)@.to_set() == old(v)@.to_set().insert(x),
        final(v)@.len() == old(v)@.len() + 1,
{
    let mut i: usize = 0;
    while i < v.len() && v[i] < x
        invariant
            i <= v@.len(),
            forall|k: int| 0 <= k < i ==> v@[k] < x,
        decreases v.len() - i,
    {
        i = i + 1;
    }
    let ghost old_v = v@;
    v.insert(i, x);
    proof {
        assert(v@ == old_v.insert(i as int, x));
        assert forall|a: int, b: int| 0 <= a < b < v@.len() implies v@[a] < v@[b] by {
            if i < old_v.len() {
                assert(old_v[i as int] >= x);
                assert(old_v[i as int] != x) by {
                    assert(old_v.contains(old_v[i as int]));
                }
            }
        }
        assert forall|y: u32| v@.to_set().contains(y) <==> old_v.to_set().insert(x).contains(y) by {
            if v@.contains(y) {
                let k = choose|k: int| 0 <= k < v@.len() && v@[k] == y;
                if k < i {
                    assert(old_v[k] == y);
                } else if k > i {
                    assert(old_v[k - 1] == y);
                }
            }
            if old_v.contains(y) {
                let k = choose|k: int| 0 <= k < old_v.len() && old_v[k] == y;
                if k < i {
                    assert(v@[k] == y);
                } else {
                    assert(v@[k + 1] == y);
                }
            }
            if y == x {
                assert(v@[i as int] == x);
            }
        }
        assert(v@.to_set() =~= old_v.to_set().insert(x));
    }
}

/// Removes `x` from the strictly increasing `v`, which contains it.
pub fn sorted_remove(v: &mut Vec<u32>, x: u32)
    requires
        increasing(old(v)@),
        old(v)@.contains(x),
    ensures
        increasing(final(v)@),
        final(v)@.to_set() == old(v)@.to_set().remove(x),
        final(v)@.len() == old(v)@.len() - 1,
{
    let mut i: usize = 0;
    while v[i] != x
        invariant
            i < v@.len(),
            v@.contains(x),
            increasing(v@),
            forall|k: int| 0 <= k < i ==> v@[k] < x,
        decreases v.len() - i,
    {
        proof {
            let k = choose|k: int| 0 <= k < v@.len() && v@[k] == x;
            assert(k > i);
            assert(v@[i as int] < v@[k]);
        }
        i = i + 1;
    }
    let ghost old_v = v@;
    v.remove(i);
    proof {
        assert(v@ == old_v.remove(i as int));
        assert forall|y: u32| v@.to_set().contains(y) <==> old_v.to_set().remove(x).contains(y) by {
            if v@.contains(y) {
                let k = choose|k: int| 0 <= k < v@.len() && v@[k] == y;
                if k < i {
                    assert(old_v[k] == y);
                } else {
                    assert(old_v[k + 1] == y);
                }
            }
            if old_v.contains(y) && y != x {
                let k = choose|k: int| 0 <= k < old_v.len() && old_v[k] == y;
                if k < i {
                    assert(v@[k] == y);
                } else {
                    assert(k != i);
                    assert(v@[k - 1] == y);
                }
            }
        }
        assert(v@.to_set() =~= old_v.to_set().remove(x));
    }
}

} // verus!
