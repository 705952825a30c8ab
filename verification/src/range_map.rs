use vstd::prelude::*;

use core::ops::Range;
use smallvec::SmallVec;

verus! {

/// A small vector of key ranges with their flags, stored inline while there is one.
#[verifier::external_body]
#[derive(Debug)]
pub struct RangeList {
    inner: SmallVec<[(Range<u32>, u32); 1]>,
}

/// The entries of a list of key ranges with flags, as `(start, end, bits)`.
pub uninterp spec fn range_entries(v: RangeList) -> Seq<(u32, u32, u32)>;

/// `SmallVec::new`: an empty vector.
#[verifier::external_body]
fn entries_new() -> (v: RangeList)
    ensures
        range_entries(v) == Seq::<(u32, u32, u32)>::empty(),
{
    RangeList { inner: SmallVec::new() }
}

/// `SmallVec::push`: appends an entry; the vector's length must not overflow.
#[verifier::external_body]
fn entries_push(v: &mut RangeList, start: u32, end: u32, bits: u32)
    requires
        range_entries(*old(v)).len() < usize::MAX,
    ensures
        range_entries(*final(v)) == range_entries(*old(v)).push((start, end, bits)),
{
    v.inner.push((start..end, bits));
}

/// `SmallVec::len`: the number of entries.
#[verifier::external_body]
fn entries_len(v: &RangeList) -> (n: usize)
    ensures
        n == range_entries(*v).len(),
{
    v.inner.len()
}

/// `SmallVec` indexing: the entry at `i`, which must exist.
#[verifier::external_body]
fn entries_get(v: &RangeList, i: usize) -> (e: (u32, u32, u32))
    requires
        i < range_entries(*v).len(),
    ensures
        e == range_entries(*v)[i as int],
{
    let (r, bits) = &v.inner[i];
    (r.start, r.end, *bits)
}

/// `SmallVec::as_slice`: the entries in order.
#[verifier::external_body]
fn entries_as_slice(v: &RangeList) -> (s: &[(Range<u32>, u32)])
    ensures
        s@.len() == range_entries(*v).len(),
        forall|i: int|
            0 <= i < s@.len() ==> (#[trigger] s@[i].0.start, s@[i].0.end, s@[i].1) == range_entries(*v)[i],
{
    v.inner.as_slice()
}

/// Where a range of keys begins or ends.
#[derive(Copy, Clone, Debug, PartialEq, Eq, Structural)]
pub enum KeyBound {
    Included(u32),
    Excluded(u32),
    Unbounded,
}

/// Flags attached to ranges of keys, kept as a list of ranges that `compact` turns into
/// disjoint ranges.
#[derive(Debug)]
pub struct RangeMap {
    bounds: Range<u32>,
    ranges: RangeList,
}

/// The entry covers the key `x`.
pub open spec fn covers(e: (u32, u32, u32), x: int) -> bool {
    e.0 <= x < e.1
}

/// The union of the flags of the entries that cover `x`.
pub open spec fn bits_at(es: Seq<(u32, u32, u32)>, x: int) -> u32
    decreases es.len(),
{
    if es.len() == 0 {
        0
    } else {
        bits_at(es.drop_last(), x) | if covers(es.last(), x) {
            es.last().2
        } else {
            0u32
        }
    }
}

/// The largest end of the entries, or 0.
pub open spec fn max_end(es: Seq<(u32, u32, u32)>) -> u32
    decreases es.len(),
{
    if es.len() == 0 {
        0
    } else if es.last().1 >= max_end(es.drop_last()) {
        es.last().1
    } else {
        max_end(es.drop_last())
    }
}

/// `out` divides the keys from 0 up to `hi` into nonempty adjacent ranges on each of which
/// the flags of `es` do not change, and adjacent ranges have different flags: it is the
/// run-length encoding of `bits_at(es, _)` over those keys.
pub open spec fn encodes(out: Seq<(u32, u32, u32)>, es: Seq<(u32, u32, u32)>, hi: int) -> bool {
    &&& (out.len() == 0) == (hi == 0)
    &&& out.len() > 0 ==> out[0].0 == 0 && out.last().1 == hi
    &&& forall|i: int| 0 <= i < out.len() ==> (#[trigger] out[i]).0 < out[i].1
    &&& forall|i: int, j: int| 0 <= i && j == i + 1 && j < out.len() ==> #[trigger] out[i].1 == #[trigger] out[j].0
    &&& forall|i: int, j: int| 0 <= i && j == i + 1 && j < out.len() ==> #[trigger] out[i].2 != #[trigger] out[j].2
    &&& forall|i: int, x: int| 0 <= i < out.len() && out[i].0 <= x < out[i].1 ==> #[trigger] bits_at(es, x) == (
        #[trigger] out[i]).2
}

impl RangeMap {
    /// The entries, in order.
    pub closed spec fn entries(&self) -> Seq<(u32, u32, u32)> {
        range_entries(self.ranges)
    }

    /// The keys an unbounded range stands for.
    pub closed spec fn bounds_spec(&self) -> Range<u32> {
        self.bounds
    }

    /// Creates a map over the keys `bounds` without ranges.
    pub fn new(bounds: Range<u32>) -> (r: Self)
        ensures
            r.entries() == Seq::<(u32, u32, u32)>::empty(),
            r.bounds_spec() == bounds,
    {
        Self { bounds, ranges: entries_new() }
    }

    /// Creates a map over the keys `range` with the flags `value` on all of them.
    pub fn from_full_range(range: Range<u32>, value: u32) -> (r: Self)
        ensures
            r.entries() == seq![(range.start, range.end, value)],
            r.bounds_spec() == range,
    {
        let mut ranges = entries_new();
        entries_push(&mut ranges, range.start, range.end, value);
        Self { bounds: range, ranges }
    }

    /// Adds the flags `value` on the keys from `start` to `end`; an unbounded side stands for
    /// the map's bounds.
    pub fn insert(&mut self, start: KeyBound, end: KeyBound, value: u32)
        requires
            start matches KeyBound::Excluded(s) ==> s < u32::MAX,
            end matches KeyBound::Included(e) ==> e < u32::MAX,
            old(self).entries().len() < usize::MAX,
        ensures
            final(self).bounds_spec() == old(self).bounds_spec(),
            final(self).entries() == old(self).entries().push(
                (
                    match start {
                        KeyBound::Included(s) => s,
                        KeyBound::Excluded(s) => (s + 1) as u32,
                        KeyBound::Unbounded => old(self).bounds_spec().start,
                    },
                    match end {
                        KeyBound::Included(e) => (e + 1) as u32,
                        KeyBound::Excluded(e) => e,
                        KeyBound::Unbounded => old(self).bounds_spec().end,
                    },
                    value,
                ),
            ),
    {
        let s = match start {
            KeyBound::Included(s) => s,
            KeyBound::Excluded(s) => s + 1,
            KeyBound::Unbounded => self.bounds.start,
        };
        let e = match end {
            KeyBound::Included(e) => e + 1,
            KeyBound::Excluded(e) => e,
            KeyBound::Unbounded => self.bounds.end,
        };
        entries_push(&mut self.ranges, s, e, value);
    }

    /// The ranges with their flags, in order.
    pub fn iter(&self) -> (r: &[(Range<u32>, u32)])
        ensures
            r@.len() == self.entries().len(),
            forall|i: int| 0 <= i < r@.len() ==> (#[trigger] r@[i].0.start, r@[i].0.end, r@[i].1) == self.entries()[i],
    {
        entries_as_slice(&self.ranges)
    }

    /// Replaces the ranges by disjoint ones: the keys from 0 up to the largest end are cut
    /// into ranges on which the union of the flags of the covering ranges does not change,
    /// and neighbouring ranges with equal flags are merged. A map with a single range is
    /// left as it is.
    pub fn compact(&mut self)
        ensures
            final(self).bounds_spec() == old(self).bounds_spec(),
            old(self).entries().len() == 1 ==> final(self).entries() == old(self).entries(),
            old(self).entries().len() != 1 ==> encodes(
                final(self).entries(),
                old(self).entries(),
                max_end(old(self).entries()) as int,
            ),
    {
        let n = entries_len(&self.ranges);
        if n == 1 {
            return;
        }
        let ghost es = range_entries(self.ranges);
        let mut es_vec: Vec<(u32, u32, u32)> = Vec::new();
        let mut hi: u32 = 0;
        let mut k: usize = 0;
        while k < n
            invariant
                n == es.len(),
                es == range_entries(self.ranges),
                k <= n,
                es_vec@ == es.take(k as int),
                hi == max_end(es.take(k as int)),
            decreases n - k,
        {
            let e = entries_get(&self.ranges, k);
            es_vec.push(e);
            proof {
                assert(es.take(k + 1).drop_last() =~= es.take(k as int));
                assert(es_vec@ =~= es.take(k + 1));
            }
            if e.1 >= hi {
                hi = e.1;
            }
            k = k + 1;
        }
        proof {
            assert(es.take(n as int) =~= es);
        }
        let out = run_lengths(&es_vec, hi);
        let mut ranges = entries_new();
        let mut t: usize = 0;
        while t < out.len()
            invariant
                t <= out@.len(),
                range_entries(ranges) == out@.take(t as int),
            decreases out@.len() - t,
        {
            proof {
                assert(out@.len() <= usize::MAX);
            }
            entries_push(&mut ranges, out[t].0, out[t].1, out[t].2);
            proof {
                assert(out@.take(t + 1) =~= out@.take(t as int).push(out@[t as int]));
            }
            t = t + 1;
        }
        proof {
            assert(out@.take(t as int) =~= out@);
        }
        self.ranges = ranges;
    }
}

/// The union of the flags of the entries that cover `x`.
fn bits_covering(es: &Vec<(u32, u32, u32)>, x: u32) -> (r: u32)
    ensures
        r == bits_at(es@, x as int),
{
    let mut acc: u32 = 0;
    let mut k: usize = 0;
    while k < es.len()
        invariant
            k <= es@.len(),
            acc == bits_at(es@.take(k as int), x as int),
        decreases es@.len() - k,
    {
        proof {
            assert(es@.take(k + 1).drop_last() =~= es@.take(k as int));
            assert(es@.take(k + 1).last() == es@[k as int]);
        }
        let e = es[k];
        if e.0 <= x && x < e.1 {
            acc = acc | e.2;
        } else {
            acc = acc | 0;
        }
        k = k + 1;
    }
    proof {
        assert(es@.take(k as int) =~= es@);
    }
    acc
}

/// No entry begins or ends strictly between `a` and `b`.
pub open spec fn no_bound_between(es: Seq<(u32, u32, u32)>, a: int, b: int) -> bool {
    forall|k: int|
        0 <= k < es.len() ==> (#[trigger] es[k].0 <= a || es[k].0 >= b) && (es[k].1 <= a || es[k].1 >= b)
}

/// The smallest start or end of the entries above `pos`; `hi`, an end above `pos`, bounds it.
fn next_bound(es: &Vec<(u32, u32, u32)>, pos: u32, hi: u32) -> (r: u32)
    requires
        pos < hi,
        hi == max_end(es@),
    ensures
        pos < r <= hi,
        no_bound_between(es@, pos as int, r as int),
{
    let mut best: u32 = hi;
    let mut k: usize = 0;
    while k < es.len()
        invariant
            k <= es@.len(),
            pos < best <= hi,
            no_bound_between(es@.take(k as int), pos as int, best as int),
        decreases es@.len() - k,
    {
        let e = es[k];
        if e.0 > pos && e.0 < best {
            best = e.0;
        }
        if e.1 > pos && e.1 < best {
            best = e.1;
        }
        proof {
            assert forall|j: int| 0 <= j < es@.take(k + 1).len() implies (#[trigger] es@.take(k + 1)[j].0 <= pos
                || es@.take(k + 1)[j].0 >= best) && (es@.take(k + 1)[j].1 <= pos || es@.take(k + 1)[j].1 >= best) by {
                if j < k {
                    assert(es@.take(k + 1)[j] == es@.take(k as int)[j]);
                }
            }
        }
        k = k + 1;
    }
    proof {
        assert(es@.take(k as int) =~= es@);
    }
    best
}

/// Between two bounds the covering entries, and so the flags, do not change.
proof fn lemma_bits_constant(es: Seq<(u32, u32, u32)>, a: int, b: int, x: int)
    requires
        no_bound_between(es, a, b),
        a <= x < b,
    ensures
        bits_at(es, x) == bits_at(es, a),
    decreases es.len(),
{
    if es.len() > 0 {
        assert forall|k: int| 0 <= k < es.drop_last().len() implies (#[trigger] es.drop_last()[k].0 <= a
            || es.drop_last()[k].0 >= b) && (es.drop_last()[k].1 <= a || es.drop_last()[k].1 >= b) by {
            assert(es.drop_last()[k] == es[k]);
        }
        lemma_bits_constant(es.drop_last(), a, b, x);
        assert(es.last() == es[es.len() - 1]);
        assert(covers(es.last(), x) == covers(es.last(), a));
    }
}

/// The run-length encoding of the flags of `es` over the keys from 0 up to `hi`.
fn run_lengths(es: &Vec<(u32, u32, u32)>, hi: u32) -> (out: Vec<(u32, u32, u32)>)
    requires
        hi == max_end(es@),
    ensures
        encodes(out@, es@, hi as int),
{
    let mut out: Vec<(u32, u32, u32)> = Vec::new();
    let mut pos: u32 = 0;
    while pos < hi
        invariant
            hi == max_end(es@),
            pos <= hi,
            encodes(out@, es@, pos as int),
        decreases hi - pos,
    {
        let next = next_bound(es, pos, hi);
        let v = bits_covering(es, pos);
        proof {
            assert forall|x: int| pos <= x < next implies bits_at(es@, x) == v by {
                lemma_bits_constant(es@, pos as int, next as int, x);
            }
        }
        let ghost before = out@;
        let n = out.len();
        if n > 0 && out[n - 1].2 == v {
            let first = out[n - 1].0;
            out.set(n - 1, (first, next, v));
            proof {
                assert forall|i: int, x: int| 0 <= i < out@.len() && out@[i].0 <= x < out@[i].1 implies #[trigger] bits_at(
                    es@,
                    x,
                ) == (#[trigger] out@[i]).2 by {
                    if i == n - 1 {
                        if x < pos {
                            assert(before[i].0 <= x < before[i].1);
                        }
                    } else {
                        assert(out@[i] == before[i]);
                    }
                }
                assert forall|i: int, j: int| 0 <= i && j == i + 1 && j < out@.len() implies #[trigger] out@[i].1
                    == #[trigger] out@[j].0 by {
                    assert(out@[i] == before[i]);
                    if j < n - 1 {
                        assert(out@[j] == before[j]);
                    }
                }
                assert forall|i: int, j: int| 0 <= i && j == i + 1 && j < out@.len() implies #[trigger] out@[i].2
                    != #[trigger] out@[j].2 by {
                    assert(out@[i] == before[i]);
                    if j < n - 1 {
                        assert(out@[j] == before[j]);
                    }
                }
            }
        } else {
            out.push((pos, next, v));
            proof {
                assert forall|i: int, x: int| 0 <= i < out@.len() && out@[i].0 <= x < out@[i].1 implies #[trigger] bits_at(
                    es@,
                    x,
                ) == (#[trigger] out@[i]).2 by {
                    if i < n {
                        assert(out@[i] == before[i]);
                    }
                }
                assert forall|i: int, j: int| 0 <= i && j == i + 1 && j < out@.len() implies #[trigger] out@[i].1
                    == #[trigger] out@[j].0 by {
                    assert(out@[i] == before[i]);
                    if j < n {
                        assert(out@[j] == before[j]);
                    }
                }
                assert forall|i: int, j: int| 0 <= i && j == i + 1 && j < out@.len() implies #[trigger] out@[i].2
                    != #[trigger] out@[j].2 by {
                    assert(out@[i] == before[i]);
                    if j < n {
                        assert(out@[j] == before[j]);
                    }
                }
            }
        }
        pos = next;
    }
    out
}


proof fn lemma_or_zero(v: u32)
    ensures
        v | 0u32 == v,
        0u32 | v == v,
{
    assert(v | 0u32 == v) by (bit_vector);
    assert(0u32 | v == v) by (bit_vector);
}

/// No entry ends past the largest end.
proof fn lemma_ends_below_max(es: Seq<(u32, u32, u32)>, k: int)
    requires
        0 <= k < es.len(),
    ensures
        es[k].1 <= max_end(es),
    decreases es.len(),
{
    if k < es.len() - 1 {
        assert(es.drop_last()[k] == es[k]);
        lemma_ends_below_max(es.drop_last(), k);
    }
}

/// No entry covers a key at or past the largest end.
proof fn lemma_bits_past_end(es: Seq<(u32, u32, u32)>, x: int)
    requires
        x >= max_end(es),
    ensures
        bits_at(es, x) == 0,
    decreases es.len(),
{
    if es.len() > 0 {
        lemma_bits_past_end(es.drop_last(), x);
        lemma_ends_below_max(es, es.len() - 1);
        lemma_or_zero(0);
    }
}

/// The ranges of an encoding come in order: each ends where or before a later one begins.
proof fn lemma_encoding_ordered(out: Seq<(u32, u32, u32)>, es: Seq<(u32, u32, u32)>, hi: int, i: int, j: int)
    requires
        encodes(out, es, hi),
        0 <= i < j < out.len(),
    ensures
        out[i].1 <= out[j].0,
    decreases j - i,
{
    if j > i + 1 {
        lemma_encoding_ordered(out, es, hi, i, j - 1);
        assert(out[j - 1].1 == out[j].0);
        assert(out[j - 1].0 < out[j - 1].1);
    } else {
        assert(out[i].1 == out[j].0);
    }
}

/// Some range of an encoding holds each key below `hi`.
proof fn lemma_encoding_covers(out: Seq<(u32, u32, u32)>, es: Seq<(u32, u32, u32)>, hi: int, x: int, i: int) -> (j: int)
    requires
        encodes(out, es, hi),
        0 <= x < hi,
        0 <= i < out.len(),
        out[i].0 <= x,
    ensures
        i <= j < out.len(),
        out[j].0 <= x < out[j].1,
    decreases out.len() - i,
{
    if x < out[i].1 {
        i
    } else {
        if i + 1 < out.len() {
            assert(out[i].1 == out[i + 1].0);
            lemma_encoding_covers(out, es, hi, x, i + 1)
        } else {
            assert(out[i] == out.last());
            i
        }
    }
}

/// The flags at a key held by exactly one entry are that entry's flags.
proof fn lemma_bits_single(out: Seq<(u32, u32, u32)>, i: int, x: int)
    requires
        0 <= i < out.len(),
        covers(out[i], x),
        forall|k: int| 0 <= k < out.len() && k != i ==> !covers(#[trigger] out[k], x),
    ensures
        bits_at(out, x) == out[i].2,
    decreases out.len(),
{
    let last = out.len() - 1;
    if i == last {
        lemma_bits_none(out.drop_last(), x);
        lemma_or_zero(out[i].2);
    } else {
        assert forall|k: int| 0 <= k < out.drop_last().len() && k != i implies !covers(#[trigger] out.drop_last()[k], x) by {
            assert(out.drop_last()[k] == out[k]);
        }
        assert(out.drop_last()[i] == out[i]);
        lemma_bits_single(out.drop_last(), i, x);
        assert(!covers(out[last], x));
        lemma_or_zero(out[i].2);
    }
}

/// The flags at a key no entry holds are empty.
proof fn lemma_bits_none(out: Seq<(u32, u32, u32)>, x: int)
    requires
        forall|k: int| 0 <= k < out.len() ==> !covers(#[trigger] out[k], x),
    ensures
        bits_at(out, x) == 0,
    decreases out.len(),
{
    if out.len() > 0 {
        assert forall|k: int| 0 <= k < out.drop_last().len() implies !covers(#[trigger] out.drop_last()[k], x) by {
            assert(out.drop_last()[k] == out[k]);
        }
        lemma_bits_none(out.drop_last(), x);
        assert(!covers(out[out.len() - 1], x));
        lemma_or_zero(0);
    }
}

/// Compacting keeps the flags of every key: the ranges `compact` leaves give each key the
/// union of the flags that the original ranges gave it.
pub proof fn law_compact_preserves_flags(es: Seq<(u32, u32, u32)>, out: Seq<(u32, u32, u32)>, x: int)
    requires
        encodes(out, es, max_end(es) as int),
        0 <= x,
    ensures
        bits_at(out, x) == bits_at(es, x),
{
    let hi = max_end(es) as int;
    if x >= hi {
        lemma_bits_past_end(es, x);
        assert forall|k: int| 0 <= k < out.len() implies !covers(#[trigger] out[k], x) by {
            if k < out.len() - 1 {
                lemma_encoding_ordered(out, es, hi, k, out.len() - 1);
                assert(out[out.len() - 1].0 < out[out.len() - 1].1);
            }
        }
        lemma_bits_none(out, x);
    } else {
        let i = lemma_encoding_covers(out, es, hi, x, 0);
        assert forall|k: int| 0 <= k < out.len() && k != i implies !covers(#[trigger] out[k], x) by {
            if k < i {
                lemma_encoding_ordered(out, es, hi, k, i);
            } else {
                lemma_encoding_ordered(out, es, hi, i, k);
            }
        }
        lemma_bits_single(out, i, x);
        assert(bits_at(es, x) == out[i].2);
    }
}

/// Inserting ranges one after another appends them in order: after the inserts the entries
/// are the entries before followed by the inserted ranges.
pub proof fn law_inserts_append(states: Seq<RangeMap>, inserted: Seq<(u32, u32, u32)>)
    requires
        states.len() == inserted.len() + 1,
        forall|i: int|
            0 <= i < inserted.len() ==> #[trigger] states[i + 1].entries() == states[i].entries().push(
                inserted[i],
            ),
    ensures
        states.last().entries() == states[0].entries() + inserted,
    decreases inserted.len(),
{
    let n = inserted.len() as int;
    if n == 0 {
        assert(states[0].entries() + inserted =~= states[0].entries());
    } else {
        let ps = states.drop_last();
        let pi = inserted.drop_last();
        assert forall|i: int| 0 <= i < pi.len() implies #[trigger] ps[i + 1].entries() == ps[i].entries().push(
            pi[i],
        ) by {
            assert(states[i + 1].entries() == states[i].entries().push(inserted[i]));
        }
        law_inserts_append(ps, pi);
        let l = n - 1;
        assert(states[l + 1].entries() == states[l].entries().push(inserted[l]));
        assert(states[0].entries() + inserted =~= (states[0].entries() + pi).push(inserted[l]));
    }
}

/// Some entry covers the key `x`.
pub open spec fn covered(es: Seq<(u32, u32, u32)>, x: int) -> bool {
    exists|i: int| 0 <= i < es.len() && #[trigger] covers(es[i], x)
}

/// `max_end` is the end of some entry (or 0 without entries) and no entry ends after it.
proof fn lemma_max_end(es: Seq<(u32, u32, u32)>)
    ensures
        forall|i: int| 0 <= i < es.len() ==> (#[trigger] es[i]).1 <= max_end(es),
        es.len() == 0 ==> max_end(es) == 0,
        es.len() > 0 ==> exists|i: int| 0 <= i < es.len() && (#[trigger] es[i]).1 == max_end(es),
    decreases es.len(),
{
    if es.len() > 0 {
        let p = es.drop_last();
        lemma_max_end(p);
        assert forall|i: int| 0 <= i < es.len() implies (#[trigger] es[i]).1 <= max_end(es) by {
            if i < p.len() {
                assert(p[i] == es[i]);
            }
        }
        if es.last().1 >= max_end(p) {
            assert(es[es.len() - 1].1 == max_end(es));
        } else {
            let i = choose|i: int| 0 <= i < p.len() && (#[trigger] p[i]).1 == max_end(p);
            assert(es[i] == p[i]);
        }
    }
}

/// When nonempty ranges cover exactly the keys `0 .. e`, with no gap, compacting them
/// yields adjacent ranges from 0 to `e` that touch, carry on each key the union of the
/// flags of the ranges covering it, and differ from their neighbours, so that no two
/// touching ranges with equal flags remain.
pub proof fn law_compact_covers_gap_free_union(es: Seq<(u32, u32, u32)>, out: Seq<(u32, u32, u32)>, e: int)
    requires
        0 <= e,
        forall|i: int| 0 <= i < es.len() ==> (#[trigger] es[i]).0 < es[i].1,
        forall|x: int| #[trigger] covered(es, x) <==> 0 <= x < e,
        encodes(out, es, max_end(es) as int),
    ensures
        max_end(es) == e,
        encodes(out, es, e),
{
    lemma_max_end(es);
    assert forall|i: int| 0 <= i < es.len() implies (#[trigger] es[i]).1 <= e by {
        assert(covers(es[i], es[i].1 - 1));
        assert(covered(es, es[i].1 - 1));
    }
    if es.len() > 0 {
        let j = choose|j: int| 0 <= j < es.len() && (#[trigger] es[j]).1 == max_end(es);
        assert(es[j].1 <= e);
    }
    if e > 0 {
        assert(covered(es, e - 1));
        let i = choose|i: int| 0 <= i < es.len() && #[trigger] covers(es[i], e - 1);
        assert(es[i].1 <= max_end(es));
    } else if es.len() > 0 {
        assert(covers(es[0], es[0].0 as int));
        assert(covered(es, es[0].0 as int));
    }
}

} // verus!
