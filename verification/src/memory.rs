use vstd::prelude::*;

use crate::backend::MemoryType;
use crate::buddy::BuddyAllocator;
use crate::pow2::{is_next_pow2, is_pow2, lemma_next_pow2_unique, lemma_pow2_double, lemma_pow2_pos};
use crate::region::{Layout, Region};

verus! {

/// The smallest page a page pool allocates: 1 MiB.
pub const MIN_PAGE_SIZE: u64 = 0x10_0000;

/// Each new page is at least this many times as large as the previous one.
pub const GROWTH_FACTOR: u64 = 2;

/// How well a memory type with these flags suits memory the host does not access:
/// exactly device local counts 8, device local 4, and not host coherent 2.
pub open spec fn type_weight(flags: u32) -> int {
    (if flags == 1 {
        8int
    } else {
        0int
    }) + (if flags & 1 != 0 {
        4int
    } else {
        0int
    }) + (if flags & 4 == 0 {
        2int
    } else {
        0int
    })
}

/// The preference weight of a memory type's flags.
pub fn memory_type_weight(flags: u32) -> (r: u8)
    ensures
        r == type_weight(flags),
{
    let exact: u8 = if flags == 1 {
        8
    } else {
        0
    };
    let local: u8 = if flags & 1 != 0 {
        4
    } else {
        0
    };
    let coherent: u8 = if flags & 4 == 0 {
        2
    } else {
        0
    };
    exact + local + coherent
}

/// The candidates whose memory type is host visible, in their order.
pub open spec fn host_visible_types(candidates: Seq<u32>, types: Seq<MemoryType>) -> Seq<u32> {
    candidates.filter(|id: u32| types[id as int].flags & 2 != 0)
}

/// The candidates of weight `w`, in their order.
pub open spec fn weight_class(candidates: Seq<u32>, types: Seq<MemoryType>, w: int) -> Seq<u32> {
    candidates.filter(|id: u32| type_weight(types[id as int].flags) == w)
}

/// The candidates of the `k` highest weights (14 down to `15 - k`), highest first, each
/// weight keeping the candidates' order.
pub open spec fn top_classes(candidates: Seq<u32>, types: Seq<MemoryType>, k: nat) -> Seq<u32>
    decreases k,
{
    if k == 0 {
        Seq::empty()
    } else {
        top_classes(candidates, types, (k - 1) as nat) + weight_class(candidates, types, 15 - k)
    }
}

/// The order in which memory types are tried: for host-visible memory only the host visible
/// candidates, in their order; otherwise every candidate, the memory closest to the GPU
/// first, candidates of equal weight in their order (a stable sort by descending weight).
pub open spec fn memory_type_order(candidates: Seq<u32>, types: Seq<MemoryType>, host_visible: bool) -> Seq<u32> {
    if host_visible {
        host_visible_types(candidates, types)
    } else {
        top_classes(candidates, types, 15)
    }
}

/// Computes `memory_type_order`.
pub fn preferred_memory_types(types: &[MemoryType], candidates: &[u32], host_visible: bool) -> (r: Vec<u32>)
    requires
        forall|i: int| 0 <= i < candidates@.len() ==> #[trigger] candidates@[i] < types@.len(),
    ensures
        r@ == memory_type_order(candidates@, types@, host_visible),
{
    let mut r: Vec<u32> = Vec::new();
    if host_visible {
        let mut j: usize = 0;
        while j < candidates.len()
            invariant
                j <= candidates@.len(),
                forall|i: int| 0 <= i < candidates@.len() ==> #[trigger] candidates@[i] < types@.len(),
                r@ == host_visible_types(candidates@.take(j as int), types@),
            decreases candidates@.len() - j,
        {
            let id = candidates[j];
            assert(candidates@[j as int] < types@.len());
            let keep = types[id as usize].flags & 2 != 0;
            if keep {
                r.push(id);
            }
            proof {
                let t = candidates@.take(j + 1);
                assert(t.drop_last() =~= candidates@.take(j as int));
                assert(t.last() == id);
                reveal_with_fuel(Seq::<u32>::filter, 2);
                assert(host_visible_types(t, types@) == if types@[id as int].flags & 2 != 0 {
                    host_visible_types(candidates@.take(j as int), types@).push(id)
                } else {
                    host_visible_types(candidates@.take(j as int), types@)
                });
            }
            j = j + 1;
        }
        proof {
            assert(candidates@.take(candidates@.len() as int) =~= candidates@);
        }
        return r;
    }
    let mut k: u8 = 1;
    proof {
        assert(r@ =~= top_classes(candidates@, types@, 0));
    }
    while k <= 15
        invariant
            1 <= k <= 16,
            forall|i: int| 0 <= i < candidates@.len() ==> #[trigger] candidates@[i] < types@.len(),
            r@ == top_classes(candidates@, types@, (k - 1) as nat),
        decreases 16 - k,
    {
        let w: u8 = 15 - k;
        let ghost base = r@;
        let mut j: usize = 0;
        while j < candidates.len()
            invariant
                j <= candidates@.len(),
                1 <= k <= 15,
                w == 15 - k,
                forall|i: int| 0 <= i < candidates@.len() ==> #[trigger] candidates@[i] < types@.len(),
                r@ == base + weight_class(candidates@.take(j as int), types@, w as int),
            decreases candidates@.len() - j,
        {
            let id = candidates[j];
            assert(candidates@[j as int] < types@.len());
            let ghost before = r@;
            if memory_type_weight(types[id as usize].flags) == w {
                r.push(id);
            }
            proof {
                let t = candidates@.take(j + 1);
                assert(t.drop_last() =~= candidates@.take(j as int));
                assert(t.last() == id);
                reveal_with_fuel(Seq::<u32>::filter, 2);
                assert(weight_class(t, types@, w as int) == if type_weight(types@[id as int].flags) == w as int {
                    weight_class(candidates@.take(j as int), types@, w as int).push(id)
                } else {
                    weight_class(candidates@.take(j as int), types@, w as int)
                });
                assert(r@ =~= base + weight_class(t, types@, w as int));
            }
            j = j + 1;
        }
        proof {
            assert(candidates@.take(candidates@.len() as int) =~= candidates@);
        }
        k = k + 1;
    }
    r
}

/// Whether a dedicated allocation is requested or needed, and whether it is the only option.
#[derive(Copy, Clone, Debug, PartialEq, Eq, Structural)]
pub enum DedicatedAllocation {
    /// A dedicated allocation is not needed.
    NotNeeded,
    /// A dedicated allocation is preferred but not required.
    Preferred,
    /// Only a dedicated allocation may be used.
    Required,
}

/// Whether an allocation of `size` bytes is first tried as a dedicated allocation: when one
/// is preferred or required, or when the size exceeds the largest allowed allocation.
pub fn use_dedicated(dedicated: DedicatedAllocation, size: u64, max_allocation_size: u64) -> (r: bool)
    ensures
        r == (dedicated != DedicatedAllocation::NotNeeded || size > max_allocation_size),
{
    !matches!(dedicated, DedicatedAllocation::NotNeeded) || size > max_allocation_size
}

/// Whether an allocation whose dedicated attempts all failed must fail instead of falling
/// back to a page: when a dedicated allocation is required or the size is too large for a
/// page.
pub fn dedicated_only(dedicated: DedicatedAllocation, size: u64, max_allocation_size: u64) -> (r: bool)
    ensures
        r == (dedicated == DedicatedAllocation::Required || size > max_allocation_size),
{
    matches!(dedicated, DedicatedAllocation::Required) || size > max_allocation_size
}

/// One attempt to allocate memory: of which memory type, and whether as a dedicated
/// allocation or from a page.
#[derive(Copy, Clone, Debug, PartialEq, Eq, Structural)]
pub struct AllocAttempt {
    pub memory_type: u32,
    pub dedicated: bool,
}

/// The attempts of memory types `order`, each as dedicated or not.
pub open spec fn attempts_of(order: Seq<u32>, dedicated: bool) -> Seq<AllocAttempt> {
    order.map_values(|t: u32| AllocAttempt { memory_type: t, dedicated })
}

/// The attempts of an allocation, in the order they are made: when a dedicated allocation
/// is used, one for every memory type of `order`; then, unless only a dedicated allocation
/// may be used, one from a page for every memory type of `order`.
pub open spec fn attempts_spec(order: Seq<u32>, dedicated: DedicatedAllocation, size: u64, max_allocation_size: u64) -> Seq<AllocAttempt> {
    let use_ded = dedicated != DedicatedAllocation::NotNeeded || size > max_allocation_size;
    let only_ded = dedicated == DedicatedAllocation::Required || size > max_allocation_size;
    (if use_ded {
        attempts_of(order, true)
    } else {
        Seq::empty()
    }) + (if use_ded && only_ded {
        Seq::empty()
    } else {
        attempts_of(order, false)
    })
}

/// Appends the attempts of `order` with the given kind.
fn push_attempts(v: &mut Vec<AllocAttempt>, order: &[u32], dedicated: bool)
    ensures
        final(v)@ == old(v)@ + attempts_of(order@, dedicated),
{
    let mut i: usize = 0;
    while i < order.len()
        invariant
            i <= order.len(),
            v@ == old(v)@ + attempts_of(order@.take(i as int), dedicated),
        decreases order.len() - i,
    {
        v.push(AllocAttempt { memory_type: order[i], dedicated });
        proof {
            assert(attempts_of(order@.take(i + 1), dedicated) =~= attempts_of(order@.take(i as int), dedicated).push(
                AllocAttempt { memory_type: order@[i as int], dedicated },
            ));
        }
        i = i + 1;
    }
    proof {
        assert(order@.take(i as int) =~= order@);
    }
}

/// The attempts of an allocation of `size` bytes over the memory types `order` (see
/// `memory_type_order`), in the order they are made.
pub fn allocation_attempts(order: &[u32], dedicated: DedicatedAllocation, size: u64, max_allocation_size: u64) -> (r: Vec<AllocAttempt>)
    ensures
        r@ == attempts_spec(order@, dedicated, size, max_allocation_size),
{
    let mut r: Vec<AllocAttempt> = Vec::new();
    let use_ded = use_dedicated(dedicated, size, max_allocation_size);
    if use_ded {
        push_attempts(&mut r, order, true);
    }
    if !(use_ded && dedicated_only(dedicated, size, max_allocation_size)) {
        push_attempts(&mut r, order, false);
    }
    proof {
        assert(r@ =~= attempts_spec(order@, dedicated, size, max_allocation_size));
    }
    r
}

/// What to do next while allocating.
#[derive(Copy, Clone, Debug, PartialEq, Eq, Structural)]
pub enum AllocAction {
    /// Make this attempt and report whether it succeeded.
    Try(AllocAttempt),
    /// The last attempt succeeded: the allocation is made by it.
    Done(AllocAttempt),
    /// Every attempt failed: the allocation fails.
    Fail,
}

/// The next step of an allocation that makes `attempts` in order: `next` attempts have been
/// made and `outcome` tells whether the last of them succeeded (`None` before the first).
/// Returns the new count of attempts made and the action.
pub fn next_attempt(attempts: &[AllocAttempt], next: usize, outcome: Option<bool>) -> (r: (usize, AllocAction))
    requires
        next <= attempts@.len(),
        outcome is Some <==> next > 0,
    ensures
        outcome == Some(true) ==> r == (next, AllocAction::Done(attempts@[next - 1])),
        outcome != Some(true) && next < attempts@.len() ==> r.0 == next + 1 && r.1 == AllocAction::Try(attempts@[next as int]),
        outcome != Some(true) && next == attempts@.len() ==> r == (next, AllocAction::Fail),
{
    match outcome {
        Some(true) => (next, AllocAction::Done(attempts[next - 1])),
        _ => if next < attempts.len() {
            (next + 1, AllocAction::Try(attempts[next]))
        } else {
            (next, AllocAction::Fail)
        },
    }
}

/// The outcome of allocating with `attempts` where attempt `i` succeeds iff `ok[i]`: the
/// first attempt that succeeds, or `None` when all fail.
pub open spec fn first_success(attempts: Seq<AllocAttempt>, ok: Seq<bool>) -> Option<AllocAttempt>
    decreases attempts.len(),
{
    if attempts.len() == 0 || ok.len() == 0 {
        None
    } else if ok[0] {
        Some(attempts[0])
    } else {
        first_success(attempts.drop_first(), ok.drop_first())
    }
}

/// The result of driving `next_attempt` from `next` attempts made, the last with `outcome`,
/// when attempt `i` succeeds iff `ok[i]`.
pub open spec fn drive(attempts: Seq<AllocAttempt>, ok: Seq<bool>, next: nat, outcome: Option<bool>) -> Option<AllocAttempt>
    decreases attempts.len() - next,
{
    if outcome == Some(true) && next > 0 {
        Some(attempts[next - 1])
    } else if next < attempts.len() {
        drive(attempts, ok, next + 1, Some(ok[next as int]))
    } else {
        None
    }
}

/// Driving the allocation from the start ends with the first attempt that succeeds, or
/// fails when none does: dedicated attempts come before attempts from pages, and memory
/// types in the order given.
pub proof fn law_allocation_takes_first_success(attempts: Seq<AllocAttempt>, ok: Seq<bool>)
    requires
        ok.len() == attempts.len(),
    ensures
        drive(attempts, ok, 0, None) == first_success(attempts, ok),
{
    lemma_drive_from(attempts, ok, 0);
    assert(attempts.skip(0) =~= attempts);
    assert(ok.skip(0) =~= ok);
}

proof fn lemma_drive_from(attempts: Seq<AllocAttempt>, ok: Seq<bool>, k: nat)
    requires
        ok.len() == attempts.len(),
        k <= attempts.len(),
    ensures
        drive(attempts, ok, k, if k == 0 { None } else { Some(false) }) == first_success(attempts.skip(k as int), ok.skip(k as int)),
    decreases attempts.len() - k,
{
    if k < attempts.len() {
        lemma_drive_from(attempts, ok, k + 1);
        assert(attempts.skip(k as int).drop_first() =~= attempts.skip((k + 1) as int));
        assert(ok.skip(k as int).drop_first() =~= ok.skip((k + 1) as int));
        if ok[k as int] {
            assert(drive(attempts, ok, k + 1, Some(true)) == Some(attempts[k as int]));
        }
    }
}

/// Returns the largest power of two that is at most `x`.
pub fn prev_power_of_two(x: u64) -> (r: u64)
    requires
        x >= 1,
    ensures
        is_pow2(r as int),
        r <= x,
        x < 2 * r,
{
    let mut p: u64 = 1;
    while p <= x / 2
        invariant
            is_pow2(p as int),
            1 <= p <= x,
        decreases x - p,
    {
        proof {
            lemma_pow2_double(p as int);
        }
        p = p * 2;
    }
    p
}

/// Returns the smallest power of two that is at least `n`.
pub fn next_power_of_two_u64(n: u64) -> (p: u64)
    requires
        n <= 0x8000_0000_0000_0000,
    ensures
        is_next_pow2(p as int, n as int),
{
    let mut p: u64 = 1;
    while p < n
        invariant
            is_pow2(p as int),
            p == 1 || p / 2 < n,
            n <= 0x8000_0000_0000_0000,
        decreases u64::MAX - p,
    {
        proof {
            lemma_pow2_double(p as int);
        }
        p = p * 2;
    }
    p
}

/// The size of a new page for an allocation that needs `size_padded` bytes, and the
/// planned size of the page after it: the page is the next power of two of the planned
/// size or the padded size, whichever is larger; the following page is planned twice as
/// large, but no larger than the largest power of two allowed for one allocation.
pub fn plan_page(next_page_size: u64, size_padded: u64, max_allocation_size: u64) -> (r: (u64, u64))
    requires
        max_allocation_size >= 1,
        next_page_size <= 0x8000_0000_0000_0000,
        size_padded <= 0x8000_0000_0000_0000,
    ensures
        is_next_pow2(
            r.0 as int,
            if next_page_size >= size_padded {
                next_page_size as int
            } else {
                size_padded as int
            },
        ),
        ({
            let doubled = if r.0 as int * 2 > u64::MAX {
                u64::MAX as int
            } else {
                r.0 as int * 2
            };
            let cap = prev_pow2_spec(max_allocation_size as int);
            r.1 == if doubled <= cap {
                doubled
            } else {
                cap
            }
        }),
{
    let wanted = if next_page_size >= size_padded {
        next_page_size
    } else {
        size_padded
    };
    let page_size = next_power_of_two_u64(wanted);
    let doubled = if page_size > u64::MAX / GROWTH_FACTOR {
        u64::MAX
    } else {
        page_size * GROWTH_FACTOR
    };
    let cap = prev_power_of_two(max_allocation_size);
    proof {
        lemma_prev_pow2_unique(max_allocation_size as int, cap as int);
    }
    let next = if doubled <= cap {
        doubled
    } else {
        cap
    };
    (page_size, next)
}

/// The largest power of two that is at most `x`.
pub open spec fn prev_pow2_spec(x: int) -> int {
    choose|p: int| is_pow2(p) && p <= x && x < 2 * p
}

/// The largest power of two at most `x` is the only power of two `p` with `p <= x < 2p`.
proof fn lemma_prev_pow2_unique(x: int, p: int)
    requires
        is_pow2(p),
        p <= x < 2 * p,
    ensures
        prev_pow2_spec(x) == p,
{
    let q = prev_pow2_spec(x);
    assert(is_pow2(q) && q <= x && x < 2 * q);
    if q < p {
        crate::pow2::lemma_pow2_le(q, p);
    } else if p < q {
        crate::pow2::lemma_pow2_le(p, q);
    }
}


/// `size` rounded up to a multiple of `align`.
pub open spec fn padded_size(size: int, align: int) -> int {
    if size % align == 0 {
        size
    } else {
        size + (align - size % align)
    }
}

/// `q` is `(page size, next planned size)` as `plan_page` computes them.
pub open spec fn plan_page_ok(next_page_size: int, size_padded: int, max_allocation_size: int, q: (int, int)) -> bool {
    let wanted = if next_page_size >= size_padded {
        next_page_size
    } else {
        size_padded
    };
    let doubled = if q.0 * 2 > u64::MAX {
        u64::MAX as int
    } else {
        q.0 * 2
    };
    let cap = prev_pow2_spec(max_allocation_size);
    &&& is_next_pow2(q.0, wanted)
    &&& q.1 == if doubled <= cap {
        doubled
    } else {
        cap
    }
}

/// The page size and next planned size that `plan_page` computes.
pub open spec fn plan_page_spec(next_page_size: int, size_padded: int, max_allocation_size: int) -> (int, int) {
    choose|q: (int, int)| plan_page_ok(next_page_size, size_padded, max_allocation_size, q)
}

/// `plan_page_ok` determines its result.
proof fn lemma_plan_page_unique(next_page_size: int, size_padded: int, max_allocation_size: int, q1: (int, int), q2: (int, int))
    requires
        plan_page_ok(next_page_size, size_padded, max_allocation_size, q1),
        plan_page_ok(next_page_size, size_padded, max_allocation_size, q2),
    ensures
        q1 == q2,
{
    let wanted = if next_page_size >= size_padded {
        next_page_size
    } else {
        size_padded
    };
    lemma_next_pow2_unique(q1.0, q2.0, wanted);
}

/// The largest power of two at most `x` is a power of two at most `x`.
proof fn lemma_prev_pow2_props(x: int)
    requires
        x >= 1,
    ensures
        is_pow2(prev_pow2_spec(x)),
        prev_pow2_spec(x) <= x,
{
    let mut p: int = 1;
    assert(is_pow2(1));
    lemma_prev_pow2_exists(x, 1);
}

/// Two to the power `k`.
pub open spec fn exp2(k: nat) -> int
    decreases k,
{
    if k == 0 {
        1
    } else {
        2 * exp2((k - 1) as nat)
    }
}

/// Two to any power is a power of two.
proof fn lemma_exp2_pow2(k: nat)
    ensures
        is_pow2(exp2(k)),
    decreases k,
{
    if k > 0 {
        lemma_exp2_pow2((k - 1) as nat);
        lemma_pow2_double(exp2((k - 1) as nat));
    }
}

/// A power of two that fits in `u64` is at most 2^63.
proof fn lemma_pow2_below_top(p: int)
    requires
        is_pow2(p),
        p <= u64::MAX,
    ensures
        p <= 0x8000_0000_0000_0000,
{
    let top: int = 0x8000_0000_0000_0000;
    lemma_exp2_pow2(63);
    assert(exp2(63) == top) by {
        reveal_with_fuel(exp2, 64);
    }
    if p > top {
        crate::pow2::lemma_pow2_le(top, p);
    }
}

/// Some power of two `p` satisfies `p <= x < 2p`.
proof fn lemma_prev_pow2_exists(x: int, p: int)
    requires
        x >= 1,
        is_pow2(p),
        p <= x,
    ensures
        is_pow2(prev_pow2_spec(x)),
        prev_pow2_spec(x) <= x,
    decreases x - p,
{
    if x < 2 * p {
        assert(is_pow2(p) && p <= x && x < 2 * p);
    } else {
        lemma_pow2_double(p);
        lemma_prev_pow2_exists(x, 2 * p);
    }
}

/// Why device memory could not be allocated.
#[derive(Copy, Clone, Debug, PartialEq, Eq)]
pub enum AllocError {
    /// The heap of the memory type has no room left.
    HeapFull,
    /// The allocation exceeds the largest allowed allocation.
    AllocationTooBig,
    /// The device refused the allocation, with its result code.
    Other(i32),
}

/// The bytes allocated from each memory heap, against each heap's size.
#[derive(Clone, Debug)]
pub struct HeapBudget {
    sizes: Vec<u64>,
    used: Vec<u64>,
}

impl HeapBudget {
    /// The size of each heap.
    pub closed spec fn sizes(&self) -> Seq<u64> {
        self.sizes@
    }

    /// The bytes allocated from each heap.
    pub closed spec fn used(&self) -> Seq<u64> {
        self.used@
    }

    /// One usage entry per heap.
    pub open spec fn wf(&self) -> bool {
        self.sizes().len() == self.used().len()
    }

    /// Creates a budget with nothing allocated from the given heaps.
    pub fn new(heaps: &[crate::backend::MemoryHeap]) -> (r: Self)
        ensures
            r.wf(),
            r.sizes().len() == heaps@.len(),
            r.used().len() == heaps@.len(),
            forall|h: int| 0 <= h < heaps@.len() ==> #[trigger] r.sizes()[h] == heaps@[h].size && r.used()[h] == 0,
    {
        let mut sizes: Vec<u64> = Vec::new();
        let mut used: Vec<u64> = Vec::new();
        let mut i: usize = 0;
        while i < heaps.len()
            invariant
                i <= heaps@.len(),
                sizes@.len() == i,
                used@.len() == i,
                forall|h: int| 0 <= h < i ==> #[trigger] sizes@[h] == heaps@[h].size && used@[h] == 0,
            decreases heaps@.len() - i,
        {
            sizes.push(heaps[i].size);
            used.push(0);
            i = i + 1;
        }
        Self { sizes, used }
    }

    /// Reserves `size` bytes in the heap of `memory_type`: too large an allocation is
    /// refused, so is one that would overfill the heap; otherwise the heap's usage grows.
    pub fn reserve(&mut self, size: u64, memory_type: u32, types: &[MemoryType], max_allocation_size: u64) -> (r: Result<(), AllocError>)
        requires
            old(self).wf(),
            memory_type < types@.len(),
            types@[memory_type as int].heap < old(self).sizes().len(),
        ensures
            final(self).wf(),
            final(self).sizes() == old(self).sizes(),
            ({
                let h = types@[memory_type as int].heap as int;
                if size > max_allocation_size {
                    r == Err::<(), AllocError>(AllocError::AllocationTooBig) && final(self).used() == old(self).used()
                } else if old(self).used()[h] + size > old(self).sizes()[h] {
                    r == Err::<(), AllocError>(AllocError::HeapFull) && final(self).used() == old(self).used()
                } else {
                    r is Ok && final(self).used() == old(self).used().update(h, (old(self).used()[h] + size) as u64)
                }
            }),
    {
        if size > max_allocation_size {
            return Err(AllocError::AllocationTooBig);
        }
        let heap = types[memory_type as usize].heap as usize;
        let used = self.used[heap];
        match used.checked_add(size) {
            Some(total) => {
                if total <= self.sizes[heap] {
                    self.used.set(heap, total);
                    Ok(())
                } else {
                    Err(AllocError::HeapFull)
                }
            },
            None => Err(AllocError::HeapFull),
        }
    }

    /// Completes an allocation of `size` bytes of `memory_type` reserved with `reserve`,
    /// given the device's outcome: a device failure gives the reserved bytes back and is
    /// reported with the device's code; a success keeps them reserved.
    pub fn settle(&mut self, size: u64, memory_type: u32, types: &[MemoryType], device: Result<(), i32>) -> (r: Result<(), AllocError>)
        requires
            old(self).wf(),
            memory_type < types@.len(),
            types@[memory_type as int].heap < old(self).sizes().len(),
            old(self).used()[types@[memory_type as int].heap as int] >= size,
        ensures
            final(self).wf(),
            final(self).sizes() == old(self).sizes(),
            match device {
                Ok(()) => r is Ok && final(self).used() == old(self).used(),
                Err(code) => r == Err::<(), AllocError>(AllocError::Other(code)) && final(self).used()
                    == old(self).used().update(
                    types@[memory_type as int].heap as int,
                    (old(self).used()[types@[memory_type as int].heap as int] - size) as u64,
                ),
            },
    {
        match device {
            Ok(()) => Ok(()),
            Err(code) => {
                self.release(size, memory_type, types);
                Err(AllocError::Other(code))
            },
        }
    }

    /// Returns `size` bytes to the heap of `memory_type`; the usage wraps around when more
    /// is returned than was reserved.
    pub fn release(&mut self, size: u64, memory_type: u32, types: &[MemoryType])
        requires
            old(self).wf(),
            memory_type < types@.len(),
            types@[memory_type as int].heap < old(self).sizes().len(),
        ensures
            final(self).wf(),
            final(self).sizes() == old(self).sizes(),
            ({
                let h = types@[memory_type as int].heap as int;
                final(self).used() == old(self).used().update(
                    h,
                    if old(self).used()[h] >= size {
                        (old(self).used()[h] - size) as u64
                    } else {
                        (old(self).used()[h] - size + u64::MAX + 1) as u64
                    },
                )
            }),
    {
        let heap = types[memory_type as usize].heap as usize;
        let used = self.used[heap];
        self.used.set(heap, used.wrapping_sub(size));
    }
}

/// `vacant` lists, each once, exactly the slots of `pages` without a page.
pub open spec fn vacant_ok<T>(pages: Seq<Option<T>>, vacant: Seq<usize>) -> bool {
    &&& forall|j: int| 0 <= j < vacant.len() ==> (#[trigger] vacant[j]) < pages.len() && pages[vacant[j] as int] is None
    &&& forall|i: int| 0 <= i < pages.len() && pages[i] is None ==> #[trigger] vacant.contains(i as usize)
    &&& forall|j: int, k: int| 0 <= j < k < vacant.len() ==> vacant[j] != vacant[k]
}

/// A page of device memory with a buddy allocator for its bytes.
#[derive(Debug)]
pub struct Page {
    allocator: BuddyAllocator,
    num_allocs: usize,
    size: u64,
}

/// The pages of one memory type, from which allocations that need no dedicated memory are
/// taken; a page is given back once its last allocation is.
#[derive(Debug)]
pub struct PagePool {
    pages: Vec<Option<Page>>,
    /// The vacant slots, the most recently vacated last; a new page takes the last one.
    vacant: Vec<usize>,
    memory_type: u32,
    next_page_size: u64,
}

impl PagePool {
    /// Whether page `i` exists.
    pub closed spec fn has_page(&self, i: int) -> bool {
        0 <= i < self.pages@.len() && self.pages@[i] is Some
    }

    /// The allocator of page `i`.
    pub closed spec fn page_allocator(&self, i: int) -> BuddyAllocator {
        self.pages@[i]->Some_0.allocator
    }

    /// The number of allocations taken from page `i`.
    pub closed spec fn page_allocs(&self, i: int) -> usize {
        self.pages@[i]->Some_0.num_allocs
    }

    /// The size of the page planned next.
    pub closed spec fn next_page_size_spec(&self) -> u64 {
        self.next_page_size
    }

    /// The page in slot `i`, if any.
    pub closed spec fn slot(&self, i: int) -> Option<Page> {
        self.pages@[i]
    }

    /// The number of page slots.
    pub closed spec fn slots(&self) -> nat {
        self.pages@.len()
    }

    /// The memory type the pages are allocated from.
    pub closed spec fn memory_type_spec(&self) -> u32 {
        self.memory_type
    }

    /// The vacant slots in the order they were vacated.
    pub closed spec fn vacant(&self) -> Seq<usize> {
        self.vacant@
    }

    /// Every page's allocator is well formed, and the vacant slots are exactly the slots
    /// without a page, each listed once.
    pub closed spec fn wf(&self) -> bool {
        &&& forall|i: int| 0 <= i < self.pages@.len() && self.pages@[i] is Some ==> (#[trigger] self.pages@[i])->Some_0.allocator.wf()
        &&& vacant_ok(self.pages@, self.vacant@)
    }

    /// Creates a pool without pages; the first page is planned at the minimum page size.
    pub fn new(memory_type: u32) -> (r: Self)
        ensures
            r.wf(),
            r.slots() == 0,
            r.memory_type_spec() == memory_type,
            r.next_page_size_spec() == MIN_PAGE_SIZE,
            r.vacant().len() == 0,
    {
        Self { pages: Vec::new(), vacant: Vec::new(), memory_type, next_page_size: MIN_PAGE_SIZE }
    }

    /// Allocates `layout` in the first page, by index, that has room for it.
    pub fn alloc_in_pages(&mut self, layout: Layout) -> (r: Option<(usize, Region)>)
        requires
            old(self).wf(),
            forall|k: int| old(self).has_page(k) ==> #[trigger] old(self).page_allocs(k) < usize::MAX,
        ensures
            final(self).wf(),
            final(self).slots() == old(self).slots(),
            final(self).vacant() == old(self).vacant(),
            final(self).next_page_size_spec() == old(self).next_page_size_spec(),
            final(self).memory_type_spec() == old(self).memory_type_spec(),
            match r {
                Some((i, reg)) => {
                    &&& old(self).has_page(i as int)
                    &&& final(self).has_page(i as int)
                    &&& !old(self).page_allocator(i as int).allocated().contains(reg)
                    &&& final(self).page_allocator(i as int).allocated() == old(self).page_allocator(
                        i as int,
                    ).allocated().insert(reg)
                    &&& final(self).page_allocator(i as int).capacity() == old(self).page_allocator(
                        i as int,
                    ).capacity()
                    &&& final(self).page_allocs(i as int) == old(self).page_allocs(i as int) + 1
                    &&& reg.offset % layout.align_spec() == 0
                    &&& is_next_pow2(reg.size as int, layout.size_spec() as int)
                    &&& reg.offset + reg.size <= old(self).page_allocator(i as int).capacity()
                    &&& forall|k: int| 0 <= k < old(self).slots() && k != i ==> #[trigger] final(self).slot(k)
                        == old(self).slot(k)
                    &&& forall|k: int| 0 <= k < i && old(self).has_page(k) ==> forall|p: int|
                        #[trigger] is_next_pow2(p, layout.size_spec() as int) ==> old(self).page_allocator(
                            k,
                        ).placement(p, layout.align_spec() as int) is None
                },
                None => {
                    &&& forall|k: int| 0 <= k < old(self).slots() ==> #[trigger] final(self).slot(k)
                        == old(self).slot(k)
                    &&& forall|k: int| 0 <= k < old(self).slots() && old(self).has_page(k) ==> forall|p: int|
                        #[trigger] is_next_pow2(p, layout.size_spec() as int) ==> old(self).page_allocator(
                            k,
                        ).placement(p, layout.align_spec() as int) is None
                },
            },
    {
        let mut i: usize = 0;
        while i < self.pages.len()
            invariant
                i <= self.pages@.len(),
                self.pages@ == old(self).pages@,
                self.vacant@ == old(self).vacant@,
                self.memory_type == old(self).memory_type,
                self.next_page_size == old(self).next_page_size,
                self.wf(),
                forall|k: int| old(self).has_page(k) ==> #[trigger] old(self).page_allocs(k) < usize::MAX,
                forall|k: int| 0 <= k < i && old(self).has_page(k) ==> forall|p: int|
                    #[trigger] is_next_pow2(p, layout.size_spec() as int) ==> old(self).page_allocator(
                        k,
                    ).placement(p, layout.align_spec() as int) is None,
            decreases self.pages@.len() - i,
        {
            let ghost before = self.pages@;
            let mut slot: Option<Page> = None;
            std::mem::swap(&mut slot, &mut self.pages[i]);
            match slot {
                Some(mut page) => {
                    assert(page == before[i as int]->Some_0);
                    assert(before[i as int] is Some);
                    let result = page.allocator.allocate(layout);
                    match result {
                        Some(reg) => {
                            assert(old(self).has_page(i as int));
                            assert(old(self).page_allocs(i as int) < usize::MAX);
                            page.num_allocs = page.num_allocs + 1;
                            let mut put = Some(page);
                            std::mem::swap(&mut put, &mut self.pages[i]);
                            return Some((i, reg));
                        },
                        None => {
                            let mut put = Some(page);
                            std::mem::swap(&mut put, &mut self.pages[i]);
                            proof {
                                assert(self.pages@ =~= before);
                            }
                        },
                    }
                },
                None => {
                    let mut put: Option<Page> = None;
                    std::mem::swap(&mut put, &mut self.pages[i]);
                    proof {
                        assert(self.pages@ =~= before);
                    }
                },
            }
            i = i + 1;
        }
        None
    }

    /// Plans a new page for `layout`: returns the page's size and plans the page after it
    /// (see `plan_page`; the layout's size is first padded to its alignment).
    pub fn next_page(&mut self, layout: Layout, max_allocation_size: u64) -> (page_size: u64)
        requires
            max_allocation_size >= 1,
            old(self).next_page_size_spec() <= 0x8000_0000_0000_0000,
        ensures
            ({
                let padded = padded_size(layout.size_spec() as int, layout.align_spec() as int);
                let planned = plan_page_spec(
                    old(self).next_page_size_spec() as int,
                    padded,
                    max_allocation_size as int,
                );
                &&& page_size == planned.0
                &&& final(self).next_page_size_spec() == planned.1
            }),
            is_pow2(page_size as int),
            page_size >= layout.size_spec(),
            final(self).next_page_size_spec() <= 0x8000_0000_0000_0000,
            final(self).slots() == old(self).slots(),
            forall|k: int| 0 <= k < old(self).slots() ==> #[trigger] final(self).slot(k) == old(self).slot(k),
            final(self).memory_type_spec() == old(self).memory_type_spec(),
            final(self).vacant() == old(self).vacant(),
            final(self).wf() == old(self).wf(),
    {
        let size = layout.size();
        let align = layout.align();
        proof {
            lemma_pow2_pos(align as int);
        }
        let padded = if size % align == 0 {
            size
        } else {
            size + (align - size % align)
        };
        let (page_size, next) = plan_page(self.next_page_size, padded as u64, max_allocation_size);
        proof {
            let q = choose|q: (int, int)| plan_page_ok(old(self).next_page_size as int, padded as int, max_allocation_size as int, q);
            assert(plan_page_ok(old(self).next_page_size as int, padded as int, max_allocation_size as int, (page_size as int, next as int)));
            lemma_plan_page_unique(old(self).next_page_size as int, padded as int, max_allocation_size as int, q, (page_size as int, next as int));
            crate::pow2::lemma_pow2_pos(page_size as int);
            let cap = prev_pow2_spec(max_allocation_size as int);
            lemma_prev_pow2_props(max_allocation_size as int);
            lemma_pow2_below_top(cap);
        }
        self.next_page_size = next;
        page_size
    }

    /// Adds an empty page of `page_size` bytes and returns its slot: the most recently
    /// vacated slot if there is one, or else a new slot at the end.
    pub fn add_page(&mut self, page_size: u64) -> (i: usize)
        requires
            old(self).wf(),
            is_pow2(page_size as int),
            page_size <= usize::MAX,
        ensures
            final(self).wf(),
            i == if old(self).vacant().len() > 0 {
                old(self).vacant().last() as int
            } else {
                old(self).slots() as int
            },
            final(self).vacant() == if old(self).vacant().len() > 0 {
                old(self).vacant().drop_last()
            } else {
                old(self).vacant()
            },
            !old(self).has_page(i as int),
            final(self).has_page(i as int),
            final(self).page_allocator(i as int).allocated().is_empty(),
            final(self).page_allocator(i as int).capacity() == page_size,
            final(self).page_allocs(i as int) == 0,
            i <= old(self).slots(),
            final(self).slots() == if i == old(self).slots() {
                old(self).slots() + 1
            } else {
                old(self).slots()
            },
            forall|k: int| 0 <= k < old(self).slots() && k != i ==> #[trigger] final(self).slot(k)
                == old(self).slot(k),
            final(self).next_page_size_spec() == old(self).next_page_size_spec(),
            final(self).memory_type_spec() == old(self).memory_type_spec(),
    {
        let page = Page {
            allocator: BuddyAllocator::new(Region::new(0, page_size as usize)),
            num_allocs: 0,
            size: page_size,
        };
        let ghost before = self.pages@;
        let ghost vac = self.vacant@;
        match self.vacant.pop() {
            Some(i) => {
                proof {
                    assert(vac[vac.len() - 1] == i);
                    assert(self.vacant@ =~= vac.drop_last());
                }
                self.pages.set(i, Some(page));
                proof {
                    let pages = self.pages@;
                    let v = self.vacant@;
                    assert forall|k: int| 0 <= k < pages.len() && pages[k] is Some implies (#[trigger] pages[k])->Some_0.allocator.wf() by {
                        if k != i {
                            assert(pages[k] == before[k]);
                        }
                    }
                    assert forall|j: int| 0 <= j < v.len() implies (#[trigger] v[j]) < pages.len() && pages[v[j] as int] is None by {
                        assert(v[j] == vac[j]);
                        assert(vac[j] != vac[vac.len() - 1]);
                    }
                    assert forall|k: int| 0 <= k < pages.len() && pages[k] is None implies #[trigger] v.contains(k as usize) by {
                        assert(k != i);
                        assert(before[k] is None);
                        assert(self.pages.len() == pages.len());
                        assert((k as usize) as int == k);
                        assert(vac.contains(k as usize));
                        let j = choose|j: int| 0 <= j < vac.len() && vac[j] == k as usize;
                        assert(vac[vac.len() - 1] == i);
                        assert(j != vac.len() - 1);
                        assert(v[j] == k as usize);
                    }
                }
                i
            },
            None => {
                proof {
                    assert(vac.len() == 0);
                }
                let i = self.pages.len();
                self.pages.push(Some(page));
                proof {
                    let pages = self.pages@;
                    assert forall|k: int| 0 <= k < pages.len() && pages[k] is Some implies (#[trigger] pages[k])->Some_0.allocator.wf() by {
                        if k < before.len() {
                            assert(pages[k] == before[k]);
                        }
                    }
                    assert forall|k: int| 0 <= k < pages.len() && pages[k] is None implies #[trigger] self.vacant@.contains(k as usize) by {
                        assert(k < before.len());
                        assert(pages[k] == before[k]);
                        assert(vac.contains(k as usize));
                    }
                }
                i
            },
        }
    }

    /// Allocates `layout` in the empty page `i`, which is large enough for it.
    pub fn alloc_in_page(&mut self, i: usize, layout: Layout) -> (reg: Region)
        requires
            old(self).wf(),
            old(self).has_page(i as int),
            old(self).page_allocator(i as int).allocated().is_empty(),
            old(self).page_allocs(i as int) == 0,
            layout.size_spec() <= old(self).page_allocator(i as int).capacity(),
        ensures
            final(self).wf(),
            final(self).has_page(i as int),
            final(self).page_allocator(i as int).allocated() == set![reg],
            final(self).page_allocator(i as int).capacity() == old(self).page_allocator(i as int).capacity(),
            final(self).page_allocs(i as int) == 1,
            reg.offset % layout.align_spec() == 0,
            is_next_pow2(reg.size as int, layout.size_spec() as int),
            reg.offset + reg.size <= old(self).page_allocator(i as int).capacity(),
            final(self).slots() == old(self).slots(),
            forall|k: int| 0 <= k < old(self).slots() && k != i ==> #[trigger] final(self).slot(k)
                == old(self).slot(k),
            final(self).next_page_size_spec() == old(self).next_page_size_spec(),
            final(self).memory_type_spec() == old(self).memory_type_spec(),
    {
        let ghost before = self.pages@;
        let mut slot: Option<Page> = None;
        std::mem::swap(&mut slot, &mut self.pages[i]);
        let mut page = match slot {
            Some(page) => page,
            None => {
                proof {
                    assert(false);
                }
                return Region::new(0, 0);
            },
        };
        let result = page.allocator.allocate(layout);
        let reg = match result {
            Some(reg) => reg,
            None => {
                proof {
                    assert(false);
                }
                Region::new(0, 0)
            },
        };
        proof {
            assert(page.allocator.allocated() =~= set![reg]);
        }
        page.num_allocs = 1;
        let mut put = Some(page);
        std::mem::swap(&mut put, &mut self.pages[i]);
        proof {
            assert forall|k: int| 0 <= k < self.pages@.len() && self.pages@[k] is Some implies (#[trigger] self.pages@[k])->Some_0.allocator.wf() by {
                if k != i {
                    assert(self.pages@[k] == before[k]);
                }
            }
        }
        reg
    }

    /// Returns `region` to page `i`; once the page's last allocation is returned the page is
    /// removed. Returns `true` if it was.
    pub fn dealloc(&mut self, i: usize, region: Region) -> (removed: bool)
        requires
            old(self).wf(),
            old(self).has_page(i as int),
            old(self).page_allocator(i as int).allocated().contains(region),
            old(self).page_allocs(i as int) >= 1,
        ensures
            final(self).wf(),
            removed == (old(self).page_allocs(i as int) == 1),
            removed ==> !final(self).has_page(i as int),
            !removed ==> {
                &&& final(self).has_page(i as int)
                &&& final(self).page_allocator(i as int).allocated() == old(self).page_allocator(
                    i as int,
                ).allocated().remove(region)
                &&& final(self).page_allocator(i as int).capacity() == old(self).page_allocator(
                    i as int,
                ).capacity()
                &&& final(self).page_allocs(i as int) == old(self).page_allocs(i as int) - 1
            },
            final(self).slots() == old(self).slots(),
            final(self).vacant() == if removed {
                old(self).vacant().push(i)
            } else {
                old(self).vacant()
            },
            forall|k: int| 0 <= k < old(self).slots() && k != i ==> #[trigger] final(self).slot(k)
                == old(self).slot(k),
            final(self).next_page_size_spec() == old(self).next_page_size_spec(),
            final(self).memory_type_spec() == old(self).memory_type_spec(),
    {
        let ghost before = self.pages@;
        let ghost vac = self.vacant@;
        let mut slot: Option<Page> = None;
        std::mem::swap(&mut slot, &mut self.pages[i]);
        let mut page = match slot {
            Some(page) => page,
            None => {
                proof {
                    assert(false);
                }
                return false;
            },
        };
        page.allocator.dealloc(region);
        page.num_allocs = page.num_allocs - 1;
        let removed = page.num_allocs == 0;
        let mut put = if removed {
            None
        } else {
            Some(page)
        };
        std::mem::swap(&mut put, &mut self.pages[i]);
        if removed {
            self.vacant.push(i);
        }
        proof {
            let pages = self.pages@;
            let v = self.vacant@;
            assert forall|k: int| 0 <= k < pages.len() && pages[k] is Some implies (#[trigger] pages[k])->Some_0.allocator.wf() by {
                if k != i {
                    assert(pages[k] == before[k]);
                }
            }
            assert(!vac.contains(i)) by {
                if vac.contains(i) {
                    let j = choose|j: int| 0 <= j < vac.len() && vac[j] == i;
                    assert(before[vac[j] as int] is None);
                }
            }
            assert forall|j: int| 0 <= j < v.len() implies (#[trigger] v[j]) < pages.len() && pages[v[j] as int] is None by {
                if j < vac.len() {
                    assert(v[j] == vac[j]);
                    assert(vac[j] != i);
                }
            }
            assert forall|k: int| 0 <= k < pages.len() && pages[k] is None implies #[trigger] v.contains(k as usize) by {
                if k == i {
                    assert(v[v.len() - 1] == i);
                } else {
                    assert(before[k] is None);
                    assert(vac.contains(k as usize));
                    let j = choose|j: int| 0 <= j < vac.len() && vac[j] == k as usize;
                    assert(v[j] == k as usize);
                }
            }
            assert forall|j: int, k: int| 0 <= j < k < v.len() implies v[j] != v[k] by {
                if k == vac.len() {
                    assert(v[j] == vac[j]);
                    assert(vac.contains(vac[j]));
                } else {
                    assert(v[j] == vac[j] && v[k] == vac[k]);
                }
            }
        }
        removed
    }
}

/// Returning the bytes just reserved in a heap restores the heap's usage.
pub proof fn law_release_undoes_reserve(used: Seq<u64>, h: int, size: u64)
    requires
        0 <= h < used.len(),
        used[h] + size <= u64::MAX,
    ensures
        ({
            let reserved = used.update(h, (used[h] + size) as u64);
            reserved.update(
                h,
                if reserved[h] >= size {
                    (reserved[h] - size) as u64
                } else {
                    (reserved[h] - size + u64::MAX + 1) as u64
                },
            ) == used
        }),
{
    let reserved = used.update(h, (used[h] + size) as u64);
    assert(reserved.update(h, (reserved[h] - size) as u64) =~= used);
}

} // verus!
