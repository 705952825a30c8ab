use game_render::backend::{MemoryHeap, MemoryType};
use game_render::memory::{
    allocation_attempts, dedicated_only, memory_type_weight, next_attempt, AllocAction, AllocAttempt, next_power_of_two_u64, plan_page, preferred_memory_types,
    prev_power_of_two, use_dedicated, AllocError, DedicatedAllocation, HeapBudget, PagePool,
    MIN_PAGE_SIZE,
};
use game_render::region::Layout;

fn mem_type(id: u32, flags: u32) -> MemoryType {
    MemoryType { id, heap: 0, flags }
}

#[test]
fn memory_type_weights() {
    assert_eq!(memory_type_weight(1), 14);
    assert_eq!(memory_type_weight(1 | 2), 6);
    assert_eq!(memory_type_weight(1 | 2 | 4), 4);
    assert_eq!(memory_type_weight(2), 2);
    assert_eq!(memory_type_weight(2 | 4), 0);
}

#[test]
fn preferred_types_device_first_stable() {
    let types = [mem_type(0, 2 | 4), mem_type(1, 1), mem_type(2, 1 | 2 | 4), mem_type(3, 2 | 4), mem_type(4, 1)];
    assert_eq!(preferred_memory_types(&types, &[0, 1, 2, 3, 4], false), vec![1, 4, 2, 0, 3]);
    assert_eq!(preferred_memory_types(&types, &[0, 1, 2, 3, 4], true), vec![0, 2, 3]);
    assert_eq!(preferred_memory_types(&types, &[], false), Vec::<u32>::new());
}

#[test]
fn dedicated_policy() {
    assert!(!use_dedicated(DedicatedAllocation::NotNeeded, 10, 100));
    assert!(use_dedicated(DedicatedAllocation::Preferred, 10, 100));
    assert!(use_dedicated(DedicatedAllocation::NotNeeded, 101, 100));
    assert!(!dedicated_only(DedicatedAllocation::Preferred, 10, 100));
    assert!(dedicated_only(DedicatedAllocation::Required, 10, 100));
    assert!(dedicated_only(DedicatedAllocation::NotNeeded, 101, 100));
}

#[test]
fn powers_of_two() {
    assert_eq!(prev_power_of_two(1), 1);
    assert_eq!(prev_power_of_two(1000), 512);
    assert_eq!(prev_power_of_two(1024), 1024);
    assert_eq!(prev_power_of_two(u64::MAX), 1 << 63);
    assert_eq!(next_power_of_two_u64(0), 1);
    assert_eq!(next_power_of_two_u64(1025), 2048);
    assert_eq!(next_power_of_two_u64(1 << 63), 1 << 63);
}

#[test]
fn page_plan_grows_and_caps() {
    assert_eq!(plan_page(MIN_PAGE_SIZE, 100, 1 << 30), (1 << 20, 1 << 21));
    assert_eq!(plan_page(1 << 21, (1 << 22) + 1, 1 << 30), (1 << 23, 1 << 24));
    assert_eq!(plan_page(1 << 29, 10, (1 << 30) - 1), (1 << 29, 1 << 29));
}

#[test]
fn heap_budget_reserve_release() {
    let heaps = [MemoryHeap { id: 0, size: 100, flags: 1 }];
    let types = [mem_type(0, 1)];
    let mut budget = HeapBudget::new(&heaps);
    assert_eq!(budget.reserve(60, 0, &types, 1000), Ok(()));
    assert_eq!(budget.reserve(50, 0, &types, 1000), Err(AllocError::HeapFull));
    assert_eq!(budget.reserve(40, 0, &types, 30), Err(AllocError::AllocationTooBig));
    assert_eq!(budget.reserve(40, 0, &types, 1000), Ok(()));
    budget.release(60, 0, &types);
    assert_eq!(budget.reserve(60, 0, &types, 1000), Ok(()));
}

#[test]
fn page_pool_allocates_and_frees_pages() {
    let mut pool = PagePool::new(3);
    let layout = Layout::from_size_align(256, 256).unwrap();
    assert!(pool.alloc_in_pages(layout).is_none());
    let size = pool.next_page(layout, 1 << 30);
    assert_eq!(size, 1 << 20);
    let page = pool.add_page(size);
    assert_eq!(page, 0);
    let first = pool.alloc_in_page(page, layout);
    assert_eq!(first.offset, 0);
    assert_eq!(first.size, 256);
    let (p, second) = pool.alloc_in_pages(layout).unwrap();
    assert_eq!(p, 0);
    assert_eq!(second.offset, 256);
    assert!(!pool.dealloc(0, first));
    assert!(pool.dealloc(0, second));
    // The emptied slot is reused.
    assert_eq!(pool.add_page(1 << 21), 0);
}

fn attempt(memory_type: u32, dedicated: bool) -> AllocAttempt {
    AllocAttempt { memory_type, dedicated }
}

#[test]
fn allocation_attempt_order() {
    let order = [2, 0];
    assert_eq!(
        allocation_attempts(&order, DedicatedAllocation::NotNeeded, 10, 100),
        vec![attempt(2, false), attempt(0, false)]
    );
    assert_eq!(
        allocation_attempts(&order, DedicatedAllocation::Preferred, 10, 100),
        vec![attempt(2, true), attempt(0, true), attempt(2, false), attempt(0, false)]
    );
    assert_eq!(
        allocation_attempts(&order, DedicatedAllocation::Required, 10, 100),
        vec![attempt(2, true), attempt(0, true)]
    );
    assert_eq!(
        allocation_attempts(&order, DedicatedAllocation::NotNeeded, 200, 100),
        vec![attempt(2, true), attempt(0, true)]
    );
}

#[test]
fn allocation_takes_the_first_success() {
    let attempts = allocation_attempts(&[1, 3], DedicatedAllocation::Preferred, 10, 100);
    // Both dedicated attempts fail, the first pooled one succeeds.
    let outcomes = [false, false, true];
    let (mut next, mut action) = next_attempt(&attempts, 0, None);
    let mut k = 0;
    loop {
        match action {
            AllocAction::Try(_) => {
                let ok = outcomes[k];
                k += 1;
                (next, action) = next_attempt(&attempts, next, Some(ok));
            }
            AllocAction::Done(a) => {
                assert_eq!(a, attempt(1, false));
                break;
            }
            AllocAction::Fail => panic!("expected a success"),
        }
    }
    assert_eq!(next, 3);
    let all_fail = allocation_attempts(&[1], DedicatedAllocation::Required, 10, 100);
    assert_eq!(next_attempt(&all_fail, 0, None), (1, AllocAction::Try(attempt(1, true))));
    assert_eq!(next_attempt(&all_fail, 1, Some(false)), (1, AllocAction::Fail));
}

#[test]
fn heap_budget_settles_device_outcomes() {
    let heaps = [MemoryHeap { id: 0, size: 100, flags: 1 }];
    let types = [mem_type(0, 1)];
    let mut budget = HeapBudget::new(&heaps);
    assert_eq!(budget.reserve(60, 0, &types, 1000), Ok(()));
    assert_eq!(budget.settle(60, 0, &types, Err(-2)), Err(AllocError::Other(-2)));
    // The failed allocation gave its bytes back.
    assert_eq!(budget.reserve(100, 0, &types, 1000), Ok(()));
    assert_eq!(budget.settle(100, 0, &types, Ok(())), Ok(()));
    assert_eq!(budget.reserve(1, 0, &types, 1000), Err(AllocError::HeapFull));
}

#[test]
fn page_pool_reuses_the_most_recently_freed_slot() {
    let mut pool = PagePool::new(0);
    let layout = Layout::from_size_align(64, 64).unwrap();
    let mut regions = Vec::new();
    for k in 0..3 {
        let page = pool.add_page(1 << 16);
        assert_eq!(page, k);
        regions.push(pool.alloc_in_page(page, layout));
    }
    assert!(pool.dealloc(0, regions[0]));
    assert!(pool.dealloc(2, regions[2]));
    // Slot 2 was freed last, so it is taken first, then slot 0, then a new slot.
    assert_eq!(pool.add_page(1 << 16), 2);
    assert_eq!(pool.add_page(1 << 16), 0);
    assert_eq!(pool.add_page(1 << 16), 3);
}
