use game_render::buddy::BuddyAllocator;
use game_render::region::{Layout, Region};

fn find_overlapping_regions(regions: &[Region]) -> Option<(Region, Region)> {
    for (lhs_i, lhs) in regions.iter().enumerate() {
        for (rhs_i, rhs) in regions.iter().enumerate() {
            if lhs_i == rhs_i {
                continue;
            }

            if lhs.start() < rhs.end() && rhs.start() < lhs.end() {
                return Some((*lhs, *rhs));
            }
        }
    }

    None
}

#[test]
fn buddy_allocator_alloc() {
    let mut allocator = BuddyAllocator::new(Region::new(0, 128));
    let region = allocator
        .allocate(Layout::from_size_align(8, 1).unwrap())
        .unwrap();
    assert_eq!(region.size, 8);
}

#[test]
fn buddy_allocator_alloc_no_overlap() {
    let mut allocator = BuddyAllocator::new(Region::new(0, 128 * 128));

    let mut regions = Vec::new();
    for _ in 0..128 {
        let region = allocator
            .allocate(Layout::from_size_align(128, 1).unwrap())
            .unwrap();
        regions.push(region);
    }

    if let Some((lhs, rhs)) = find_overlapping_regions(&regions) {
        panic!("regions overlap: {:?}, {:?}", lhs, rhs);
    }
}

#[test]
fn buddy_allocator_alloc_and_dealloc() {
    let mut allocator = BuddyAllocator::new(Region::new(0, 128 * 128));

    let mut regions = Vec::new();
    for _ in 0..128 {
        let region = allocator
            .allocate(Layout::from_size_align(128, 1).unwrap())
            .unwrap();
        regions.push(region);
    }

    // Dealloc half the allocations.
    for region in regions.drain(..64) {
        allocator.dealloc(region);
    }

    // Realloc the dealloced allocations.
    let mut regions = Vec::new();
    for _ in 0..64 {
        let region = allocator
            .allocate(Layout::from_size_align(128, 1).unwrap())
            .unwrap();
        regions.push(region);
    }

    if let Some((lhs, rhs)) = find_overlapping_regions(&regions) {
        panic!("regions overlap: {:?}, {:?}", lhs, rhs);
    }
}

#[test]
fn buddy_allocator_dealloc_all() {
    let mut allocator = BuddyAllocator::new(Region::new(0, 128 * 128));

    let mut regions = Vec::new();
    for _ in 0..128 {
        let region = allocator
            .allocate(Layout::from_size_align(128, 1).unwrap())
            .unwrap();
        regions.push(region);
    }

    for region in regions.drain(..) {
        allocator.dealloc(region);
    }

    assert_eq!(allocator.num_blocks(), 1);
}

#[test]
fn buddy_allocator_big_alignment() {
    let mut allocator = BuddyAllocator::new(Region::new(0, 2048));

    for _ in 0..4 {
        // Do a small allocation to cause fragmentation.
        allocator
            .allocate(Layout::from_size_align(1, 1).unwrap())
            .unwrap();

        allocator
            .allocate(Layout::from_size_align(128, 256).unwrap())
            .unwrap();
    }
}

#[test]
fn buddy_allocator_grow() {
    let mut allocator = BuddyAllocator::new(Region::new(0, 1));

    allocator.grow(Region::new(0, 4));

    for _ in 0..4 {
        allocator
            .allocate(Layout::from_size_align(1, 1).unwrap())
            .unwrap();
    }
}

#[test]
fn buddy_allocator_rounds_up_to_power_of_two() {
    let mut allocator = BuddyAllocator::new(Region::new(0, 64));
    let a = allocator.allocate(Layout::from_size_align(5, 1).unwrap()).unwrap();
    assert_eq!(a.size, 8);
    assert_eq!(a.offset, 0);
    let b = allocator.allocate(Layout::from_size_align(3, 1).unwrap()).unwrap();
    assert_eq!(b.size, 4);
    assert_eq!(b.offset, 8);
}

#[test]
fn buddy_allocator_full_returns_none() {
    let mut allocator = BuddyAllocator::new(Region::new(0, 16));
    assert!(allocator.allocate(Layout::from_size_align(32, 1).unwrap()).is_none());
    let a = allocator.allocate(Layout::from_size_align(16, 1).unwrap()).unwrap();
    assert!(allocator.allocate(Layout::from_size_align(1, 1).unwrap()).is_none());
    allocator.dealloc(a);
    assert_eq!(allocator.num_blocks(), 1);
    assert!(allocator.allocate(Layout::from_size_align(16, 1).unwrap()).is_some());
}

#[test]
fn layout_rejects_bad_alignment() {
    assert!(Layout::from_size_align(8, 3).is_none());
    assert!(Layout::from_size_align(8, 0).is_none());
    let l = Layout::from_size_align(8, 4).unwrap();
    assert_eq!(l.size(), 8);
    assert_eq!(l.align(), 4);
}

#[test]
fn buddy_allocator_fills_every_free_block() {
    let mut allocator = BuddyAllocator::new(Region::new(0, 8));
    let a = allocator.allocate(Layout::from_size_align(2, 2).unwrap()).unwrap();
    let mut offsets = vec![a.offset];
    for _ in 0..6 {
        let r = allocator.allocate(Layout::from_size_align(1, 1).unwrap()).unwrap();
        offsets.push(r.offset);
    }
    offsets.sort();
    assert_eq!(offsets, vec![0, 2, 3, 4, 5, 6, 7]);
    assert!(allocator.allocate(Layout::from_size_align(1, 1).unwrap()).is_none());
}
