use game_render::debug::{debug_enabled, gpuav_enabled, parse_bool_setting};
use game_render::fps::{FpsLimit, FpsLimiter};
use game_render::resources::RefCount;
use game_render::simple_alloc::{BlockAllocator, BumpAllocator, FreeListAllocator};
use game_render::region::{Layout, Region};

#[test]
fn ref_count_last_reference() {
    let mut count = RefCount::new();
    count.increment();
    assert!(!count.decrement());
    assert!(count.decrement());
}

#[test]
fn ref_count_decrement_many() {
    let mut count = RefCount::new();
    count.increment();
    count.increment();
    assert!(count.decrement_many(3));
    let mut other = RefCount::new();
    assert!(!other.decrement_many(2));
}

#[test]
fn bool_settings() {
    assert_eq!(parse_bool_setting("true"), Some(true));
    assert_eq!(parse_bool_setting("1"), Some(true));
    assert_eq!(parse_bool_setting("false"), Some(false));
    assert_eq!(parse_bool_setting("0"), Some(false));
    assert_eq!(parse_bool_setting("yes"), None);
    assert_eq!(parse_bool_setting(""), None);
}

#[test]
fn debug_defaults() {
    assert!(debug_enabled(None));
    assert!(debug_enabled(Some("garbage")));
    assert!(!debug_enabled(Some("0")));
    assert!(!gpuav_enabled(None));
    assert!(!gpuav_enabled(Some("garbage")));
    assert!(gpuav_enabled(Some("true")));
}

#[test]
fn fps_limiter_timestep() {
    assert_eq!(FpsLimiter::new(FpsLimit::unlimited()).timestep(), None);
    assert_eq!(FpsLimiter::new(FpsLimit::default()).timestep(), None);
    let limiter = FpsLimiter::new(FpsLimit::limited(60));
    assert_eq!(limiter.timestep(), Some(16_666_666));
    assert_eq!(limiter.wait_nanos(6_666_666), 10_000_000);
    assert_eq!(limiter.wait_nanos(20_000_000), 0);
    assert_eq!(FpsLimiter::new(FpsLimit::limited(1)).timestep(), Some(1_000_000_000));
}

#[test]
fn bump_allocator_aligns_allocations() {
    let mut bump = BumpAllocator::new(Region::new(0, 64));
    let a = bump.allocate(Layout::from_size_align(8, 8).unwrap()).unwrap();
    assert_eq!(a.offset, 0);
    assert_eq!(a.size, 8);
    let b = bump.allocate(Layout::from_size_align(3, 1).unwrap()).unwrap();
    assert_eq!(b.offset, 8);
    let c = bump.allocate(Layout::from_size_align(4, 4).unwrap()).unwrap();
    assert_eq!(c.offset, 12);
    assert!(bump.allocate(Layout::from_size_align(64, 1).unwrap()).is_none());
    bump.reset();
    let d = bump.allocate(Layout::from_size_align(1, 1).unwrap()).unwrap();
    assert_eq!(d.offset, 0);
}

#[test]
fn bump_allocator_fills_its_region() {
    let mut bump = BumpAllocator::new(Region::new(0, 4));
    assert_eq!(bump.allocate(Layout::from_size_align(4, 1).unwrap()), Some(Region::new(0, 4)));
    assert!(bump.allocate(Layout::from_size_align(1, 1).unwrap()).is_none());
}

#[test]
fn trivial_allocators() {
    let mut block = BlockAllocator::new();
    block.dealloc();
    let mut free_list = FreeListAllocator::new(Region::new(4, 8));
    free_list.dealloc(Region::new(4, 2));
}

#[test]
fn debug_border_paints_the_edge() {
    let (w, h) = (4u32, 3u32);
    let mut pixels = vec![7u8; (w * h * 4) as usize];
    game_render::image::debug_border(&mut pixels, w, h);
    for y in 0..h {
        for x in 0..w {
            let i = ((y * w + x) * 4) as usize;
            let edge = x == 0 || y == 0 || x == w - 1 || y == h - 1;
            let expected = if edge { [255, 0, 0, 255] } else { [7, 7, 7, 7] };
            assert_eq!(&pixels[i..i + 4], &expected, "pixel ({x}, {y})");
        }
    }
    let mut empty: Vec<u8> = Vec::new();
    game_render::image::debug_border(&mut empty, 0, 5);
    assert!(empty.is_empty());
}
