use game_render::range_map::{KeyBound, RangeMap};

const A: u32 = 1;
const B: u32 = 2;
const C: u32 = 4;
const D: u32 = 8;

fn insert(map: &mut RangeMap, range: std::ops::Range<u32>, value: u32) {
    map.insert(KeyBound::Included(range.start), KeyBound::Excluded(range.end), value);
}

#[test]
fn range_map_compact_single() {
    let mut map = RangeMap::new(0..100);
    insert(&mut map, 0..100, A);
    map.compact();
    assert_eq!(map.iter(), &[(0..100, A)]);
}

#[test]
fn range_map_compact_overlapping() {
    let mut map = RangeMap::new(0..100);
    insert(&mut map, 30..80, A);
    insert(&mut map, 10..70, B);
    insert(&mut map, 0..90, C);
    insert(&mut map, 40..100, D);

    map.compact();
    assert_eq!(
        map.iter(),
        &[
            (0..10, C),
            (10..30, B | C),
            (30..40, A | B | C),
            (40..70, A | B | C | D),
            (70..80, A | C | D),
            (80..90, C | D),
            (90..100, D)
        ]
    );
}

#[test]
fn range_map_compact_range_ends_in_middle() {
    let mut map = RangeMap::new(0..100);
    insert(&mut map, 0..100, A);
    insert(&mut map, 0..10, B);
    insert(&mut map, 0..20, C);
    insert(&mut map, 20..30, B);
    insert(&mut map, 60..70, D);

    map.compact();
    assert_eq!(
        map.iter(),
        &[
            (0..10, A | B | C),
            (10..20, A | C),
            (20..30, A | B),
            (30..60, A),
            (60..70, A | D),
            (70..100, A),
        ]
    );
}

#[test]
fn range_map_compact_merge() {
    let mut map = RangeMap::new(0..100);
    insert(&mut map, 0..20, A);
    insert(&mut map, 20..80, A);
    insert(&mut map, 80..100, A);

    map.compact();
    assert_eq!(map.iter(), &[(0..100, A)]);
}

#[test]
fn range_map_compact_overlapping_duplicates() {
    let mut map = RangeMap::new(0..100);
    insert(&mut map, 0..20, A);
    insert(&mut map, 10..20, A | B);
    insert(&mut map, 20..40, C);
    insert(&mut map, 20..60, A);
    insert(&mut map, 30..40, A);
    insert(&mut map, 50..60, A);

    map.compact();
    assert_eq!(
        map.iter(),
        &[(0..10, A), (10..20, A | B), (20..40, A | C), (40..60, A)]
    );
}

#[test]
fn range_map_compact_gap_and_leading_keys() {
    let mut map = RangeMap::new(0..100);
    insert(&mut map, 10..20, A);
    insert(&mut map, 30..40, A);
    map.compact();
    assert_eq!(map.iter(), &[(0..10, 0), (10..20, A), (20..30, 0), (30..40, A)]);
}

#[test]
fn range_map_compact_shared_bits_after_last_start() {
    let mut map = RangeMap::new(0..100);
    insert(&mut map, 0..50, A);
    insert(&mut map, 10..20, A);
    map.compact();
    assert_eq!(map.iter(), &[(0..50, A)]);
}

#[test]
fn range_map_insert_bounds() {
    let mut map = RangeMap::new(5..50);
    map.insert(KeyBound::Unbounded, KeyBound::Included(9), A);
    map.insert(KeyBound::Excluded(9), KeyBound::Unbounded, B);
    assert_eq!(map.iter(), &[(5..10, A), (10..50, B)]);
    let full = RangeMap::from_full_range(3..7, C);
    assert_eq!(full.iter(), &[(3..7, C)]);
    let mut empty = RangeMap::new(0..10);
    empty.compact();
    assert!(empty.iter().is_empty());
}

#[test]
fn range_map_inserts_append_in_order() {
    let mut map = RangeMap::new(0..100);
    insert(&mut map, 30..80, A);
    map.insert(KeyBound::Excluded(9), KeyBound::Included(69), B);
    map.insert(KeyBound::Unbounded, KeyBound::Unbounded, C);
    assert_eq!(map.iter(), &[(30..80, A), (10..70, B), (0..100, C)]);
}
