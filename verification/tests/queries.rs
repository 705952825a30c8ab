use game_render::queries::{ManagedQueryPool, QueryObject, QueryPoolSet};

#[test]
fn query_pool_set_takes_smallest_fitting_pool() {
    let mut set: QueryPoolSet<&'static str> = QueryPoolSet::new();
    set.release(16, "sixteen");
    set.release(4, "four");
    set.release(64, "sixty-four");

    assert_eq!(set.take(5), Some((16, "sixteen")));
    assert_eq!(set.take(5), Some((64, "sixty-four")));
    assert_eq!(set.take(5), None);
    assert_eq!(set.take(4), Some((4, "four")));
    assert_eq!(set.take(1), None);
}

#[test]
fn query_pool_set_release_replaces_same_size() {
    let mut set: QueryPoolSet<u32> = QueryPoolSet::new();
    set.release(8, 1);
    set.release(8, 2);
    assert_eq!(set.take(8), Some((8, 2)));
    assert_eq!(set.take(1), None);
}

#[test]
fn managed_query_pool_hands_out_indices_in_order() {
    let mut pool = ManagedQueryPool::new("pool", 3);
    assert_eq!(pool.next_index(QueryObject::BeginCommands), 0);
    assert_eq!(pool.next_index(QueryObject::BeginPass("shadow")), 1);
    assert_eq!(pool.next_index(QueryObject::EndPass("shadow")), 2);
    assert_eq!(pool.len(), 3);
    assert_eq!(pool.size(), 3);
    assert_eq!(pool.objects().len(), 3);
    assert!(matches!(pool.objects()[1], QueryObject::BeginPass("shadow")));
    assert_eq!(*pool.pool(), "pool");
    assert_eq!(pool.into_pool(), ("pool", 3));
}
