use game_render::pool::Pool;

#[test]
fn pool_insert() {
    let mut pool = Pool::<i32>::new();

    let id0 = pool.insert(0);
    let id1 = pool.insert(1);

    // New state not yet commited.
    assert_eq!(pool.get(id0), None);
    assert_eq!(pool.get(id1), None);

    pool.commit();

    // New state committed now.
    assert_eq!(pool.get(id0), Some(&0));
    assert_eq!(pool.get(id1), Some(&1));
}

#[test]
fn pool_remove() {
    let mut pool = Pool::<i32>::new();

    let id0 = pool.insert(0);
    let id1 = pool.insert(1);

    pool.commit();

    pool.remove(id0);
    pool.remove(id1);

    assert_eq!(pool.get(id0), Some(&0));
    assert_eq!(pool.get(id1), Some(&1));

    pool.commit();

    assert_eq!(pool.get(id0), None);
    assert_eq!(pool.get(id1), None);
}

#[test]
fn pool_reuses_freed_keys_last_first() {
    let mut pool = Pool::<u8>::new();
    let a = pool.insert(1);
    let b = pool.insert(2);
    let c = pool.insert(3);
    assert_eq!((a, b, c), (0, 1, 2));
    pool.commit();
    pool.remove(a);
    pool.remove(c);
    pool.commit();
    assert_eq!(pool.insert(9), 2);
    assert_eq!(pool.insert(9), 0);
    assert_eq!(pool.insert(9), 3);
}

#[test]
fn pool_remove_of_staged_value_cancels_it() {
    let mut pool = Pool::<u8>::new();
    let a = pool.insert(5);
    pool.remove(a);
    pool.commit();
    assert_eq!(pool.get(a), None);
    // The key was never committed, so it is not freed.
    assert_eq!(pool.insert(6), 1);
}
