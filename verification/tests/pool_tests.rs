use html5ever_flat_dom::pool::PoolOrVec;

#[test]
fn new_list_is_empty_pool_slice() {
    let pool: Vec<u32> = vec![7, 8];
    let list: PoolOrVec<u32> = PoolOrVec::new(&pool);
    assert!(matches!(list, PoolOrVec::Pool { head: 2, len: 0 }));
    assert_eq!(list.as_slice(&pool), &[] as &[u32]);
    assert_eq!(list.len(&pool), 0);
}

#[test]
fn push_at_tail_stays_in_pool_mode() {
    let mut pool: Vec<u32> = Vec::new();
    let mut list: PoolOrVec<u32> = PoolOrVec::new(&pool);
    list.push(1, &mut pool);
    list.push(2, &mut pool);
    assert!(matches!(list, PoolOrVec::Pool { head: 0, len: 2 }));
    assert_eq!(list.as_slice(&pool), &[1, 2]);
    assert_eq!(pool, vec![1, 2]);
}

#[test]
fn push_away_from_tail_promotes() {
    let mut pool: Vec<u32> = Vec::new();
    let mut list: PoolOrVec<u32> = PoolOrVec::new(&pool);
    list.push(1, &mut pool);
    // another list claims the pool's tail
    let mut other: PoolOrVec<u32> = PoolOrVec::new(&pool);
    other.push(9, &mut pool);
    list.push(2, &mut pool);
    assert!(matches!(list, PoolOrVec::Owned { .. }));
    assert_eq!(list.as_slice(&pool), &[1, 2]);
    // the promoted copy no longer touches the shared pool
    assert_eq!(pool, vec![1, 9]);
    assert_eq!(other.as_slice(&pool), &[9]);
}

#[test]
fn get_is_position_based() {
    let mut pool: Vec<u32> = Vec::new();
    let mut list: PoolOrVec<u32> = PoolOrVec::new(&pool);
    list.push(10, &mut pool);
    list.push(20, &mut pool);
    assert_eq!(list.get(0, &pool), Some(10));
    assert_eq!(list.get(1, &pool), Some(20));
    assert_eq!(list.get(2, &pool), None);
}

#[test]
fn insert_mid_list_promotes_insert_at_tail_does_not() {
    let mut pool: Vec<u32> = Vec::new();
    let mut list: PoolOrVec<u32> = PoolOrVec::new(&pool);
    list.push(1, &mut pool);
    list.push(3, &mut pool);
    // the pool-append case: index == len on a list at the pool's tail
    list.insert(2, 4, &mut pool);
    assert!(matches!(list, PoolOrVec::Pool { head: 0, len: 3 }));
    // any other insert promotes
    list.insert(1, 2, &mut pool);
    assert!(matches!(list, PoolOrVec::Owned { .. }));
    assert_eq!(list.as_slice(&pool), &[1, 2, 3, 4]);
}

#[test]
fn remove_always_promotes() {
    let mut pool: Vec<u32> = Vec::new();
    let mut list: PoolOrVec<u32> = PoolOrVec::new(&pool);
    list.push(1, &mut pool);
    list.push(2, &mut pool);
    list.push(3, &mut pool);
    list.remove(1, &pool);
    assert!(matches!(list, PoolOrVec::Owned { .. }));
    assert_eq!(list.as_slice(&pool), &[1, 3]);
    // a promoted list never reverts: further appends stay owned
    list.push(4, &mut pool);
    assert!(matches!(list, PoolOrVec::Owned { .. }));
    assert_eq!(list.as_slice(&pool), &[1, 3, 4]);
}

#[test]
fn iter_yields_a_copy_in_order() {
    let mut pool: Vec<u32> = Vec::new();
    let mut list: PoolOrVec<u32> = PoolOrVec::new(&pool);
    list.push(5, &mut pool);
    list.push(6, &mut pool);
    assert_eq!(list.iter(&pool), vec![5, 6]);
}
