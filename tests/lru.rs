use least_recently_used::{LRUNode, Message, Response, State, LRU};

#[test]
fn it_works() {
    assert_eq!(2 + 2, 4);
    assert!(LRU::<u64>::new(1).is_some());
}

#[test]
fn zero_capacity_is_refused() {
    assert!(LRU::<u64>::new(0).is_none());
}

#[test]
fn largest_capacity_is_accepted() {
    let mut lru = LRU::<u64>::new(usize::MAX).unwrap();
    lru.insert(1, 10);
    assert_eq!(lru.capacity(), usize::MAX);
    assert_eq!(lru.len(), 1);
}

#[test]
fn recency_scenario() {
    let mut lru = LRU::new(6).unwrap();
    for i in 1..8u64 {
        lru.insert(i, i);
    }
    assert_eq!(lru.keys(), vec![7, 6, 5, 4, 3, 2]);
    assert_eq!(lru.get(&1), None);
    assert_eq!(lru.get(&2), Some(&2));
    assert_eq!(lru.keys(), vec![2, 7, 6, 5, 4, 3]);
    lru.insert(8, 8);
    assert_eq!(lru.keys(), vec![8, 2, 7, 6, 5, 4]);
    assert_eq!(lru.get(&3), None);
    assert_eq!(lru.get(&2), Some(&2));
    assert_eq!(lru.remove(&2), Some(2));
    assert_eq!(lru.get(&2), None);
    lru.insert(9, 9);
    assert_eq!(lru.get(&4), Some(&4));
    lru.insert(10, 10);
    assert_eq!(lru.get(&5), None);
    lru.insert(9, 13);
    assert_eq!(lru.get(&9), Some(&13));
    assert_eq!(lru.keys(), vec![9, 10, 4, 8, 7, 6]);
    assert_eq!(lru.len(), 6);
}

#[test]
fn inserts_within_capacity_keep_every_key() {
    let mut lru = LRU::new(4).unwrap();
    lru.insert(5, 50);
    lru.insert(6, 60);
    lru.insert(5, 51);
    lru.insert(7, 70);
    assert_eq!(lru.len(), 3);
    assert_eq!(lru.get(&5), Some(&51));
    assert_eq!(lru.get(&6), Some(&60));
    assert_eq!(lru.get(&7), Some(&70));
}

#[test]
fn overflow_evicts_least_recently_touched() {
    let mut lru = LRU::new(3).unwrap();
    lru.insert(1, 1);
    lru.insert(2, 2);
    lru.insert(3, 3);
    assert_eq!(lru.get(&1), Some(&1));
    lru.insert(4, 4);
    assert_eq!(lru.keys(), vec![4, 1, 3]);
    assert_eq!(lru.get(&2), None);
    lru.insert(5, 5);
    assert_eq!(lru.keys(), vec![5, 4, 1]);
    assert_eq!(lru.len(), 3);
}

#[test]
fn read_key_is_evicted_last() {
    let mut lru = LRU::new(3).unwrap();
    lru.insert(1, 1);
    lru.insert(2, 2);
    lru.insert(3, 3);
    assert_eq!(lru.get(&1), Some(&1));
    lru.insert(10, 0);
    assert_eq!(lru.get(&2), None);
    lru.insert(11, 0);
    assert_eq!(lru.keys(), vec![11, 10, 1]);
    lru.insert(12, 0);
    assert_eq!(lru.keys(), vec![12, 11, 10]);
}

#[test]
fn insert_existing_updates_and_promotes() {
    let mut lru = LRU::new(3).unwrap();
    lru.insert(1, 1);
    lru.insert(2, 2);
    lru.insert(3, 3);
    lru.insert(1, 100);
    assert_eq!(lru.len(), 3);
    assert_eq!(lru.keys(), vec![1, 3, 2]);
    lru.insert(4, 4);
    assert_eq!(lru.keys(), vec![4, 1, 3]);
    assert_eq!(lru.get(&1), Some(&100));
}

#[test]
fn remove_then_get_is_absent() {
    let mut lru = LRU::new(3).unwrap();
    lru.insert(1, 1);
    lru.insert(2, 2);
    lru.insert(3, 3);
    assert_eq!(lru.remove(&2), Some(2));
    assert_eq!(lru.get(&2), None);
    assert_eq!(lru.keys(), vec![3, 1]);
    assert_eq!(lru.remove(&9), None);
    assert_eq!(lru.len(), 2);
    lru.insert(4, 4);
    lru.insert(5, 5);
    assert_eq!(lru.keys(), vec![5, 4, 3]);
}

#[test]
fn remove_head_and_tail() {
    let mut lru = LRU::new(4).unwrap();
    for i in 1..5u64 {
        lru.insert(i, i * 10);
    }
    assert_eq!(lru.remove(&4), Some(40));
    assert_eq!(lru.remove(&1), Some(10));
    assert_eq!(lru.keys(), vec![3, 2]);
    assert_eq!(lru.remove(&3), Some(30));
    assert_eq!(lru.remove(&2), Some(20));
    assert_eq!(lru.keys(), Vec::<u64>::new());
    assert_eq!(lru.len(), 0);
}

#[test]
fn clear_then_reinsert_is_fresh() {
    let mut lru = LRU::new(2).unwrap();
    lru.insert(1, 1);
    lru.insert(2, 2);
    lru.clear();
    assert_eq!(lru.len(), 0);
    assert_eq!(lru.get(&1), None);
    assert_eq!(lru.get(&2), None);
    lru.insert(3, 3);
    lru.insert(4, 4);
    lru.insert(5, 5);
    assert_eq!(lru.keys(), vec![5, 4]);
    assert_eq!(lru.capacity(), 2);
}

#[test]
fn capacity_one_keeps_latest() {
    let mut lru = LRU::new(1).unwrap();
    lru.insert(1, 1);
    lru.insert(2, 2);
    assert_eq!(lru.get(&1), None);
    assert_eq!(lru.get(&2), Some(&2));
    assert_eq!(lru.keys(), vec![2]);
    lru.insert(2, 3);
    assert_eq!(lru.get(&2), Some(&3));
    assert_eq!(lru.len(), 1);
}

#[test]
fn node_links() {
    let mut node = LRUNode::new(7);
    assert_eq!(node.get_key(), 7);
    assert_eq!(node.get_next(), None);
    node.set_next(3);
    node.set_prev(4);
    assert_eq!(node.get_next(), Some(3));
    assert_eq!(node.get_prev(), Some(4));
    assert_eq!(node.clear_next(), Some(3));
    assert_eq!(node.clear_prev(), Some(4));
    assert_eq!(node.get_prev(), None);
}

fn value_of(r: Response<u64>) -> Option<u64> {
    match r {
        Response::Value(v) => Some(v),
        _ => None,
    }
}

#[test]
fn state_replies_match_direct_use() {
    let mut state = State::new(LRU::new(2).unwrap());
    let mut direct = LRU::new(2).unwrap();
    assert!(matches!(state.handle(Message::Insert(1, 10)), Response::Acknowledged));
    direct.insert(1, 10);
    assert!(matches!(state.handle(Message::Insert(2, 20)), Response::Acknowledged));
    direct.insert(2, 20);
    assert_eq!(value_of(state.handle(Message::Get(1))), direct.get(&1).copied());
    assert!(matches!(state.handle(Message::Insert(3, 30)), Response::Acknowledged));
    direct.insert(3, 30);
    assert!(matches!(state.handle(Message::Get(2)), Response::Absent));
    assert_eq!(direct.get(&2), None);
    assert_eq!(value_of(state.handle(Message::Remove(1))), Some(10));
    assert_eq!(direct.remove(&1), Some(10));
    assert!(matches!(state.handle(Message::Remove(1)), Response::Absent));
    assert_eq!(value_of(state.handle(Message::Get(3))), direct.get(&3).copied());
    assert!(matches!(state.handle(Message::Clear), Response::Acknowledged));
    assert!(matches!(state.handle(Message::Get(3)), Response::Absent));
}
