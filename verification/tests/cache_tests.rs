use std::cell::Cell;

use lru_cache::linked_list::SinglyLinkedList;
use lru_cache::lru_cache::{ConfigError, LRUCache};

#[test]
fn it_works() {
    let mut list = SinglyLinkedList::new();
    list.push(3);
    list.push(4);
    assert_eq!(list.pop(), Some(4));
    assert_eq!(list.pop(), Some(3));
    assert_eq!(list.pop(), None);
}

#[test]
fn test_01() {
    let mut cache: LRUCache<i32, i32> = LRUCache::new(10, 100).unwrap();

    cache.set(1, 1);
    cache.set(2, 2);
    cache.set(2, 3);

    cache.get(&1, |v| println!("get: {:?}", v));
    cache.get(&2, |v| println!("get: {:?}", v));

    println!("total_size: {:?}", cache.size());
}

#[derive(Debug)]
struct Point {
    x: i32,
    y: i32,
}

#[test]
fn test_02() {
    let mut cache: LRUCache<String, Point> = LRUCache::new(10, 100).unwrap();

    for _i in 0..10 {
        cache.set(String::from("1"), Point { x: 1, y: 1 });
        cache.set(String::from("2"), Point { x: 2, y: 2 });
    }

    cache.get(&String::from("1"), |v| println!("get: {:?}", v));
    cache.get(&String::from("2"), |v| println!("get: {:?}", v));

    println!("total_size: {:?}", cache.size());
}

#[test]
fn stack_interleaved_push_pop() {
    let mut list: SinglyLinkedList<&str> = SinglyLinkedList::new();
    assert_eq!(list.pop(), None);
    list.push("a");
    list.push("b");
    assert_eq!(list.pop(), Some("b"));
    list.push("c");
    assert_eq!(list.pop(), Some("c"));
    assert_eq!(list.pop(), Some("a"));
    assert_eq!(list.pop(), None);
}

#[test]
fn capacity_two_evicts_oldest() {
    let mut cache: LRUCache<u64, String> = LRUCache::new(2, 16).unwrap();
    cache.set(1, String::from("a"));
    cache.set(2, String::from("b"));
    cache.set(3, String::from("c"));
    assert_eq!(cache.try_get(&2), Some(String::from("b")));
    assert_eq!(cache.try_get(&1), None);
    assert_eq!(cache.size(), 2);
}

#[test]
fn promotion_on_read_protects_entry() {
    let mut cache: LRUCache<u64, i32> = LRUCache::new(2, 16).unwrap();
    cache.set(1, 10);
    cache.set(2, 20);
    assert_eq!(cache.try_get(&1), Some(10));
    cache.set(3, 30);
    assert_eq!(cache.try_get(&2), None);
    assert_eq!(cache.try_get(&1), Some(10));
    assert_eq!(cache.try_get(&3), Some(30));
}

#[test]
fn lru_order_after_overfill() {
    let mut cache: LRUCache<u64, u64> = LRUCache::new(3, 8).unwrap();
    for k in 1..=5u64 {
        cache.set(k, k * 100);
    }
    assert_eq!(cache.recency_keys(), vec![5, 4, 3]);
    assert_eq!(cache.size(), 3);
    assert_eq!(cache.try_get(&1), None);
    assert_eq!(cache.try_get(&2), None);
    assert_eq!(cache.try_get(&3), Some(300));
}

#[test]
fn overwrite_keeps_size_and_promotes() {
    let mut cache: LRUCache<u64, i32> = LRUCache::new(3, 8).unwrap();
    cache.set(1, 1);
    cache.set(2, 2);
    cache.set(3, 3);
    cache.set(1, 9);
    assert_eq!(cache.size(), 3);
    assert_eq!(cache.recency_keys(), vec![1, 3, 2]);
    assert_eq!(cache.try_get(&1), Some(9));
}

#[test]
fn miss_changes_nothing() {
    let mut cache: LRUCache<u64, i32> = LRUCache::new(2, 4).unwrap();
    cache.set(1, 1);
    cache.set(2, 2);
    let before = cache.recency_keys();
    assert_eq!(cache.try_get(&7), None);
    assert_eq!(cache.recency_keys(), before);
    assert_eq!(cache.size(), 2);
}

#[test]
fn get_calls_back_on_hit_only() {
    let mut cache: LRUCache<u64, i32> = LRUCache::new(2, 4).unwrap();
    cache.set(1, 10);
    let hits = Cell::new(0);
    cache.get(&1, |v| {
        assert_eq!(*v, 10);
        hits.set(hits.get() + 1);
    });
    cache.get(&9, |_v| {
        hits.set(hits.get() + 100);
    });
    assert_eq!(hits.get(), 1);
}

#[test]
fn zero_capacity_is_refused() {
    match LRUCache::<u64, i32>::new(0, 4) {
        Err(e) => assert_eq!(e, ConfigError::ZeroCapacity),
        Ok(_) => panic!("a zero-capacity cache must be refused"),
    }
}

#[test]
fn zero_buckets_is_refused() {
    match LRUCache::<u64, i32>::new(2, 0) {
        Err(e) => assert_eq!(e, ConfigError::ZeroBuckets),
        Ok(_) => panic!("a zero-bucket cache must be refused"),
    }
}

#[test]
fn single_bucket_chains_still_work() {
    let mut cache: LRUCache<u64, i32> = LRUCache::new(3, 1).unwrap();
    cache.set(10, 1);
    cache.set(20, 2);
    cache.set(30, 3);
    cache.set(40, 4);
    assert_eq!(cache.try_get(&10), None);
    assert_eq!(cache.try_get(&20), Some(2));
    assert_eq!(cache.try_get(&30), Some(3));
    assert_eq!(cache.try_get(&40), Some(4));
    assert_eq!(cache.size(), 3);
}

#[test]
fn string_keys_round_trip() {
    let mut cache: LRUCache<String, u64> = LRUCache::new(2, 16).unwrap();
    cache.set(String::from("alpha"), 1);
    cache.set(String::from("beta"), 2);
    assert_eq!(cache.try_get(&String::from("alpha")), Some(1));
    cache.set(String::from("gamma"), 3);
    assert_eq!(cache.try_get(&String::from("beta")), None);
    assert_eq!(cache.try_get(&String::from("alpha")), Some(1));
    assert_eq!(cache.try_get(&String::from("gamma")), Some(3));
}

#[test]
fn negative_int_keys_work() {
    let mut cache: LRUCache<i32, i32> = LRUCache::new(2, 7).unwrap();
    cache.set(-5, 50);
    cache.set(5, -50);
    assert_eq!(cache.try_get(&-5), Some(50));
    assert_eq!(cache.try_get(&5), Some(-50));
    assert_eq!(cache.try_get(&0), None);
}
