use learnkit::lru_cache::{LRUCache, List};
use std::rc::Rc;

fn s(k: &str) -> String {
    String::from(k)
}

#[test]
fn lru_cache_test_push_pop() {
    let mut list = List::new();
    list.enqueue(1, 1);
    list.enqueue(2, 2);
    list.enqueue(3, 3);

    assert_eq!(list.dequeue().unwrap().value, Rc::new(1));
    assert_eq!(list.dequeue().unwrap().value, Rc::new(2));
    assert_eq!(list.dequeue().unwrap().value, Rc::new(3));
}

#[test]
fn test_touch() {
    let mut list = List::new();
    list.enqueue(1, 1);
    list.enqueue(2, 2);

    let node = list.head();

    list.enqueue(3, 3);

    assert!(node.is_some());

    list.touch_node(node.unwrap());

    assert_eq!(list.dequeue().unwrap().value, Rc::new(1));
    assert_eq!(list.dequeue().unwrap().value, Rc::new(3));
    assert_eq!(list.dequeue().unwrap().value, Rc::new(2));
    assert!(list.dequeue().is_none());
}

#[test]
fn test_touch_single_node() {
    let mut list = List::new();
    list.enqueue(1, 1);
    list.touch_node(list.head().unwrap());

    assert_eq!(list.value(list.tail().unwrap()).unwrap(), Rc::new(1));
    assert_eq!(list.dequeue().unwrap().value, Rc::new(1));
}

#[test]
fn test_touch_tail_node() {
    let mut list = List::new();
    list.enqueue(1, 1);
    list.enqueue(2, 2);
    list.enqueue(3, 3);

    list.touch_node(list.tail().unwrap());

    assert_eq!(list.dequeue().unwrap().value, Rc::new(2));
    assert_eq!(list.dequeue().unwrap().value, Rc::new(3));
    assert_eq!(list.dequeue().unwrap().value, Rc::new(1));
    assert!(list.dequeue().is_none());
}

#[test]
fn test_remove_node() {
    let mut list = List::new();
    list.enqueue(1, 1);
    list.enqueue(2, 2);
    list.enqueue(3, 3);

    match list.remove_node(list.head().unwrap()) {
        Ok(_) => {}
        Err(err) => panic!("{}", err),
    }

    assert_eq!(list.dequeue().unwrap().value, Rc::new(1));
    assert_eq!(list.dequeue().unwrap().value, Rc::new(2));
    assert!(list.dequeue().is_none());
}

#[test]
fn test_cache_get_set() {
    let mut cache = LRUCache::new(5);

    cache.set(s("one"), 1);
    cache.set(s("two"), 2);
    cache.set(s("three"), 3);

    assert_eq!(cache.get(&s("one")), Some(Rc::new(1)));
    assert_eq!(cache.get(&s("two")), Some(Rc::new(2)));
    assert_eq!(cache.get(&s("three")), Some(Rc::new(3)));
    assert_eq!(cache.get(&s("does not exist")), None);
}

#[test]
fn test_cache_has_upper_limit() {
    let mut cache = LRUCache::new(2);

    cache.set(s("one"), 1);
    cache.set(s("two"), 2);
    cache.set(s("three"), 3);

    assert_eq!(cache.get(&s("two")), Some(Rc::new(2)));
    assert_eq!(cache.get(&s("three")), Some(Rc::new(3)));

    assert_eq!(cache.get(&s("one")), None);
}

#[test]
fn test_get_touches_nodes() {
    let mut cache = LRUCache::new(2);

    cache.set(s("one"), 1);
    cache.set(s("two"), 2);

    assert_eq!(cache.get(&s("one")), Some(Rc::new(1)));

    cache.set(s("three"), 3);

    assert_eq!(cache.get(&s("one")), Some(Rc::new(1)));
    assert_eq!(cache.get(&s("three")), Some(Rc::new(3)));

    assert_eq!(cache.get(&s("two")), None);
}

#[test]
fn test_set_touches_nodes() {
    let mut cache = LRUCache::new(2);

    cache.set(s("one"), 1);
    cache.set(s("two"), 2);

    cache.set(s("one"), 10);

    cache.set(s("three"), 3);

    assert_eq!(cache.get(&s("one")), Some(Rc::new(10)));
    assert_eq!(cache.get(&s("three")), Some(Rc::new(3)));

    assert_eq!(cache.get(&s("two")), None);
}

#[test]
fn list_stale_handle_is_refused() {
    let mut list = List::new();
    let a = list.enqueue(s("a"), 1);
    let b = list.enqueue(s("b"), 2);
    assert!(list.is_live(a));
    let removed = list.remove_node(a).ok().unwrap();
    assert_eq!(removed.key, "a");
    assert_eq!(*removed.value, 1);
    assert!(!list.is_live(a));
    assert!(matches!(list.remove_node(a), Err("Node is not in the list")));
    // The freed slot is reused; the old handle still names nothing.
    let c = list.enqueue(s("c"), 3);
    assert!(!list.is_live(a));
    assert!(list.value(a).is_none());
    assert!(list.key(a).is_none());
    list.touch_node(a);
    list.set_value(a, 99);
    assert_eq!(list.head(), Some(c));
    assert_eq!(list.tail(), Some(b));
    assert_eq!(list.key(c), Some(&s("c")));
    assert_eq!(*list.value(b).unwrap(), 2);
}

#[test]
fn list_set_value_keeps_position() {
    let mut list = List::new();
    let a = list.enqueue(1u8, 10u32);
    let b = list.enqueue(2u8, 20u32);
    list.set_value(a, 11);
    assert_eq!(list.head(), Some(b));
    let first = list.dequeue().unwrap();
    assert_eq!((first.key, *first.value), (1, 11));
    let second = list.dequeue().unwrap();
    assert_eq!((second.key, *second.value), (2, 20));
    assert!(list.dequeue().is_none());
    assert_eq!(list.head(), None);
    assert_eq!(list.tail(), None);
}

#[test]
fn lru_cache_len_and_pop() {
    let mut cache = LRUCache::new(3);
    assert_eq!(cache.len(), 0);
    cache.set(s("a"), 1);
    cache.set(s("b"), 2);
    assert_eq!(cache.len(), 2);
    assert_eq!(cache.pop(&s("a")), Some(Rc::new(1)));
    assert_eq!(cache.pop(&s("a")), None);
    assert_eq!(cache.len(), 1);
    assert_eq!(cache.get(&s("a")), None);
    assert_eq!(cache.get(&s("b")), Some(Rc::new(2)));
}

#[test]
fn lru_cache_evicts_least_recent_in_order() {
    let mut cache = LRUCache::new(3);
    for (i, k) in ["a", "b", "c"].iter().enumerate() {
        cache.set(s(k), i);
    }
    cache.get(&s("a"));
    cache.set(s("d"), 3); // evicts b
    cache.set(s("e"), 4); // evicts c
    assert_eq!(cache.len(), 3);
    assert_eq!(cache.get(&s("b")), None);
    assert_eq!(cache.get(&s("c")), None);
    assert_eq!(cache.get(&s("a")), Some(Rc::new(0)));
    assert_eq!(cache.get(&s("d")), Some(Rc::new(3)));
    assert_eq!(cache.get(&s("e")), Some(Rc::new(4)));
}

#[test]
fn lru_cache_capacity_zero_holds_nothing() {
    let mut cache = LRUCache::new(0);
    cache.set(s("a"), 1);
    assert_eq!(cache.len(), 0);
    assert_eq!(cache.get(&s("a")), None);
}

#[test]
fn lru_cache_many_keys_stay_within_capacity() {
    let mut cache = LRUCache::new(10);
    for i in 0..200 {
        cache.set(format!("k{}", i), i);
        assert!(cache.len() <= 10);
    }
    for i in 0..190 {
        assert_eq!(cache.get(&format!("k{}", i)), None);
    }
    for i in 190..200 {
        assert_eq!(cache.get(&format!("k{}", i)), Some(Rc::new(i)));
    }
}
