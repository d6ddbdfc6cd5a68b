use learnkit::hashmap::{calculate_hash, HashMap};
use std::hash::{DefaultHasher, Hash, Hasher};
use std::time::Instant;

fn s(k: &str) -> String {
    String::from(k)
}

#[test]
fn test_get_set() {
    let mut map = HashMap::new();

    let key = "one";

    map.set(s(key), 1);
    map.set(s("two"), 2);

    assert_eq!(map.get(&s("one")), Some(&1));
    assert_eq!(map.get(&s("two")), Some(&2));
    assert_eq!(map.get(&s("three")), None);

    map.set(s("three"), 3);
    assert_eq!(map.get(&s("three")), Some(&3));
}

#[test]
fn test_pop() {
    let mut map = HashMap::new();

    map.set(s("one"), 1);
    map.set(s("two"), 2);

    assert_eq!(map.get(&s("one")), Some(&1));
    assert_eq!(map.get(&s("two")), Some(&2));

    let value = map.pop(&s("one"));
    assert_eq!(value, Some(1));

    assert_eq!(map.get(&s("one")), None);
    assert_eq!(map.pop(&s("one")), None);
}

#[test]
fn test_ownership() {
    let mut map = HashMap::new();

    let key = s("test");

    map.set(key.clone(), 1);

    assert_eq!(map.get(&key), Some(&1));
}

#[test]
fn test_rebalance() {
    let mut map = HashMap::new();

    map.set(s("one"), 1);
    map.set(s("two"), 2);
    map.set(s("three"), 3);
    map.set(s("four"), 4);
    map.set(s("five"), 5);
    map.set(s("six"), 6);
    map.set(s("seven"), 7);
    map.set(s("eight"), 8);

    assert_eq!(map.bucket_count(), 16);

    map.pop(&s("five"));
    map.pop(&s("six"));
    map.pop(&s("seven"));
    map.pop(&s("eight"));

    assert_eq!(map.bucket_count(), 8);
}

#[test]
fn test_downsize_minimum() {
    let mut map = HashMap::new();

    map.set(s("one"), 1);
    map.set(s("two"), 2);
    map.set(s("three"), 3);
    map.set(s("four"), 4);

    assert_eq!(map.bucket_count(), 8);

    map.pop(&s("one"));
    map.pop(&s("two"));
    assert_eq!(map.bucket_count(), 4);
    map.pop(&s("three"));

    assert_eq!(map.bucket_count(), 2);
    map.pop(&s("four"));

    assert_eq!(map.bucket_count(), 2);
}

#[test]
fn test_insertion_speed() {
    let mut map = HashMap::new();

    let start = Instant::now();

    for i in 0..100000 {
        map.set(format!("key_{}", i), i);
    }

    println!("Insertion took: {:?}", start.elapsed());
}

#[test]
fn test_get_speed() {
    let mut map = HashMap::new();

    for i in 0..100000 {
        map.set(
            String::from(format!(
                "some_really_long_string_that_will_be_expenseive_to_compare_key_{}",
                i
            )),
            i,
        );
    }
    let start = Instant::now();
    for i in 0..100000 {
        map.get(&String::from(format!(
            "some_really_long_string_that_will_be_expenseive_to_compare_key_{}",
            i
        )));
    }
    println!("Pop took: {:?}", start.elapsed());
}

#[test]
fn hashmap_new_is_empty_with_two_buckets() {
    let mut map: HashMap<u8> = HashMap::new();
    assert_eq!(map.len(), 0);
    assert_eq!(map.bucket_count(), 2);
    assert_eq!(map.get(&s("x")), None);
}

#[test]
fn hashmap_overwrite_keeps_length() {
    let mut map = HashMap::new();
    map.set(s("k"), 1);
    map.set(s("k"), 2);
    assert_eq!(map.len(), 1);
    assert_eq!(map.get(&s("k")), Some(&2));
    assert_eq!(map.pop(&s("k")), Some(2));
    assert_eq!(map.len(), 0);
    assert_eq!(map.pop(&s("k")), None);
}

#[test]
fn hashmap_read_after_write_leaves_other_keys() {
    let mut map = HashMap::new();
    for i in 0..50 {
        map.set(format!("k{}", i), i);
    }
    map.set(s("k7"), 700);
    for i in 0..50 {
        let expected = if i == 7 { 700 } else { i };
        assert_eq!(map.get(&format!("k{}", i)), Some(&expected));
    }
    assert_eq!(map.len(), 50);
}

#[test]
fn hashmap_growth_sequence() {
    // Doubles when more than three quarters full.
    let mut map = HashMap::new();
    let mut sizes = Vec::new();
    for i in 0..13 {
        map.set(format!("{}", i), i);
        sizes.push(map.bucket_count());
    }
    assert_eq!(sizes, vec![2, 4, 4, 8, 8, 8, 16, 16, 16, 16, 16, 16, 32]);
}

#[test]
fn hashmap_load_factor_stays_in_bounds() {
    let mut map = HashMap::new();
    for i in 0..1000 {
        map.set(format!("key{}", i), i);
        assert!(4 * map.len() <= 3 * map.bucket_count());
    }
    for i in 0..1000 {
        assert_eq!(map.pop(&format!("key{}", i)), Some(i));
        assert!(map.bucket_count() >= 2);
        assert!(map.bucket_count() <= 4 * map.len() + 4);
    }
    assert_eq!(map.len(), 0);
    assert_eq!(map.bucket_count(), 2);
}

#[test]
fn hashmap_hash_is_deterministic() {
    assert_eq!(calculate_hash(&s("abc")), calculate_hash(&s("abc")));
    assert_ne!(calculate_hash(&s("abc")), calculate_hash(&s("abd")));
}

#[test]
fn hashmap_hash_matches_string_hash() {
    for key in ["", "abc", "some longer key with spaces", "ünïcödé"] {
        let mut hasher = DefaultHasher::new();
        String::from(key).hash(&mut hasher);
        assert_eq!(calculate_hash(&s(key)), hasher.finish() as usize);
    }
}
