use std::iter;
use rand::distributions::Alphanumeric;
use rand::Rng;

use hashtable::hashtable::{Bucket, Hashtable, Int32Hashtable};

fn gen_unique_keys(num_keys: usize, key_length: usize) -> Vec<String> {
    let mut rng = rand::thread_rng();
    let mut keys = Vec::with_capacity(num_keys);
    for i in 0..num_keys {
        let mut key: String = iter::repeat(())
            .map(|()| rng.sample(Alphanumeric))
            .take(key_length - 1)
            .collect();
        key.push(i as u8 as char);
        keys.push(key);
    }
    keys
}

fn gen_values(num_values: usize) -> Vec<i32> {
    let mut rng = rand::thread_rng();
    iter::repeat(()).map(|()| rng.gen()).take(num_values).collect()
}

#[test]
fn hashtable_stores_and_deletes_key_values() {
    let mut ht = Int32Hashtable::new_with_array(16);

    let keys = gen_unique_keys(1024, 16);
    let values = gen_values(1024);

    // Test `set` and `get`.
    for (key, value) in keys.iter().zip(values.iter()).take(99) {
        ht.set(key, *value);
    }
    for (key, value) in keys.iter().zip(values.iter()).take(99) {
        assert!(ht.get(key) == Some(*value));
    }
    assert!(ht.get(&keys[99]) == None);

    // Test `remove`.
    for key in keys.iter().take(30) {
        ht.remove(key);
    }
    for key in keys.iter().take(30) {
        assert!(ht.get(key) == None);
    }
}

#[test]
fn round_trip_set_then_get() {
    let mut ht = Int32Hashtable::new_with_array(8);
    ht.set("answer", 42);
    assert_eq!(ht.get("answer"), Some(42));
    ht.set("negative", -7);
    assert_eq!(ht.get("negative"), Some(-7));
}

#[test]
fn overwrite_returns_latest_and_keeps_length() {
    // One bucket, so every key lands in it and its live length is visible.
    let mut ht = Int32Hashtable::new_with_array(1);
    ht.set("k", 1);
    let length_after_first = ht.buckets[0].length;
    ht.set("k", 2);
    assert_eq!(ht.get("k"), Some(2));
    assert_eq!(ht.buckets[0].length, length_after_first);
}

#[test]
fn set_then_remove_leaves_key_absent() {
    let mut ht = Int32Hashtable::new_with_array(4);
    ht.set("gone", 3);
    ht.remove("gone");
    assert_eq!(ht.get("gone"), None);
}

#[test]
fn remove_of_absent_key_is_a_noop() {
    let mut ht = Int32Hashtable::new_with_array(4);
    ht.set("stay", 1);
    ht.set("put", 2);
    let snapshot: Vec<Vec<Option<(String, i32)>>> =
        ht.buckets.iter().map(|b| b.array.clone()).collect();
    let lengths: Vec<usize> = ht.buckets.iter().map(|b| b.length).collect();
    ht.remove("never-inserted");
    let after: Vec<Vec<Option<(String, i32)>>> =
        ht.buckets.iter().map(|b| b.array.clone()).collect();
    let lengths_after: Vec<usize> = ht.buckets.iter().map(|b| b.length).collect();
    assert_eq!(snapshot, after);
    assert_eq!(lengths, lengths_after);
    assert_eq!(ht.get("stay"), Some(1));
    assert_eq!(ht.get("put"), Some(2));
}

#[test]
fn tombstone_reuse_bounds_capacity() {
    // One bucket: four insertions grow it to capacity 4; removing two keys
    // and inserting two fresh ones reuses the tombstones, so the capacity
    // stays at what the four insertions alone required.
    let mut ht = Int32Hashtable::new_with_array(1);
    ht.set("a", 0);
    ht.set("b", 1);
    ht.set("c", 2);
    ht.set("d", 3);
    assert_eq!(ht.buckets[0].capacity, 4);
    assert_eq!(ht.buckets[0].length, 4);
    ht.remove("b");
    ht.remove("c");
    ht.set("e", 4);
    ht.set("f", 5);
    assert_eq!(ht.buckets[0].capacity, 4);
    assert_eq!(ht.buckets[0].length, 4);
    assert_eq!(ht.get("a"), Some(0));
    assert_eq!(ht.get("b"), None);
    assert_eq!(ht.get("c"), None);
    assert_eq!(ht.get("d"), Some(3));
    assert_eq!(ht.get("e"), Some(4));
    assert_eq!(ht.get("f"), Some(5));
}

fn bucket_holding(ht: &Int32Hashtable, key: &str) -> Option<usize> {
    for (i, b) in ht.buckets.iter().enumerate() {
        for slot in b.array.iter() {
            if let Some((k, _)) = slot {
                if k == key {
                    return Some(i);
                }
            }
        }
    }
    None
}

#[test]
fn routing_is_deterministic() {
    let mut ht = Int32Hashtable::new_with_array(16);
    for (i, key) in ["alpha", "beta", "gamma", "delta"].iter().enumerate() {
        ht.set(key, i as i32);
    }
    let first: Vec<Option<usize>> = ["alpha", "beta", "gamma", "delta"]
        .iter()
        .map(|k| bucket_holding(&ht, k))
        .collect();
    for key in ["alpha", "beta", "gamma", "delta"] {
        ht.remove(key);
    }
    for (i, key) in ["alpha", "beta", "gamma", "delta"].iter().enumerate() {
        ht.set(key, 100 + i as i32);
    }
    let second: Vec<Option<usize>> = ["alpha", "beta", "gamma", "delta"]
        .iter()
        .map(|k| bucket_holding(&ht, k))
        .collect();
    assert_eq!(first, second);
    assert!(first.iter().all(|i| i.is_some()));
}

#[test]
fn scenario_two_names_one_removed() {
    let mut ht = Int32Hashtable::new_with_array(16);
    ht.set("alice", 1);
    ht.set("bob", 2);
    assert_eq!(ht.get("alice"), Some(1));
    assert_eq!(ht.get("carol"), None);
    ht.remove("alice");
    assert_eq!(ht.get("alice"), None);
    assert_eq!(ht.get("bob"), Some(2));
}

#[test]
fn scenario_ninety_nine_keys() {
    let mut ht = Int32Hashtable::new_with_array(16);
    let keys: Vec<String> = (0..100).map(|i| format!("key-{}", i)).collect();
    for i in 0..99 {
        ht.set(&keys[i], i as i32);
    }
    for i in 0..99 {
        assert_eq!(ht.get(&keys[i]), Some(i as i32));
    }
    assert_eq!(ht.get(&keys[99]), None);
    for i in 0..30 {
        ht.remove(&keys[i]);
    }
    for i in 0..30 {
        assert_eq!(ht.get(&keys[i]), None);
    }
    for i in 30..99 {
        assert_eq!(ht.get(&keys[i]), Some(i as i32));
    }
}

#[test]
fn empty_key_is_an_ordinary_key() {
    let mut ht = Int32Hashtable::new_with_array(3);
    ht.set("", 11);
    assert_eq!(ht.get(""), Some(11));
    ht.remove("");
    assert_eq!(ht.get(""), None);
}

#[test]
fn bucket_operations_directly() {
    // The bucket trait is usable on its own; a single bucket behaves as a
    // small string-keyed map.
    let mut ht = Int32Hashtable::new_with_array(1);
    let bucket = &mut ht.buckets[0];
    Bucket::set(bucket, "x", 10);
    Bucket::set(bucket, "y", 20);
    assert_eq!(Bucket::get(bucket, "x"), Some(10));
    Bucket::remove(bucket, "x");
    assert_eq!(Bucket::get(bucket, "x"), None);
    assert_eq!(Bucket::get(bucket, "y"), Some(20));
}
