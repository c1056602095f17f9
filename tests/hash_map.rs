use seize::structures::lock_free_hash::{MapKey, NUM_BUCKETS};
use seize::LockFreeHashMap;

#[test]
fn map_insert_replaces_value() {
    let a = String::from("a");
    let mut m: LockFreeHashMap<String, i32> = LockFreeHashMap::new();
    m.insert(a.clone(), 1);
    m.insert(a.clone(), 2);
    assert_eq!(m.get(&a), Some(2));
    assert_eq!(m.remove(&a), Some(2));
    assert_eq!(m.get(&a), None);
}

#[test]
fn map_string_keys_digest_and_bucket() {
    let m: LockFreeHashMap<String, u8> = LockFreeHashMap::with_hasher(0);
    assert_eq!(String::from("ab").key_digest(), 3138);
    assert_eq!(m.bucket_index(&String::from("a")), 97);
    assert_eq!(m.bucket_index(&String::from("ab")), 78);
    assert_eq!(String::from("").key_digest(), 0);
    assert!(String::from("ab").same_key(&String::from("ab")));
    assert!(!String::from("ab").same_key(&String::from("ba")));
}

#[test]
fn map_string_keys_distinct() {
    let mut m: LockFreeHashMap<String, u32> = LockFreeHashMap::with_hasher(0x1234);
    for w in ["ab", "ba", "", "abc", "\u{e9}t\u{e9}"] {
        m.insert(String::from(w), w.len() as u32);
    }
    assert_eq!(m.get(&String::from("ab")), Some(2));
    assert_eq!(m.get(&String::from("ba")), Some(2));
    assert_eq!(m.get(&String::from("")), Some(0));
    assert_eq!(m.get(&String::from("\u{e9}t\u{e9}")), Some(5));
    assert_eq!(m.remove(&String::from("ab")), Some(2));
    assert_eq!(m.get(&String::from("ab")), None);
    assert_eq!(m.get(&String::from("ba")), Some(2));
    assert_eq!(m.get(&String::from("abc")), Some(3));
}

#[test]
fn map_missing_key_is_absent() {
    let mut m: LockFreeHashMap<u64, String> = LockFreeHashMap::with_hasher(0);
    assert_eq!(m.get(&3), None);
    assert_eq!(m.remove(&3), None);
    m.insert(3, String::from("three"));
    assert_eq!(m.get(&3).as_deref(), Some("three"));
    assert_eq!(m.get(&4), None);
}

#[test]
fn map_bucket_index_values() {
    let m: LockFreeHashMap<u64, u8> = LockFreeHashMap::with_hasher(0);
    assert_eq!(m.bucket_index(&0), 0);
    assert_eq!(m.bucket_index(&0x100), 1);
    assert_eq!(m.bucket_index(&5), 5);
    let seeded: LockFreeHashMap<u64, u8> = LockFreeHashMap::with_hasher(0xff);
    assert_eq!(seeded.bucket_index(&5), 0xfa);
    assert_eq!(NUM_BUCKETS, 256);
}

#[test]
fn map_colliding_keys_share_bucket() {
    let mut m: LockFreeHashMap<u64, u64> = LockFreeHashMap::with_hasher(0);
    let keys = [1u64, 1 + 256 * 257, 2 + 256 * 257 * 3];
    for k in keys {
        m.insert(k, k * 10);
    }
    for k in keys {
        assert_eq!(m.get(&k), Some(k * 10));
    }
    assert_eq!(m.remove(&keys[1]), Some(keys[1] * 10));
    assert_eq!(m.get(&keys[1]), None);
    assert_eq!(m.get(&keys[0]), Some(10));
    assert_eq!(m.get(&keys[2]), Some(keys[2] * 10));
}

#[test]
fn map_last_write_wins() {
    let mut m: LockFreeHashMap<u64, u32> = LockFreeHashMap::new();
    m.insert(1, 10);
    m.insert(2, 20);
    m.insert(1, 11);
    assert_eq!(m.remove(&2), Some(20));
    m.insert(3, 30);
    m.remove(&3);
    m.insert(3, 31);
    assert_eq!(m.get(&1), Some(11));
    assert_eq!(m.get(&2), None);
    assert_eq!(m.get(&3), Some(31));
    assert_eq!(m.remove(&1), Some(11));
    assert_eq!(m.remove(&1), None);
}

#[test]
fn map_contention_disjoint_ranges() {
    // Sixteen clients take turns, each on its own range of keys.
    let mut m: LockFreeHashMap<u64, u64> = LockFreeHashMap::new();
    for i in 0..1000u64 {
        for t in 0..16u64 {
            let k = t * 1000 + i;
            m.insert(k, k + 1);
        }
    }
    for i in 0..1000u64 {
        for t in 0..16u64 {
            let k = t * 1000 + i;
            assert_eq!(m.get(&k), Some(k + 1));
        }
    }
    for k in 0..16_000u64 {
        assert_eq!(m.get(&k), Some(k + 1));
    }
}
