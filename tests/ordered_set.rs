use seize::LockFreeList;

#[test]
fn set_duplicate_insert_and_remove() {
    let mut s = LockFreeList::new();
    assert!(s.insert(5));
    assert!(!s.insert(5));
    assert!(s.contains(&5));
    assert!(s.remove(&5));
    assert!(!s.contains(&5));
    assert!(!s.remove(&5));
}

#[test]
fn set_traversal_is_sorted() {
    let mut s = LockFreeList::new();
    s.insert(3);
    s.insert(1);
    s.insert(2);
    assert_eq!(s.values(), vec![1, 2, 3]);
}

#[test]
fn set_empty() {
    let mut s = LockFreeList::new();
    assert!(s.values().is_empty());
    assert!(!s.contains(&0));
    assert!(!s.remove(&0));
    assert!(s.insert(0));
    assert!(s.insert(u64::MAX));
    assert_eq!(s.values(), vec![0, u64::MAX]);
}

#[test]
fn set_stays_strictly_increasing() {
    let mut s = LockFreeList::new();
    let mut x: u64 = 12345;
    for _ in 0..500 {
        x = x.wrapping_mul(6364136223846793005).wrapping_add(1442695040888963407);
        let v = (x >> 40) % 64;
        if x & 1 == 0 {
            s.insert(v);
        } else {
            s.remove(&v);
        }
        let vals = s.values();
        for w in vals.windows(2) {
            assert!(w[0] < w[1]);
        }
    }
}

#[test]
fn set_member_iff_last_success_was_insert() {
    let mut s = LockFreeList::new();
    let mut model = std::collections::BTreeSet::new();
    let ops: [(bool, u64); 12] = [
        (true, 4),
        (true, 4),
        (false, 4),
        (false, 4),
        (true, 4),
        (true, 9),
        (false, 2),
        (true, 2),
        (false, 9),
        (true, 1),
        (false, 4),
        (true, 4),
    ];
    for (ins, v) in ops {
        let ok = if ins { s.insert(v) } else { s.remove(&v) };
        let expected = if ins { model.insert(v) } else { model.remove(&v) };
        assert_eq!(ok, expected);
    }
    assert!(s.contains(&4));
    assert!(!s.contains(&9));
    assert!(s.contains(&2));
    assert!(s.contains(&1));
    assert_eq!(s.values(), vec![1, 2, 4]);
}

#[test]
fn set_find_neighbours_via_remove_middle() {
    let mut s = LockFreeList::new();
    for v in [10u64, 20, 30, 40] {
        s.insert(v);
    }
    assert!(!s.contains(&25));
    assert!(s.remove(&30));
    assert!(s.insert(25));
    assert!(!s.contains(&30));
    assert_eq!(s.values(), vec![10, 20, 25, 40]);
}

#[test]
fn set_reinsert_interleaved() {
    // Four clients take turns inserting and removing the same key.
    let mut s = LockFreeList::new();
    s.insert(3);
    s.insert(11);
    for i in 0..2000u64 {
        for t in 0..4u64 {
            if (i + t) % 2 == 0 {
                s.insert(7);
                assert!(s.contains(&7));
                assert_eq!(s.values(), vec![3, 7, 11]);
            } else {
                s.remove(&7);
                assert!(!s.contains(&7));
                assert_eq!(s.values(), vec![3, 11]);
            }
        }
    }
}

#[test]
fn set_of_strings_sorted() {
    let mut s: LockFreeList<String> = LockFreeList::new();
    assert!(s.insert(String::from("pear")));
    assert!(s.insert(String::from("apple")));
    assert!(s.insert(String::from("fig")));
    assert!(!s.insert(String::from("fig")));
    assert!(s.contains(&String::from("apple")));
    assert!(s.remove(&String::from("pear")));
    assert!(!s.contains(&String::from("pear")));
    assert_eq!(s.values(), vec![String::from("apple"), String::from("fig")]);
}
