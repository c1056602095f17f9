use seize::structures::lockfreequeue::LockFreeQueue;
use seize::AtomicQueue;

#[test]
fn queue_spsc_in_order() {
    let mut q: LockFreeQueue<u64> = LockFreeQueue::new();
    for v in 1..=1000u64 {
        q.enqueue(v);
    }
    let mut out = Vec::new();
    while let Some(v) = q.dequeue() {
        out.push(v);
    }
    let expected: Vec<u64> = (1..=1000).collect();
    assert_eq!(out, expected);
}

#[test]
fn queue_empty_dequeue_is_none() {
    let mut q: LockFreeQueue<u32> = LockFreeQueue::new();
    assert!(q.is_empty());
    assert_eq!(q.dequeue(), None);
    assert_eq!(q.dequeue(), None);
    q.enqueue(7);
    assert!(!q.is_empty());
    assert_eq!(q.dequeue(), Some(7));
    assert_eq!(q.dequeue(), None);
    assert!(q.is_empty());
}

#[test]
fn queue_fifo_then_absent() {
    let mut q: LockFreeQueue<&str> = LockFreeQueue::new();
    q.enqueue("a");
    q.enqueue("b");
    q.enqueue("c");
    assert_eq!(q.dequeue(), Some("a"));
    assert_eq!(q.dequeue(), Some("b"));
    assert_eq!(q.dequeue(), Some("c"));
    assert_eq!(q.dequeue(), None);
}

#[test]
fn queue_reuses_retired_nodes_in_order() {
    let mut q: LockFreeQueue<u64> = LockFreeQueue::new();
    let mut next_in = 0u64;
    let mut next_out = 0u64;
    for round in 0..50u64 {
        for _ in 0..(round % 7 + 1) {
            q.enqueue(next_in);
            next_in += 1;
        }
        for _ in 0..(round % 5 + 1) {
            match q.dequeue() {
                Some(v) => {
                    assert_eq!(v, next_out);
                    next_out += 1;
                }
                None => assert_eq!(next_out, next_in),
            }
        }
    }
    while let Some(v) = q.dequeue() {
        assert_eq!(v, next_out);
        next_out += 1;
    }
    assert_eq!(next_out, next_in);
}

#[test]
fn queue_interleaved_producers_keep_their_order() {
    let mut q: LockFreeQueue<(u8, u32)> = LockFreeQueue::new();
    for i in 0..100u32 {
        q.enqueue((0, i));
        if i % 3 == 0 {
            q.enqueue((1, i));
        }
    }
    let mut last = [None::<u32>, None::<u32>];
    let mut count = 0;
    while let Some((p, i)) = q.dequeue() {
        if let Some(prev) = last[p as usize] {
            assert!(prev < i);
        }
        last[p as usize] = Some(i);
        count += 1;
    }
    assert_eq!(count, 100 + 34);
}

#[test]
fn queue_mpmc_multiset() {
    // Four producers and four consumers take turns on one queue.
    let mut q: LockFreeQueue<u64> = LockFreeQueue::new();
    for _ in 0..10_000 {
        for tid in 0..4u64 {
            q.enqueue(tid);
        }
    }
    let mut counts = [[0u64; 4]; 4];
    let mut done = false;
    while !done {
        done = true;
        for consumer in 0..4usize {
            if let Some(v) = q.dequeue() {
                counts[consumer][v as usize] += 1;
                done = false;
            }
        }
    }
    let mut total = [0u64; 4];
    for c in counts {
        for i in 0..4 {
            total[i] += c[i];
        }
    }
    assert_eq!(total, [10_000; 4]);
}

#[test]
fn queue_no_loss_with_items_left() {
    let mut q: LockFreeQueue<u64> = LockFreeQueue::new();
    for v in [5u64, 5, 9, 1, 5] {
        q.enqueue(v);
    }
    let mut taken = vec![q.dequeue().unwrap(), q.dequeue().unwrap()];
    q.enqueue(9);
    taken.push(q.dequeue().unwrap());
    let mut left = Vec::new();
    while let Some(v) = q.dequeue() {
        left.push(v);
    }
    assert_eq!(taken, vec![5, 5, 9]);
    assert_eq!(left, vec![1, 5, 9]);
}

#[test]
fn atomic_queue_spsc_in_order() {
    let mut q: AtomicQueue<u64> = AtomicQueue::new();
    for v in 1..=1000u64 {
        q.enqueue(v);
    }
    for v in 1..=1000u64 {
        assert_eq!(q.dequeue(), Some(v));
    }
    assert_eq!(q.dequeue(), None);
}

#[test]
fn atomic_queue_owned_values() {
    let mut q: AtomicQueue<String> = AtomicQueue::new();
    assert_eq!(q.dequeue(), None);
    q.enqueue(String::from("x"));
    q.enqueue(String::from("y"));
    assert_eq!(q.dequeue().as_deref(), Some("x"));
    q.enqueue(String::from("z"));
    assert_eq!(q.dequeue().as_deref(), Some("y"));
    assert_eq!(q.dequeue().as_deref(), Some("z"));
    assert_eq!(q.dequeue(), None);
}
