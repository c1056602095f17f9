use seize::{MCSLock, MCSNode, OperationSource};

#[test]
fn mcs_uncontended_lock_unlock() {
    let mut lock = MCSLock::new();
    let mut node = MCSNode::new(1);
    assert!(node.locked);
    assert!(lock.is_free());
    assert_eq!(lock.lock(&mut node, OperationSource::HashMap), None);
    assert!(!node.locked);
    assert_eq!(lock.holder(), Some(1));
    assert_eq!(lock.unlock(&mut node, OperationSource::HashMap), None);
    assert!(lock.is_free());
    assert_eq!(lock.holder(), None);
}

#[test]
fn mcs_hands_off_in_arrival_order() {
    let mut lock = MCSLock::new();
    let mut a = MCSNode::new(10);
    let mut b = MCSNode::new(20);
    let mut c = MCSNode::new(30);
    assert_eq!(lock.lock(&mut a, OperationSource::LinkedList), None);
    assert_eq!(lock.lock(&mut b, OperationSource::LinkedList), Some(10));
    assert!(b.locked);
    assert_eq!(lock.lock(&mut c, OperationSource::LinkedList), Some(20));
    assert!(c.locked);
    assert_eq!(lock.holder(), Some(10));
    assert_eq!(lock.unlock(&mut a, OperationSource::LinkedList), Some(20));
    assert_eq!(a.next, Some(20));
    assert_eq!(lock.holder(), Some(20));
    assert_eq!(lock.unlock(&mut b, OperationSource::LinkedList), Some(30));
    assert_eq!(lock.holder(), Some(30));
    assert_eq!(lock.unlock(&mut c, OperationSource::LinkedList), None);
    assert!(lock.is_free());
}

#[test]
fn mcs_each_waiter_waits_for_its_predecessors_only() {
    let n = 8u64;
    let k = 5u64;
    let mut lock = MCSLock::new();
    let mut nodes: Vec<MCSNode> = Vec::new();
    let mut waits = vec![0u64; n as usize];
    let mut acquired = vec![0u64; n as usize];
    for round in 0..k {
        for t in 0..n {
            let mut node = MCSNode::new(round * n + t);
            lock.lock(&mut node, OperationSource::HashMap);
            nodes.push(node);
        }
    }
    let mut handoffs = 0u64;
    let total = (n * k) as usize;
    for i in 0..total {
        let id = nodes[i].id;
        assert_eq!(lock.holder(), Some(id));
        let t = (id % n) as usize;
        waits[t] = handoffs - (acquired[t] * n);
        acquired[t] += 1;
        lock.unlock(&mut nodes[i], OperationSource::HashMap);
        handoffs += 1;
    }
    assert!(lock.is_free());
    for t in 0..n as usize {
        assert_eq!(acquired[t], k);
        assert!(waits[t] <= n * k);
    }
}
