use seize::{Crystalline, Protect};

#[test]
fn reclaim_frees_only_after_earlier_guards_release() {
    let mut domain: Crystalline<2> = Crystalline::new();
    let early = domain.guard();
    early.retire(&mut domain, 100);
    let late = domain.guard();
    late.retire(&mut domain, 200);
    // `late` pinned after node 100 was retired but before node 200 was.
    assert_eq!(late.release(&mut domain), Vec::<u64>::new());
    assert_eq!(early.release(&mut domain), vec![100, 200]);
}

#[test]
fn reclaim_keeps_nodes_a_live_guard_may_hold() {
    let mut domain: Crystalline<1> = Crystalline::new();
    let reader = domain.guard();
    let writer = domain.guard();
    writer.retire(&mut domain, 1);
    writer.retire(&mut domain, 2);
    assert_eq!(writer.release(&mut domain), Vec::<u64>::new());
    let after = domain.guard();
    after.retire(&mut domain, 3);
    // Only `after` is left; it pinned after 1 and 2 were retired, not after 3.
    assert_eq!(reader.release(&mut domain), vec![1, 2]);
    assert_eq!(after.release(&mut domain), vec![3]);
}

#[test]
fn reclaim_guard_after_retirement_does_not_block() {
    let mut domain: Crystalline<1> = Crystalline::new();
    let g = domain.guard();
    g.retire(&mut domain, 9);
    let later = domain.guard();
    assert_eq!(g.release(&mut domain), vec![9]);
    assert_eq!(later.release(&mut domain), Vec::<u64>::new());
}

#[test]
fn reclaim_release_with_nothing_retired() {
    let mut domain: Crystalline<4> = Crystalline::new();
    let g = domain.guard();
    assert_eq!(g.release(&mut domain), Vec::<u64>::new());
}

#[test]
fn reclaim_protect_and_link() {
    let mut domain: Crystalline<2> = Crystalline::new();
    let first = domain.link(5u32);
    assert_eq!(first.value, 5);
    assert_eq!(first.birth, 0);
    let mut g = domain.guard();
    let shared = g.protect(42, Protect(1));
    assert_eq!(shared.as_ptr(), 42);
    g.retire(&mut domain, 42);
    let boxed = domain.link_boxed(String::from("n"));
    assert_eq!(boxed.value, "n");
    assert_eq!(boxed.birth, 1);
    assert_eq!(g.release(&mut domain), vec![42]);
}
