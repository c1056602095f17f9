//! A sorted singly-linked set. Values are kept in strictly increasing order
//! from `head`; a removal unlinks its node at once and frees it.
use vstd::prelude::*;
use std::cmp::Ordering;
use vstd::std_specs::cmp::OrdSpec;

verus! {

/// `x` comes before `y` in `T`'s order.
pub open spec fn less<T: Ord>(x: T, y: T) -> bool {
    x.cmp_spec(&y) == Ordering::Less
}

/// `T`'s `cmp` is a strict total order whose `Equal` is equality.
pub open spec fn is_total_order<T: Ord>() -> bool {
    &&& T::obeys_cmp_spec()
    &&& forall|x: T, y: T| #[trigger] x.cmp_spec(&y) == Ordering::Equal <==> x == y
    &&& forall|x: T, y: T|
        #[trigger] x.cmp_spec(&y) == Ordering::Less <==> #[trigger] y.cmp_spec(&x)
            == Ordering::Greater
    &&& forall|x: T, y: T, z: T| #[trigger] less(x, y) && #[trigger] less(y, z) ==> less(x, z)
}

/// The order of `u64` is such an order.
pub proof fn lemma_u64_is_total_order()
    ensures
        is_total_order::<u64>(),
{
}

/// A node of the set.
pub struct Node<T> {
    value: T,
    next: Option<Box<Node<T>>>,
}

/// The values reachable from `link`, in link order.
pub closed spec fn seq_of<T>(link: Option<Box<Node<T>>>) -> Seq<T>
    decreases link,
{
    match link {
        None => Seq::empty(),
        Some(n) => seq![n.value] + seq_of(n.next),
    }
}

/// Each value comes before every later one.
pub open spec fn strictly_increasing<T: Ord>(s: Seq<T>) -> bool {
    forall|i: int, j: int| 0 <= i < j < s.len() ==> less(s[i], s[j])
}

impl<T> Node<T> {
    fn new(value: T, next: Option<Box<Node<T>>>) -> (r: Box<Node<T>>)
        ensures
            seq_of(Some(r)) == seq![value] + seq_of(next),
    {
        Box::new(Node { value, next })
    }
}

pub struct LockFreeList<T> {
    head: Option<Box<Node<T>>>,
}

impl<T> View for LockFreeList<T> {
    type V = Seq<T>;

    /// The values walked from `head`.
    closed spec fn view(&self) -> Seq<T> {
        seq_of(self.head)
    }
}

proof fn lemma_seq_of_some<T>(n: Box<Node<T>>)
    ensures
        seq_of(Some(n)) == seq![n.value] + seq_of(n.next),
        seq_of(Some(n)).len() > 0,
        seq_of(Some(n))[0] == n.value,
        seq_of(Some(n)).drop_first() == seq_of(n.next),
{
    assert(seq_of(Some(n)).drop_first() =~= seq_of(n.next));
}

proof fn lemma_contains_cons<T>(a: T, t: Seq<T>)
    ensures
        forall|x: T| #[trigger] (seq![a] + t).contains(x) <==> (x == a || t.contains(x)),
{
    let u = seq![a] + t;
    assert forall|x: T| u.contains(x) <==> (x == a || t.contains(x)) by {
        if x == a {
            assert(u[0] == a);
        }
        if u.contains(x) && x != a {
            let k = choose|k: int| 0 <= k < u.len() && u[k] == x;
            assert(t[k - 1] == x);
        }
        if t.contains(x) {
            let k = choose|k: int| 0 <= k < t.len() && t[k] == x;
            assert(u[k + 1] == x);
        }
    }
}

proof fn lemma_increasing_cons<T: Ord>(a: T, t: Seq<T>)
    ensures
        strictly_increasing(seq![a] + t) <==> (strictly_increasing(t) && forall|x: T|
            t.contains(x) ==> less(a, x)),
{
    let u = seq![a] + t;
    if strictly_increasing(u) {
        assert forall|i: int, j: int| 0 <= i < j < t.len() implies less(t[i], t[j]) by {
            assert(t[i] == u[i + 1] && t[j] == u[j + 1]);
        }
        assert forall|x: T| t.contains(x) implies less(a, x) by {
            let k = choose|k: int| 0 <= k < t.len() && t[k] == x;
            assert(u[k + 1] == x);
            assert(u[0] == a);
        }
    }
    if strictly_increasing(t) && forall|x: T| t.contains(x) ==> less(a, x) {
        assert forall|i: int, j: int| 0 <= i < j < u.len() implies less(u[i], u[j]) by {
            assert(u[j] == t[j - 1]);
            if i > 0 {
                assert(u[i] == t[i - 1]);
            } else {
                assert(t.contains(t[j - 1]));
            }
        }
    }
}

/// Puts `value` in its place in the sorted chain at `link`, unless it is
/// there already.
fn insert_link<T: Ord>(link: &mut Option<Box<Node<T>>>, value: T) -> (r: bool)
    requires
        is_total_order::<T>(),
        strictly_increasing(seq_of(*old(link))),
    ensures
        strictly_increasing(seq_of(*final(link))),
        r == !seq_of(*old(link)).contains(value),
        forall|x: T|
            seq_of(*final(link)).contains(x) <==> (seq_of(*old(link)).contains(x) || x == value),
    decreases seq_of(*old(link)).len(),
{
    let ghost s = seq_of(*link);
    match link {
        None => {
            let ghost v = value;
            *link = Some(Node::new(value, None));
            proof {
                assert(seq_of(*link) =~= seq![v] + Seq::<T>::empty());
                lemma_contains_cons(v, Seq::<T>::empty());
                lemma_increasing_cons(v, Seq::<T>::empty());
            }
            true
        },
        Some(node) => {
            let ghost a = node.value;
            let ghost rest = seq_of(node.next);
            proof {
                lemma_seq_of_some(*node);
                lemma_contains_cons(a, rest);
                lemma_increasing_cons(a, rest);
            }
            match node.value.cmp(&value) {
                Ordering::Less => {
                    let ghost v = value;
                    let r = insert_link(&mut node.next, value);
                    proof {
                        let t = seq_of(node.next);
                        lemma_seq_of_some(*node);
                        lemma_contains_cons(a, t);
                        lemma_increasing_cons(a, t);
                        assert forall|x: T| seq_of(Some(*node)).contains(x) <==> (s.contains(x)
                            || x == v) by {
                            assert((seq![a] + t).contains(x) <==> (x == a || t.contains(x)));
                        }
                        assert(v != a);
                    }
                    r
                },
                Ordering::Equal => false,
                Ordering::Greater => {
                    let ghost v = value;
                    let rest_link = link.take();
                    *link = Some(Node::new(value, rest_link));
                    proof {
                        assert(seq_of(*link) == seq![v] + s);
                        lemma_contains_cons(v, s);
                        assert(less(v, a));
                        assert forall|x: T| s.contains(x) implies less(v, x) by {
                            if x != a {
                                assert(less(a, x));
                            }
                        }
                        lemma_increasing_cons(v, s);
                        assert(!s.contains(v)) by {
                            if s.contains(v) {
                                assert(less(v, v));
                            }
                        }
                    }
                    true
                },
            }
        },
    }
}

/// Takes `value` out of the sorted chain at `link`, if it is there.
fn remove_link<T: Ord>(link: &mut Option<Box<Node<T>>>, value: &T) -> (r: bool)
    requires
        is_total_order::<T>(),
        strictly_increasing(seq_of(*old(link))),
    ensures
        strictly_increasing(seq_of(*final(link))),
        r == seq_of(*old(link)).contains(*value),
        forall|x: T|
            seq_of(*final(link)).contains(x) <==> (seq_of(*old(link)).contains(x) && x != *value),
    decreases seq_of(*old(link)).len(),
{
    let ghost s = seq_of(*link);
    match link {
        None => false,
        Some(node) => {
            let ghost a = node.value;
            let ghost rest = seq_of(node.next);
            proof {
                lemma_seq_of_some(*node);
                lemma_contains_cons(a, rest);
                lemma_increasing_cons(a, rest);
            }
            match node.value.cmp(value) {
                Ordering::Less => {
                    let r = remove_link(&mut node.next, value);
                    proof {
                        let t = seq_of(node.next);
                        lemma_seq_of_some(*node);
                        lemma_contains_cons(a, t);
                        lemma_increasing_cons(a, t);
                        assert(a != *value);
                        assert forall|x: T| seq_of(Some(*node)).contains(x) <==> (s.contains(x)
                            && x != *value) by {
                            assert((seq![a] + t).contains(x) <==> (x == a || t.contains(x)));
                        }
                    }
                    r
                },
                Ordering::Equal => {
                    let taken = link.take();
                    match taken {
                        Some(b) => {
                            let n = *b;
                            *link = n.next;
                        },
                        None => {},
                    }
                    proof {
                        assert(seq_of(*link) == rest);
                        assert(!rest.contains(*value)) by {
                            if rest.contains(*value) {
                                assert(less(a, a));
                            }
                        }
                    }
                    true
                },
                Ordering::Greater => {
                    proof {
                        assert(!s.contains(*value)) by {
                            if rest.contains(*value) {
                                assert(less(a, *value));
                            }
                        }
                    }
                    false
                },
            }
        },
    }
}

impl<T: Ord> LockFreeList<T> {
    /// The values are strictly increasing from `head`.
    pub open spec fn wf(&self) -> bool {
        strictly_increasing(self@)
    }

    /// An empty set.
    pub fn new() -> (r: Self)
        ensures
            r.wf(),
            r@ == Seq::<T>::empty(),
    {
        let r = LockFreeList { head: None };
        proof {
            assert(r@ =~= Seq::<T>::empty());
        }
        r
    }

    /// Adds `value`; returns false, changing nothing, when it is present.
    pub fn insert(&mut self, value: T) -> (r: bool)
        requires
            is_total_order::<T>(),
            old(self).wf(),
        ensures
            final(self).wf(),
            r == !old(self)@.contains(value),
            forall|x: T| final(self)@.contains(x) <==> (old(self)@.contains(x) || x == value),
    {
        insert_link(&mut self.head, value)
    }

    /// Removes `value`; returns false, changing nothing, when it is absent.
    pub fn remove(&mut self, value: &T) -> (r: bool)
        requires
            is_total_order::<T>(),
            old(self).wf(),
        ensures
            final(self).wf(),
            r == old(self)@.contains(*value),
            forall|x: T| final(self)@.contains(x) <==> (old(self)@.contains(x) && x != *value),
    {
        remove_link(&mut self.head, value)
    }

    /// The neighbours of `value`'s place: the last node whose value comes
    /// before it and the first node whose value does not.
    fn find(&self, value: &T) -> (r: (Option<&Box<Node<T>>>, Option<&Box<Node<T>>>))
        requires
            is_total_order::<T>(),
            self.wf(),
        ensures
            r.0 is None ==> forall|x: T| self@.contains(x) ==> !less(x, *value),
            r.0 matches Some(p) ==> {
                &&& self@.contains(p.value)
                &&& less(p.value, *value)
                &&& forall|x: T| self@.contains(x) && less(x, *value) ==> x == p.value || less(x, p.value)
            },
            r.1 is None ==> forall|x: T| self@.contains(x) ==> less(x, *value),
            r.1 matches Some(c) ==> {
                &&& self@.contains(c.value)
                &&& !less(c.value, *value)
                &&& forall|x: T| self@.contains(x) && !less(x, *value) ==> x == c.value || less(c.value, x)
            },
    {
        let ghost s = self@;
        let ghost mut i: int = 0;
        let mut prev: Option<&Box<Node<T>>> = None;
        let mut curr: Option<&Box<Node<T>>> = self.head.as_ref();
        loop
            invariant
                is_total_order::<T>(),
                strictly_increasing(s),
                s == self@,
                0 <= i <= s.len(),
                curr is None ==> i == s.len(),
                curr matches Some(c) ==> i < s.len() && seq_of(Some(*c)) == s.skip(i),
                prev is None ==> i == 0,
                prev matches Some(p) ==> i > 0 && p.value == s[i - 1],
                forall|j: int| 0 <= j < i ==> less(s[j], *value),
            ensures
                0 <= i <= s.len(),
                curr is None ==> i == s.len(),
                curr matches Some(c) ==> i < s.len() && s[i] == c.value && !less(c.value, *value),
                prev is None ==> i == 0,
                prev matches Some(p) ==> i > 0 && p.value == s[i - 1],
                forall|j: int| 0 <= j < i ==> less(s[j], *value),
            decreases s.len() - i,
        {
            match curr {
                None => {
                    break ;
                },
                Some(c) => {
                    proof {
                        lemma_seq_of_some(*c);
                        assert(s.skip(i)[0] == s[i]);
                    }
                    match c.value.cmp(value) {
                        Ordering::Less => {},
                        _ => {
                            break ;
                        },
                    }
                    proof {
                        assert(s.skip(i).drop_first() =~= s.skip(i + 1));
                    }
                    prev = Some(c);
                    curr = c.next.as_ref();
                    proof {
                        i = i + 1;
                    }
                },
            }
        }
        proof {
            assert forall|k: int| i <= k < s.len() implies !less(#[trigger] s[k], *value) by {
                if k > i && less(s[k], *value) {
                    assert(less(s[i], s[k]));
                }
            }
            if i > 0 {
                assert(s.contains(s[i - 1]));
                assert forall|x: T| s.contains(x) && less(x, *value) implies x == s[i - 1] || less(
                    x,
                    s[i - 1],
                ) by {
                    let k = choose|k: int| 0 <= k < s.len() && s[k] == x;
                    if k < i - 1 {
                        assert(less(s[k], s[i - 1]));
                    }
                }
            }
            if i < s.len() {
                assert(s.contains(s[i]));
                assert forall|x: T| s.contains(x) && !less(x, *value) implies x == s[i] || less(
                    s[i],
                    x,
                ) by {
                    let k = choose|k: int| 0 <= k < s.len() && s[k] == x;
                    if k > i {
                        assert(less(s[i], s[k]));
                    }
                }
            } else {
                assert forall|x: T| s.contains(x) implies less(x, *value) by {
                    let k = choose|k: int| 0 <= k < s.len() && s[k] == x;
                }
            }
            if i == 0 {
                assert forall|x: T| s.contains(x) implies !less(x, *value) by {
                    let k = choose|k: int| 0 <= k < s.len() && s[k] == x;
                }
            }
        }
        (prev, curr)
    }

    /// True when `value` is in the set.
    pub fn contains(&self, value: &T) -> (r: bool)
        requires
            is_total_order::<T>(),
            self.wf(),
        ensures
            r == self@.contains(*value),
    {
        let (_prev, curr) = self.find(value);
        match curr {
            None => {
                proof {
                    if self@.contains(*value) {
                        assert(less(*value, *value));
                    }
                }
                false
            },
            Some(c) => {
                proof {
                    assert(value.cmp_spec(value) == Ordering::Equal);
                    assert(!less(*value, *value));
                }
                match c.value.cmp(value) {
                    Ordering::Equal => true,
                    _ => false,
                }
            },
        }
    }

    /// Clones of the values in traversal order, which is increasing.
    pub fn values(&self) -> (r: Vec<T>)
        where
            T: Clone,
        ensures
            r@.len() == self@.len(),
            forall|i: int| 0 <= i < r@.len() ==> cloned(self@[i], #[trigger] r@[i]),
    {
        let mut out: Vec<T> = Vec::new();
        let ghost s = self@;
        let mut curr: Option<&Box<Node<T>>> = self.head.as_ref();
        loop
            invariant
                s == self@,
                out@.len() <= s.len(),
                curr is None ==> out@.len() == s.len(),
                curr matches Some(c) ==> out@.len() < s.len() && seq_of(Some(*c)) == s.skip(
                    out@.len() as int,
                ),
                forall|j: int| 0 <= j < out@.len() ==> cloned(s[j], #[trigger] out@[j]),
            ensures
                out@.len() == s.len(),
                forall|j: int| 0 <= j < out@.len() ==> cloned(s[j], #[trigger] out@[j]),
            decreases s.len() - out@.len(),
        {
            match curr {
                None => {
                    break ;
                },
                Some(c) => {
                    let ghost i = out@.len() as int;
                    proof {
                        lemma_seq_of_some(*c);
                        assert(s.skip(i)[0] == s[i]);
                        assert(s.skip(i).drop_first() =~= s.skip(i + 1));
                    }
                    out.push(c.value.clone());
                    curr = c.next.as_ref();
                    proof {
                        if curr is None {
                            assert(s.skip(i + 1).len() == 0);
                        }
                    }
                },
            }
        }
        out
    }
}

/// One operation on a set.
pub enum SetOp<T> {
    Insert(T),
    Remove(T),
}

/// The members after `op`, as `insert` and `remove` leave them.
pub open spec fn set_step<T>(s: Set<T>, op: SetOp<T>) -> Set<T> {
    match op {
        SetOp::Insert(v) => s.insert(v),
        SetOp::Remove(v) => s.remove(v),
    }
}

/// Whether `op` succeeds (returns true) on members `s`.
pub open spec fn set_succeeds<T>(s: Set<T>, op: SetOp<T>) -> bool {
    match op {
        SetOp::Insert(v) => !s.contains(v),
        SetOp::Remove(v) => s.contains(v),
    }
}

/// The members after running `ops` in order from `s`.
pub open spec fn set_after<T>(s: Set<T>, ops: Seq<SetOp<T>>) -> Set<T>
    decreases ops.len(),
{
    if ops.len() == 0 {
        s
    } else {
        set_step(set_after(s, ops.drop_last()), ops.last())
    }
}

/// Of the operations on `v` in `ops` that succeeded, whether the last one
/// was an insert (`Some(true)`) or a remove (`Some(false)`); `None` when none
/// succeeded.
pub open spec fn last_success_on<T>(s: Set<T>, ops: Seq<SetOp<T>>, v: T) -> Option<bool>
    decreases ops.len(),
{
    if ops.len() == 0 {
        None
    } else {
        let before = set_after(s, ops.drop_last());
        let op = ops.last();
        let on_v = match op {
            SetOp::Insert(x) => x == v,
            SetOp::Remove(x) => x == v,
        };
        if on_v && set_succeeds(before, op) {
            Some(op is Insert)
        } else {
            last_success_on(s, ops.drop_last(), v)
        }
    }
}

/// After any run of inserts and removes, `v` is a member exactly when the
/// last successful operation on it was an insert (or, with none, when it was
/// a member at the start).
pub proof fn lemma_member_iff_last_success_inserted<T>(s: Set<T>, ops: Seq<SetOp<T>>, v: T)
    ensures
        set_after(s, ops).contains(v) == match last_success_on(s, ops, v) {
            Some(inserted) => inserted,
            None => s.contains(v),
        },
    decreases ops.len(),
{
    if ops.len() > 0 {
        lemma_member_iff_last_success_inserted(s, ops.drop_last(), v);
    }
}

} // verus!
