//! A Michael–Scott FIFO queue over an arena of linked nodes. `head` is a
//! sentinel whose successor holds the first element; a dequeue makes that
//! successor the new sentinel and retires the old one to a free list, from
//! which later enqueues take their nodes.
use vstd::prelude::*;
use vstd::seq_lib::lemma_multiset_commutative;

verus! {

/// A queue node: the sentinel carries no value.
pub struct Node<T> {
    pub value: Option<T>,
    pub next: Option<usize>,
}

pub struct LockFreeQueue<T> {
    nodes: Vec<Node<T>>,
    head: usize,
    tail: usize,
    /// Retired nodes, ready to be reused.
    free: Vec<usize>,
    /// The nodes reachable from `head`, in link order.
    chain: Ghost<Seq<usize>>,
}

impl<T> View for LockFreeQueue<T> {
    type V = Seq<T>;

    /// The values of the nodes after the sentinel, front first.
    closed spec fn view(&self) -> Seq<T> {
        Seq::new((self.chain@.len() - 1) as nat, |i: int| self.nodes@[self.chain@[i + 1] as int].value->0)
    }
}

impl<T> LockFreeQueue<T> {
    /// The chain runs from the sentinel `head` to `tail` along `next`, visits
    /// each node once, and every node after the sentinel holds a value;
    /// retired nodes are distinct, off the chain and empty.
    pub closed spec fn wf(&self) -> bool {
        let c = self.chain@;
        let n = self.nodes@;
        &&& c.len() >= 1
        &&& c[0] == self.head
        &&& c.last() == self.tail
        &&& forall|i: int| 0 <= i < c.len() ==> #[trigger] c[i] < n.len()
        &&& forall|i: int, j: int| 0 <= i < j < c.len() ==> c[i] != c[j]
        &&& forall|i: int| 0 <= i < c.len() - 1 ==> n[#[trigger] c[i] as int].next == Some(c[i + 1])
        &&& n[self.tail as int].next is None
        &&& n[self.head as int].value is None
        &&& forall|i: int| 0 < i < c.len() ==> n[#[trigger] c[i] as int].value is Some
        &&& forall|k: int|
            0 <= k < self.free@.len() ==> {
                &&& #[trigger] self.free@[k] < n.len()
                &&& !c.contains(self.free@[k])
                &&& n[self.free@[k] as int].value is None
            }
        &&& forall|k: int, l: int|
            0 <= k < l < self.free@.len() ==> self.free@[k] != self.free@[l]
    }

    /// An empty queue: a single sentinel node.
    pub fn new() -> (r: Self)
        ensures
            r.wf(),
            r@ == Seq::<T>::empty(),
    {
        let mut nodes: Vec<Node<T>> = Vec::new();
        nodes.push(Node { value: None, next: None });
        let ghost c: Seq<usize> = seq![0usize];
        let r = LockFreeQueue { nodes, head: 0, tail: 0, free: Vec::new(), chain: Ghost(c) };
        proof {
            assert(r@ =~= Seq::<T>::empty());
        }
        r
    }

    /// Appends `value` at the back: a node is taken from the retired ones (or
    /// allocated), linked after the last node, and becomes the tail.
    pub fn enqueue(&mut self, value: T)
        requires
            old(self).wf(),
        ensures
            final(self).wf(),
            final(self)@ == old(self)@.push(value),
    {
        let ghost c = self.chain@;
        let ghost before = self@;
        let node = Node { value: Some(value), next: None };
        let slot: usize;
        if self.free.len() > 0 {
            let s = self.free.pop().unwrap();
            proof {
                assert(old(self).free@[old(self).free@.len() - 1] == s);
            }
            self.nodes.set(s, node);
            slot = s;
        } else {
            slot = self.nodes.len();
            self.nodes.push(node);
        }
        let t = self.tail;
        self.nodes[t].next = Some(slot);
        self.tail = slot;
        self.chain = Ghost(c.push(slot));
        proof {
            assert(!c.contains(slot));
            assert forall|i: int| 0 <= i < c.len() implies c[i] != slot by {
                if c[i] == slot {
                    assert(c.contains(slot));
                }
            }
            assert(self@ =~= before.push(value));
        }
    }

    /// Takes the value at the front, or `None` when the queue is empty. The
    /// node that held it becomes the sentinel; the old sentinel is retired.
    pub fn dequeue(&mut self) -> (r: Option<T>)
        requires
            old(self).wf(),
        ensures
            final(self).wf(),
            old(self)@.len() == 0 ==> r is None && final(self)@ == old(self)@,
            old(self)@.len() > 0 ==> r == Some(old(self)@[0]) && final(self)@ == old(
                self,
            )@.drop_first(),
    {
        let ghost c = self.chain@;
        let ghost before = self@;
        let h = self.head;
        if h == self.tail {
            proof {
                assert(before.len() == 0);
            }
            return None;
        }
        proof {
            assert(c.len() > 1) by {
                if c.len() == 1 {
                    assert(c[0] == c.last());
                }
            }
        }
        let hn = self.nodes[h].next;
        let n = hn.unwrap();
        let value = self.nodes[n].value.take();
        self.head = n;
        self.free.push(h);
        self.chain = Ghost(c.drop_first());
        proof {
            assert(c[1] == n);
            assert forall|i: int| 1 <= i < c.len() implies c[i] != h by {
                assert(c[0] != c[i]);
            }
            assert(!self.chain@.contains(h));
            assert(self@ =~= before.drop_first());
        }
        value
    }

    /// True when the queue holds no value.
    pub fn is_empty(&self) -> (r: bool)
        requires
            self.wf(),
        ensures
            r == (self@.len() == 0),
    {
        proof {
            if self.head == self.tail && self.chain@.len() > 1 {
                assert(self.chain@[0] != self.chain@[self.chain@.len() - 1]);
            }
        }
        self.head == self.tail
    }
}

/// One operation on a queue.
pub enum QueueOp<T> {
    Enqueue(T),
    Dequeue,
}

/// The contents after `op`, as `enqueue` and `dequeue` leave them.
pub open spec fn queue_step<T>(q: Seq<T>, op: QueueOp<T>) -> Seq<T> {
    match op {
        QueueOp::Enqueue(v) => q.push(v),
        QueueOp::Dequeue => if q.len() == 0 {
            q
        } else {
            q.drop_first()
        },
    }
}

/// What `op` returns when it is a dequeue: the front value, or `None` on
/// an empty queue.
pub open spec fn queue_output<T>(q: Seq<T>) -> Option<T> {
    if q.len() == 0 {
        None
    } else {
        Some(q[0])
    }
}

/// The contents after running `ops` in order from `q`.
pub open spec fn queue_after<T>(q: Seq<T>, ops: Seq<QueueOp<T>>) -> Seq<T>
    decreases ops.len(),
{
    if ops.len() == 0 {
        q
    } else {
        queue_after(queue_step(q, ops[0]), ops.drop_first())
    }
}

/// The results of the dequeues of `ops`, run in order from `q`.
pub open spec fn queue_outputs<T>(q: Seq<T>, ops: Seq<QueueOp<T>>) -> Seq<Option<T>>
    decreases ops.len(),
{
    if ops.len() == 0 {
        Seq::empty()
    } else {
        let rest = queue_outputs(queue_step(q, ops[0]), ops.drop_first());
        match ops[0] {
            QueueOp::Enqueue(_) => rest,
            QueueOp::Dequeue => seq![queue_output(q)] + rest,
        }
    }
}

/// The values that the dequeues of `ops` take out, in order.
pub open spec fn queue_dequeued<T>(q: Seq<T>, ops: Seq<QueueOp<T>>) -> Seq<T>
    decreases ops.len(),
{
    if ops.len() == 0 {
        Seq::empty()
    } else {
        let rest = queue_dequeued(queue_step(q, ops[0]), ops.drop_first());
        match ops[0] {
            QueueOp::Dequeue => if q.len() == 0 {
                rest
            } else {
                seq![q[0]] + rest
            },
            QueueOp::Enqueue(_) => rest,
        }
    }
}

/// The values that the enqueues of `ops` put in, in order.
pub open spec fn queue_enqueued<T>(ops: Seq<QueueOp<T>>) -> Seq<T>
    decreases ops.len(),
{
    if ops.len() == 0 {
        Seq::empty()
    } else {
        let rest = queue_enqueued(ops.drop_first());
        match ops[0] {
            QueueOp::Enqueue(v) => seq![v] + rest,
            QueueOp::Dequeue => rest,
        }
    }
}

/// Enqueues of the values of `s`, in order.
pub open spec fn enqueue_all<T>(s: Seq<T>) -> Seq<QueueOp<T>> {
    Seq::new(s.len(), |i: int| QueueOp::Enqueue(s[i]))
}

/// `n` dequeues.
pub open spec fn dequeue_times<T>(n: nat) -> Seq<QueueOp<T>> {
    Seq::new(n, |i: int| QueueOp::<T>::Dequeue)
}

/// Nothing is lost or duplicated, and order is kept: for any run of
/// operations, the values taken out followed by the values left inside are
/// the values that were inside at the start followed by those put in. So the
/// values taken out are a prefix of the enqueue order, and the values of
/// each producer come out in the order it put them in.
pub proof fn lemma_dequeued_then_left_is_enqueued<T>(q: Seq<T>, ops: Seq<QueueOp<T>>)
    ensures
        queue_dequeued(q, ops) + queue_after(q, ops) == q + queue_enqueued(ops),
    decreases ops.len(),
{
    if ops.len() > 0 {
        let q2 = queue_step(q, ops[0]);
        lemma_dequeued_then_left_is_enqueued(q2, ops.drop_first());
        match ops[0] {
            QueueOp::Enqueue(v) => {
                assert(q2 + queue_enqueued(ops.drop_first()) =~= q + (seq![v] + queue_enqueued(
                    ops.drop_first(),
                )));
            },
            QueueOp::Dequeue => {
                if q.len() > 0 {
                    let d = queue_dequeued(q2, ops.drop_first());
                    let a = queue_after(q2, ops.drop_first());
                    assert((seq![q[0]] + d) + a =~= seq![q[0]] + (d + a));
                    assert(seq![q[0]] + (q2 + queue_enqueued(ops.drop_first())) =~= q
                        + queue_enqueued(ops));
                }
            },
        }
    } else {
        assert(Seq::<T>::empty() + q =~= q + Seq::<T>::empty());
    }
}

/// For any run from an empty queue, the multiset of values taken out is the
/// multiset of values put in less those still inside.
pub proof fn lemma_no_loss_no_duplication<T>(ops: Seq<QueueOp<T>>)
    ensures
        queue_dequeued(Seq::empty(), ops).to_multiset() == queue_enqueued(ops).to_multiset().sub(
            queue_after(Seq::empty(), ops).to_multiset(),
        ),
{
    let d = queue_dequeued(Seq::<T>::empty(), ops);
    let a = queue_after(Seq::<T>::empty(), ops);
    lemma_dequeued_then_left_is_enqueued(Seq::<T>::empty(), ops);
    assert(Seq::<T>::empty() + queue_enqueued(ops) =~= queue_enqueued(ops));
    lemma_multiset_commutative(d, a);
    assert(queue_enqueued(ops).to_multiset() =~= d.to_multiset().add(a.to_multiset()));
    assert(d.to_multiset() =~= d.to_multiset().add(a.to_multiset()).sub(a.to_multiset()));
}

proof fn lemma_run_concat<T>(q: Seq<T>, a: Seq<QueueOp<T>>, b: Seq<QueueOp<T>>)
    ensures
        queue_after(q, a + b) == queue_after(queue_after(q, a), b),
        queue_outputs(q, a + b) == queue_outputs(q, a) + queue_outputs(queue_after(q, a), b),
    decreases a.len(),
{
    if a.len() == 0 {
        assert(a + b =~= b);
        assert(queue_outputs(q, a) + queue_outputs(q, b) =~= queue_outputs(q, b));
    } else {
        assert((a + b).drop_first() =~= a.drop_first() + b);
        assert((a + b)[0] == a[0]);
        lemma_run_concat(queue_step(q, a[0]), a.drop_first(), b);
        let x = queue_outputs(queue_step(q, a[0]), a.drop_first());
        let y = queue_outputs(queue_after(q, a), b);
        match a[0] {
            QueueOp::Enqueue(_) => {},
            QueueOp::Dequeue => {
                assert(seq![queue_output(q)] + (x + y) =~= (seq![queue_output(q)] + x) + y);
            },
        }
    }
}

proof fn lemma_enqueue_all<T>(q: Seq<T>, s: Seq<T>)
    ensures
        queue_after(q, enqueue_all(s)) == q + s,
        queue_outputs(q, enqueue_all(s)) == Seq::<Option<T>>::empty(),
    decreases s.len(),
{
    if s.len() == 0 {
        assert(q + s =~= q);
    } else {
        assert(enqueue_all(s).drop_first() =~= enqueue_all(s.drop_first()));
        lemma_enqueue_all(q.push(s[0]), s.drop_first());
        assert(q.push(s[0]) + s.drop_first() =~= q + s);
    }
}

proof fn lemma_dequeue_times<T>(q: Seq<T>, n: nat)
    requires
        n >= q.len(),
    ensures
        queue_outputs(q, dequeue_times(n)) == q.map_values(|v: T| Some(v)) + Seq::new(
            (n - q.len()) as nat,
            |i: int| None::<T>,
        ),
    decreases n,
{
    let somes = q.map_values(|v: T| Some(v));
    if n == 0 {
        assert(somes + Seq::new(0, |i: int| None::<T>) =~= Seq::<Option<T>>::empty());
    } else {
        assert(dequeue_times::<T>(n).drop_first() =~= dequeue_times::<T>((n - 1) as nat));
        if q.len() == 0 {
            lemma_dequeue_times(q, (n - 1) as nat);
            assert(seq![None::<T>] + queue_outputs(q, dequeue_times((n - 1) as nat)) =~= somes
                + Seq::new((n - q.len()) as nat, |i: int| None::<T>));
        } else {
            lemma_dequeue_times(q.drop_first(), (n - 1) as nat);
            assert(seq![Some(q[0])] + (q.drop_first().map_values(|v: T| Some(v)) + Seq::new(
                ((n - 1) - q.drop_first().len()) as nat,
                |i: int| None::<T>,
            )) =~= somes + Seq::new((n - q.len()) as nat, |i: int| None::<T>));
        }
    }
}

/// One producer enqueues `s` into an empty queue, then one consumer
/// dequeues `n >= s.len()` times: it receives the values of `s` in order,
/// then absent results.
pub proof fn lemma_fifo_order<T>(s: Seq<T>, n: nat)
    requires
        n >= s.len(),
    ensures
        queue_outputs(Seq::empty(), enqueue_all(s) + dequeue_times(n)) == s.map_values(
            |v: T| Some(v),
        ) + Seq::new((n - s.len()) as nat, |i: int| None::<T>),
{
    lemma_run_concat(Seq::<T>::empty(), enqueue_all(s), dequeue_times(n));
    lemma_enqueue_all(Seq::<T>::empty(), s);
    assert(Seq::<T>::empty() + s =~= s);
    lemma_dequeue_times(s, n);
    assert(Seq::<Option<T>>::empty() + queue_outputs(s, dequeue_times(n)) =~= queue_outputs(
        s,
        dequeue_times(n),
    ));
}

} // verus!
