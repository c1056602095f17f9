//! An MCS queue lock, modelled as its hand-off protocol: waiters join a line
//! in arrival order and the lock passes from each holder to its successor.
use vstd::prelude::*;

verus! {

/// Which container performs a lock operation.
#[derive(Debug, Clone, Copy, PartialEq, Eq, Structural)]
pub enum OperationSource {
    HashMap,
    LinkedList,
}

/// The waiting record of one acquirer, identified by `id`.
pub struct MCSNode {
    pub id: u64,
    /// The successor that joined the line right behind this node.
    pub next: Option<u64>,
    /// True while this node waits for the lock.
    pub locked: bool,
}

impl MCSNode {
    /// A fresh waiting record; it starts out locked, with no successor.
    pub fn new(id: u64) -> (r: MCSNode)
        ensures
            r.id == id,
            r.next is None,
            r.locked,
    {
        MCSNode { id, next: None, locked: true }
    }
}

/// The lock: `tail` is the last node to join, `line` the nodes in arrival
/// order. The first node of the line holds the lock.
pub struct MCSLock {
    tail: Option<u64>,
    line: Vec<u64>,
}

impl View for MCSLock {
    type V = Seq<u64>;

    closed spec fn view(&self) -> Seq<u64> {
        self.line@
    }
}

impl MCSLock {
    /// The lock is consistent: `tail` names the last node of the line, and no
    /// node stands in the line twice.
    pub closed spec fn wf(&self) -> bool {
        &&& self.tail == Self::tail_of(self@)
        &&& self@.no_duplicates()
    }

    /// The last node of a line, if any.
    pub open spec fn tail_of(line: Seq<u64>) -> Option<u64> {
        if line.len() == 0 { None } else { Some(line.last()) }
    }

    /// The node that holds the lock, if any.
    pub open spec fn holder_of(line: Seq<u64>) -> Option<u64> {
        if line.len() == 0 { None } else { Some(line[0]) }
    }

    /// A free lock.
    pub fn new() -> (r: MCSLock)
        ensures
            r.wf(),
            r@ == Seq::<u64>::empty(),
    {
        MCSLock { tail: None, line: Vec::new() }
    }

    /// True when no node holds or waits for the lock.
    pub fn is_free(&self) -> (r: bool)
        requires
            self.wf(),
        ensures
            r == (self@.len() == 0),
    {
        self.tail.is_none()
    }

    /// The node that holds the lock, if any.
    pub fn holder(&self) -> (r: Option<u64>)
        ensures
            r == Self::holder_of(self@),
    {
        if self.line.len() == 0 {
            None
        } else {
            Some(self.line[0])
        }
    }

    /// Joins the line with `node` on behalf of the container `_source`: swaps
    /// the tail for the node. With no
    /// predecessor the lock is held at once; otherwise the node is linked
    /// behind its predecessor and waits, locked, for the hand-off.
    /// Returns the predecessor.
    pub fn lock(&mut self, node: &mut MCSNode, _source: OperationSource) -> (prev: Option<u64>)
        requires
            old(self).wf(),
            !old(self)@.contains(old(node).id),
        ensures
            final(self).wf(),
            final(self)@ == old(self)@.push(old(node).id),
            prev == Self::tail_of(old(self)@),
            final(node).id == old(node).id,
            final(node).next is None,
            final(node).locked == (prev is Some),
    {
        node.next = None;
        let prev = self.tail;
        self.tail = Some(node.id);
        self.line.push(node.id);
        match prev {
            None => {
                node.locked = false;
            },
            Some(_) => {
                node.locked = true;
            },
        }
        proof {
            assert(final(self)@.last() == node.id);
        }
        prev
    }

    /// Releases the lock held by `node` and hands it to the successor, which
    /// is returned. With no successor the lock becomes free.
    pub fn unlock(&mut self, node: &mut MCSNode, _source: OperationSource) -> (next: Option<u64>)
        requires
            old(self).wf(),
            Self::holder_of(old(self)@) == Some(old(node).id),
        ensures
            final(self).wf(),
            final(self)@ == old(self)@.drop_first(),
            next == Self::holder_of(final(self)@),
            final(node).id == old(node).id,
            final(node).next == next,
            !final(node).locked,
    {
        let ghost before = self@;
        self.line.remove(0);
        let next = if self.line.len() == 0 {
            self.tail = None;
            None
        } else {
            Some(self.line[0])
        };
        node.next = next;
        node.locked = false;
        proof {
            assert(self@ =~= before.drop_first());
            if self@.len() > 0 {
                assert(self@.last() == before.last());
            }
        }
        next
    }
}

/// The line after `n` hand-offs, each made by an `unlock` of the holder.
pub open spec fn after_handoffs(line: Seq<u64>, n: nat) -> Seq<u64>
    decreases n,
{
    if n == 0 {
        line
    } else {
        after_handoffs(line, (n - 1) as nat).drop_first()
    }
}

proof fn lemma_after_handoffs_skip(line: Seq<u64>, n: nat)
    requires
        n <= line.len(),
    ensures
        after_handoffs(line, n) == line.skip(n as int),
    decreases n,
{
    if n == 0 {
        assert(line.skip(0) =~= line);
    } else {
        lemma_after_handoffs_skip(line, (n - 1) as nat);
        assert(line.skip(n - 1).drop_first() =~= line.skip(n as int));
    }
}

/// The lock is handed on in arrival order and nobody starves: a node that
/// joined behind `p` others holds the lock after exactly `p` hand-offs, not
/// before, whatever nodes join after it.
pub proof fn lemma_handoff_in_arrival_order(line: Seq<u64>, later: Seq<u64>, p: nat, n: nat)
    requires
        (line + later).no_duplicates(),
        p < line.len(),
        n <= p,
    ensures
        MCSLock::holder_of(after_handoffs(line + later, n)) == Some(line[p as int]) <==> n == p,
{
    let all = line + later;
    lemma_after_handoffs_skip(all, n);
    assert(all.skip(n as int)[0] == all[n as int]);
    assert(all[p as int] == line[p as int]);
    if n != p {
        assert(all[n as int] != all[p as int]);
    }
}

} // verus!
