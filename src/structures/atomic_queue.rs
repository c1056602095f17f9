//! The Michael–Scott queue variant that moves the value out of the first
//! node before it swings `head`. Run by one thread at a time its behaviour is
//! that of `LockFreeQueue`, which it builds on.
use vstd::prelude::*;
pub use crate::structures::lockfreequeue::Node;
use crate::structures::lockfreequeue::LockFreeQueue;

verus! {

pub struct AtomicQueue<T> {
    inner: LockFreeQueue<T>,
}

impl<T> View for AtomicQueue<T> {
    type V = Seq<T>;

    closed spec fn view(&self) -> Seq<T> {
        self.inner@
    }
}

impl<T> AtomicQueue<T> {
    pub closed spec fn wf(&self) -> bool {
        self.inner.wf()
    }

    /// An empty queue.
    pub fn new() -> (r: Self)
        ensures
            r.wf(),
            r@ == Seq::<T>::empty(),
    {
        AtomicQueue { inner: LockFreeQueue::new() }
    }

    /// Appends `value` at the back.
    pub fn enqueue(&mut self, value: T)
        requires
            old(self).wf(),
        ensures
            final(self).wf(),
            final(self)@ == old(self)@.push(value),
    {
        self.inner.enqueue(value);
    }

    /// Takes the value at the front, or `None` when the queue is empty.
    pub fn dequeue(&mut self) -> (r: Option<T>)
        requires
            old(self).wf(),
        ensures
            final(self).wf(),
            old(self)@.len() == 0 ==> r is None && final(self)@ == old(self)@,
            old(self)@.len() > 0 ==> r == Some(old(self)@[0]) && final(self)@ == old(
                self,
            )@.drop_first(),
    {
        self.inner.dequeue()
    }
}

} // verus!
