//! Containers for comparing reclamation strategies: a Michael–Scott FIFO queue,
//! a sorted linked set and a bucketed hash map whose buckets are guarded by an
//! MCS queue lock, together with an era-based deferred-reclamation service.
//! Each is specified against a mathematical model: a sequence for the queue,
//! an increasing sequence for the set, a map for the hash map, a line of
//! waiters for the lock, and pins and retirements for the service.
pub mod reclaim;
pub mod structures;

pub use reclaim::{Crystalline, Guard, Linked, Protect, Shared};

pub use structures::atomic_queue::AtomicQueue;
pub use structures::lock_free_hash::LockFreeHashMap;
pub use structures::lock_free_link_list::LockFreeList;
pub use structures::lockfreequeue::LockFreeQueue;
pub use structures::mcs_lock::{MCSLock, MCSNode, OperationSource};
