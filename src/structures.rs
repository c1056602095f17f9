pub mod mcs_lock;
pub mod lockfreequeue;
pub mod atomic_queue;
pub mod lock_free_link_list;
pub mod lock_free_hash;
