//! Verified core of a small cooperative kernel: physical frame allocation,
//! page-table mapping, a heap allocator, bounded interrupt-safe queues and a
//! cooperative task executor.
pub mod frame;
pub mod harness;
pub mod events;
pub mod executor;
pub mod heap;
pub mod paging;
pub mod queue;
pub mod wake;
