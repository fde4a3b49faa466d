//! Bounded queues: a single-threaded ring buffer and a block-based queue that
//! several threads may share.
//!
//! The block-based queue follows Wang, Jiawei, et al. "BBQ: A Block-based Bounded
//! Queue for Exchanging Data and Profiling." 2022 USENIX Annual Technical
//! Conference (USENIX ATC 22).

pub mod fifo;
pub mod stubs;
pub mod sync;
pub mod unsync;
