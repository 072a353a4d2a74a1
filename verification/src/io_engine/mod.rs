//! The plane between transactions and devices: what is submitted, what
//! completes, and the buffers and queues in between.
pub mod engine;
pub mod mpmc;
pub mod op;
pub mod shard;
pub mod uring;
pub mod zero_copy;
