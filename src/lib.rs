//! Multi-version concurrency control for executing an ordered batch of
//! transactions optimistically while reproducing the effects of executing
//! them one after another.

pub mod captured_reads;
pub mod executor;
pub mod ext;
pub mod scheduler;
pub mod sync_wrapper;
pub mod txn_last_input_output;
pub mod types;
pub mod versioned_data;
