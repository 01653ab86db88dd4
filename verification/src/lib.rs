//! A filesystem size-scanning engine: given a snapshot of directory metadata,
//! it computes per-node aggregate byte sizes across the whole subtree,
//! de-duplicates hard-linked files so their size is counted once, treats
//! symlinks as opaque leaves, supports cooperative cancellation, and caches
//! the last few completed scans keyed by path and modification time.

pub mod cache;
pub mod cancel;
pub mod coordinator;
pub mod events;
pub mod registry;
pub mod scanner;
pub mod snapshot;
pub mod tree;
pub mod volumes;
