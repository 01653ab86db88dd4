//! Notification payloads crossing the boundary to the shell: the tree as
//! the presentation layer consumes it, and the three event bodies. The
//! shell mirrors these with its own serializable copies.

use vstd::prelude::*;

verus! {

/// A subtree as delivered to the presentation layer.
#[derive(Debug)]
pub struct FsNode {
    pub name: String,
    pub path: String,
    pub size: u64,
    pub children: Vec<FsNode>,
}

/// Body of a per-directory progress notification.
#[derive(Debug)]
pub struct DirectoryCompletePayload {
    pub path: String,
    pub node_data: FsNode,
    pub total_scanned: u64,
}

/// Body of the terminal success notification.
#[derive(Debug)]
pub struct ScanCompletePayload {
    pub root: FsNode,
    pub total_scanned: u64,
}

/// Body of the terminal failure notification.
#[derive(Debug)]
pub struct ScanErrorPayload {
    pub message: String,
}

} // verus!
