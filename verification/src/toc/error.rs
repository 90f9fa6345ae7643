use vstd::prelude::*;

use super::id::NodeId;

verus! {

/// Errors of TOC tree construction and snapshot restoration.
#[derive(Debug)]
pub enum TocError {
    /// The given parent id does not exist in the container.
    NodeParentNotFound(NodeId),
    /// A snapshot could not be turned back into a tree.
    InvalidSnapshot(String),
}

} // verus!
