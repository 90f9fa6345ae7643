use vstd::prelude::*;

verus! {

/// Strongly typed id of a TOC node. Internally it is a slab key.
///
/// Caveat: slab reuses the keys of removed nodes, so a stale `NodeId` held
/// after a `remove` may alias a newly inserted node.
#[derive(Debug, Clone, Copy, PartialEq, Eq, Hash, PartialOrd, Ord, Structural)]
pub struct NodeId(pub usize);

} // verus!
