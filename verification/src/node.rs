//! Node identity: anything with a unique numeric id can be a node of a
//! network, so the graph store is generic over this trait.

use vstd::prelude::*;

verus! {

/// Abstracts over a single node in a network.
///
/// A node is a small copyable value exposing a numeric id; a graph keeps at
/// most one node per id, and all adjacency bookkeeping is done on ids.
pub trait Node: Sized + Copy {
    /// The node's id, as specifications see it.
    spec fn spec_id(&self) -> u64;

    /// The (unique) id of the node.
    fn id(&self) -> (r: u64)
        ensures
            r == self.spec_id(),
    ;
}

impl Node for u32 {
    open spec fn spec_id(&self) -> u64 {
        *self as u64
    }

    fn id(&self) -> u64 {
        *self as u64
    }
}

impl Node for u64 {
    open spec fn spec_id(&self) -> u64 {
        *self
    }

    fn id(&self) -> u64 {
        *self
    }
}

/// A node carrying one categorical attribute; `attr == -1` means the
/// attribute is unknown (redacted).
#[derive(Clone, Copy, Debug, PartialEq, Eq, Hash, Structural)]
pub struct AttrNode {
    pub node_id: u64,
    pub attr: i32,
}

impl Node for AttrNode {
    open spec fn spec_id(&self) -> u64 {
        self.node_id
    }

    fn id(&self) -> u64 {
        self.node_id
    }
}

} // verus!
