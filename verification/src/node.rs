use vstd::prelude::*;

use crate::node_id::NodeId;

verus! {

/// A node of the DAG, which names the nodes it points to (its parents) by their identifiers.
pub trait Node {
    type Id: NodeId;

    /// The identifiers of the parents of this node, in order.
    ///
    /// A verified implementation defines it. The default is there for implementations written
    /// outside Verus, which cannot define a spec function; it is closed, so nothing is known of it
    /// outside this module, and nothing is proved of such an implementation.
    closed spec fn parents(&self) -> Seq<Self::Id> {
        Seq::empty()
    }

    /// Returns the identifiers of the parents of this node.
    fn parent_ids(&self) -> (r: Vec<Self::Id>)
        ensures
            r@ == self.parents(),
    ;
}

} // verus!
