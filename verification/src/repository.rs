use vstd::prelude::*;

use crate::id::Id;
use crate::node::Node;
use crate::node_id::NodeId;

verus! {

/// A store that hands out nodes by their identifiers.
pub trait Repository: core::fmt::Debug + Sync + Send {
    type Id: Id + NodeId;

    type Error: core::fmt::Debug;

    type Node: Node<Id = Self::Id>;

    /// It should be trivial to get the Id of a Node.
    fn get(&self, id: Self::Id) -> Result<Self::Node, Self::Error>;
}

} // verus!
