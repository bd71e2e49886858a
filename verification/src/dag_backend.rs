use vstd::prelude::*;

use crate::node::Node;
use crate::node_id::NodeId;

verus! {

/// An interface to a DAG backend storage
///
/// A DAG backend storage is nothing more than a thing that can store (`DagBackend::put`) and load
/// (`DagBackend::get`) nodes. `nodes` is the map from identifiers to nodes that the backend holds.
///
/// A backend is described as a value: what one backend holds changes only through its own `put`.
/// Backends whose clones share their storage (so that a `put` through one clone is seen by the
/// others, as with a store behind a shared reference or a network store) go beyond this
/// description: the contracts say nothing of what a clone sees of another clone's puts.
pub trait DagBackend<Id, N> where N: Node<Id = Id>, Id: NodeId + Send {
    type Error;

    /// The nodes held by the backend, by their identifiers.
    ///
    /// A verified implementation defines it. The default is there for implementations written
    /// outside Verus, which cannot define a spec function; it is closed, so nothing is known of it
    /// outside this module, and nothing is proved of such an implementation.
    closed spec fn nodes(&self) -> Map<Id, N> {
        Map::empty()
    }

    /// Get a `Node` from the backend that is identified by `id`
    ///
    /// # Returns
    ///
    /// * Should return Err(_) if the operation failed.
    /// * Should return Ok(None) if there is no node that is identified by `id`
    /// * Otherwise return the Id along with the node identified by it
    fn get(&self, id: Id) -> (r: Result<Option<(Id, N)>, Self::Error>)
        ensures
            r matches Ok(Some(found)) ==> {
                &&& found.0 == id
                &&& self.nodes().contains_key(id)
                &&& self.nodes()[id] == found.1
            },
            r matches Ok(None) ==> !self.nodes().contains_key(id),
    ;

    /// Store a `node` in the backend, returning its `Id`
    ///
    /// This function should store the `node` in the backend and return the `id` the node has.
    /// Nodes are never deleted from a backend, also not by a `put` that fails, and a `put` that
    /// fails changes no stored node.
    fn put(&mut self, node: N) -> (r: Result<Id, Self::Error>)
        ensures
            r matches Ok(id) ==> final(self).nodes() == old(self).nodes().insert(id, node),
            r is Err ==> old(self).nodes().submap_of(final(self).nodes()),
            old(self).nodes().dom().subset_of(final(self).nodes().dom()),
    ;
}

} // verus!
