use vstd::prelude::*;

verus! {

/// The errors of DAG operations.
///
/// `E` is the error type of the storage backend, which the user callbacks (merging and rewriting
/// nodes) report their failures in as well.
#[derive(Debug)]
pub enum Error<Id, E> {
    /// The node that was asked for is not stored in the backend.
    NodeNotFound(Id),
    /// The node that was to become the new HEAD does not have the current HEAD as a parent.
    HeadNotAParent,
    /// The backend failed.
    Backend(E),
    /// Creating a merge node failed.
    Merge(E),
    /// Rewriting a node during a rebase failed.
    Rewrite(E),
}

} // verus!
