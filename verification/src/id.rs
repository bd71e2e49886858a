use vstd::prelude::*;

verus! {

/// An "ID" is an object that can be used to uniquely identify a node in the DAG.
///
/// In git-speak, this would be a SHA1 hash.
pub trait Id: Clone + core::fmt::Debug + PartialEq + Eq {
}

} // verus!
