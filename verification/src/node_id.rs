use vstd::prelude::*;
use vstd::std_specs::cmp::PartialEqSpec;

verus! {

/// A unique identifier for a `Node`
///
/// The `NodeId` should be cheap to clone (for example a UUID or some form of a hash value).
pub trait NodeId: Clone + Eq + PartialEq {
}

/// The identifier type behaves as a plain value: `==` holds exactly of equal values and a clone
/// is equal to its source.
///
/// The functions of this library that compare or copy identifiers rely on it. Integer identifiers
/// meet it, and so does a type whose `PartialEq` is written by hand together with a specification
/// that states `eq` to be equality of the values (a derived `PartialEq` carries none).
pub open spec fn id_laws<I: PartialEq + Clone>() -> bool {
    &&& I::obeys_eq_spec()
    &&& forall|a: I, b: I| (#[trigger] a.eq_spec(&b)) <==> (a == b)
    &&& forall|a: I, b: I| #[trigger] vstd::pervasive::strictly_cloned(a, b) ==> a == b
}

/// Returns a clone of `value`.
pub fn clone_value<T: Clone>(value: &T) -> (r: T)
    ensures
        vstd::pervasive::cloned(*value, r),
{
    Some(value).cloned().unwrap()
}

/// Returns a copy of the identifier `id`.
pub fn clone_id<I: PartialEq + Clone>(id: &I) -> (r: I)
    requires
        id_laws::<I>(),
    ensures
        r == *id,
{
    clone_value(id)
}

/// Whether `id` occurs in `ids`.
pub fn contains_id<I: PartialEq + Clone>(ids: &Vec<I>, id: &I) -> (r: bool)
    requires
        id_laws::<I>(),
    ensures
        r == ids@.contains(*id),
{
    let mut i: usize = 0;
    while i < ids.len()
        invariant
            id_laws::<I>(),
            i <= ids.len(),
            forall|j: int| 0 <= j < i ==> ids@[j] != *id,
        decreases ids.len() - i,
    {
        if ids[i] == *id {
            return true;
        }
        i = i + 1;
    }
    false
}

} // verus!
