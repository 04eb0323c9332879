//! The subsets of a list of places.
use itertools::Itertools;
use vstd::prelude::*;

verus! {

/// A choice of some of the places `0, 1, ..., n - 1`, each at most once, in
/// ascending order.
pub open spec fn is_choice(places: Seq<usize>, n: int) -> bool {
    &&& forall|i: int| 0 <= i < places.len() ==> (#[trigger] places[i] as int) < n
    &&& forall|i: int, j: int| 0 <= i < j < places.len() ==> places[i] < places[j]
}

/// The list holds every choice of places below `n` exactly once, and
/// nothing else.
pub open spec fn lists_all_choices(list: Seq<Seq<usize>>, n: int) -> bool {
    &&& forall|k: int| 0 <= k < list.len() ==> is_choice(#[trigger] list[k], n)
    &&& forall|choice: Seq<usize>|
        is_choice(choice, n) ==> exists|k: int| 0 <= k < list.len() && #[trigger] list[k] == choice
    &&& forall|k: int, m: int| 0 <= k < m < list.len() ==> list[k] != list[m]
}

/// The views of a list of lists.
pub open spec fn deep(list: Seq<Vec<usize>>) -> Seq<Seq<usize>> {
    Seq::new(list.len(), |k: int| list[k]@)
}

/// Calls `Itertools::powerset` of `itertools` on the range `0..n` and
/// collects what it yields: every subset of the places below `n`, each
/// once, the places of a subset in ascending order.
#[verifier::external_body]
pub(crate) fn index_subsets(n: usize) -> (r: Vec<Vec<usize>>)
    ensures
        lists_all_choices(deep(r@), n as int),
{
    (0..n).powerset().collect()
}

} // verus!
