//! Nearest-point lookup.
use crate::geom::{dist_sq, distance_sq, Vec2i};
use vstd::prelude::*;

verus! {

/// `k` is the first index of `others` at the least distance from `current`.
pub open spec fn is_first_nearest(current: Vec2i, others: Seq<Vec2i>, k: int) -> bool {
    &&& 0 <= k < others.len()
    &&& forall|j: int|
        0 <= j < others.len() ==> dist_sq(current, others[k]) <= dist_sq(current, #[trigger] others[j])
    &&& forall|j: int|
        0 <= j < k ==> dist_sq(current, #[trigger] others[j]) > dist_sq(current, others[k])
}

/// The index of the point of `others` nearest to `current`, the first one
/// on a tie; `None` when `others` is empty.
pub fn find_nearest(current: Vec2i, others: &Vec<Vec2i>) -> (r: Option<usize>)
    ensures
        others.len() == 0 <==> r.is_none(),
        r.is_some() ==> is_first_nearest(current, others@, r.unwrap() as int),
{
    if others.len() == 0 {
        return None;
    }
    let mut best: usize = 0;
    let mut best_d = distance_sq(current, others[0]);
    let mut k: usize = 1;
    while k < others.len()
        invariant
            1 <= k <= others.len(),
            best < k,
            best_d == dist_sq(current, others@[best as int]),
            forall|j: int| 0 <= j < k ==> best_d <= dist_sq(current, #[trigger] others@[j]),
            forall|j: int| 0 <= j < best ==> dist_sq(current, #[trigger] others@[j]) > best_d,
        decreases others.len() - k,
    {
        let d = distance_sq(current, others[k]);
        if d < best_d {
            best = k;
            best_d = d;
        }
        k = k + 1;
    }
    Some(best)
}

} // verus!
