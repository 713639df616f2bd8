//! Edges of a triangulation, as the graph analytics take them.
use crate::point::Point;
use vstd::prelude::*;

verus! {

/// The three sides of every triangle, in order: `(p0, p1)`, `(p1, p2)`,
/// `(p2, p0)`.
pub fn triangle_edges(triangles: &Vec<(Point, Point, Point)>) -> (r: Vec<(Point, Point)>)
    ensures
        r.len() == 3 * triangles.len(),
        forall|i: int|
            0 <= i < triangles.len() ==> {
                let (p0, p1, p2) = #[trigger] triangles@[i];
                &&& r@[3 * i] == (p0, p1)
                &&& r@[3 * i + 1] == (p1, p2)
                &&& r@[3 * i + 2] == (p2, p0)
            },
{
    let mut r: Vec<(Point, Point)> = Vec::new();
    let mut i: usize = 0;
    while i < triangles.len()
        invariant
            i <= triangles.len(),
            r.len() == 3 * i,
            forall|j: int|
                0 <= j < i ==> {
                    let (p0, p1, p2) = #[trigger] triangles@[j];
                    &&& r@[3 * j] == (p0, p1)
                    &&& r@[3 * j + 1] == (p1, p2)
                    &&& r@[3 * j + 2] == (p2, p0)
                },
        decreases triangles.len() - i,
    {
        let (p0, p1, p2) = triangles[i];
        r.push((p0, p1));
        r.push((p1, p2));
        r.push((p2, p0));
        i = i + 1;
    }
    r
}

} // verus!
