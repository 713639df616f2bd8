//! The centroid of a polygon, from the signed-area (shoelace) formula,
//! computed exactly as a fraction.
use crate::geom::Vec2i;
use vstd::prelude::*;

verus! {

/// The longest polygon whose sums fit the 128-bit accumulators.
pub const MAX_POLYGON_LEN: usize = 0x4000_0000;

/// A centroid `(x_num / den, y_num / den)`, with `den > 0`.
#[derive(Clone, Copy, Debug, PartialEq, Eq, Structural)]
pub struct Centroid {
    pub x_num: i128,
    pub y_num: i128,
    pub den: i128,
}

/// Twice the signed area of the triangle (origin, p, q).
pub open spec fn cross(p: Vec2i, q: Vec2i) -> int {
    p.x * q.y - q.x * p.y
}

/// The vertex after vertex `i`; the polygon is closed.
pub open spec fn next_vertex(poly: Seq<Vec2i>, i: int) -> Vec2i {
    if i + 1 == poly.len() {
        poly[0]
    } else {
        poly[i + 1]
    }
}

/// Twice the signed area over the first `n` oriented edges.
pub open spec fn area2_upto(poly: Seq<Vec2i>, n: nat) -> int
    decreases n,
{
    if n == 0 {
        0
    } else {
        area2_upto(poly, (n - 1) as nat) + cross(poly[n - 1], next_vertex(poly, n - 1))
    }
}

/// Six times the area-weighted sum of x over the first `n` oriented edges.
pub open spec fn moment_x_upto(poly: Seq<Vec2i>, n: nat) -> int
    decreases n,
{
    if n == 0 {
        0
    } else {
        let (a, b) = (poly[n - 1], next_vertex(poly, n - 1));
        moment_x_upto(poly, (n - 1) as nat) + (a.x + b.x) * cross(a, b)
    }
}

/// Six times the area-weighted sum of y over the first `n` oriented edges.
pub open spec fn moment_y_upto(poly: Seq<Vec2i>, n: nat) -> int
    decreases n,
{
    if n == 0 {
        0
    } else {
        let (a, b) = (poly[n - 1], next_vertex(poly, n - 1));
        moment_y_upto(poly, (n - 1) as nat) + (a.y + b.y) * cross(a, b)
    }
}

/// Twice the signed area of the closed polygon.
pub open spec fn area2(poly: Seq<Vec2i>) -> int {
    area2_upto(poly, poly.len())
}

/// A polygon is a sliver, with no meaningful centroid, when twice its
/// area is at most the square of its extent divided by this ratio.
pub const SLIVER_RATIO: i128 = 1_000_000;

/// The least and greatest x over the first `n` vertices (`(0, 0)` for none).
pub open spec fn x_range(poly: Seq<Vec2i>, n: nat) -> (int, int)
    decreases n,
{
    if n == 0 {
        (0, 0)
    } else if n == 1 {
        (poly[0].x as int, poly[0].x as int)
    } else {
        let (lo, hi) = x_range(poly, (n - 1) as nat);
        let v = poly[n - 1].x as int;
        (if v < lo { v } else { lo }, if v > hi { v } else { hi })
    }
}

/// The least and greatest y over the first `n` vertices (`(0, 0)` for none).
pub open spec fn y_range(poly: Seq<Vec2i>, n: nat) -> (int, int)
    decreases n,
{
    if n == 0 {
        (0, 0)
    } else if n == 1 {
        (poly[0].y as int, poly[0].y as int)
    } else {
        let (lo, hi) = y_range(poly, (n - 1) as nat);
        let v = poly[n - 1].y as int;
        (if v < lo { v } else { lo }, if v > hi { v } else { hi })
    }
}

/// The longer side of the polygon's bounding box.
pub open spec fn extent_of(poly: Seq<Vec2i>) -> int {
    let (xl, xh) = x_range(poly, poly.len());
    let (yl, yh) = y_range(poly, poly.len());
    if xh - xl > yh - yl {
        xh - xl
    } else {
        yh - yl
    }
}

/// The polygon has no centroid: twice its signed area is zero or, against
/// the square of its extent, below `1 / SLIVER_RATIO` (an empty polygon, a
/// single point, collinear vertices, a near-flat sliver).
pub open spec fn is_degenerate(poly: Seq<Vec2i>) -> bool {
    let a = area2(poly);
    let e = extent_of(poly);
    (if a < 0 { -a } else { a }) * SLIVER_RATIO <= e * e
}

/// The centroid of `poly` as `(x_num, y_num, den)` with a positive
/// denominator, or `None` when the polygon is degenerate.
pub open spec fn centroid_of(poly: Seq<Vec2i>) -> Option<(int, int, int)> {
    let a = area2(poly);
    let mx = moment_x_upto(poly, poly.len());
    let my = moment_y_upto(poly, poly.len());
    if is_degenerate(poly) {
        None
    } else if a > 0 {
        Some((mx, my, 3 * a))
    } else {
        Some((-mx, -my, -3 * a))
    }
}

/// `r` is the centroid of `poly`, or absent exactly when it has none.
pub open spec fn matches_centroid(r: Option<Centroid>, poly: Seq<Vec2i>) -> bool {
    match r {
        None => centroid_of(poly).is_none(),
        Some(c) => centroid_of(poly) == Some((c.x_num as int, c.y_num as int, c.den as int)),
    }
}

proof fn lemma_cross_bound(a: Vec2i, b: Vec2i)
    ensures
        -0x4000_0000_0000_0000 <= a.x * b.y <= 0x4000_0000_0000_0000,
        -0x4000_0000_0000_0000 <= b.x * a.y <= 0x4000_0000_0000_0000,
        -0x8000_0000_0000_0000 <= cross(a, b) <= 0x8000_0000_0000_0000,
        -0x1_0000_0000 <= a.x + b.x <= 0x1_0000_0000,
        -0x1_0000_0000 <= a.y + b.y <= 0x1_0000_0000,
        -0x8000_0000_0000_0000_0000_0000 <= (a.x + b.x) * cross(a, b)
            <= 0x8000_0000_0000_0000_0000_0000,
        -0x8000_0000_0000_0000_0000_0000 <= (a.y + b.y) * cross(a, b)
            <= 0x8000_0000_0000_0000_0000_0000,
{
    let (ax, ay, bx, by) = (a.x as int, a.y as int, b.x as int, b.y as int);
    assert(-0x4000_0000_0000_0000 <= ax * by <= 0x4000_0000_0000_0000) by (nonlinear_arith)
        requires
            -0x8000_0000 <= ax <= 0x8000_0000,
            -0x8000_0000 <= by <= 0x8000_0000,
    ;
    assert(-0x4000_0000_0000_0000 <= bx * ay <= 0x4000_0000_0000_0000) by (nonlinear_arith)
        requires
            -0x8000_0000 <= bx <= 0x8000_0000,
            -0x8000_0000 <= ay <= 0x8000_0000,
    ;
    let c = cross(a, b);
    let sx = ax + bx;
    let sy = ay + by;
    assert(-0x8000_0000_0000_0000_0000_0000 <= sx * c <= 0x8000_0000_0000_0000_0000_0000)
        by (nonlinear_arith)
        requires
            -0x1_0000_0000 <= sx <= 0x1_0000_0000,
            -0x8000_0000_0000_0000 <= c <= 0x8000_0000_0000_0000,
    ;
    assert(-0x8000_0000_0000_0000_0000_0000 <= sy * c <= 0x8000_0000_0000_0000_0000_0000)
        by (nonlinear_arith)
        requires
            -0x1_0000_0000 <= sy <= 0x1_0000_0000,
            -0x8000_0000_0000_0000 <= c <= 0x8000_0000_0000_0000,
    ;
}

/// The longer side of the bounding box of `polygon`.
fn extent(polygon: &Vec<Vec2i>) -> (e: i128)
    ensures
        e == extent_of(polygon@),
        0 <= e <= 0xffff_ffff,
{
    let len = polygon.len();
    if len == 0 {
        return 0;
    }
    let mut xl: i32 = polygon[0].x;
    let mut xh: i32 = polygon[0].x;
    let mut yl: i32 = polygon[0].y;
    let mut yh: i32 = polygon[0].y;
    let mut i: usize = 1;
    while i < len
        invariant
            len == polygon.len(),
            1 <= i <= len,
            (xl as int, xh as int) == x_range(polygon@, i as nat),
            (yl as int, yh as int) == y_range(polygon@, i as nat),
            xl <= xh,
            yl <= yh,
        decreases len - i,
    {
        let p = polygon[i];
        if p.x < xl {
            xl = p.x;
        }
        if p.x > xh {
            xh = p.x;
        }
        if p.y < yl {
            yl = p.y;
        }
        if p.y > yh {
            yh = p.y;
        }
        i = i + 1;
    }
    let w = xh as i128 - xl as i128;
    let h = yh as i128 - yl as i128;
    if w > h {
        w
    } else {
        h
    }
}

/// The centroid of the closed polygon `polygon`, exactly; `None` when the
/// polygon is degenerate: its signed area is zero (no vertices, fewer than
/// three distinct ones, all on one line, or a shape whose oriented parts
/// cancel) or near zero, at most a millionth of the square of its extent
/// (a near-flat sliver).
pub fn centroid(polygon: &Vec<Vec2i>) -> (r: Option<Centroid>)
    requires
        polygon.len() <= MAX_POLYGON_LEN,
    ensures
        matches_centroid(r, polygon@),
        r.is_none() <==> is_degenerate(polygon@),
        r.is_some() ==> r.unwrap().den > 0,
        r.is_some() ==> r.unwrap().den <= 0x8000_0000_0000_0000_0000_0000,
        r.is_some() ==> -0x2000_0000_0000_0000_0000_0000_0000_0000 <= r.unwrap().x_num
            <= 0x2000_0000_0000_0000_0000_0000_0000_0000,
        r.is_some() ==> -0x2000_0000_0000_0000_0000_0000_0000_0000 <= r.unwrap().y_num
            <= 0x2000_0000_0000_0000_0000_0000_0000_0000,
{
    let len = polygon.len();
    let mut a: i128 = 0;
    let mut mx: i128 = 0;
    let mut my: i128 = 0;
    let mut i: usize = 0;
    while i < len
        invariant
            len == polygon.len(),
            len <= MAX_POLYGON_LEN,
            i <= len,
            a == area2_upto(polygon@, i as nat),
            mx == moment_x_upto(polygon@, i as nat),
            my == moment_y_upto(polygon@, i as nat),
            -(i as int) * 0x8000_0000_0000_0000 <= a <= (i as int) * 0x8000_0000_0000_0000,
            -(i as int) * 0x8000_0000_0000_0000_0000_0000 <= mx <= (i as int)
                * 0x8000_0000_0000_0000_0000_0000,
            -(i as int) * 0x8000_0000_0000_0000_0000_0000 <= my <= (i as int)
                * 0x8000_0000_0000_0000_0000_0000,
        decreases len - i,
    {
        let p = polygon[i];
        let q = if i + 1 == len {
            polygon[0]
        } else {
            polygon[i + 1]
        };
        proof {
            lemma_cross_bound(p, q);
        }
        let c = p.x as i128 * q.y as i128 - q.x as i128 * p.y as i128;
        a = a + c;
        mx = mx + (p.x as i128 + q.x as i128) * c;
        my = my + (p.y as i128 + q.y as i128) * c;
        i = i + 1;
    }
    assert(-0x4000_0000 * 0x8000_0000_0000_0000 <= a <= 0x4000_0000 * 0x8000_0000_0000_0000)
        by (nonlinear_arith)
        requires
            -(i as int) * 0x8000_0000_0000_0000 <= a <= (i as int) * 0x8000_0000_0000_0000,
            0 <= i <= 0x4000_0000,
    ;
    assert(-0x4000_0000 * 0x8000_0000_0000_0000_0000_0000 <= mx <= 0x4000_0000
        * 0x8000_0000_0000_0000_0000_0000) by (nonlinear_arith)
        requires
            -(i as int) * 0x8000_0000_0000_0000_0000_0000 <= mx <= (i as int)
                * 0x8000_0000_0000_0000_0000_0000,
            0 <= i <= 0x4000_0000,
    ;
    assert(-0x4000_0000 * 0x8000_0000_0000_0000_0000_0000 <= my <= 0x4000_0000
        * 0x8000_0000_0000_0000_0000_0000) by (nonlinear_arith)
        requires
            -(i as int) * 0x8000_0000_0000_0000_0000_0000 <= my <= (i as int)
                * 0x8000_0000_0000_0000_0000_0000,
            0 <= i <= 0x4000_0000,
    ;
    let e = extent(polygon);
    let abs_a: i128 = if a < 0 {
        -a
    } else {
        a
    };
    assert(0 <= e * e <= 0xffff_ffff * 0xffff_ffff) by (nonlinear_arith)
        requires
            0 <= e <= 0xffff_ffff,
    ;
    let d: i128 = 3 * a;
    if abs_a * SLIVER_RATIO <= e * e {
        None
    } else if a > 0 {
        Some(Centroid { x_num: mx, y_num: my, den: d })
    } else {
        Some(Centroid { x_num: -mx, y_num: -my, den: -d })
    }
}

proof fn lemma_area_all_same(poly: Seq<Vec2i>, n: nat)
    requires
        n <= poly.len(),
        forall|i: int| 0 <= i < poly.len() ==> #[trigger] poly[i] == poly[0],
    ensures
        area2_upto(poly, n) == 0,
    decreases n,
{
    if n > 0 {
        lemma_area_all_same(poly, (n - 1) as nat);
        let p = poly[0];
        assert(poly[n - 1] == p);
        assert(next_vertex(poly, n - 1) == p);
        assert(p.x * p.y - p.x * p.y == 0);
    }
}

/// A polygon with no vertices, or whose vertices all coincide, has no
/// centroid.
pub proof fn lemma_degenerate_has_no_centroid(poly: Seq<Vec2i>)
    requires
        forall|i: int| 0 <= i < poly.len() ==> #[trigger] poly[i] == poly[0],
    ensures
        centroid_of(poly).is_none(),
{
    lemma_area_all_same(poly, poly.len());
}

/// The centroid depends on the vertices alone: two results for one polygon
/// are equal.
pub proof fn lemma_centroid_deterministic(poly: Seq<Vec2i>, r1: Option<Centroid>, r2: Option<Centroid>)
    requires
        matches_centroid(r1, poly),
        matches_centroid(r2, poly),
    ensures
        r1 == r2,
{
}

} // verus!
