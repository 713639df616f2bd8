//! One simulation step of the point field: centroid relaxation, the periodic
//! pull home, outside pushes, integration and the toroidal wrap.
use crate::centroid::{centroid, centroid_of, MAX_POLYGON_LEN};
use crate::geom::{
    dist_sq, distance_sq, vec2_is_wrong, wrap_axis, wrap_coord, Vec2i, Vec2l, Vec2w, Viewport,
};
use crate::point::Point;
use vstd::arithmetic::div_mod::{
    lemma_fundamental_div_mod, lemma_fundamental_div_mod_converse, lemma_mod_pos_bound,
};
use vstd::prelude::*;

verus! {

/// How far from the origin a relaxation target may lie; farther centroids
/// (of self-crossing cells) are clamped to it.
pub const TARGET_LIMIT: i128 = 0x100_0000_0000;

/// The unit of a gain: a gain of `GAIN_ONE` is a factor of one.
pub const GAIN_ONE: i128 = 1000;

/// The unit of a time step: `FRAME_ONE` is one reference frame.
pub const FRAME_ONE: i128 = 1_000_000;

/// What one step applies, as fixed-point factors.
#[derive(Clone, Copy, Debug, PartialEq, Eq, Structural)]
pub struct StepParams {
    /// Centroid relaxation strength times the global speed, in thousandths;
    /// `None` turns the force off.
    pub centroid_gain: Option<u32>,
    /// The pull-home pulse times the global speed, in thousandths; `None`
    /// turns the force off.
    pub restore_gain: Option<u32>,
    /// The time since the last step, in millionths of a reference frame.
    pub dt: u32,
}

/// Floor division by a positive divisor.
pub fn floor_div(n: i128, d: i128) -> (q: i128)
    requires
        d > 0,
        d < 0x4000_0000_0000_0000_0000_0000_0000_0000,
        -0x4000_0000_0000_0000_0000_0000_0000_0000 < n,
    ensures
        q == n / d,
        q * d <= n < q * d + d,
{
    if n >= 0 {
        let q = n / d;
        proof {
            lemma_fundamental_div_mod(n as int, d as int);
            lemma_mod_pos_bound(n as int, d as int);
            assert(q * d == d * q) by (nonlinear_arith);
        }
        q
    } else {
        let m = -n + d - 1;
        let t = m / d;
        proof {
            let r = m % d;
            lemma_fundamental_div_mod(m as int, d as int);
            lemma_mod_pos_bound(m as int, d as int);
            assert(t * d == d * t) by (nonlinear_arith);
            assert(m == t * d + r);
            let rr = d - 1 - r;
            assert(n == (-t) * d + rr) by (nonlinear_arith)
                requires
                    m == -n + d - 1,
                    m == t * d + r,
                    rr == d - 1 - r,
            ;
            lemma_fundamental_div_mod_converse(n as int, d as int, -t, rr as int);
        }
        -t
    }
}

pub open spec fn clamp(x: int, lo: int, hi: int) -> int {
    if x < lo {
        lo
    } else if x > hi {
        hi
    } else {
        x
    }
}

/// The i-th of the nine candidate homes: the spawn point itself, then its
/// toroidal copies, in a fixed order.
pub open spec fn image_offset(k: int) -> (int, int) {
    if k == 0 {
        (0, 0)
    } else if k == 1 {
        (1, 1)
    } else if k == 2 {
        (1, -1)
    } else if k == 3 {
        (1, 0)
    } else if k == 4 {
        (0, 1)
    } else if k == 5 {
        (-1, 1)
    } else if k == 6 {
        (-1, -1)
    } else if k == 7 {
        (-1, 0)
    } else {
        (0, -1)
    }
}

pub open spec fn image_at(spawn: Vec2i, w: int, h: int, k: int) -> (int, int) {
    (spawn.x + image_offset(k).0 * w, spawn.y + image_offset(k).1 * h)
}

pub open spec fn image_dist(pos: Vec2i, spawn: Vec2i, w: int, h: int, k: int) -> int {
    let (x, y) = image_at(spawn, w, h, k);
    (x - pos.x) * (x - pos.x) + (y - pos.y) * (y - pos.y)
}

/// `k` is the first of the nine candidates nearest to `pos`.
pub open spec fn is_nearest_image(pos: Vec2i, spawn: Vec2i, w: int, h: int, k: int) -> bool {
    &&& 0 <= k < 9
    &&& forall|j: int| 0 <= j < 9 ==> image_dist(pos, spawn, w, h, k) <= image_dist(pos, spawn, w, h, j)
    &&& forall|j: int| 0 <= j < k ==> image_dist(pos, spawn, w, h, j) > image_dist(pos, spawn, w, h, k)
}

/// The index of the first nearest candidate home.
pub open spec fn nearest_index(pos: Vec2i, spawn: Vec2i, w: int, h: int) -> int {
    choose|k: int| is_nearest_image(pos, spawn, w, h, k)
}

proof fn lemma_nearest_unique(pos: Vec2i, spawn: Vec2i, w: int, h: int, k: int)
    requires
        is_nearest_image(pos, spawn, w, h, k),
    ensures
        nearest_index(pos, spawn, w, h) == k,
{
    let c = nearest_index(pos, spawn, w, h);
    assert(is_nearest_image(pos, spawn, w, h, c));
    if c < k {
        assert(image_dist(pos, spawn, w, h, c) > image_dist(pos, spawn, w, h, k));
    } else if c > k {
        assert(image_dist(pos, spawn, w, h, k) > image_dist(pos, spawn, w, h, c));
    }
}

proof fn lemma_image_dist_bound(pos: Vec2i, spawn: Vec2i, w: int, h: int, k: int)
    requires
        0 < w <= 0x1_0000_0000,
        0 < h <= 0x1_0000_0000,
        0 <= k < 9,
    ensures
        0 <= image_dist(pos, spawn, w, h, k) <= 0x80_0000_0000_0000_0000,
        -0x2_0000_0000 <= image_at(spawn, w, h, k).0 <= 0x2_0000_0000,
        -0x2_0000_0000 <= image_at(spawn, w, h, k).1 <= 0x2_0000_0000,
        -0x4_0000_0000 <= image_at(spawn, w, h, k).0 - pos.x <= 0x4_0000_0000,
        -0x4_0000_0000 <= image_at(spawn, w, h, k).1 - pos.y <= 0x4_0000_0000,
        (image_at(spawn, w, h, k).0 - pos.x) * (image_at(spawn, w, h, k).0 - pos.x)
            <= 0x10_0000_0000_0000_0000,
        (image_at(spawn, w, h, k).1 - pos.y) * (image_at(spawn, w, h, k).1 - pos.y)
            <= 0x10_0000_0000_0000_0000,
{
    let (ox, oy) = image_offset(k);
    assert(-1 <= ox <= 1 && -1 <= oy <= 1);
    assert(-w <= ox * w <= w) by (nonlinear_arith)
        requires
            -1 <= ox <= 1,
            0 < w,
    ;
    assert(-h <= oy * h <= h) by (nonlinear_arith)
        requires
            -1 <= oy <= 1,
            0 < h,
    ;
    let (x, y) = image_at(spawn, w, h, k);
    let dx = x - pos.x;
    let dy = y - pos.y;
    assert(-0x4_0000_0000 <= dx <= 0x4_0000_0000);
    assert(-0x4_0000_0000 <= dy <= 0x4_0000_0000);
    assert(0 <= dx * dx <= 0x10_0000_0000_0000_0000) by (nonlinear_arith)
        requires
            -0x4_0000_0000 <= dx <= 0x4_0000_0000,
    ;
    assert(0 <= dy * dy <= 0x10_0000_0000_0000_0000) by (nonlinear_arith)
        requires
            -0x4_0000_0000 <= dy <= 0x4_0000_0000,
    ;
}

/// The nearest of the nine candidate homes of `spawn` (itself and its
/// copies one viewport width and/or height away); the first in the fixed
/// order wins a tie.
pub fn nearest_image(pos: Vec2i, spawn: Vec2i, viewport: &Viewport) -> (r: (i64, i64))
    requires
        viewport.wf(),
    ensures
        (r.0 as int, r.1 as int) == image_at(
            spawn,
            viewport.width(),
            viewport.height(),
            nearest_index(pos, spawn, viewport.width(), viewport.height()),
        ),
        -0x2_0000_0000 <= r.0 <= 0x2_0000_0000,
        -0x2_0000_0000 <= r.1 <= 0x2_0000_0000,
{
    let w = viewport.right as i64 - viewport.left as i64;
    let h = viewport.top as i64 - viewport.bottom as i64;
    let dxs: [i64; 9] = [0, 1, 1, 1, 0, -1, -1, -1, 0];
    let dys: [i64; 9] = [0, 1, -1, 0, 1, 1, -1, 0, -1];
    let ghost (wi, hi) = (w as int, h as int);
    let mut best: usize = 0;
    let mut best_d: i128 = distance_sq(pos, spawn);
    proof {
        let (px, py, sx, sy) = (pos.x as int, pos.y as int, spawn.x as int, spawn.y as int);
        assert((px - sx) * (px - sx) + (py - sy) * (py - sy) == (sx - px) * (sx - px) + (sy - py)
            * (sy - py)) by (nonlinear_arith);
        assert(image_offset(0) == (0int, 0int));
        assert(0 * wi == 0 && 0 * hi == 0);
        assert(image_at(spawn, wi, hi, 0) == (sx, sy));
        assert(dist_sq(pos, spawn) == image_dist(pos, spawn, wi, hi, 0));
    }
    let mut k: usize = 1;
    while k < 9
        invariant
            1 <= k <= 9,
            wi == viewport.width(),
            hi == viewport.height(),
            w == wi,
            h == hi,
            0 < wi <= 0x1_0000_0000,
            0 < hi <= 0x1_0000_0000,
            forall|j: int| 0 <= j < 9 ==> (#[trigger] dxs@[j] as int, dys@[j] as int) == image_offset(j),
            0 <= best < k,
            best_d == image_dist(pos, spawn, wi, hi, best as int),
            forall|j: int| 0 <= j < k ==> best_d <= image_dist(pos, spawn, wi, hi, j),
            forall|j: int| 0 <= j < best ==> image_dist(pos, spawn, wi, hi, j) > best_d,
        decreases 9 - k,
    {
        proof {
            lemma_image_dist_bound(pos, spawn, wi, hi, k as int);
            assert((dxs@[k as int] as int, dys@[k as int] as int) == image_offset(k as int));
        }
        let x = spawn.x as i128 + dxs[k] as i128 * w as i128 - pos.x as i128;
        let y = spawn.y as i128 + dys[k] as i128 * h as i128 - pos.y as i128;
        assert(x == image_at(spawn, wi, hi, k as int).0 - pos.x);
        assert(y == image_at(spawn, wi, hi, k as int).1 - pos.y);
        let d = x * x + y * y;
        if d < best_d {
            best = k;
            best_d = d;
        }
        k = k + 1;
    }
    proof {
        lemma_image_dist_bound(pos, spawn, wi, hi, best as int);
        assert((dxs@[best as int] as int, dys@[best as int] as int) == image_offset(best as int));
        assert(is_nearest_image(pos, spawn, wi, hi, best as int));
        lemma_nearest_unique(pos, spawn, wi, hi, best as int);
    }
    (spawn.x as i64 + dxs[best] * w, spawn.y as i64 + dys[best] * h)
}

proof fn lemma_mul_bound(a: int, g: int, bound: int)
    requires
        -bound <= a <= bound,
        0 <= g <= 0xffff_ffff,
    ensures
        -bound * 0xffff_ffff <= a * g <= bound * 0xffff_ffff,
{
    assert(-bound * 0xffff_ffff <= a * g <= bound * 0xffff_ffff) by (nonlinear_arith)
        requires
            -bound <= a <= bound,
            0 <= g <= 0xffff_ffff,
    ;
}

/// The velocity toward a cell's centroid: the offset to the centroid
/// (rounded down, clamped to `TARGET_LIMIT`) times the gain and 1/20.
pub open spec fn centroid_pull(pos: Vec2i, c: Option<(int, int, int)>, gain: Option<u32>) -> (int, int) {
    match (c, gain) {
        (Some((xn, yn, d)), Some(g)) => (
            ((clamp(xn / d, -(TARGET_LIMIT as int), TARGET_LIMIT as int) - pos.x) * g) / (20 * GAIN_ONE as int),
            ((clamp(yn / d, -(TARGET_LIMIT as int), TARGET_LIMIT as int) - pos.y) * g) / (20 * GAIN_ONE as int),
        ),
        _ => (0, 0),
    }
}

/// The velocity toward the nearest candidate home: the offset times the
/// gain and 1/100.
pub open spec fn restore_pull(pos: Vec2i, spawn: Vec2i, viewport: Viewport, gain: Option<u32>) -> (
    int,
    int,
) {
    match gain {
        Some(g) => {
            let (w, h) = (viewport.width(), viewport.height());
            let (x, y) = image_at(spawn, w, h, nearest_index(pos, spawn, w, h));
            (((x - pos.x) * g) / (100 * GAIN_ONE as int), ((y - pos.y) * g) / (100 * GAIN_ONE as int))
        },
        None => (0, 0),
    }
}

/// The sum of every force on a point for one step.
pub open spec fn velocity(
    p: Point,
    cell: Seq<Vec2i>,
    push: Vec2i,
    params: StepParams,
    viewport: Viewport,
) -> (int, int) {
    let c = centroid_pull(p.pos, centroid_of(cell), params.centroid_gain);
    let r = restore_pull(p.pos, p.starting_location, viewport, params.restore_gain);
    (c.0 + r.0 + push.x, c.1 + r.1 + push.y)
}

/// Where a point moving at `v` for `dt` lands on one axis, before the wrap.
pub open spec fn integrate(x: int, v: int, dt: int) -> int {
    x + (v * dt) / (FRAME_ONE as int)
}

/// The point after one step: it moves by its velocity times the time step
/// and is wrapped once on each axis; a move that still ends outside the
/// viewport is dropped and the point stays where it was.
pub open spec fn stepped(
    p: Point,
    cell: Seq<Vec2i>,
    push: Vec2i,
    params: StepParams,
    viewport: Viewport,
) -> Point {
    let v = velocity(p, cell, push, params, viewport);
    let x = wrap_axis(integrate(p.pos.x as int, v.0, params.dt as int), viewport.left as int, viewport.right as int);
    let y = wrap_axis(integrate(p.pos.y as int, v.1, params.dt as int), viewport.bottom as int, viewport.top as int);
    let pos = if viewport.holds(x, y) {
        Vec2i { x: x as i32, y: y as i32 }
    } else {
        p.pos
    };
    Point { pos, last_pos: p.pos, moving_vec: Vec2l { x: v.0 as i64, y: v.1 as i64 }, ..p }
}

/// The cell of point `i`; a point without one has an empty cell.
pub open spec fn cell_at(cells: Seq<Vec<Vec2i>>, i: int) -> Seq<Vec2i> {
    if i < cells.len() {
        cells[i]@
    } else {
        Seq::empty()
    }
}

/// The outside push on point `i`; none where the list ends.
pub open spec fn push_at(pushes: Seq<Vec2i>, i: int) -> Vec2i {
    if i < pushes.len() {
        pushes[i]
    } else {
        Vec2i { x: 0, y: 0 }
    }
}

fn clamp_target(v: i128) -> (r: i128)
    ensures
        r == clamp(v as int, -(TARGET_LIMIT as int), TARGET_LIMIT as int),
{
    if v < -TARGET_LIMIT {
        -TARGET_LIMIT
    } else if v > TARGET_LIMIT {
        TARGET_LIMIT
    } else {
        v
    }
}

/// The centroid force on a point at `pos` whose cell is `cell`.
fn centroid_force(pos: Vec2i, cell: &Vec<Vec2i>, gain: Option<u32>) -> (r: (i64, i64))
    requires
        cell.len() <= MAX_POLYGON_LEN,
    ensures
        (r.0 as int, r.1 as int) == centroid_pull(pos, centroid_of(cell@), gain),
        -0x0800_0000_0000_0000 <= r.0 <= 0x0800_0000_0000_0000,
        -0x0800_0000_0000_0000 <= r.1 <= 0x0800_0000_0000_0000,
{
    let g = match gain {
        Some(g) => g,
        None => {
            return (0, 0);
        },
    };
    let c = match centroid(cell) {
        Some(c) => c,
        None => {
            return (0, 0);
        },
    };
    let cx = clamp_target(floor_div(c.x_num, c.den));
    let cy = clamp_target(floor_div(c.y_num, c.den));
    let ox = cx - pos.x as i128;
    let oy = cy - pos.y as i128;
    proof {
        lemma_mul_bound(ox as int, g as int, 0x200_0000_0000);
        lemma_mul_bound(oy as int, g as int, 0x200_0000_0000);
    }
    let fx = floor_div(ox * g as i128, 20 * GAIN_ONE);
    let fy = floor_div(oy * g as i128, 20 * GAIN_ONE);
    (fx as i64, fy as i64)
}

/// The pull-home force on a point at `pos` that spawned at `spawn`.
fn restore_force(pos: Vec2i, spawn: Vec2i, viewport: &Viewport, gain: Option<u32>) -> (r: (i64, i64))
    requires
        viewport.wf(),
    ensures
        (r.0 as int, r.1 as int) == restore_pull(pos, spawn, *viewport, gain),
        -0x0010_0000_0000_0000 <= r.0 <= 0x0010_0000_0000_0000,
        -0x0010_0000_0000_0000 <= r.1 <= 0x0010_0000_0000_0000,
{
    let g = match gain {
        Some(g) => g,
        None => {
            return (0, 0);
        },
    };
    let (x, y) = nearest_image(pos, spawn, viewport);
    let ox = x as i128 - pos.x as i128;
    let oy = y as i128 - pos.y as i128;
    proof {
        lemma_mul_bound(ox as int, g as int, 0x4_0000_0000);
        lemma_mul_bound(oy as int, g as int, 0x4_0000_0000);
    }
    let fx = floor_div(ox * g as i128, 100 * GAIN_ONE);
    let fy = floor_div(oy * g as i128, 100 * GAIN_ONE);
    (fx as i64, fy as i64)
}

/// Advances every point by one step: sums the centroid force (from cell
/// `i` of `cells`), the pull home and the outside push `pushes[i]`, moves
/// the point by that velocity times the time step, and wraps it once on
/// each axis. The number of points and every identity stay the same.
pub fn step_points(
    points: &mut Vec<Point>,
    cells: &Vec<Vec<Vec2i>>,
    pushes: &Vec<Vec2i>,
    params: &StepParams,
    viewport: &Viewport,
)
    requires
        viewport.wf(),
        forall|i: int| 0 <= i < cells.len() ==> #[trigger] cells@[i].len() <= MAX_POLYGON_LEN,
    ensures
        final(points).len() == old(points).len(),
        forall|i: int|
            0 <= i < old(points).len() ==> #[trigger] final(points)@[i] == stepped(
                old(points)@[i],
                cell_at(cells@, i),
                push_at(pushes@, i),
                *params,
                *viewport,
            ),
{
    let n = points.len();
    let ghost start = points@;
    let mut i: usize = 0;
    while i < n
        invariant
            n == points.len(),
            start.len() == n,
            viewport.wf(),
            forall|j: int| 0 <= j < cells.len() ==> #[trigger] cells@[j].len() <= MAX_POLYGON_LEN,
            forall|j: int| i <= j < n ==> #[trigger] points@[j] == start[j],
            forall|j: int|
                0 <= j < i ==> #[trigger] points@[j] == stepped(
                    start[j],
                    cell_at(cells@, j),
                    push_at(pushes@, j),
                    *params,
                    *viewport,
                ),
        decreases n - i,
    {
        let p = points[i];
        let (cx, cy) = if i < cells.len() {
            centroid_force(p.pos, &cells[i], params.centroid_gain)
        } else {
            proof {
                assert(centroid_of(Seq::<Vec2i>::empty()).is_none());
            }
            (0, 0)
        };
        let (rx, ry) = restore_force(p.pos, p.starting_location, viewport, params.restore_gain);
        let push = if i < pushes.len() {
            pushes[i]
        } else {
            Vec2i { x: 0, y: 0 }
        };
        let vx = cx + rx + push.x as i64;
        let vy = cy + ry + push.y as i64;
        proof {
            lemma_mul_bound(vx as int, params.dt as int, 0x1000_0000_0000_0000);
            lemma_mul_bound(vy as int, params.dt as int, 0x1000_0000_0000_0000);
        }
        let mx = floor_div(vx as i128 * params.dt as i128, FRAME_ONE);
        let my = floor_div(vy as i128 * params.dt as i128, FRAME_ONE);
        let x = wrap_coord(p.pos.x as i128 + mx, viewport.left, viewport.right);
        let y = wrap_coord(p.pos.y as i128 + my, viewport.bottom, viewport.top);
        let pos = if vec2_is_wrong(&Vec2w { x, y }, viewport) {
            p.pos
        } else {
            Vec2i { x: x as i32, y: y as i32 }
        };
        let next = Point { pos, last_pos: p.pos, moving_vec: Vec2l { x: vx, y: vy }, ..p };
        proof {
            assert(next == stepped(p, cell_at(cells@, i as int), push_at(pushes@, i as int), *params, *viewport));
        }
        points.set(i, next);
        i = i + 1;
    }
}

/// One step depends on its inputs alone: from equal points, cells, pushes,
/// parameters and viewport, two steps give equal points.
pub proof fn lemma_step_deterministic(
    before: Seq<Point>,
    cells: Seq<Vec<Vec2i>>,
    pushes: Seq<Vec2i>,
    params: StepParams,
    viewport: Viewport,
    r1: Seq<Point>,
    r2: Seq<Point>,
)
    requires
        r1.len() == before.len(),
        r2.len() == before.len(),
        forall|i: int|
            0 <= i < before.len() ==> #[trigger] r1[i] == stepped(
                before[i],
                cell_at(cells, i),
                push_at(pushes, i),
                params,
                viewport,
            ),
        forall|i: int|
            0 <= i < before.len() ==> #[trigger] r2[i] == stepped(
                before[i],
                cell_at(cells, i),
                push_at(pushes, i),
                params,
                viewport,
            ),
    ensures
        r1 == r2,
{
    assert(r1 =~= r2);
}

/// A step keeps every point's identity, colour and spawn point.
pub proof fn lemma_step_keeps_identity(
    p: Point,
    cell: Seq<Vec2i>,
    push: Vec2i,
    params: StepParams,
    viewport: Viewport,
)
    ensures
        stepped(p, cell, push, params, viewport).id == p.id,
        stepped(p, cell, push, params, viewport).colour == p.colour,
        stepped(p, cell, push, params, viewport).starting_location == p.starting_location,
        stepped(p, cell, push, params, viewport).last_pos == p.pos,
{
}

/// A point inside the viewport stays inside it: a wrapped move that lands
/// inside is taken, any other is dropped.
pub proof fn lemma_step_stays_inside(
    p: Point,
    cell: Seq<Vec2i>,
    push: Vec2i,
    params: StepParams,
    viewport: Viewport,
)
    requires
        viewport.holds(p.pos.x as int, p.pos.y as int),
    ensures
        viewport.holds(
            stepped(p, cell, push, params, viewport).pos.x as int,
            stepped(p, cell, push, params, viewport).pos.y as int,
        ),
{
}

} // verus!
