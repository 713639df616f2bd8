//! Fixed-point plane geometry: positions, rectangles and the toroidal wrap.
use vstd::prelude::*;

verus! {

/// A position in fixed-point units (the caller picks the scale).
#[derive(Clone, Copy, Debug, PartialEq, Eq, Structural)]
pub struct Vec2i {
    pub x: i32,
    pub y: i32,
}

/// A velocity or displacement in the same fixed-point units as `Vec2i`.
#[derive(Clone, Copy, Debug, PartialEq, Eq, Structural)]
pub struct Vec2l {
    pub x: i64,
    pub y: i64,
}

/// A position as integration produces it, before it is known to fit a
/// viewport.
#[derive(Clone, Copy, Debug, PartialEq, Eq, Structural)]
pub struct Vec2w {
    pub x: i128,
    pub y: i128,
}

impl Vec2i {
    pub fn new(x: i32, y: i32) -> (r: Vec2i)
        ensures
            r.x == x,
            r.y == y,
    {
        Vec2i { x, y }
    }
}

impl Vec2l {
    pub fn new(x: i64, y: i64) -> (r: Vec2l)
        ensures
            r.x == x,
            r.y == y,
    {
        Vec2l { x, y }
    }
}

/// The squared Euclidean distance between two positions.
pub open spec fn dist_sq(a: Vec2i, b: Vec2i) -> int {
    (a.x - b.x) * (a.x - b.x) + (a.y - b.y) * (a.y - b.y)
}

proof fn lemma_square_bound(d: int)
    requires
        -0x1_0000_0000 <= d <= 0x1_0000_0000,
    ensures
        0 <= d * d <= 0x1_0000_0000_0000_0000,
{
    assert(0 <= d * d <= 0x1_0000_0000_0000_0000) by (nonlinear_arith)
        requires
            -0x1_0000_0000 <= d <= 0x1_0000_0000,
    ;
}

/// The squared distance, computed exactly.
pub fn distance_sq(a: Vec2i, b: Vec2i) -> (r: i128)
    ensures
        r == dist_sq(a, b),
        0 <= r <= 0x2_0000_0000_0000_0000,
{
    let dx = a.x as i128 - b.x as i128;
    let dy = a.y as i128 - b.y as i128;
    proof {
        lemma_square_bound(dx as int);
        lemma_square_bound(dy as int);
    }
    dx * dx + dy * dy
}

/// An axis-aligned rectangle, both edges included.
#[derive(Clone, Copy, Debug, PartialEq, Eq, Structural)]
pub struct Viewport {
    pub left: i32,
    pub bottom: i32,
    pub right: i32,
    pub top: i32,
}

impl Viewport {
    /// A viewport has a positive extent on each axis.
    pub open spec fn wf(self) -> bool {
        self.left < self.right && self.bottom < self.top
    }

    pub open spec fn width(self) -> int {
        self.right - self.left
    }

    pub open spec fn height(self) -> int {
        self.top - self.bottom
    }

    pub open spec fn holds(self, x: int, y: int) -> bool {
        self.left <= x <= self.right && self.bottom <= y <= self.top
    }

    /// Whether `p` lies inside the viewport, edges included.
    pub fn contains(&self, p: Vec2i) -> (r: bool)
        ensures
            r == self.holds(p.x as int, p.y as int),
    {
        self.left <= p.x && p.x <= self.right && self.bottom <= p.y && p.y <= self.top
    }
}

/// Whether `pos` cannot stand as a point's position: it lies outside the
/// viewport on some axis. Integer coordinates are never non-finite; a
/// position the viewport cannot hold is the one that must be kept from any
/// geometry query instead.
pub fn vec2_is_wrong(pos: &Vec2w, viewport: &Viewport) -> (r: bool)
    ensures
        r == !viewport.holds(pos.x as int, pos.y as int),
{
    !(viewport.left as i128 <= pos.x && pos.x <= viewport.right as i128 && viewport.bottom as i128
        <= pos.y && pos.y <= viewport.top as i128)
}

/// One wrap correction on one axis: a coordinate below `lo` moves up by the
/// extent `hi - lo`, one above `hi` moves down by it, others stay.
pub open spec fn wrap_axis(v: int, lo: int, hi: int) -> int {
    if v < lo {
        v + (hi - lo)
    } else if v > hi {
        v - (hi - lo)
    } else {
        v
    }
}

/// `wrap_axis` on machine integers.
pub fn wrap_coord(v: i128, lo: i32, hi: i32) -> (r: i128)
    requires
        lo < hi,
        -0x1000_0000_0000_0000_0000_0000_0000_0000 <= v <= 0x1000_0000_0000_0000_0000_0000_0000_0000,
    ensures
        r == wrap_axis(v as int, lo as int, hi as int),
{
    let extent = hi as i128 - lo as i128;
    if v < lo as i128 {
        v + extent
    } else if v > hi as i128 {
        v - extent
    } else {
        v
    }
}

/// A point one unit past the right edge comes back one unit past the left
/// edge, at the same height.
pub proof fn lemma_wrap_past_right(viewport: Viewport, y: int)
    requires
        viewport.wf(),
    ensures
        wrap_axis(viewport.right + 1, viewport.left as int, viewport.right as int) == viewport.left
            + 1,
        wrap_axis(viewport.right + 1, viewport.left as int, viewport.right as int) - (
        viewport.right + 1) == -viewport.width(),
        viewport.bottom <= y <= viewport.top ==> wrap_axis(
            y,
            viewport.bottom as int,
            viewport.top as int,
        ) == y,
{
}

} // verus!
