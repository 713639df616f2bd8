//! The simulated point: a stable identity, its positions and its colour.
use crate::geom::{Vec2i, Vec2l, Viewport};
use vstd::prelude::*;

verus! {

/// A display colour in linear RGB, each channel scaled to `0..=65535`.
/// The simulation never reads it; graph renderers blend it along edges.
#[derive(Clone, Copy, Debug, PartialEq, Eq, Structural)]
pub struct Colour {
    pub red: u16,
    pub green: u16,
    pub blue: u16,
}

/// A simulated point. Its identity is `id` alone: two values with one `id`
/// are the same point, wherever they stand.
#[derive(Clone, Copy, Debug)]
pub struct Point {
    pub pos: Vec2i,
    pub colour: Colour,
    pub id: u64,
    pub starting_location: Vec2i,
    pub last_pos: Vec2i,
    /// The velocity summed from all forces in the last step.
    pub moving_vec: Vec2l,
}

impl Point {
    /// A point at rest at `pos`, which is also where it spawned.
    pub fn new(id: u64, pos: Vec2i, colour: Colour) -> (p: Point)
        ensures
            p.id == id,
            p.pos == pos,
            p.colour == colour,
            p.starting_location == pos,
            p.last_pos == pos,
            p.moving_vec == (Vec2l { x: 0, y: 0 }),
    {
        Point { pos, colour, id, starting_location: pos, last_pos: pos, moving_vec: Vec2l { x: 0, y: 0 } }
    }

    /// Whether the point stands outside `viewport`, where no geometry query
    /// may take it (the integer form of a non-finite position).
    pub fn is_wrong(&self, viewport: &Viewport) -> (r: bool)
        ensures
            r == !viewport.holds(self.pos.x as int, self.pos.y as int),
    {
        !viewport.contains(self.pos)
    }
}

/// Points are equal when their identities are: position and colour change
/// while a point lives, its identity never does.
impl PartialEq for Point {
    fn eq(&self, other: &Point) -> (r: bool)
        ensures
            r == (self.id == other.id),
    {
        self.id == other.id
    }
}

impl Eq for Point {

}

impl vstd::std_specs::cmp::PartialEqSpecImpl for Point {
    open spec fn obeys_eq_spec() -> bool {
        true
    }

    open spec fn eq_spec(&self, other: &Point) -> bool {
        self.id == other.id
    }
}

} // verus!
