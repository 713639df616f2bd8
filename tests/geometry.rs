use geo_field::centroid::{centroid, Centroid};
use geo_field::field::{floor_div, nearest_image};
use geo_field::geom::{distance_sq, vec2_is_wrong, wrap_coord, Vec2i, Vec2w, Viewport};
use geo_field::nearest::find_nearest;
use geo_field::point::{Colour, Point};

fn v(x: i32, y: i32) -> Vec2i {
    Vec2i::new(x, y)
}

fn viewport() -> Viewport {
    Viewport { left: -100, bottom: -50, right: 100, top: 50 }
}

#[test]
fn centroid_of_unit_square_is_its_middle() {
    let c = centroid(&vec![v(0, 0), v(1, 0), v(1, 1), v(0, 1)]).unwrap();
    assert_eq!(c, Centroid { x_num: 3, y_num: 3, den: 6 });
    // (0.5, 0.5)
    assert_eq!(c.x_num * 2, c.den);
    assert_eq!(c.y_num * 2, c.den);
}

#[test]
fn centroid_of_clockwise_square_has_positive_denominator() {
    let c = centroid(&vec![v(0, 0), v(0, 1), v(1, 1), v(1, 0)]).unwrap();
    assert_eq!(c, Centroid { x_num: 3, y_num: 3, den: 6 });
}

#[test]
fn centroid_of_offset_triangle() {
    // Triangle (0,0), (6,0), (0,6): centroid (2, 2).
    let c = centroid(&vec![v(0, 0), v(6, 0), v(0, 6)]).unwrap();
    assert!(c.den > 0);
    assert_eq!(c.x_num, 2 * c.den);
    assert_eq!(c.y_num, 2 * c.den);
}

#[test]
fn centroid_of_empty_polygon_is_absent() {
    assert_eq!(centroid(&vec![]), None);
}

#[test]
fn centroid_of_identical_points_is_absent() {
    assert_eq!(centroid(&vec![v(4, 7), v(4, 7), v(4, 7), v(4, 7)]), None);
    assert_eq!(centroid(&vec![v(4, 7)]), None);
}

#[test]
fn centroid_of_collinear_points_is_absent() {
    assert_eq!(centroid(&vec![v(0, 0), v(1, 1), v(2, 2), v(3, 3)]), None);
    assert_eq!(centroid(&vec![v(0, 0), v(5, 0)]), None);
}

#[test]
fn centroid_is_deterministic() {
    let poly = vec![v(-3, 1), v(8, -2), v(9, 9), v(-1, 6)];
    assert_eq!(centroid(&poly), centroid(&poly.clone()));
}

#[test]
fn distance_sq_is_exact() {
    assert_eq!(distance_sq(v(0, 0), v(3, 4)), 25);
    assert_eq!(distance_sq(v(i32::MIN, i32::MIN), v(i32::MAX, i32::MAX)), 2 * (u32::MAX as i128).pow(2));
}

#[test]
fn wrap_past_right_edge_lands_past_left_edge() {
    let vp = viewport();
    assert_eq!(wrap_coord(vp.right as i128 + 1, vp.left, vp.right), vp.left as i128 + 1);
    // the other axis is untouched
    assert_eq!(wrap_coord(10, vp.bottom, vp.top), 10);
}

#[test]
fn wrap_below_left_edge_lands_below_right_edge() {
    let vp = viewport();
    assert_eq!(wrap_coord(vp.left as i128 - 1, vp.left, vp.right), vp.right as i128 - 1);
    assert_eq!(wrap_coord(vp.top as i128 + 5, vp.bottom, vp.top), vp.bottom as i128 + 5);
    assert_eq!(wrap_coord(vp.right as i128, vp.left, vp.right), vp.right as i128);
}

#[test]
fn positions_outside_the_viewport_are_wrong() {
    let vp = viewport();
    assert!(!vec2_is_wrong(&Vec2w { x: 100, y: -50 }, &vp));
    assert!(vec2_is_wrong(&Vec2w { x: 101, y: 0 }, &vp));
    assert!(vec2_is_wrong(&Vec2w { x: 0, y: -51 }, &vp));
    let p = Point::new(1, v(0, 0), Colour { red: 0, green: 0, blue: 0 });
    assert!(!p.is_wrong(&vp));
    let q = Point::new(2, v(0, 60), Colour { red: 0, green: 0, blue: 0 });
    assert!(q.is_wrong(&vp));
}

#[test]
fn floor_div_rounds_down() {
    assert_eq!(floor_div(7, 2), 3);
    assert_eq!(floor_div(-7, 2), -4);
    assert_eq!(floor_div(-6, 2), -3);
    assert_eq!(floor_div(0, 5), 0);
    assert_eq!(floor_div(-1, 1000), -1);
}

#[test]
fn nearest_image_prefers_spawn_point() {
    let vp = viewport();
    assert_eq!(nearest_image(v(10, 10), v(0, 0), &vp), (0, 0));
}

#[test]
fn nearest_image_across_the_right_edge() {
    let vp = viewport();
    // Spawned near the left edge, now near the right edge: the copy one
    // width to the right is nearest.
    assert_eq!(nearest_image(v(95, 0), v(-95, 0), &vp), (105, 0));
    // Near the top-right corner: the diagonal copy.
    assert_eq!(nearest_image(v(95, 45), v(-95, -45), &vp), (105, 55));
    // Near the bottom edge, spawned near the top: one height down.
    assert_eq!(nearest_image(v(0, -45), v(0, 45), &vp), (0, -55));
}

#[test]
fn nearest_image_tie_goes_to_first_candidate() {
    let vp = viewport();
    // Exactly halfway between the spawn point (x = -100) and its copy one
    // width to the right (x = 100): the spawn point comes first.
    assert_eq!(nearest_image(v(0, 0), v(-100, 0), &vp), (-100, 0));
}

#[test]
fn find_nearest_picks_first_of_closest() {
    let others = vec![v(10, 0), v(3, 4), v(-4, 3), v(0, 5)];
    assert_eq!(find_nearest(v(0, 0), &others), Some(1));
    assert_eq!(find_nearest(v(10, 1), &others), Some(0));
    assert_eq!(find_nearest(v(0, 0), &vec![]), None);
}

#[test]
fn points_are_equal_by_identity() {
    let a = Point::new(9, v(0, 0), Colour { red: 0, green: 0, blue: 0 });
    let mut moved = a;
    moved.pos = v(50, -50);
    moved.colour = Colour { red: 9, green: 9, blue: 9 };
    assert!(a == moved);
    let other = Point::new(10, v(0, 0), Colour { red: 0, green: 0, blue: 0 });
    assert!(a != other);
}

#[test]
fn centroid_of_near_flat_sliver_is_absent() {
    // twice the area is 1 against an extent of 1_000_000
    assert_eq!(centroid(&vec![v(0, 0), v(1, 0), v(1_000_000, 1)]), None);
}

#[test]
fn centroid_of_thin_but_proper_triangle_is_present() {
    // twice the area is 1_000 * 2 against an extent of 1_000: well above the
    // sliver threshold
    let c = centroid(&vec![v(0, 0), v(1000, 0), v(0, 2)]).unwrap();
    assert!(c.den > 0);
    assert_eq!(c.x_num * 3, 1000 * c.den);
    assert_eq!(c.y_num * 3, 2 * c.den);
}
