use geo_field::field::{step_points, StepParams, FRAME_ONE};
use geo_field::geom::{Vec2i, Vec2l, Viewport};
use geo_field::point::{Colour, Point};

const GREY: Colour = Colour { red: 100, green: 100, blue: 100 };

fn v(x: i32, y: i32) -> Vec2i {
    Vec2i::new(x, y)
}

fn viewport() -> Viewport {
    Viewport { left: -1000, bottom: -500, right: 1000, top: 500 }
}

fn idle() -> StepParams {
    StepParams { centroid_gain: None, restore_gain: None, dt: FRAME_ONE as u32 }
}

#[test]
fn step_without_forces_keeps_points() {
    let mut pts = vec![Point::new(7, v(10, 20), GREY), Point::new(8, v(-30, 40), GREY)];
    step_points(&mut pts, &vec![], &vec![], &idle(), &viewport());
    assert_eq!(pts.len(), 2);
    assert_eq!(pts[0].pos, v(10, 20));
    assert_eq!(pts[0].last_pos, v(10, 20));
    assert_eq!(pts[1].pos, v(-30, 40));
    assert_eq!(pts[0].id, 7);
    assert_eq!(pts[1].id, 8);
}

#[test]
fn step_applies_push_times_time_step() {
    let mut pts = vec![Point::new(1, v(0, 0), GREY)];
    let params = StepParams { centroid_gain: None, restore_gain: None, dt: (FRAME_ONE / 2) as u32 };
    step_points(&mut pts, &vec![], &vec![v(40, -21)], &params, &viewport());
    assert_eq!(pts[0].moving_vec, Vec2l::new(40, -21));
    // half a frame: 20 and -10.5 rounded down
    assert_eq!(pts[0].pos, v(20, -11));
    assert_eq!(pts[0].last_pos, v(0, 0));
    assert_eq!(pts[0].starting_location, v(0, 0));
}

#[test]
fn step_wraps_past_right_edge() {
    let mut pts = vec![Point::new(1, v(1000, 7), GREY)];
    step_points(&mut pts, &vec![], &vec![v(1, 0)], &idle(), &viewport());
    // one past the right edge lands one past the left edge
    assert_eq!(pts[0].pos, v(-999, 7));
}

#[test]
fn step_drops_a_move_that_cannot_be_wrapped_in() {
    let mut pts = vec![Point::new(1, v(0, 0), GREY)];
    step_points(&mut pts, &vec![], &vec![v(5000, 3)], &idle(), &viewport());
    assert_eq!(pts[0].pos, v(0, 0));
    assert_eq!(pts[0].moving_vec, Vec2l::new(5000, 3));
}

#[test]
fn step_pulls_toward_cell_centroid() {
    // the cell is the square (0,0)-(400,400); its centroid is (200, 200)
    let cell = vec![v(0, 0), v(400, 0), v(400, 400), v(0, 400)];
    let mut pts = vec![Point::new(1, v(0, 0), GREY)];
    let params = StepParams { centroid_gain: Some(1000), restore_gain: None, dt: FRAME_ONE as u32 };
    step_points(&mut pts, &vec![cell], &vec![], &params, &viewport());
    // 200 / 20 = 10 on each axis
    assert_eq!(pts[0].moving_vec, Vec2l::new(10, 10));
    assert_eq!(pts[0].pos, v(10, 10));
}

#[test]
fn step_ignores_degenerate_cells() {
    let cell = vec![v(5, 5), v(5, 5), v(5, 5)];
    let mut pts = vec![Point::new(1, v(0, 0), GREY)];
    let params = StepParams { centroid_gain: Some(1000), restore_gain: None, dt: FRAME_ONE as u32 };
    step_points(&mut pts, &vec![cell, vec![]], &vec![], &params, &viewport());
    assert_eq!(pts[0].pos, v(0, 0));
    assert_eq!(pts[0].moving_vec, Vec2l::new(0, 0));
}

#[test]
fn step_pulls_home_through_the_nearest_copy() {
    let mut p = Point::new(1, v(-990, 0), GREY);
    p.pos = v(990, 0);
    let mut pts = vec![p];
    let params = StepParams { centroid_gain: None, restore_gain: Some(10_000), dt: FRAME_ONE as u32 };
    step_points(&mut pts, &vec![], &vec![], &params, &viewport());
    // home copy at 1010: offset 20, times 10, over 100 = 2
    assert_eq!(pts[0].moving_vec, Vec2l::new(2, 0));
    assert_eq!(pts[0].pos, v(992, 0));
    assert_eq!(pts[0].starting_location, v(-990, 0));
}

#[test]
fn step_is_deterministic() {
    let cell = vec![v(0, 0), v(300, 0), v(300, 300), v(0, 300)];
    let start = vec![Point::new(1, v(5, 9), GREY), Point::new(2, v(-700, 450), GREY)];
    let params = StepParams { centroid_gain: Some(1500), restore_gain: Some(800), dt: 1_250_000 };
    let mut a = start.clone();
    let mut b = start.clone();
    step_points(&mut a, &vec![cell.clone()], &vec![v(3, -4)], &params, &viewport());
    step_points(&mut b, &vec![cell], &vec![v(3, -4)], &params, &viewport());
    for (p, q) in a.iter().zip(b.iter()) {
        assert_eq!(p.pos, q.pos);
        assert_eq!(p.moving_vec, q.moving_vec);
    }
}
