use cim::particles::Vector2;
use cim::pool::{are_balls_colliding, did_ball_go_outside, Ball, InputData, SimpleInputData, Wall};

fn ball(x: i32, y: i32) -> Ball {
    Ball { id: 0, position: Vector2 { x, y }, velocity: Vector2 { x: 0, y: 0 }, radius: 5 }
}

fn table() -> InputData {
    InputData {
        simple_input_data: SimpleInputData {
            table_width: 200,
            table_height: 100,
            hole_radius: 10,
            ball_radius: 5,
            ball_mass: 165,
            balls: Vec::new(),
        },
        delta_time_n: 4,
        with_holes: false,
    }
}

#[test]
fn balls_collide_when_closer_than_radius_sum() {
    assert!(are_balls_colliding(&ball(0, 0), &ball(6, 7), 10));
    assert!(are_balls_colliding(&ball(6, 7), &ball(0, 0), 10));
    assert!(!are_balls_colliding(&ball(0, 0), &ball(20, 0), 10));
}

#[test]
fn touching_balls_do_not_collide() {
    assert!(!are_balls_colliding(&ball(0, 0), &ball(6, 8), 10));
    assert!(are_balls_colliding(&ball(0, 0), &ball(6, 8), 11));
}

#[test]
fn radius_sum_counts_by_its_square() {
    assert!(are_balls_colliding(&ball(0, 0), &ball(6, 7), -10));
    assert!(!are_balls_colliding(&ball(0, 0), &ball(0, 0), 0));
    assert!(are_balls_colliding(&ball(i32::MIN, i32::MIN), &ball(i32::MAX, i32::MAX), i64::MIN));
    assert!(!are_balls_colliding(&ball(i32::MIN, i32::MIN), &ball(i32::MAX, i32::MAX), 1 << 32));
}

#[test]
fn ball_inside_crosses_no_wall() {
    assert_eq!(did_ball_go_outside(&ball(100, 50), &table()), vec![]);
    // touching is not crossing
    assert_eq!(did_ball_go_outside(&ball(5, 5), &table()), vec![]);
    assert_eq!(did_ball_go_outside(&ball(195, 95), &table()), vec![]);
}

#[test]
fn ball_crosses_one_wall() {
    assert_eq!(did_ball_go_outside(&ball(4, 50), &table()), vec![Wall::Left]);
    assert_eq!(did_ball_go_outside(&ball(196, 50), &table()), vec![Wall::Right]);
    assert_eq!(did_ball_go_outside(&ball(100, 4), &table()), vec![Wall::Bottom]);
    assert_eq!(did_ball_go_outside(&ball(100, 96), &table()), vec![Wall::Top]);
}

#[test]
fn ball_in_a_corner_crosses_two_walls() {
    assert_eq!(did_ball_go_outside(&ball(0, 0), &table()), vec![Wall::Left, Wall::Bottom]);
    assert_eq!(did_ball_go_outside(&ball(200, 100), &table()), vec![Wall::Right, Wall::Top]);
    assert_eq!(did_ball_go_outside(&ball(-3, 99), &table()), vec![Wall::Left, Wall::Top]);
    assert_eq!(did_ball_go_outside(&ball(199, -3), &table()), vec![Wall::Right, Wall::Bottom]);
}

#[test]
fn left_and_bottom_win_on_a_table_narrower_than_a_ball() {
    let mut small = table();
    small.simple_input_data.table_width = 4;
    small.simple_input_data.table_height = 4;
    assert_eq!(did_ball_go_outside(&ball(2, 2), &small), vec![Wall::Left, Wall::Bottom]);
    assert_eq!(
        did_ball_go_outside(&ball(i32::MAX, i32::MIN), &small),
        vec![Wall::Right, Wall::Bottom]
    );
}
