//! Collision checks of a billiard table: balls of one radius on a rectangle
//! whose lower left corner is the origin.

use vstd::prelude::*;
use crate::particles::{Vector2, ID};

verus! {

/// A ball on the table.
#[derive(Clone, Copy, Debug, PartialEq, Eq, Structural)]
pub struct Ball {
    pub id: ID,
    pub position: Vector2,
    pub velocity: Vector2,
    pub radius: u32,
}

/// A side of the table.
#[derive(Clone, Copy, Debug, PartialEq, Eq, Structural)]
pub enum Wall {
    Left,
    Right,
    Top,
    Bottom,
}

/// The table and the balls on it.
#[derive(Debug)]
pub struct SimpleInputData {
    pub table_width: u32,
    pub table_height: u32,
    pub hole_radius: u32,
    pub ball_radius: u32,
    pub ball_mass: u32,
    pub balls: Vec<Ball>,
}

/// A table together with the settings of one run.
#[derive(Debug)]
pub struct InputData {
    pub simple_input_data: SimpleInputData,
    /// The time step is ten to the power of minus this number.
    pub delta_time_n: u16,
    pub with_holes: bool,
}

/// The centres of two balls are closer than `radius_sum`. Touching balls do
/// not collide, and the sign of `radius_sum` does not matter.
pub open spec fn balls_overlap(b1: Ball, b2: Ball, radius_sum: int) -> bool {
    let dx = b1.position.x - b2.position.x;
    let dy = b1.position.y - b2.position.y;
    dx * dx + dy * dy < radius_sum * radius_sum
}

/// The walls that a ball reaches across: at most one of left and right, then at
/// most one of bottom and top. A ball that touches a wall has not crossed it.
pub open spec fn walls_crossed(ball: Ball, config: InputData) -> Seq<Wall> {
    let radius = config.simple_input_data.ball_radius as int;
    let across = if ball.position.x - radius < 0 {
        seq![Wall::Left]
    } else if ball.position.x + radius > config.simple_input_data.table_width {
        seq![Wall::Right]
    } else {
        Seq::<Wall>::empty()
    };
    let along = if ball.position.y - radius < 0 {
        seq![Wall::Bottom]
    } else if ball.position.y + radius > config.simple_input_data.table_height {
        seq![Wall::Top]
    } else {
        Seq::<Wall>::empty()
    };
    across + along
}

/// Whether two balls collide, given the sum of their radii.
pub fn are_balls_colliding(b1: &Ball, b2: &Ball, radius_sum: i64) -> (colliding: bool)
    ensures
        colliding == balls_overlap(*b1, *b2, radius_sum as int),
{
    let dx: i128 = b1.position.x as i128 - b2.position.x as i128;
    let dy: i128 = b1.position.y as i128 - b2.position.y as i128;
    let sum: i128 = radius_sum as i128;
    assert(0 <= dx * dx <= 0x1_0000_0000 * 0x1_0000_0000) by (nonlinear_arith)
        requires
            -0x1_0000_0000 <= dx <= 0x1_0000_0000,
    ;
    assert(0 <= dy * dy <= 0x1_0000_0000 * 0x1_0000_0000) by (nonlinear_arith)
        requires
            -0x1_0000_0000 <= dy <= 0x1_0000_0000,
    ;
    assert(0 <= sum * sum <= 0x8000_0000_0000_0000 * 0x8000_0000_0000_0000) by (nonlinear_arith)
        requires
            -0x8000_0000_0000_0000 <= sum <= 0x8000_0000_0000_0000,
    ;
    dx * dx + dy * dy < sum * sum
}

/// The walls that a ball has crossed.
pub fn did_ball_go_outside(ball: &Ball, config: &InputData) -> (collisions: Vec<Wall>)
    ensures
        collisions@ == walls_crossed(*ball, *config),
{
    let mut collisions: Vec<Wall> = Vec::with_capacity(2);
    let radius: i64 = config.simple_input_data.ball_radius as i64;
    let x: i64 = ball.position.x as i64;
    let y: i64 = ball.position.y as i64;

    if x - radius < 0 {
        collisions.push(Wall::Left);
    } else if x + radius > config.simple_input_data.table_width as i64 {
        collisions.push(Wall::Right);
    }

    if y - radius < 0 {
        collisions.push(Wall::Bottom);
    } else if y + radius > config.simple_input_data.table_height as i64 {
        collisions.push(Wall::Top);
    }
    collisions
}

} // verus!
