use cim::particles::{is_within_cutoff, is_within_cutoff_wrapped, Particle, Vector2};

fn disc(id: usize, x: i32, y: i32, radius: u32) -> Particle {
    Particle { id, position: Vector2 { x, y }, radius }
}

#[test]
fn cutoff_is_inclusive() {
    let p = disc(0, 0, 0, 0);
    let q = disc(1, 3, 4, 0);
    assert!(is_within_cutoff(&p, &q, 5));
    assert!(!is_within_cutoff(&p, &q, 4));
    assert!(is_within_cutoff(&q, &p, 5));
}

#[test]
fn radii_are_taken_off_the_distance() {
    let p = disc(0, 0, 0, 1);
    let q = disc(1, 6, 8, 2);
    // centres 10 apart, surfaces 7 apart
    assert!(is_within_cutoff(&p, &q, 7));
    assert!(!is_within_cutoff(&p, &q, 6));
}

#[test]
fn negative_cutoff_needs_overlap() {
    let p = disc(0, 0, 0, 0);
    let q = disc(1, 0, 0, 0);
    assert!(is_within_cutoff(&p, &q, 0));
    assert!(!is_within_cutoff(&p, &q, -1));
    let big = disc(2, 0, 0, 3);
    let other = disc(3, 2, 0, 0);
    // surfaces overlap by 1
    assert!(is_within_cutoff(&big, &other, -1));
    assert!(!is_within_cutoff(&big, &other, -2));
}

#[test]
fn extreme_coordinates_do_not_overflow() {
    let p = disc(0, i32::MIN, i32::MIN, u32::MAX);
    let q = disc(1, i32::MAX, i32::MAX, u32::MAX);
    assert!(is_within_cutoff(&p, &q, i32::MAX));
    let a = disc(0, i32::MIN, i32::MIN, 0);
    let b = disc(1, i32::MAX, i32::MAX, 0);
    assert!(!is_within_cutoff(&a, &b, i32::MAX));
    assert!(!is_within_cutoff(&a, &b, i32::MIN));
}

#[test]
fn wrapped_distance_takes_the_short_way() {
    let p = disc(0, 1, 50, 0);
    let q = disc(1, 99, 50, 0);
    assert!(is_within_cutoff_wrapped(&p, &q, 2, 100));
    assert!(!is_within_cutoff_wrapped(&p, &q, 1, 100));
    assert!(!is_within_cutoff(&p, &q, 2));
    assert!(is_within_cutoff(&p, &q, 98));
}

#[test]
fn wrapped_distance_wraps_in_both_axes() {
    let p = disc(0, 1, 1, 0);
    let q = disc(1, 98, 97, 0);
    // 3 across and 4 up, the short way
    assert!(is_within_cutoff_wrapped(&p, &q, 5, 100));
    assert!(!is_within_cutoff_wrapped(&p, &q, 4, 100));
}

#[test]
fn wrapped_distance_takes_coordinates_outside_the_period() {
    let p = disc(0, -1, 0, 0);
    let q = disc(1, 201, 0, 0);
    // -1 is 99 and 201 is 1 on a ring of 100
    assert!(is_within_cutoff_wrapped(&p, &q, 2, 100));
    assert!(!is_within_cutoff_wrapped(&p, &q, 1, 100));
    let far = disc(2, i32::MIN, i32::MAX, 0);
    assert!(is_within_cutoff_wrapped(&far, &far, 0, u32::MAX));
    assert!(is_within_cutoff_wrapped(&far, &q, 0, 1));
}
