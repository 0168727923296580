//! Particles on a square lattice, and the distance test that decides which of
//! them interact.
//!
//! Lengths are whole numbers of lattice units. A caller that measures in
//! another unit picks the lattice fine enough for its purposes and rounds once,
//! on the way in; from there on every comparison is exact.

use vstd::prelude::*;
use vstd::arithmetic::div_mod::*;

verus! {

/// Identifier of a particle. The caller keeps it unique within one particle set.
pub type ID = usize;

/// A point or a displacement of the lattice.
#[derive(Clone, Copy, Debug, PartialEq, Eq, Structural)]
pub struct Vector2 {
    pub x: i32,
    pub y: i32,
}

/// A disc of the given radius around `position`; radius 0 is a point particle.
#[derive(Clone, Copy, Debug, PartialEq, Eq, Structural)]
pub struct Particle {
    pub id: ID,
    pub position: Vector2,
    pub radius: u32,
}

/// Distance between two coordinates on an unbounded axis.
pub open spec fn direct_gap(a: int, b: int) -> int {
    if a >= b {
        a - b
    } else {
        b - a
    }
}

/// Distance between two coordinates on a ring of circumference `period`:
/// the shorter of the two ways round.
pub open spec fn wrapped_gap(a: int, b: int, period: int) -> int {
    let ahead = (a - b) % period;
    if ahead <= period - ahead {
        ahead
    } else {
        period - ahead
    }
}

/// Whether a displacement `(dx, dy)` between two centres is no longer than
/// `reach`. A negative `reach` admits nothing; a length equal to `reach` is
/// admitted.
pub open spec fn displacement_within(dx: int, dy: int, reach: int) -> bool {
    reach >= 0 && dx * dx + dy * dy <= reach * reach
}

/// The length that the centres of `p` and `q` may be apart for their surfaces
/// to be within `cutoff` of each other.
pub open spec fn reach_of(p: Particle, q: Particle, cutoff: int) -> int {
    cutoff + p.radius + q.radius
}

/// The interaction test in an unbounded plane: the Euclidean distance between
/// the centres, less both radii, is at most `cutoff`.
pub open spec fn within_cutoff(p: Particle, q: Particle, cutoff: int) -> bool {
    displacement_within(
        direct_gap(p.position.x as int, q.position.x as int),
        direct_gap(p.position.y as int, q.position.y as int),
        reach_of(p, q, cutoff),
    )
}

/// The interaction test on a torus of side `period`: as `within_cutoff`, with
/// the distance taken the shortest way round in each axis.
pub open spec fn within_cutoff_wrapped(p: Particle, q: Particle, cutoff: int, period: int) -> bool {
    displacement_within(
        wrapped_gap(p.position.x as int, q.position.x as int, period),
        wrapped_gap(p.position.y as int, q.position.y as int, period),
        reach_of(p, q, cutoff),
    )
}

/// Swapping the two coordinates leaves the direct distance unchanged.
pub proof fn lemma_direct_gap_symmetric(a: int, b: int)
    ensures
        direct_gap(a, b) == direct_gap(b, a),
        direct_gap(a, b) >= 0,
{
}

/// Swapping the two coordinates leaves the distance on a ring unchanged.
pub proof fn lemma_wrapped_gap_symmetric(a: int, b: int, period: int)
    requires
        period > 0,
    ensures
        wrapped_gap(a, b, period) == wrapped_gap(b, a, period),
        0 <= wrapped_gap(a, b, period) <= period / 2,
{
    let ahead = (a - b) % period;
    lemma_fundamental_div_mod(a - b, period);
    let q = (a - b) / period;
    if ahead == 0 {
        assert(b - a == (-q) * period + 0) by (nonlinear_arith)
            requires
                a - b == period * q + ahead,
                ahead == 0,
        ;
        lemma_fundamental_div_mod_converse(b - a, period, -q, 0);
    } else {
        assert(b - a == (-q - 1) * period + (period - ahead)) by (nonlinear_arith)
            requires
                a - b == period * q + ahead,
        ;
        lemma_fundamental_div_mod_converse(b - a, period, -q - 1, period - ahead);
    }
}

fn abs_diff(a: i32, b: i32) -> (d: u64)
    ensures
        d == direct_gap(a as int, b as int),
        d <= 0xffff_ffff,
{
    if a >= b {
        (a as i64 - b as i64) as u64
    } else {
        (b as i64 - a as i64) as u64
    }
}

fn ring_diff(a: i32, b: i32, period: u32) -> (d: u64)
    requires
        period > 0,
    ensures
        d == wrapped_gap(a as int, b as int, period as int),
        d <= 0xffff_ffff,
{
    let span: i128 = period as i128;
    let lifted: i128 = (a as i128 - b as i128) + span * 0x1_0000_0000;
    let ahead: i128 = lifted % span;
    proof {
        lemma_mod_multiples_vanish(0x1_0000_0000, a as int - b as int, span as int);
    }
    if ahead <= span - ahead {
        ahead as u64
    } else {
        (span - ahead) as u64
    }
}

fn squares_within(dx: u64, dy: u64, reach: i64) -> (r: bool)
    requires
        dx <= 0xffff_ffff,
        dy <= 0xffff_ffff,
        reach <= 0x3_0000_0000,
    ensures
        r == displacement_within(dx as int, dy as int, reach as int),
{
    if reach < 0 {
        return false;
    }
    let wx: u128 = dx as u128;
    let wy: u128 = dy as u128;
    let wr: u128 = reach as u128;
    assert(wx * wx <= 0xffff_ffff * 0xffff_ffff) by (nonlinear_arith)
        requires
            wx <= 0xffff_ffff,
    ;
    assert(wy * wy <= 0xffff_ffff * 0xffff_ffff) by (nonlinear_arith)
        requires
            wy <= 0xffff_ffff,
    ;
    assert(wr * wr <= 0x3_0000_0000 * 0x3_0000_0000) by (nonlinear_arith)
        requires
            wr <= 0x3_0000_0000,
    ;
    wx * wx + wy * wy <= wr * wr
}

fn reach_between(p: &Particle, q: &Particle, cutoff: i32) -> (reach: i64)
    ensures
        reach == reach_of(*p, *q, cutoff as int),
        reach <= 0x3_0000_0000,
{
    cutoff as i64 + p.radius as i64 + q.radius as i64
}

/// Decides the interaction test in an unbounded plane.
pub fn is_within_cutoff(p: &Particle, q: &Particle, cutoff: i32) -> (r: bool)
    ensures
        r == within_cutoff(*p, *q, cutoff as int),
{
    let dx: u64 = abs_diff(p.position.x, q.position.x);
    let dy: u64 = abs_diff(p.position.y, q.position.y);
    squares_within(dx, dy, reach_between(p, q, cutoff))
}

/// Decides the interaction test on a torus of side `period`.
pub fn is_within_cutoff_wrapped(p: &Particle, q: &Particle, cutoff: i32, period: u32) -> (r: bool)
    requires
        period > 0,
    ensures
        r == within_cutoff_wrapped(*p, *q, cutoff as int, period as int),
{
    let dx: u64 = ring_diff(p.position.x, q.position.x, period);
    let dy: u64 = ring_diff(p.position.y, q.position.y, period);
    squares_within(dx, dy, reach_between(p, q, cutoff))
}

} // verus!
