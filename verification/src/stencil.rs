//! The half stencil: the offsets that lead from a cell to the cells it is paired
//! with, and the proof that they leave no interacting pair out.

use vstd::prelude::*;
use vstd::arithmetic::div_mod::*;
use crate::cim_finder::{interacts, SystemInfo};
use crate::grid::{cell_coordinate, cell_of, in_cell, lemma_cell_coordinate};
use crate::particles::{direct_gap, reach_of, wrapped_gap, Particle};

verus! {

/// Distance between two coordinates along one axis of the domain.
pub open spec fn axis_gap(a: int, b: int, cfg: SystemInfo) -> int {
    if cfg.cyclic {
        wrapped_gap(a, b, cfg.space_length as int)
    } else {
        direct_gap(a, b)
    }
}

/// The cell that lies `offset` cells further along one axis: wrapped round on
/// a cyclic domain, absent beyond the edge of a bounded one.
pub open spec fn shifted(cell: int, offset: int, cfg: SystemInfo) -> Option<int> {
    let moved = cell + offset;
    if cfg.cyclic {
        Some(moved % (cfg.grid_size as int))
    } else if 0 <= moved < cfg.grid_size {
        Some(moved)
    } else {
        None
    }
}

/// The offsets that the walk applies to a cell: `rings` rows above it in full
/// width, and the cells to its right in its own row. Applied to every cell,
/// they pair each cell once with each cell within `rings` of it. With one ring
/// they are right, up-left, up and up-right.
pub open spec fn in_half_stencil(ox: int, oy: int, rings: int) -> bool {
    &&& 0 <= oy <= rings
    &&& -rings <= ox <= rings
    &&& oy > 0 || ox > 0
}

/// The cell that an offset leads to from `cell`, if the domain has one there.
pub open spec fn target(cell: (usize, usize), ox: int, oy: int, cfg: SystemInfo) -> Option<
    (int, int),
> {
    match (shifted(cell.0 as int, ox, cfg), shifted(cell.1 as int, oy, cfg)) {
        (Some(column), Some(row)) => Some((column, row)),
        _ => None,
    }
}

/// The number of rings after which every cell of the grid has been reached:
/// half the grid on a cyclic domain, where the other half is reached the other
/// way round, and the whole grid but the cell itself on a bounded one.
pub open spec fn widest_ring(cfg: SystemInfo) -> int {
    if cfg.cyclic {
        cfg.grid_size as int / 2
    } else {
        cfg.grid_size - 1
    }
}

/// `rings` rings of cells reach as far as `reach`: either their width is at
/// least `reach`, or they span the whole grid.
pub open spec fn rings_cover(rings: int, reach: int, cfg: SystemInfo) -> bool {
    rings >= 0 && (reach * cfg.grid_size <= rings * cfg.space_length || rings >= widest_ring(cfg))
}

proof fn lemma_cell_step(u: int, v: int, cells: int, side: int, rings: int)
    requires
        side > 0,
        cells >= 0,
        u <= v,
        (v - u) * cells <= rings * side,
    ensures
        (u * cells) / side <= (v * cells) / side <= (u * cells) / side + rings,
{
    assert(u * cells <= v * cells) by (nonlinear_arith)
        requires
            u <= v,
            cells >= 0,
    ;
    lemma_div_is_ordered(u * cells, v * cells, side);
    assert(v * cells <= u * cells + rings * side) by (nonlinear_arith)
        requires
            (v - u) * cells <= rings * side,
    ;
    lemma_div_is_ordered(v * cells, u * cells + rings * side, side);
    lemma_fundamental_div_mod(u * cells, side);
    let q = (u * cells) / side;
    let r = (u * cells) % side;
    assert(u * cells + rings * side == (q + rings) * side + r) by (nonlinear_arith)
        requires
            u * cells == side * q + r,
    ;
    lemma_fundamental_div_mod_converse(u * cells + rings * side, side, q + rings, r);
}

proof fn lemma_cell_after_turn(rest: int, cells: int, side: int)
    requires
        side > 0,
    ensures
        ((rest + side) * cells) / side == (rest * cells) / side + cells,
{
    lemma_fundamental_div_mod(rest * cells, side);
    let q = (rest * cells) / side;
    let r = (rest * cells) % side;
    assert((rest + side) * cells == (q + cells) * side + r) by (nonlinear_arith)
        requires
            rest * cells == side * q + r,
    ;
    lemma_fundamental_div_mod_converse((rest + side) * cells, side, q + cells, r);
}

proof fn lemma_ring_step(from: int, ahead: int, cfg: SystemInfo, rings: int) -> (offset: int)
    requires
        cfg.usable(),
        cfg.cyclic,
        0 <= ahead < cfg.space_length,
        ahead * cfg.grid_size <= rings * cfg.space_length,
    ensures
        0 <= offset <= rings,
        (cell_coordinate(from, cfg) + offset) % (cfg.grid_size as int) == cell_coordinate(
            from + ahead,
            cfg,
        ),
{
    let side = cfg.space_length as int;
    let cells = cfg.grid_size as int;
    let start = from % side;
    let end = (from + ahead) % side;
    lemma_cell_coordinate(from, cfg);
    lemma_cell_coordinate(from + ahead, cfg);
    let here = cell_coordinate(from, cfg);
    let there = cell_coordinate(from + ahead, cfg);
    lemma_add_mod_noop(from, ahead, side);
    lemma_small_mod(ahead as nat, side as nat);
    let sum = start + ahead;
    lemma_cell_step(start, sum, cells, side, rings);
    if sum < side {
        lemma_small_mod(sum as nat, side as nat);
        let offset = there - here;
        lemma_small_mod(there as nat, cells as nat);
        offset
    } else {
        lemma_fundamental_div_mod_converse(sum, side, 1, sum - side);
        lemma_cell_after_turn(end, cells, side);
        let offset = there + cells - here;
        lemma_mod_add_multiples_vanish(there, cells);
        lemma_small_mod(there as nat, cells as nat);
        offset
    }
}

proof fn lemma_turn_back(from: int, to: int, offset: int, cells: int)
    requires
        cells > 0,
        0 <= from < cells,
        0 <= to < cells,
        (from + offset) % cells == to,
    ensures
        (to - offset) % cells == from,
{
    lemma_fundamental_div_mod(from + offset, cells);
    let q = (from + offset) / cells;
    assert(to - offset == (-q) * cells + from) by (nonlinear_arith)
        requires
            from + offset == cells * q + to,
    ;
    lemma_fundamental_div_mod_converse(to - offset, cells, -q, from);
}

/// Two coordinates no further apart than `reach` fall in cells at most
/// `rings` apart, where `rings` rings cover `reach`: some offset within
/// `-rings..=rings` leads from the cell of `a` to the cell of `b`, and its
/// negative leads back.
pub proof fn lemma_axis_offset(a: int, b: int, cfg: SystemInfo, reach: int, rings: int) -> (offset:
    int)
    requires
        cfg.usable(),
        cfg.cyclic || (cfg.spans(a) && cfg.spans(b)),
        axis_gap(a, b, cfg) <= reach,
        rings_cover(rings, reach, cfg),
    ensures
        -rings <= offset <= rings,
        shifted(cell_coordinate(a, cfg), offset, cfg) == Some(cell_coordinate(b, cfg)),
        shifted(cell_coordinate(b, cfg), -offset, cfg) == Some(cell_coordinate(a, cfg)),
{
    let side = cfg.space_length as int;
    let cells = cfg.grid_size as int;
    lemma_cell_coordinate(a, cfg);
    lemma_cell_coordinate(b, cfg);
    let here = cell_coordinate(a, cfg);
    let there = cell_coordinate(b, cfg);
    if rings >= widest_ring(cfg) {
        let plain = there - here;
        if cfg.cyclic {
            lemma_small_mod(there as nat, cells as nat);
            lemma_small_mod(here as nat, cells as nat);
            if plain > cells / 2 {
                lemma_mod_sub_multiples_vanish(there, cells);
                lemma_mod_add_multiples_vanish(here, cells);
                plain - cells
            } else if plain < -(cells / 2) {
                lemma_mod_add_multiples_vanish(there, cells);
                lemma_mod_sub_multiples_vanish(here, cells);
                plain + cells
            } else {
                plain
            }
        } else {
            plain
        }
    } else if !cfg.cyclic {
        if a <= b {
            assert((b - a) * cells <= rings * side) by (nonlinear_arith)
                requires
                    b - a <= reach,
                    reach * cells <= rings * side,
                    cells >= 0,
            ;
            lemma_cell_step(a, b, cells, side, rings);
        } else {
            assert((a - b) * cells <= rings * side) by (nonlinear_arith)
                requires
                    a - b <= reach,
                    reach * cells <= rings * side,
                    cells >= 0,
            ;
            lemma_cell_step(b, a, cells, side, rings);
        }
        there - here
    } else {
        let ahead = (a - b) % side;
        if ahead <= side - ahead {
            assert(ahead * cells <= rings * side) by (nonlinear_arith)
                requires
                    ahead <= reach,
                    reach * cells <= rings * side,
                    cells >= 0,
            ;
            let back = lemma_ring_step(b, ahead, cfg, rings);
            lemma_add_mod_noop(b, a - b, side);
            lemma_add_mod_noop(b, ahead, side);
            lemma_small_mod(ahead as nat, side as nat);
            assert(cell_coordinate(b + ahead, cfg) == here) by {
                lemma_cell_coordinate(b + ahead, cfg);
            }
            lemma_turn_back(there, here, back, cells);
            -back
        } else {
            let behind = side - ahead;
            assert((b - a) % side == behind) by {
                lemma_fundamental_div_mod(a - b, side);
                let q = (a - b) / side;
                assert(b - a == (-q - 1) * side + behind) by (nonlinear_arith)
                    requires
                        a - b == side * q + ahead,
                        behind == side - ahead,
                ;
                lemma_fundamental_div_mod_converse(b - a, side, -q - 1, behind);
            }
            assert(behind * cells <= rings * side) by (nonlinear_arith)
                requires
                    behind <= reach,
                    reach * cells <= rings * side,
                    cells >= 0,
            ;
            let forth = lemma_ring_step(a, behind, cfg, rings);
            lemma_add_mod_noop(a, b - a, side);
            lemma_add_mod_noop(a, behind, side);
            lemma_small_mod(behind as nat, side as nat);
            assert(cell_coordinate(a + behind, cfg) == there) by {
                lemma_cell_coordinate(a + behind, cfg);
            }
            lemma_turn_back(here, there, forth, cells);
            forth
        }
    }
}

/// Two particles that interact lie in the same cell, or the half stencil leads
/// from the cell of one to the cell of the other, provided the rings cover
/// their reach. The offset returned leads from `p` to `q`; where it is not in
/// the half stencil, its negative is and leads from `q` to `p`.
pub proof fn lemma_stencil_reaches(
    p: Particle,
    q: Particle,
    from: (usize, usize),
    to: (usize, usize),
    cfg: SystemInfo,
    rings: int,
) -> (offset: (int, int))
    requires
        cfg.usable(),
        cfg.cyclic || (cfg.contains(p) && cfg.contains(q)),
        in_cell(p, cfg, from),
        in_cell(q, cfg, to),
        interacts(p, q, cfg),
        rings_cover(rings, reach_of(p, q, cfg.interaction_radius as int), cfg),
    ensures
        ({
            ||| offset == (0int, 0int) && from == to
            ||| in_half_stencil(offset.0, offset.1, rings) && target(from, offset.0, offset.1, cfg)
                == Some(cell_of(q, cfg))
            ||| in_half_stencil(-offset.0, -offset.1, rings) && target(
                to,
                -offset.0,
                -offset.1,
                cfg,
            ) == Some(cell_of(p, cfg))
        }),
{
    let reach = reach_of(p, q, cfg.interaction_radius as int);
    let px = p.position.x as int;
    let py = p.position.y as int;
    let qx = q.position.x as int;
    let qy = q.position.y as int;
    let gx = axis_gap(px, qx, cfg);
    let gy = axis_gap(py, qy, cfg);
    assert(gx <= reach && gy <= reach) by (nonlinear_arith)
        requires
            gx >= 0,
            gy >= 0,
            reach >= 0,
            gx * gx + gy * gy <= reach * reach,
    ;
    let ox = lemma_axis_offset(px, qx, cfg, reach, rings);
    let oy = lemma_axis_offset(py, qy, cfg, reach, rings);
    if ox == 0 && oy == 0 {
        if cfg.cyclic {
            lemma_small_mod(from.0 as nat, cfg.grid_size as nat);
            lemma_small_mod(from.1 as nat, cfg.grid_size as nat);
        }
    }
    (ox, oy)
}

pub(crate) fn shift_axis(cell: usize, offset: i128, cfg: &SystemInfo) -> (moved: Option<usize>)
    requires
        cell < cfg.grid_size,
        -cfg.grid_size < offset < cfg.grid_size,
    ensures
        match moved {
            Some(at) => shifted(cell as int, offset as int, *cfg) == Some(at as int) && at
                < cfg.grid_size,
            None => shifted(cell as int, offset as int, *cfg) is None,
        },
{
    let cells: i128 = cfg.grid_size as i128;
    let moved: i128 = cell as i128 + offset;
    if 0 <= moved && moved < cells {
        proof {
            lemma_small_mod(moved as nat, cells as nat);
        }
        Some(moved as usize)
    } else if !cfg.cyclic {
        None
    } else if moved < 0 {
        proof {
            lemma_mod_add_multiples_vanish(moved as int, cells as int);
            lemma_small_mod((moved + cells) as nat, cells as nat);
        }
        Some((moved + cells) as usize)
    } else {
        proof {
            lemma_mod_sub_multiples_vanish(moved as int, cells as int);
            lemma_small_mod((moved - cells) as nat, cells as nat);
        }
        Some((moved - cells) as usize)
    }
}

/// The largest radius among `particles`; 0 where there is none.
pub open spec fn widest_radius_of(particles: Seq<Particle>) -> int
    decreases particles.len(),
{
    if particles.len() == 0 {
        0
    } else {
        let rest = widest_radius_of(particles.drop_last());
        if particles.last().radius > rest {
            particles.last().radius as int
        } else {
            rest
        }
    }
}

/// The most that the centres of two of the particles may be apart and still
/// interact: the interaction radius and twice the largest radius.
pub open spec fn widest_reach(particles: Seq<Particle>, cfg: SystemInfo) -> int {
    cfg.interaction_radius + 2 * widest_radius_of(particles)
}

/// The number of rings that the walk applies: the widest reach over the cell
/// side, rounded up, and no more than reach every cell of the grid. Where the
/// cell side is at least the widest reach, that is one ring; where nothing can
/// interact but particles at one place, none.
pub open spec fn rings_needed(particles: Seq<Particle>, cfg: SystemInfo) -> int {
    let reach = widest_reach(particles, cfg);
    let width = (reach * cfg.grid_size + cfg.space_length - 1) / (cfg.space_length as int);
    if reach <= 0 {
        0
    } else if width >= widest_ring(cfg) {
        widest_ring(cfg)
    } else {
        width
    }
}

/// No particle is wider than the widest.
pub proof fn lemma_widest_radius_bounds(particles: Seq<Particle>, i: int)
    requires
        0 <= i < particles.len(),
    ensures
        particles[i].radius <= widest_radius_of(particles),
        widest_radius_of(particles) >= 0,
    decreases particles.len(),
{
    if i < particles.len() - 1 {
        lemma_widest_radius_bounds(particles.drop_last(), i);
    }
}

/// The rings that the walk applies cover the reach of every two particles.
pub proof fn lemma_rings_needed_cover(particles: Seq<Particle>, cfg: SystemInfo, i: int, j: int)
    requires
        cfg.usable(),
        0 <= i < particles.len(),
        0 <= j < particles.len(),
    ensures
        rings_cover(
            rings_needed(particles, cfg),
            reach_of(particles[i], particles[j], cfg.interaction_radius as int),
            cfg,
        ),
        0 <= rings_needed(particles, cfg) < cfg.grid_size,
{
    let cells = cfg.grid_size as int;
    let side = cfg.space_length as int;
    let reach = widest_reach(particles, cfg);
    let between = reach_of(particles[i], particles[j], cfg.interaction_radius as int);
    let width = (reach * cells + side - 1) / side;
    lemma_widest_radius_bounds(particles, i);
    lemma_widest_radius_bounds(particles, j);
    assert(between * cells <= reach * cells) by (nonlinear_arith)
        requires
            between <= reach,
            cells >= 0,
    ;
    if reach > 0 {
        lemma_fundamental_div_mod(reach * cells + side - 1, side);
        assert(width * side >= reach * cells) by (nonlinear_arith)
            requires
                reach * cells + side - 1 == side * width + ((reach * cells + side - 1) % side),
                ((reach * cells + side - 1) % side) < side,
        ;
    } else {
        assert(reach * cells <= 0) by (nonlinear_arith)
            requires
                reach <= 0,
                cells >= 0,
        ;
    }
}

/// Where the cell side is at least the widest reach, the walk applies one ring
/// at most: the four offsets right, up-left, up and up-right.
pub proof fn lemma_one_ring_where_cells_are_wide(particles: Seq<Particle>, cfg: SystemInfo)
    requires
        cfg.usable(),
        widest_reach(particles, cfg) * cfg.grid_size <= cfg.space_length,
    ensures
        rings_needed(particles, cfg) <= 1,
        forall|ox: int, oy: int|
            in_half_stencil(ox, oy, rings_needed(particles, cfg)) ==> (ox, oy) == (1int, 0int) || (
            ox,
            oy,
        ) == (-1int, 1int) || (ox, oy) == (0int, 1int) || (ox, oy) == (1int, 1int),
{
    let cells = cfg.grid_size as int;
    let side = cfg.space_length as int;
    let reach = widest_reach(particles, cfg);
    if reach > 0 {
        lemma_div_is_ordered(reach * cells + side - 1, 2 * side - 1, side);
        lemma_fundamental_div_mod_converse(2 * side - 1, side, 1, side - 1);
    }
}

fn widest_radius(particles: &[Particle]) -> (widest: u32)
    ensures
        widest == widest_radius_of(particles@),
{
    let mut widest: u32 = 0;
    let mut i: usize = 0;
    while i < particles.len()
        invariant
            i <= particles@.len(),
            widest == widest_radius_of(particles@.subrange(0, i as int)),
        decreases particles@.len() - i,
    {
        proof {
            assert(particles@.subrange(0, i + 1).drop_last() =~= particles@.subrange(0, i as int));
        }
        if particles[i].radius > widest {
            widest = particles[i].radius;
        }
        i += 1;
    }
    proof {
        assert(particles@.subrange(0, i as int) =~= particles@);
    }
    widest
}

/// Computes the number of rings that the walk applies.
pub fn ring_count(particles: &[Particle], cfg: &SystemInfo) -> (rings: usize)
    requires
        cfg.usable(),
    ensures
        rings == rings_needed(particles@, *cfg),
        rings < cfg.grid_size,
{
    let widest: u32 = widest_radius(particles);
    let cells: u128 = cfg.grid_size as u128;
    let side: u128 = cfg.space_length as u128;
    let most: usize = if cfg.cyclic {
        cfg.grid_size / 2
    } else {
        cfg.grid_size - 1
    };
    let reach: i64 = cfg.interaction_radius as i64 + 2 * (widest as i64);
    if reach <= 0 {
        return 0;
    }
    let span: u128 = reach as u128;
    assert(span * cells <= 0x4_0000_0000 * 0xffff_ffff_ffff_ffff) by (nonlinear_arith)
        requires
            span <= 0x4_0000_0000,
            cells <= 0xffff_ffff_ffff_ffff,
    ;
    let width: u128 = (span * cells + side - 1) / side;
    if width >= most as u128 {
        most
    } else {
        width as usize
    }
}

} // verus!
