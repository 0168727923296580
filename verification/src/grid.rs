//! The uniform grid: which cell a particle falls in, and which particles each
//! cell holds.

use vstd::prelude::*;
use vstd::arithmetic::div_mod::*;
use vstd::arithmetic::mul::*;
use std::collections::HashMap;
use crate::cim_finder::{FinderError, SystemInfo};
use crate::particles::Particle;

verus! {

/// The cell that a coordinate falls in along one axis: the coordinate divided
/// by the cell side `space_length / grid_size`, rounded down; on a cyclic
/// domain taken modulo `grid_size`.
pub open spec fn cell_coordinate(x: int, cfg: SystemInfo) -> int {
    let raw = (x * cfg.grid_size) / (cfg.space_length as int);
    if cfg.cyclic {
        raw % (cfg.grid_size as int)
    } else {
        raw
    }
}

/// The cell of a particle, as column and row.
pub open spec fn cell_of(p: Particle, cfg: SystemInfo) -> (int, int) {
    (cell_coordinate(p.position.x as int, cfg), cell_coordinate(p.position.y as int, cfg))
}

/// On a cyclic domain the cell of a coordinate is the cell of its remainder
/// modulo the side of the domain; and every cell of a usable grid lies in
/// `0..grid_size` whenever the domain is cyclic or spans the coordinate.
pub proof fn lemma_cell_coordinate(x: int, cfg: SystemInfo)
    requires
        cfg.usable(),
        cfg.cyclic || cfg.spans(x),
    ensures
        0 <= cell_coordinate(x, cfg) < cfg.grid_size,
        cell_coordinate(x, cfg) == ((x % (cfg.space_length as int)) * cfg.grid_size) / (
        cfg.space_length as int),
{
    let side = cfg.space_length as int;
    let cells = cfg.grid_size as int;
    let turns = x / side;
    let rest = x % side;
    lemma_fundamental_div_mod(x, side);
    let cell = (rest * cells) / side;
    let spare = (rest * cells) % side;
    lemma_fundamental_div_mod(rest * cells, side);
    assert(0 <= cell < cells) by {
        lemma_mul_strict_inequality(rest, side, cells);
        lemma_div_by_multiple_is_strongly_ordered(rest * cells, side * cells, cells, side);
        lemma_div_by_multiple(cells, side);
    }
    if cfg.cyclic {
        assert(x * cells == (turns * cells + cell) * side + spare) by (nonlinear_arith)
            requires
                x == side * turns + rest,
                rest * cells == side * cell + spare,
        ;
        lemma_fundamental_div_mod_converse(x * cells, side, turns * cells + cell, spare);
        lemma_fundamental_div_mod_converse(turns * cells + cell, cells, turns, cell);
    } else {
        lemma_small_mod(x as nat, side as nat);
    }
}

fn axis_cell(x: i32, cfg: &SystemInfo) -> (found: Option<usize>)
    requires
        cfg.usable(),
    ensures
        found is Some <==> cfg.cyclic || cfg.spans(x as int),
        found matches Some(cell) ==> cell == cell_coordinate(x as int, *cfg) && cell
            < cfg.grid_size,
{
    let side: i128 = cfg.space_length as i128;
    let rest: i128 = if cfg.cyclic {
        let lifted: i128 = x as i128 + side * 0x8000_0000;
        proof {
            lemma_mod_multiples_vanish(0x8000_0000, x as int, side as int);
        }
        lifted % side
    } else if 0 <= x && (x as i128) < side {
        x as i128
    } else {
        return None;
    };
    proof {
        lemma_cell_coordinate(x as int, *cfg);
        assert(0 <= rest * (cfg.grid_size as int) <= 0xffff_ffff * 0xffff_ffff_ffff_ffff)
            by (nonlinear_arith)
            requires
                0 <= rest <= 0xffff_ffff,
                0 <= cfg.grid_size <= 0xffff_ffff_ffff_ffff,
        ;
    }
    let cell: i128 = (rest * (cfg.grid_size as i128)) / side;
    Some(cell as usize)
}

/// The cell of a particle, or `None` for a particle that a bounded domain does
/// not contain. Nothing is clamped.
pub fn locate(p: &Particle, cfg: &SystemInfo) -> (found: Option<(usize, usize)>)
    requires
        cfg.usable(),
    ensures
        found is Some <==> cfg.cyclic || cfg.contains(*p),
        found matches Some(cell) ==> (cell.0 as int, cell.1 as int) == cell_of(*p, *cfg) && cell.0
            < cfg.grid_size && cell.1 < cfg.grid_size,
{
    match axis_cell(p.position.x, cfg) {
        Some(column) => match axis_cell(p.position.y, cfg) {
            Some(row) => Some((column, row)),
            None => None,
        },
        None => None,
    }
}

/// Whether `p` falls in `cell`, given as column and row.
pub open spec fn in_cell(p: Particle, cfg: SystemInfo, cell: (usize, usize)) -> bool {
    cell_of(p, cfg) == (cell.0 as int, cell.1 as int)
}

/// The cell of a particle as the grid stores it.
pub open spec fn home(p: Particle, cfg: SystemInfo) -> (usize, usize) {
    (cell_of(p, cfg).0 as usize, cell_of(p, cfg).1 as usize)
}

/// The cells of the first `count` particles, each once, in the order in which
/// the particles come.
pub open spec fn cells_in_order(particles: Seq<Particle>, cfg: SystemInfo, count: nat) -> Seq<
    (usize, usize),
>
    decreases count,
{
    if count == 0 {
        Seq::empty()
    } else {
        let before = cells_in_order(particles, cfg, (count - 1) as nat);
        let cell = home(particles[count - 1], cfg);
        if before.contains(cell) {
            before
        } else {
            before.push(cell)
        }
    }
}

/// Each entry is larger than the one before it.
pub open spec fn increasing(s: Seq<usize>) -> bool {
    forall|i: int, j: int| 0 <= i < j < s.len() ==> s[i] < s[j]
}

spec fn cell_key(cell: (usize, usize)) -> u128 {
    (cell.1 * 0x1_0000_0000_0000_0000 + cell.0) as u128
}

/// The particles of one set, binned by cell. A particle is named by its place
/// in the set, counted from 0; only cells that hold a particle are stored.
#[derive(Debug)]
pub struct CellGrid {
    cells: Vec<(usize, usize)>,
    buckets: Vec<Vec<usize>>,
    index: HashMap<u128, usize>,
}

impl CellGrid {
    /// The cells that hold a particle, in the order in which they were first
    /// used.
    pub closed spec fn occupied(self) -> Seq<(usize, usize)> {
        self.cells@
    }

    /// The particles in `cell`; empty for a cell that holds none.
    pub closed spec fn members(self, cell: (usize, usize)) -> Seq<usize> {
        if self.index@.contains_key(cell_key(cell)) {
            self.buckets@[self.index@[cell_key(cell)] as int]@
        } else {
            Seq::empty()
        }
    }

    /// What every value of the type satisfies: the stored cells and the lookup
    /// table agree, no stored cell is empty, and the particles of a cell are
    /// listed in increasing order.
    pub closed spec fn wf(self) -> bool {
        &&& self.cells@.len() == self.buckets@.len()
        &&& forall|key: u128| #[trigger]
            self.index@.contains_key(key) ==> self.index@[key] < self.cells@.len() && cell_key(
                self.cells@[self.index@[key] as int],
            ) == key
        &&& forall|k: int|
            0 <= k < self.cells@.len() ==> self.index@.contains_key(
                cell_key(#[trigger] self.cells@[k]),
            ) && self.index@[cell_key(self.cells@[k])] == k
        &&& forall|k: int|
            0 <= k < self.buckets@.len() ==> (#[trigger] self.buckets@[k])@.len() > 0 && increasing(
                self.buckets@[k]@,
            )
    }

    /// The grid holds exactly the particles of `particles`, each in the cell
    /// that `cfg` assigns to it, and lists the cells in the order in which the
    /// particles first come to them.
    pub open spec fn bins(self, particles: Seq<Particle>, cfg: SystemInfo) -> bool {
        &&& self.occupied() == cells_in_order(particles, cfg, particles.len())
        &&& forall|cell: (usize, usize), t: int|
            0 <= t < self.members(cell).len() ==> (#[trigger] self.members(cell)[t])
                < particles.len() && in_cell(particles[self.members(cell)[t] as int], cfg, cell)
        &&& forall|cell: (usize, usize), i: int|
            0 <= i < particles.len() && #[trigger] in_cell(particles[i], cfg, cell)
                ==> self.members(cell).contains(i as usize)
    }

    /// The stored cells are those with a particle, each stored once, and the
    /// particles of every cell are in increasing order.
    pub proof fn lemma_occupied(self, cell: (usize, usize))
        requires
            self.wf(),
        ensures
            self.occupied().contains(cell) <==> self.members(cell).len() > 0,
            self.occupied().no_duplicates(),
            increasing(self.members(cell)),
    {
    }

    /// Bins `particles` by the grid of `cfg`.
    ///
    /// A configuration without cells or without extent is refused before any
    /// particle is looked at. On a bounded domain a particle outside it is
    /// refused too; on a cyclic domain every particle has a cell.
    pub fn build(particles: &[Particle], cfg: &SystemInfo) -> (built: Result<CellGrid, FinderError>)
        ensures
            match built {
                Ok(grid) => {
                    &&& cfg.usable()
                    &&& cfg.cyclic || forall|i: int|
                        0 <= i < particles@.len() ==> cfg.contains(#[trigger] particles@[i])
                    &&& grid.wf()
                    &&& grid.bins(particles@, *cfg)
                },
                Err(FinderError::EmptyGrid) => cfg.grid_size == 0,
                Err(FinderError::EmptyDomain) => cfg.grid_size != 0 && cfg.space_length == 0,
                Err(FinderError::OutsideDomain) => {
                    &&& cfg.usable()
                    &&& !cfg.cyclic
                    &&& exists|i: int|
                        0 <= i < particles@.len() && !cfg.contains(#[trigger] particles@[i])
                },
            },
    {
        if cfg.grid_size == 0 {
            return Err(FinderError::EmptyGrid);
        }
        if cfg.space_length == 0 {
            return Err(FinderError::EmptyDomain);
        }
        let mut grid = CellGrid { cells: Vec::new(), buckets: Vec::new(), index: HashMap::new() };
        let count: usize = particles.len();
        let mut i: usize = 0;
        while i < count
            invariant
                count == particles@.len(),
                i <= count,
                cfg.usable(),
                grid.wf(),
                grid.occupied() == cells_in_order(particles@, *cfg, i as nat),
                cfg.cyclic || forall|a: int| 0 <= a < i ==> cfg.contains(#[trigger] particles@[a]),
                forall|cell: (usize, usize), t: int|
                    0 <= t < grid.members(cell).len() ==> (#[trigger] grid.members(cell)[t]) < i
                        && in_cell(particles@[grid.members(cell)[t] as int], *cfg, cell),
                forall|cell: (usize, usize), a: int|
                    0 <= a < i && #[trigger] in_cell(particles@[a], *cfg, cell)
                        ==> grid.members(cell).contains(a as usize),
            decreases count - i,
        {
            match locate(&particles[i], cfg) {
                None => {
                    return Err(FinderError::OutsideDomain);
                },
                Some(cell) => {
                    let ghost before = grid;
                    grid.place(cell, i);
                    proof {
                        assert forall|other: (usize, usize), a: int|
                            0 <= a < i + 1 && #[trigger] in_cell(
                                particles@[a],
                                *cfg,
                                other,
                            ) implies grid.members(other).contains(a as usize) by {
                            if a < i {
                                let t = choose|t: int|
                                    0 <= t < before.members(other).len() && before.members(other)[t]
                                        == a as usize;
                                assert(grid.members(other)[t] == a as usize);
                            } else {
                                assert(grid.members(cell)[before.members(cell).len() as int] == i);
                            }
                        }
                    }
                },
            }
            i += 1;
        }
        Ok(grid)
    }

    fn place(&mut self, cell: (usize, usize), particle: usize)
        requires
            old(self).wf(),
            forall|t: int|
                0 <= t < old(self).members(cell).len() ==> old(self).members(cell)[t] < particle,
        ensures
            final(self).wf(),
            final(self).members(cell) == old(self).members(cell).push(particle),
            forall|other: (usize, usize)|
                other != cell ==> final(self).members(other) == old(self).members(other),
            final(self).occupied() == if old(self).occupied().contains(cell) {
                old(self).occupied()
            } else {
                old(self).occupied().push(cell)
            },
    {
        proof {
            old(self).lemma_occupied(cell);
        }
        let key: u128 = (cell.1 as u128) * 0x1_0000_0000_0000_0000 + (cell.0 as u128);
        let found = self.index.get(&key);
        match found {
            Some(slot) => {
                let k: usize = *slot;
                self.buckets[k].push(particle);
                proof {
                    assert forall|t: int| 0 <= t < self.buckets@.len() implies (
                    #[trigger] self.buckets@[t])@.len() > 0 && increasing(self.buckets@[t]@) by {
                        if t == k {
                            assert(old(self).buckets@[k as int]@ == old(self).members(cell));
                        }
                    }
                }
            },
            None => {
                let k: usize = self.cells.len();
                let mut only: Vec<usize> = Vec::new();
                only.push(particle);
                self.cells.push(cell);
                self.buckets.push(only);
                self.index.insert(key, k);
            },
        }
    }

    /// Number of cells that hold a particle.
    pub fn cell_count(&self) -> (count: usize)
        requires
            self.wf(),
        ensures
            count == self.occupied().len(),
    {
        self.cells.len()
    }

    /// The `k`-th cell that holds a particle.
    pub fn cell_at(&self, k: usize) -> (cell: (usize, usize))
        requires
            self.wf(),
            k < self.occupied().len(),
        ensures
            cell == self.occupied()[k as int],
    {
        self.cells[k]
    }

    /// The particles of the `k`-th cell that holds one.
    pub fn bucket_at(&self, k: usize) -> (bucket: &[usize])
        requires
            self.wf(),
            k < self.occupied().len(),
        ensures
            bucket@ == self.members(self.occupied()[k as int]),
            bucket@.len() > 0,
    {
        self.buckets[k].as_slice()
    }

    /// The particles of `cell`; empty for a cell that holds none.
    pub fn bucket(&self, cell: (usize, usize)) -> (bucket: &[usize])
        requires
            self.wf(),
        ensures
            bucket@ == self.members(cell),
    {
        let key: u128 = (cell.1 as u128) * 0x1_0000_0000_0000_0000 + (cell.0 as u128);
        match self.index.get(&key) {
            Some(slot) => self.buckets[*slot].as_slice(),
            None => &[],
        }
    }
}

} // verus!
