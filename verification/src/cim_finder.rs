//! The cell-index finder: the domain is cut into square cells, particles are
//! binned by cell, and only particles in nearby cells are tested.

use vstd::prelude::*;
use crate::grid::{cell_of, in_cell, lemma_cell_coordinate, CellGrid};
use crate::neighbor_map::NeighborMap;
use crate::particles::{
    is_within_cutoff, is_within_cutoff_wrapped, lemma_wrapped_gap_symmetric, reach_of,
    within_cutoff, within_cutoff_wrapped, Particle, ID,
};
use crate::stencil::{
    in_half_stencil, lemma_rings_needed_cover, lemma_stencil_reaches, ring_count, rings_cover,
    rings_needed, shift_axis, shifted, target,
};

verus! {

/// The domain and the cutoff of one search.
#[derive(Clone, Copy, Debug, PartialEq, Eq, Structural)]
pub struct SystemInfo {
    /// Whether opposite edges of the domain are joined, so that distances and
    /// cells wrap round.
    pub cyclic: bool,
    /// The largest distance between two surfaces that still counts.
    pub interaction_radius: i32,
    /// Side of the square domain.
    pub space_length: u32,
    /// Number of cells along each side.
    pub grid_size: usize,
}

/// Why a search was refused.
#[derive(Clone, Copy, Debug, PartialEq, Eq, Structural)]
pub enum FinderError {
    /// `grid_size` is 0: there is no cell to put a particle in.
    EmptyGrid,
    /// `space_length` is 0: the domain has no extent.
    EmptyDomain,
    /// The domain is bounded and a particle lies outside it.
    OutsideDomain,
}

impl SystemInfo {
    /// The configuration describes a grid: at least one cell, of positive side.
    pub open spec fn usable(self) -> bool {
        self.grid_size > 0 && self.space_length > 0
    }

    /// A coordinate lies within the domain.
    pub open spec fn spans(self, x: int) -> bool {
        0 <= x < self.space_length
    }

    /// A particle's centre lies within the domain.
    pub open spec fn contains(self, p: crate::particles::Particle) -> bool {
        self.spans(p.position.x as int) && self.spans(p.position.y as int)
    }
}

/// The interaction test of the domain: on a cyclic domain distances wrap
/// round, on a bounded one they do not.
pub open spec fn interacts(p: Particle, q: Particle, cfg: SystemInfo) -> bool {
    if cfg.cyclic {
        within_cutoff_wrapped(p, q, cfg.interaction_radius as int, cfg.space_length as int)
    } else {
        within_cutoff(p, q, cfg.interaction_radius as int)
    }
}

/// Particles number `i` and `j` carry the identifiers of `pair` and pass the
/// interaction test of the domain.
pub open spec fn linked_at(
    particles: Seq<Particle>,
    cfg: SystemInfo,
    i: int,
    j: int,
    pair: (ID, ID),
) -> bool {
    &&& 0 <= i < particles.len()
    &&& 0 <= j < particles.len()
    &&& particles[i].id == pair.0
    &&& particles[j].id == pair.1
    &&& interacts(particles[i], particles[j], cfg)
}

/// The neighbour relation of the domain: the ordered pairs of distinct
/// identifiers whose particles pass the interaction test.
pub open spec fn neighbor_pairs(particles: Seq<Particle>, cfg: SystemInfo) -> Set<(ID, ID)> {
    Set::new(
        |pair: (ID, ID)|
            pair.0 != pair.1 && exists|i: int, j: int| linked_at(particles, cfg, i, j, pair),
    )
}

/// The interaction test does not depend on the order of the two particles.
pub proof fn lemma_interacts_symmetric(p: Particle, q: Particle, cfg: SystemInfo)
    requires
        cfg.cyclic ==> cfg.space_length > 0,
    ensures
        interacts(p, q, cfg) == interacts(q, p, cfg),
{
    if cfg.cyclic {
        let side = cfg.space_length as int;
        lemma_wrapped_gap_symmetric(p.position.x as int, q.position.x as int, side);
        lemma_wrapped_gap_symmetric(p.position.y as int, q.position.y as int, side);
    }
}

/// Decides the interaction test of the domain.
pub fn interacting(p: &Particle, q: &Particle, cfg: &SystemInfo) -> (r: bool)
    requires
        cfg.cyclic ==> cfg.space_length > 0,
    ensures
        r == interacts(*p, *q, *cfg),
{
    if cfg.cyclic {
        is_within_cutoff_wrapped(p, q, cfg.interaction_radius, cfg.space_length)
    } else {
        is_within_cutoff(p, q, cfg.interaction_radius)
    }
}

/// The offset `(ox, oy)` leads from `cell` to the cell of particle number `j`.
spec fn hit(
    particles: Seq<Particle>,
    cfg: SystemInfo,
    cell: (usize, usize),
    ox: int,
    oy: int,
    j: int,
) -> bool {
    target(cell, ox, oy, cfg) == Some(cell_of(particles[j], cfg))
}

/// What the walk owes to particles number `i` and `j`: if they interact and
/// differ in identifier, `found` holds their pair.
spec fn served(
    found: Set<(ID, ID)>,
    particles: Seq<Particle>,
    cfg: SystemInfo,
    i: int,
    j: int,
) -> bool {
    particles[i].id != particles[j].id && interacts(particles[i], particles[j], cfg)
        ==> found.contains((particles[i].id, particles[j].id))
}

fn pair_one(
    particles: &[Particle],
    cfg: &SystemInfo,
    i: usize,
    bucket: &[usize],
    start: usize,
    map: &mut NeighborMap,
)
    requires
        cfg.usable(),
        i < particles@.len(),
        start <= bucket@.len(),
        forall|t: int| 0 <= t < bucket@.len() ==> bucket@[t] < particles@.len(),
        old(map).wf(),
        old(map)@.subset_of(neighbor_pairs(particles@, *cfg)),
    ensures
        final(map).wf(),
        final(map)@.subset_of(neighbor_pairs(particles@, *cfg)),
        old(map)@.subset_of(final(map)@),
        forall|t: int|
            start <= t < bucket@.len() ==> served(
                final(map)@,
                particles@,
                *cfg,
                i as int,
                #[trigger] bucket@[t] as int,
            ),
{
    let mut t: usize = start;
    while t < bucket.len()
        invariant
            cfg.usable(),
            i < particles@.len(),
            start <= t <= bucket@.len(),
            forall|u: int| 0 <= u < bucket@.len() ==> bucket@[u] < particles@.len(),
            map.wf(),
            map@.subset_of(neighbor_pairs(particles@, *cfg)),
            old(map)@.subset_of(map@),
            forall|u: int|
                start <= u < t ==> served(
                    map@,
                    particles@,
                    *cfg,
                    i as int,
                    #[trigger] bucket@[u] as int,
                ),
        decreases bucket@.len() - t,
    {
        let j: usize = bucket[t];
        if j != i && interacting(&particles[i], &particles[j], cfg) {
            proof {
                let p = particles@[i as int];
                let q = particles@[j as int];
                lemma_interacts_symmetric(p, q, *cfg);
                if p.id != q.id {
                    assert(linked_at(particles@, *cfg, i as int, j as int, (p.id, q.id)));
                    assert(linked_at(particles@, *cfg, j as int, i as int, (q.id, p.id)));
                }
            }
            map.add_pair(particles[i].id, particles[j].id);
        }
        t += 1;
    }
}

fn pair_across(
    particles: &[Particle],
    cfg: &SystemInfo,
    bucket: &[usize],
    other: &[usize],
    map: &mut NeighborMap,
)
    requires
        cfg.usable(),
        forall|s: int| 0 <= s < bucket@.len() ==> bucket@[s] < particles@.len(),
        forall|t: int| 0 <= t < other@.len() ==> other@[t] < particles@.len(),
        old(map).wf(),
        old(map)@.subset_of(neighbor_pairs(particles@, *cfg)),
    ensures
        final(map).wf(),
        final(map)@.subset_of(neighbor_pairs(particles@, *cfg)),
        old(map)@.subset_of(final(map)@),
        forall|s: int, t: int|
            0 <= s < bucket@.len() && 0 <= t < other@.len() ==> served(
                final(map)@,
                particles@,
                *cfg,
                #[trigger] bucket@[s] as int,
                #[trigger] other@[t] as int,
            ),
{
    let mut s: usize = 0;
    while s < bucket.len()
        invariant
            cfg.usable(),
            s <= bucket@.len(),
            forall|u: int| 0 <= u < bucket@.len() ==> bucket@[u] < particles@.len(),
            forall|t: int| 0 <= t < other@.len() ==> other@[t] < particles@.len(),
            map.wf(),
            map@.subset_of(neighbor_pairs(particles@, *cfg)),
            old(map)@.subset_of(map@),
            forall|u: int, t: int|
                0 <= u < s && 0 <= t < other@.len() ==> served(
                    map@,
                    particles@,
                    *cfg,
                    #[trigger] bucket@[u] as int,
                    #[trigger] other@[t] as int,
                ),
        decreases bucket@.len() - s,
    {
        pair_one(particles, cfg, bucket[s], other, 0, map);
        s += 1;
    }
}

fn pair_within(particles: &[Particle], cfg: &SystemInfo, bucket: &[usize], map: &mut NeighborMap)
    requires
        cfg.usable(),
        forall|s: int| 0 <= s < bucket@.len() ==> bucket@[s] < particles@.len(),
        old(map).wf(),
        old(map)@.subset_of(neighbor_pairs(particles@, *cfg)),
    ensures
        final(map).wf(),
        final(map)@.subset_of(neighbor_pairs(particles@, *cfg)),
        old(map)@.subset_of(final(map)@),
        forall|s: int, t: int|
            0 <= s < t < bucket@.len() ==> served(
                final(map)@,
                particles@,
                *cfg,
                #[trigger] bucket@[s] as int,
                #[trigger] bucket@[t] as int,
            ),
{
    let mut s: usize = 0;
    while s < bucket.len()
        invariant
            cfg.usable(),
            s <= bucket@.len(),
            forall|u: int| 0 <= u < bucket@.len() ==> bucket@[u] < particles@.len(),
            map.wf(),
            map@.subset_of(neighbor_pairs(particles@, *cfg)),
            old(map)@.subset_of(map@),
            forall|u: int, t: int|
                0 <= u < s && u < t < bucket@.len() ==> served(
                    map@,
                    particles@,
                    *cfg,
                    #[trigger] bucket@[u] as int,
                    #[trigger] bucket@[t] as int,
                ),
        decreases bucket@.len() - s,
    {
        pair_one(particles, cfg, bucket[s], bucket, s + 1, map);
        s += 1;
    }
}

fn visit_row(
    particles: &[Particle],
    cfg: &SystemInfo,
    grid: &CellGrid,
    rings: usize,
    cell: (usize, usize),
    bucket: &[usize],
    oy: usize,
    map: &mut NeighborMap,
)
    requires
        cfg.usable(),
        grid.wf(),
        grid.bins(particles@, *cfg),
        particles@.len() <= usize::MAX,
        rings < cfg.grid_size,
        oy <= rings,
        cell.0 < cfg.grid_size,
        cell.1 < cfg.grid_size,
        forall|s: int| 0 <= s < bucket@.len() ==> bucket@[s] < particles@.len(),
        old(map).wf(),
        old(map)@.subset_of(neighbor_pairs(particles@, *cfg)),
    ensures
        final(map).wf(),
        final(map)@.subset_of(neighbor_pairs(particles@, *cfg)),
        old(map)@.subset_of(final(map)@),
        forall|ox: int, s: int, j: int|
            #![trigger hit(particles@, *cfg, cell, ox, oy as int, j), bucket@[s]]
            in_half_stencil(ox, oy as int, rings as int) && 0 <= s < bucket@.len() && 0 <= j
                < particles@.len() && hit(particles@, *cfg, cell, ox, oy as int, j) ==> served(
                final(map)@,
                particles@,
                *cfg,
                bucket@[s] as int,
                j,
            ),
{
    let row = match shift_axis(cell.1, oy as i128, cfg) {
        Some(row) => row,
        None => {
            return ;
        },
    };
    let first: i128 = if oy == 0 {
        1
    } else {
        -(rings as i128)
    };
    let mut ox: i128 = first;
    while ox <= rings as i128
        invariant
            cfg.usable(),
            grid.wf(),
            grid.bins(particles@, *cfg),
            particles@.len() <= usize::MAX,
            rings < cfg.grid_size,
            oy <= rings,
            cell.0 < cfg.grid_size,
            cell.1 < cfg.grid_size,
            row < cfg.grid_size,
            shifted(cell.1 as int, oy as int, *cfg) == Some(row as int),
            first == (if oy == 0 {
                1
            } else {
                -(rings as int)
            }),
            first <= ox <= rings + 1,
            forall|s: int| 0 <= s < bucket@.len() ==> bucket@[s] < particles@.len(),
            map.wf(),
            map@.subset_of(neighbor_pairs(particles@, *cfg)),
            old(map)@.subset_of(map@),
            forall|o: int, s: int, j: int|
                #![trigger hit(particles@, *cfg, cell, o, oy as int, j), bucket@[s]]
                first <= o < ox && 0 <= s < bucket@.len() && 0 <= j < particles@.len() && hit(
                    particles@,
                    *cfg,
                    cell,
                    o,
                    oy as int,
                    j,
                ) ==> served(map@, particles@, *cfg, bucket@[s] as int, j),
        decreases rings + 1 - ox,
    {
        match shift_axis(cell.0, ox, cfg) {
            Some(column) => {
                let other = grid.bucket((column, row));
                pair_across(particles, cfg, bucket, other, map);
                proof {
                    assert forall|s: int, j: int|
                        #![trigger hit(particles@, *cfg, cell, ox as int, oy as int, j), bucket@[s]]
                        0 <= s < bucket@.len() && 0 <= j < particles@.len() && hit(
                            particles@,
                            *cfg,
                            cell,
                            ox as int,
                            oy as int,
                            j,
                        ) implies served(map@, particles@, *cfg, bucket@[s] as int, j) by {
                        assert(in_cell(particles@[j], *cfg, (column, row)));
                    }
                }
            },
            None => {},
        }
        ox += 1;
    }
}

fn visit_cell(
    particles: &[Particle],
    cfg: &SystemInfo,
    grid: &CellGrid,
    rings: usize,
    k: usize,
    map: &mut NeighborMap,
)
    requires
        cfg.usable(),
        cfg.cyclic || forall|i: int|
            0 <= i < particles@.len() ==> cfg.contains(#[trigger] particles@[i]),
        grid.wf(),
        grid.bins(particles@, *cfg),
        rings < cfg.grid_size,
        k < grid.occupied().len(),
        old(map).wf(),
        old(map)@.subset_of(neighbor_pairs(particles@, *cfg)),
    ensures
        final(map).wf(),
        final(map)@.subset_of(neighbor_pairs(particles@, *cfg)),
        old(map)@.subset_of(final(map)@),
        cell_served(final(map)@, particles@, *cfg, *grid, rings as int, k as int),
{
    let cell = grid.cell_at(k);
    let bucket = grid.bucket_at(k);
    proof {
        assert(particles@.len() == particles.len());
        let first = bucket@[0] as int;
        lemma_cell_coordinate(particles@[first].position.x as int, *cfg);
        lemma_cell_coordinate(particles@[first].position.y as int, *cfg);
    }
    pair_within(particles, cfg, bucket, map);
    let mut oy: usize = 0;
    while oy <= rings
        invariant
            cfg.usable(),
            grid.wf(),
            grid.bins(particles@, *cfg),
            particles@.len() <= usize::MAX,
            rings < cfg.grid_size,
            oy <= rings + 1,
            cell.0 < cfg.grid_size,
            cell.1 < cfg.grid_size,
            forall|s: int| 0 <= s < bucket@.len() ==> bucket@[s] < particles@.len(),
            map.wf(),
            map@.subset_of(neighbor_pairs(particles@, *cfg)),
            old(map)@.subset_of(map@),
            forall|s: int, t: int|
                0 <= s < t < bucket@.len() ==> served(
                    map@,
                    particles@,
                    *cfg,
                    #[trigger] bucket@[s] as int,
                    #[trigger] bucket@[t] as int,
                ),
            forall|ox: int, o: int, s: int, j: int|
                #![trigger hit(particles@, *cfg, cell, ox, o, j), bucket@[s]]
                0 <= o < oy && in_half_stencil(ox, o, rings as int) && 0 <= s < bucket@.len() && 0
                    <= j < particles@.len() && hit(particles@, *cfg, cell, ox, o, j) ==> served(
                    map@,
                    particles@,
                    *cfg,
                    bucket@[s] as int,
                    j,
                ),
        decreases rings + 1 - oy,
    {
        visit_row(particles, cfg, grid, rings, cell, bucket, oy, map);
        oy += 1;
    }
}

/// The walk has dealt with the `k`-th occupied cell: every pair within the
/// cell is served, and so is every pair that the half stencil leads to from it.
spec fn cell_served(
    found: Set<(ID, ID)>,
    particles: Seq<Particle>,
    cfg: SystemInfo,
    grid: CellGrid,
    rings: int,
    k: int,
) -> bool {
    let cell = grid.occupied()[k];
    let bucket = grid.members(cell);
    &&& forall|s: int, t: int|
        0 <= s < t < bucket.len() ==> served(
            found,
            particles,
            cfg,
            #[trigger] bucket[s] as int,
            #[trigger] bucket[t] as int,
        )
    &&& forall|ox: int, oy: int, s: int, j: int|
        #![trigger hit(particles, cfg, cell, ox, oy, j), bucket[s]]
        in_half_stencil(ox, oy, rings) && 0 <= s < bucket.len() && 0 <= j < particles.len() && hit(
            particles,
            cfg,
            cell,
            ox,
            oy,
            j,
        ) ==> served(found, particles, cfg, bucket[s] as int, j)
}

proof fn lemma_served_grows(
    found: Set<(ID, ID)>,
    more: Set<(ID, ID)>,
    particles: Seq<Particle>,
    cfg: SystemInfo,
    grid: CellGrid,
    rings: int,
    k: int,
)
    requires
        found.subset_of(more),
        cell_served(found, particles, cfg, grid, rings, k),
    ensures
        cell_served(more, particles, cfg, grid, rings, k),
{
}

/// Pairs the cells by the half stencil: every cell with itself and with the
/// cells that the offsets lead to.
fn walk_stencil(
    particles: &[Particle],
    cfg: &SystemInfo,
    grid: &CellGrid,
    rings: usize,
    map: &mut NeighborMap,
)
    requires
        cfg.usable(),
        cfg.cyclic || forall|i: int|
            0 <= i < particles@.len() ==> cfg.contains(#[trigger] particles@[i]),
        grid.wf(),
        grid.bins(particles@, *cfg),
        rings == rings_needed(particles@, *cfg),
        rings < cfg.grid_size,
        old(map).wf(),
        old(map)@.subset_of(neighbor_pairs(particles@, *cfg)),
    ensures
        final(map).wf(),
        final(map)@ == neighbor_pairs(particles@, *cfg),
{
    let ghost goal = neighbor_pairs(particles@, *cfg);
    let cells: usize = grid.cell_count();
    let mut k: usize = 0;
    while k < cells
        invariant
            cfg.usable(),
            cfg.cyclic || forall|i: int|
                0 <= i < particles@.len() ==> cfg.contains(#[trigger] particles@[i]),
            grid.wf(),
            grid.bins(particles@, *cfg),
            rings == rings_needed(particles@, *cfg),
            rings < cfg.grid_size,
            cells == grid.occupied().len(),
            k <= cells,
            map.wf(),
            goal == neighbor_pairs(particles@, *cfg),
            map@.subset_of(goal),
            forall|c: int|
                0 <= c < k ==> #[trigger] cell_served(
                    map@,
                    particles@,
                    *cfg,
                    *grid,
                    rings as int,
                    c,
                ),
        decreases cells - k,
    {
        let ghost before = map@;
        visit_cell(particles, cfg, grid, rings, k, map);
        proof {
            assert forall|c: int| 0 <= c < k implies #[trigger] cell_served(
                map@,
                particles@,
                *cfg,
                *grid,
                rings as int,
                c,
            ) by {
                lemma_served_grows(before, map@, particles@, *cfg, *grid, rings as int, c);
            }
        }
        k += 1;
    }
    proof {
        assert(particles@.len() == particles.len());
        assert forall|pair: (ID, ID)| goal.contains(pair) implies map@.contains(pair) by {
            let (i, j) = choose|i: int, j: int| linked_at(particles@, *cfg, i, j, pair);
            lemma_rings_needed_cover(particles@, *cfg, i, j);
            lemma_walk_is_complete(*map, particles@, *cfg, *grid, rings as int, i, j);
        }
    }
}

/// The sweep has dealt with the `k`-th occupied cell: every pair within the
/// cell is served, and so is every pair of one of its particles with one of a
/// cell further on.
spec fn cell_swept(
    found: Set<(ID, ID)>,
    particles: Seq<Particle>,
    cfg: SystemInfo,
    grid: CellGrid,
    k: int,
) -> bool {
    let bucket = grid.members(grid.occupied()[k]);
    &&& forall|s: int, t: int|
        0 <= s < t < bucket.len() ==> served(
            found,
            particles,
            cfg,
            #[trigger] bucket[s] as int,
            #[trigger] bucket[t] as int,
        )
    &&& forall|c: int, s: int, t: int|
        #![trigger bucket[s], grid.members(grid.occupied()[c])[t]]
        k < c < grid.occupied().len() && 0 <= s < bucket.len() && 0 <= t < grid.members(
            grid.occupied()[c],
        ).len() ==> served(
            found,
            particles,
            cfg,
            bucket[s] as int,
            grid.members(grid.occupied()[c])[t] as int,
        )
}

proof fn lemma_swept_grows(
    found: Set<(ID, ID)>,
    more: Set<(ID, ID)>,
    particles: Seq<Particle>,
    cfg: SystemInfo,
    grid: CellGrid,
    k: int,
)
    requires
        found.subset_of(more),
        cell_swept(found, particles, cfg, grid, k),
    ensures
        cell_swept(more, particles, cfg, grid, k),
{
}

fn sweep_cell(
    particles: &[Particle],
    cfg: &SystemInfo,
    grid: &CellGrid,
    k: usize,
    map: &mut NeighborMap,
)
    requires
        cfg.usable(),
        grid.wf(),
        grid.bins(particles@, *cfg),
        k < grid.occupied().len(),
        old(map).wf(),
        old(map)@.subset_of(neighbor_pairs(particles@, *cfg)),
    ensures
        final(map).wf(),
        final(map)@.subset_of(neighbor_pairs(particles@, *cfg)),
        old(map)@.subset_of(final(map)@),
        cell_swept(final(map)@, particles@, *cfg, *grid, k as int),
{
    let bucket = grid.bucket_at(k);
    let cells: usize = grid.cell_count();
    pair_within(particles, cfg, bucket, map);
    let mut c: usize = k + 1;
    while c < cells
        invariant
            cfg.usable(),
            grid.wf(),
            grid.bins(particles@, *cfg),
            cells == grid.occupied().len(),
            k < c <= cells,
            bucket@ == grid.members(grid.occupied()[k as int]),
            forall|s: int| 0 <= s < bucket@.len() ==> bucket@[s] < particles@.len(),
            map.wf(),
            map@.subset_of(neighbor_pairs(particles@, *cfg)),
            old(map)@.subset_of(map@),
            forall|s: int, t: int|
                0 <= s < t < bucket@.len() ==> served(
                    map@,
                    particles@,
                    *cfg,
                    #[trigger] bucket@[s] as int,
                    #[trigger] bucket@[t] as int,
                ),
            forall|d: int, s: int, t: int|
                #![trigger bucket@[s], grid.members(grid.occupied()[d])[t]]
                k < d < c && 0 <= s < bucket@.len() && 0 <= t < grid.members(
                    grid.occupied()[d],
                ).len() ==> served(
                    map@,
                    particles@,
                    *cfg,
                    bucket@[s] as int,
                    grid.members(grid.occupied()[d])[t] as int,
                ),
        decreases cells - c,
    {
        let other = grid.bucket_at(c);
        pair_across(particles, cfg, bucket, other, map);
        c += 1;
    }
}

/// Pairs the occupied cells with each other, whatever lies between them: every
/// cell with itself and with every cell further on.
fn walk_cells(particles: &[Particle], cfg: &SystemInfo, grid: &CellGrid, map: &mut NeighborMap)
    requires
        cfg.usable(),
        cfg.cyclic || forall|i: int|
            0 <= i < particles@.len() ==> cfg.contains(#[trigger] particles@[i]),
        grid.wf(),
        grid.bins(particles@, *cfg),
        old(map).wf(),
        old(map)@.subset_of(neighbor_pairs(particles@, *cfg)),
    ensures
        final(map).wf(),
        final(map)@ == neighbor_pairs(particles@, *cfg),
{
    let ghost goal = neighbor_pairs(particles@, *cfg);
    let cells: usize = grid.cell_count();
    let mut k: usize = 0;
    while k < cells
        invariant
            cfg.usable(),
            grid.wf(),
            grid.bins(particles@, *cfg),
            cells == grid.occupied().len(),
            k <= cells,
            map.wf(),
            goal == neighbor_pairs(particles@, *cfg),
            map@.subset_of(goal),
            forall|c: int|
                0 <= c < k ==> #[trigger] cell_swept(map@, particles@, *cfg, *grid, c),
        decreases cells - k,
    {
        let ghost before = map@;
        sweep_cell(particles, cfg, grid, k, map);
        proof {
            assert forall|c: int| 0 <= c < k implies #[trigger] cell_swept(
                map@,
                particles@,
                *cfg,
                *grid,
                c,
            ) by {
                lemma_swept_grows(before, map@, particles@, *cfg, *grid, c);
            }
        }
        k += 1;
    }
    proof {
        assert(particles@.len() == particles.len());
        assert forall|pair: (ID, ID)| goal.contains(pair) implies map@.contains(pair) by {
            let (i, j) = choose|i: int, j: int| linked_at(particles@, *cfg, i, j, pair);
            lemma_sweep_is_complete(*map, particles@, *cfg, *grid, i, j);
        }
    }
}

proof fn lemma_sweep_is_complete(
    map: NeighborMap,
    particles: Seq<Particle>,
    cfg: SystemInfo,
    grid: CellGrid,
    i: int,
    j: int,
)
    requires
        cfg.usable(),
        cfg.cyclic || forall|a: int| 0 <= a < particles.len() ==> cfg.contains(#[trigger] particles[a]),
        grid.wf(),
        grid.bins(particles, cfg),
        particles.len() <= usize::MAX,
        map.wf(),
        0 <= i < particles.len(),
        0 <= j < particles.len(),
        particles[i].id != particles[j].id,
        interacts(particles[i], particles[j], cfg),
        forall|c: int|
            0 <= c < grid.occupied().len() ==> #[trigger] cell_swept(map@, particles, cfg, grid, c),
    ensures
        map@.contains((particles[i].id, particles[j].id)),
{
    let p = particles[i];
    let q = particles[j];
    lemma_cell_coordinate(p.position.x as int, cfg);
    lemma_cell_coordinate(p.position.y as int, cfg);
    lemma_cell_coordinate(q.position.x as int, cfg);
    lemma_cell_coordinate(q.position.y as int, cfg);
    let from = (cell_of(p, cfg).0 as usize, cell_of(p, cfg).1 as usize);
    let to = (cell_of(q, cfg).0 as usize, cell_of(q, cfg).1 as usize);
    assert(in_cell(p, cfg, from));
    assert(in_cell(q, cfg, to));
    grid.lemma_occupied(from);
    grid.lemma_occupied(to);
    let a = choose|a: int| 0 <= a < grid.occupied().len() && grid.occupied()[a] == from;
    let b = choose|b: int| 0 <= b < grid.occupied().len() && grid.occupied()[b] == to;
    assert(cell_swept(map@, particles, cfg, grid, a));
    assert(cell_swept(map@, particles, cfg, grid, b));
    lemma_interacts_symmetric(p, q, cfg);
    map.lemma_symmetric(p.id, q.id);
}

/// Finds the neighbours of every particle with the cell-index method.
///
/// A configuration without cells or without extent is refused, and so is a
/// particle outside a bounded domain. Every other input is served in full,
/// whatever the cutoff: where one ring of cells is narrower than the largest
/// reach among the particles, the walk takes as many rings as cover it; and
/// where that makes the stencil larger than the set of cells in use, the cells
/// in use are paired with each other instead. An empty set, and a cutoff that
/// no pair meets, give the empty map.
pub fn find_neighbors(particles: &[Particle], cfg: SystemInfo) -> (found: Result<
    NeighborMap,
    FinderError,
>)
    ensures
        match found {
            Ok(map) => {
                &&& cfg.usable()
                &&& cfg.cyclic || forall|i: int|
                    0 <= i < particles@.len() ==> cfg.contains(#[trigger] particles@[i])
                &&& map.wf()
                &&& map@ == neighbor_pairs(particles@, cfg)
            },
            Err(FinderError::EmptyGrid) => cfg.grid_size == 0,
            Err(FinderError::EmptyDomain) => cfg.grid_size != 0 && cfg.space_length == 0,
            Err(FinderError::OutsideDomain) => {
                &&& cfg.usable()
                &&& !cfg.cyclic
                &&& exists|i: int|
                    0 <= i < particles@.len() && !cfg.contains(#[trigger] particles@[i])
            },
        },
{
    let grid = match CellGrid::build(particles, &cfg) {
        Ok(grid) => grid,
        Err(refusal) => {
            return Err(refusal);
        },
    };
    let rings: usize = ring_count(particles, &cfg);
    let cells: usize = grid.cell_count();
    let mut map = NeighborMap::new();
    if stencil_outgrows(rings, cells) {
        walk_cells(particles, &cfg, &grid, &mut map);
    } else {
        walk_stencil(particles, &cfg, &grid, rings, &mut map);
    }
    Ok(map)
}

/// Whether a stencil of `rings` rings holds more cells than the `cells` in use:
/// taken to be so once the square of the rings reaches their number.
fn stencil_outgrows(rings: usize, cells: usize) -> (outgrows: bool)
    ensures
        outgrows == (rings * rings >= cells),
{
    assert(rings * rings <= 0xffff_ffff_ffff_ffff * 0xffff_ffff_ffff_ffff) by (nonlinear_arith)
        requires
            rings <= 0xffff_ffff_ffff_ffff,
    ;
    (rings as u128) * (rings as u128) >= cells as u128
}

proof fn lemma_walk_is_complete(
    map: NeighborMap,
    particles: Seq<Particle>,
    cfg: SystemInfo,
    grid: CellGrid,
    rings: int,
    i: int,
    j: int,
)
    requires
        cfg.usable(),
        cfg.cyclic || forall|a: int| 0 <= a < particles.len() ==> cfg.contains(#[trigger] particles[a]),
        grid.wf(),
        grid.bins(particles, cfg),
        particles.len() <= usize::MAX,
        map.wf(),
        0 <= i < particles.len(),
        0 <= j < particles.len(),
        particles[i].id != particles[j].id,
        interacts(particles[i], particles[j], cfg),
        rings_cover(rings, reach_of(particles[i], particles[j], cfg.interaction_radius as int), cfg),
        forall|c: int|
            0 <= c < grid.occupied().len() ==> #[trigger] cell_served(
                map@,
                particles,
                cfg,
                grid,
                rings,
                c,
            ),
    ensures
        map@.contains((particles[i].id, particles[j].id)),
{
    let p = particles[i];
    let q = particles[j];
    lemma_cell_coordinate(p.position.x as int, cfg);
    lemma_cell_coordinate(p.position.y as int, cfg);
    lemma_cell_coordinate(q.position.x as int, cfg);
    lemma_cell_coordinate(q.position.y as int, cfg);
    let from = (cell_of(p, cfg).0 as usize, cell_of(p, cfg).1 as usize);
    let to = (cell_of(q, cfg).0 as usize, cell_of(q, cfg).1 as usize);
    assert(in_cell(p, cfg, from));
    assert(in_cell(q, cfg, to));
    grid.lemma_occupied(from);
    grid.lemma_occupied(to);
    let a = choose|a: int| 0 <= a < grid.occupied().len() && grid.occupied()[a] == from;
    let b = choose|b: int| 0 <= b < grid.occupied().len() && grid.occupied()[b] == to;
    assert(cell_served(map@, particles, cfg, grid, rings, a));
    assert(cell_served(map@, particles, cfg, grid, rings, b));
    lemma_interacts_symmetric(p, q, cfg);
    map.lemma_symmetric(p.id, q.id);
    let offset = lemma_stencil_reaches(p, q, from, to, cfg, rings);
    if in_half_stencil(offset.0, offset.1, rings) && target(from, offset.0, offset.1, cfg) == Some(
        cell_of(q, cfg),
    ) {
        assert(hit(particles, cfg, from, offset.0, offset.1, j));
    } else if from != to {
        assert(hit(particles, cfg, to, -offset.0, -offset.1, i));
    }
}

} // verus!
