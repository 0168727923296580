//! What holds of the two finders on every input.

use vstd::prelude::*;
use crate::brute_force::{bruteforce_pairs, related_at};
use crate::cim_finder::{interacts, linked_at, neighbor_pairs, SystemInfo};
use crate::neighbor_map::NeighborMap;
use crate::particles::{
    direct_gap, reach_of, within_cutoff, within_cutoff_wrapped, wrapped_gap, Particle, ID,
};

verus! {

/// No two particles of the set share an identifier.
pub open spec fn distinct_ids(particles: Seq<Particle>) -> bool {
    forall|a: int, b: int|
        0 <= a < b < particles.len() ==> particles[a].id != particles[b].id
}

/// On a bounded domain the cell-index finder relates exactly the particles that
/// the all-pairs finder relates, whatever the grid and the cutoff.
pub proof fn lemma_bounded_search_matches_all_pairs(particles: Seq<Particle>, cfg: SystemInfo)
    requires
        !cfg.cyclic,
    ensures
        neighbor_pairs(particles, cfg) == bruteforce_pairs(
            particles,
            cfg.interaction_radius as int,
        ),
{
    let fast = neighbor_pairs(particles, cfg);
    let slow = bruteforce_pairs(particles, cfg.interaction_radius as int);
    assert forall|pair: (ID, ID)| fast.contains(pair) <==> slow.contains(pair) by {
        if fast.contains(pair) {
            let (i, j) = choose|i: int, j: int| linked_at(particles, cfg, i, j, pair);
            assert(related_at(particles, cfg.interaction_radius as int, i, j, pair));
        }
        if slow.contains(pair) {
            let (i, j) = choose|i: int, j: int|
                related_at(particles, cfg.interaction_radius as int, i, j, pair);
            assert(linked_at(particles, cfg, i, j, pair));
        }
    }
}

/// Two maps that hold the same relation list the same particles, and give
/// each the same neighbours; only the order may differ. So do the maps that
/// the two finders return for the same particles on a bounded domain.
pub proof fn lemma_same_relation_same_neighbors(first: NeighborMap, second: NeighborMap)
    requires
        first.wf(),
        second.wf(),
        first@ == second@,
    ensures
        first.keys().to_set() == second.keys().to_set(),
        forall|id: ID| first.neighbors(id) == second.neighbors(id),
        forall|id: ID|
            (#[trigger] first.neighbor_seq(id)).to_set() == second.neighbor_seq(id).to_set(),
{
    assert forall|id: ID|
        (#[trigger] first.neighbor_seq(id)).to_set() == second.neighbor_seq(id).to_set() by {
        first.lemma_view_is_listing(id, id);
        second.lemma_view_is_listing(id, id);
    }
    assert forall|id: ID| first.keys().to_set().contains(id) <==> second.keys().to_set().contains(
        id,
    ) by {
        first.lemma_keys_have_neighbors(id);
        second.lemma_keys_have_neighbors(id);
    }
}

/// On a cyclic domain two particles whose distance the shortest way round
/// passes the test are neighbours, however far apart they lie the direct way.
pub proof fn lemma_cyclic_search_wraps(particles: Seq<Particle>, cfg: SystemInfo, i: int, j: int)
    requires
        cfg.cyclic,
        0 <= i < particles.len(),
        0 <= j < particles.len(),
        particles[i].id != particles[j].id,
        within_cutoff_wrapped(
            particles[i],
            particles[j],
            cfg.interaction_radius as int,
            cfg.space_length as int,
        ),
    ensures
        neighbor_pairs(particles, cfg).contains((particles[i].id, particles[j].id)),
{
    assert(linked_at(particles, cfg, i, j, (particles[i].id, particles[j].id)));
}

/// On a bounded domain nothing wraps: two particles that fail the test of the
/// unbounded plane are not neighbours, however close they lie across an edge.
pub proof fn lemma_bounded_search_does_not_wrap(
    particles: Seq<Particle>,
    cfg: SystemInfo,
    i: int,
    j: int,
)
    requires
        !cfg.cyclic,
        distinct_ids(particles),
        0 <= i < particles.len(),
        0 <= j < particles.len(),
        !within_cutoff(particles[i], particles[j], cfg.interaction_radius as int),
    ensures
        !neighbor_pairs(particles, cfg).contains((particles[i].id, particles[j].id)),
{
}

/// Where identifiers are unique, two particles are neighbours exactly when
/// they are two and pass the interaction test.
pub proof fn lemma_pairs_of_distinct_ids(particles: Seq<Particle>, cfg: SystemInfo, i: int, j: int)
    requires
        distinct_ids(particles),
        0 <= i < particles.len(),
        0 <= j < particles.len(),
    ensures
        neighbor_pairs(particles, cfg).contains((particles[i].id, particles[j].id)) <==> i != j
            && interacts(particles[i], particles[j], cfg),
{
    let pair = (particles[i].id, particles[j].id);
    if i != j && interacts(particles[i], particles[j], cfg) {
        assert(linked_at(particles, cfg, i, j, pair));
    }
}

/// Fewer than two particles have no neighbours, under either finder.
pub proof fn lemma_lone_particle_has_no_neighbors(particles: Seq<Particle>, cfg: SystemInfo)
    requires
        particles.len() <= 1,
    ensures
        neighbor_pairs(particles, cfg) == Set::<(ID, ID)>::empty(),
        bruteforce_pairs(particles, cfg.interaction_radius as int) == Set::<(ID, ID)>::empty(),
{
}

/// Under a negative cutoff point particles have no neighbours: only discs
/// that overlap by as much as the cutoff is negative pass the test.
pub proof fn lemma_negative_cutoff_relates_no_points(particles: Seq<Particle>, cfg: SystemInfo)
    requires
        cfg.interaction_radius < 0,
        forall|i: int| 0 <= i < particles.len() ==> (#[trigger] particles[i]).radius == 0,
    ensures
        neighbor_pairs(particles, cfg) == Set::<(ID, ID)>::empty(),
        bruteforce_pairs(particles, cfg.interaction_radius as int) == Set::<(ID, ID)>::empty(),
{
}

/// Two searches of the same particles under the same configuration relate the
/// same particles: the relation is a function of the input, and only the order
/// within the lists is left open.
pub proof fn lemma_search_is_repeatable(
    particles: Seq<Particle>,
    cfg: SystemInfo,
    first: NeighborMap,
    second: NeighborMap,
)
    requires
        first@ == neighbor_pairs(particles, cfg),
        second@ == neighbor_pairs(particles, cfg),
    ensures
        first@ == second@,
        forall|id: ID| first.neighbors(id) == second.neighbors(id),
{
}

/// The cutoff is inclusive: two particles whose surfaces are exactly the
/// cutoff apart pass the test, in the plane and on the torus.
pub proof fn lemma_boundary_is_included(p: Particle, q: Particle, cutoff: int, period: int)
    ensures
        ({
            let reach = reach_of(p, q, cutoff);
            let dx = direct_gap(p.position.x as int, q.position.x as int);
            let dy = direct_gap(p.position.y as int, q.position.y as int);
            reach >= 0 && dx * dx + dy * dy == reach * reach ==> within_cutoff(p, q, cutoff)
        }),
        ({
            let reach = reach_of(p, q, cutoff);
            let dx = wrapped_gap(p.position.x as int, q.position.x as int, period);
            let dy = wrapped_gap(p.position.y as int, q.position.y as int, period);
            reach >= 0 && dx * dx + dy * dy == reach * reach ==> within_cutoff_wrapped(
                p,
                q,
                cutoff,
                period,
            )
        }),
{
}

} // verus!
