//! The all-pairs finder: every pair of particles is tested, with no spatial
//! index and no wrap-around. It is slow and plainly right, which makes it the
//! measure for the cell-index finder.

use vstd::prelude::*;
use crate::neighbor_map::NeighborMap;
use crate::particles::{is_within_cutoff, within_cutoff, Particle, ID};

verus! {

/// Particles number `i` and `j` carry the identifiers of `pair` and pass the
/// interaction test of the unbounded plane.
pub open spec fn related_at(
    particles: Seq<Particle>,
    cutoff: int,
    i: int,
    j: int,
    pair: (ID, ID),
) -> bool {
    &&& 0 <= i < particles.len()
    &&& 0 <= j < particles.len()
    &&& particles[i].id == pair.0
    &&& particles[j].id == pair.1
    &&& within_cutoff(particles[i], particles[j], cutoff)
}

/// The neighbour relation of the unbounded plane: the ordered pairs of distinct
/// identifiers whose particles pass the interaction test.
pub open spec fn bruteforce_pairs(particles: Seq<Particle>, cutoff: int) -> Set<(ID, ID)> {
    Set::new(
        |pair: (ID, ID)|
            pair.0 != pair.1 && exists|i: int, j: int|
                related_at(particles, cutoff, i, j, pair),
    )
}

/// The interaction test does not depend on the order of the two particles.
pub proof fn lemma_within_cutoff_symmetric(p: Particle, q: Particle, cutoff: int)
    ensures
        within_cutoff(p, q, cutoff) == within_cutoff(q, p, cutoff),
{
}

/// Finds the neighbours of every particle by testing all pairs: every two
/// particles once, the earlier of the set first.
///
/// Any particle set and any cutoff is accepted: an empty set, and a cutoff that
/// no pair meets, give the empty map.
pub fn find_neighbors_bruteforce(particles: &[Particle], interaction_radius: i32) -> (map:
    NeighborMap)
    ensures
        map.wf(),
        map@ == bruteforce_pairs(particles@, interaction_radius as int),
{
    let ghost goal = bruteforce_pairs(particles@, interaction_radius as int);
    let count: usize = particles.len();
    let mut map = NeighborMap::new();
    let mut i: usize = 0;
    while i < count
        invariant
            count == particles@.len(),
            i <= count,
            map.wf(),
            goal == bruteforce_pairs(particles@, interaction_radius as int),
            map@.subset_of(goal),
            forall|a: int, b: int|
                0 <= a < i && a < b < count && particles@[a].id != particles@[b].id
                    && #[trigger] within_cutoff(
                    particles@[a],
                    particles@[b],
                    interaction_radius as int,
                ) ==> map@.contains((particles@[a].id, particles@[b].id)),
        decreases count - i,
    {
        let mut j: usize = i + 1;
        while j < count
            invariant
                count == particles@.len(),
                i < count,
                i < j <= count,
                map.wf(),
                goal == bruteforce_pairs(particles@, interaction_radius as int),
                map@.subset_of(goal),
                forall|a: int, b: int|
                    0 <= a < i && a < b < count && particles@[a].id != particles@[b].id
                        && #[trigger] within_cutoff(
                        particles@[a],
                        particles@[b],
                        interaction_radius as int,
                    ) ==> map@.contains((particles@[a].id, particles@[b].id)),
                forall|b: int|
                    i < b < j && particles@[i as int].id != particles@[b].id
                        && #[trigger] within_cutoff(
                        particles@[i as int],
                        particles@[b],
                        interaction_radius as int,
                    ) ==> map@.contains((particles@[i as int].id, particles@[b].id)),
            decreases count - j,
        {
            if is_within_cutoff(&particles[i], &particles[j], interaction_radius) {
                proof {
                    let p = particles@[i as int];
                    let q = particles@[j as int];
                    if p.id != q.id {
                        assert(related_at(
                            particles@,
                            interaction_radius as int,
                            i as int,
                            j as int,
                            (p.id, q.id),
                        ));
                        assert(related_at(
                            particles@,
                            interaction_radius as int,
                            j as int,
                            i as int,
                            (q.id, p.id),
                        ));
                    }
                }
                map.add_pair(particles[i].id, particles[j].id);
            }
            j += 1;
        }
        i += 1;
    }
    proof {
        assert forall|pair: (ID, ID)| goal.contains(pair) implies map@.contains(pair) by {
            let (a, b) = choose|a: int, b: int|
                related_at(particles@, interaction_radius as int, a, b, pair);
            lemma_within_cutoff_symmetric(particles@[a], particles@[b], interaction_radius as int);
            if a > b {
                map.lemma_symmetric(pair.0, pair.1);
            }
        }
    }
    map
}

} // verus!
