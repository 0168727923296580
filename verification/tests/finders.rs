use cim::brute_force::find_neighbors_bruteforce;
use cim::cim_finder::{find_neighbors, interacting, FinderError, SystemInfo};
use cim::neighbor_map::NeighborMap;
use cim::particles::{Particle, Vector2};
use cim::stencil::ring_count;

fn disc(id: usize, x: i32, y: i32, radius: u32) -> Particle {
    Particle { id, position: Vector2 { x, y }, radius }
}

fn point(id: usize, x: i32, y: i32) -> Particle {
    disc(id, x, y, 0)
}

fn sorted(ids: &[usize]) -> Vec<usize> {
    let mut v = ids.to_vec();
    v.sort();
    v
}

fn scatter(count: usize, side: u32, widest: u32, seed: u64) -> Vec<Particle> {
    let mut state = seed;
    let mut next = move || {
        state ^= state << 13;
        state ^= state >> 7;
        state ^= state << 17;
        state
    };
    let mut particles = Vec::new();
    for id in 0..count {
        let x = (next() % side as u64) as i32;
        let y = (next() % side as u64) as i32;
        let radius = if widest == 0 { 0 } else { (next() % (widest as u64 + 1)) as u32 };
        particles.push(disc(id, x, y, radius));
    }
    particles
}

fn ring_gap(a: i32, b: i32, side: u32) -> i64 {
    let ahead = (a as i64 - b as i64).rem_euclid(side as i64);
    ahead.min(side as i64 - ahead)
}

/// Every pair tested on its own, wrapped or not as the configuration says.
fn all_pairs(particles: &[Particle], cfg: SystemInfo) -> Vec<Vec<usize>> {
    let mut lists = vec![Vec::new(); particles.len()];
    for p in particles {
        for q in particles {
            if p.id == q.id {
                continue;
            }
            let (dx, dy) = if cfg.cyclic {
                (
                    ring_gap(p.position.x, q.position.x, cfg.space_length),
                    ring_gap(p.position.y, q.position.y, cfg.space_length),
                )
            } else {
                (
                    (p.position.x as i64 - q.position.x as i64).abs(),
                    (p.position.y as i64 - q.position.y as i64).abs(),
                )
            };
            let reach = cfg.interaction_radius as i128 + p.radius as i128 + q.radius as i128;
            let (dx, dy) = (dx as i128, dy as i128);
            if reach >= 0 && dx * dx + dy * dy <= reach * reach {
                lists[p.id].push(q.id);
            }
        }
    }
    lists
}

fn assert_same(map: &NeighborMap, lists: &[Vec<usize>]) {
    for (id, expected) in lists.iter().enumerate() {
        assert_eq!(sorted(map.get_neighbors(id)), sorted(expected), "particle {}", id);
    }
}

#[test]
fn two_close_points_are_neighbors() {
    // in tenths: (0,0) and (0.5,0), cutoff 1.0, side 10
    let particles = vec![point(0, 0, 0), point(1, 5, 0)];
    let cfg = SystemInfo { cyclic: false, interaction_radius: 10, space_length: 100, grid_size: 10 };
    let map = find_neighbors(&particles, cfg).unwrap();
    assert_eq!(map.get_neighbors(0), &[1]);
    assert_eq!(map.get_neighbors(1), &[0]);
    let slow = find_neighbors_bruteforce(&particles, 10);
    assert_eq!(slow.get_neighbors(0), &[1]);
    assert_eq!(slow.get_neighbors(1), &[0]);
}

#[test]
fn pair_across_the_edge_is_found_only_on_a_cyclic_domain() {
    // in tenths: (0.1,5) and (9.9,5), cutoff 0.5, side 10
    let particles = vec![point(0, 1, 50), point(1, 99, 50)];
    let cyclic = SystemInfo { cyclic: true, interaction_radius: 5, space_length: 100, grid_size: 20 };
    let map = find_neighbors(&particles, cyclic).unwrap();
    assert_eq!(map.get_neighbors(0), &[1]);
    assert_eq!(map.get_neighbors(1), &[0]);
    let bounded = SystemInfo { cyclic: false, ..cyclic };
    let map = find_neighbors(&particles, bounded).unwrap();
    assert!(map.get_neighbors(0).is_empty());
    assert!(map.get_neighbors(1).is_empty());
    assert_eq!(map.len(), 0);
    let slow = find_neighbors_bruteforce(&particles, 5);
    assert_eq!(slow.len(), 0);
}

#[test]
fn random_set_on_three_by_three_grid_matches_all_pairs() {
    // side 10, cutoff 3, grid of floor(10 / 3) = 3 cells a side, in hundredths
    let particles = scatter(80, 1000, 0, 0x2545_f491_4f6c_dd1d);
    let cfg = SystemInfo { cyclic: false, interaction_radius: 300, space_length: 1000, grid_size: 3 };
    let fast = find_neighbors(&particles, cfg).unwrap();
    let slow = find_neighbors_bruteforce(&particles, 300);
    let mut pairs = 0;
    for id in 0..80usize {
        assert_eq!(sorted(fast.get_neighbors(id)), sorted(slow.get_neighbors(id)));
        pairs += fast.get_neighbors(id).len();
    }
    assert!(pairs > 0);
    assert!(pairs < 80 * 79);
    assert_same(&fast, &all_pairs(&particles, cfg));
}

#[test]
fn bounded_search_matches_all_pairs_on_many_grids() {
    for (round, grid_size) in [1usize, 2, 3, 4, 7, 10, 33, 100, 1000].into_iter().enumerate() {
        for cutoff in [-5, 0, 1, 30, 99, 100, 101, 250, 2000] {
            let particles = scatter(60, 1000, 0, 77 + round as u64);
            let cfg = SystemInfo {
                cyclic: false,
                interaction_radius: cutoff,
                space_length: 1000,
                grid_size,
            };
            let fast = find_neighbors(&particles, cfg).unwrap();
            let slow = find_neighbors_bruteforce(&particles, cutoff);
            for id in 0..60usize {
                assert_eq!(
                    sorted(fast.get_neighbors(id)),
                    sorted(slow.get_neighbors(id)),
                    "grid {} cutoff {} particle {}",
                    grid_size,
                    cutoff,
                    id
                );
            }
        }
    }
}

#[test]
fn bounded_search_matches_all_pairs_with_radii() {
    for grid_size in [1usize, 3, 10, 40] {
        for cutoff in [-30, 0, 25, 100] {
            let particles = scatter(60, 1000, 40, 4242);
            let cfg = SystemInfo {
                cyclic: false,
                interaction_radius: cutoff,
                space_length: 1000,
                grid_size,
            };
            let fast = find_neighbors(&particles, cfg).unwrap();
            let slow = find_neighbors_bruteforce(&particles, cutoff);
            for id in 0..60usize {
                assert_eq!(sorted(fast.get_neighbors(id)), sorted(slow.get_neighbors(id)));
            }
            assert_same(&fast, &all_pairs(&particles, cfg));
        }
    }
}

#[test]
fn cyclic_search_finds_every_wrapped_pair() {
    for (round, grid_size) in [1usize, 2, 3, 4, 5, 8, 10, 25, 100, 999].into_iter().enumerate() {
        for cutoff in [-5, 0, 1, 40, 100, 101, 333, 499, 500, 501, 3000] {
            for widest in [0u32, 30] {
                let particles = scatter(50, 1000, widest, 9001 + round as u64);
                let cfg = SystemInfo {
                    cyclic: true,
                    interaction_radius: cutoff,
                    space_length: 1000,
                    grid_size,
                };
                let fast = find_neighbors(&particles, cfg).unwrap();
                assert_same(&fast, &all_pairs(&particles, cfg));
            }
        }
    }
}

#[test]
fn cyclic_search_takes_particles_outside_the_domain() {
    let mut particles = scatter(40, 1000, 0, 5);
    for p in particles.iter_mut() {
        if p.id % 3 == 0 {
            p.position.x += 1000;
        }
        if p.id % 5 == 0 {
            p.position.y -= 3000;
        }
    }
    let cfg = SystemInfo { cyclic: true, interaction_radius: 120, space_length: 1000, grid_size: 8 };
    let fast = find_neighbors(&particles, cfg).unwrap();
    assert_same(&fast, &all_pairs(&particles, cfg));
}

#[test]
fn cell_narrower_than_cutoff_still_finds_all() {
    // cell side 10 against a cutoff of 35: four rings are needed
    let particles = vec![point(0, 5, 5), point(1, 40, 5), point(2, 41, 5), point(3, 5, 40)];
    let cfg = SystemInfo { cyclic: false, interaction_radius: 35, space_length: 100, grid_size: 10 };
    let map = find_neighbors(&particles, cfg).unwrap();
    assert_eq!(sorted(map.get_neighbors(0)), vec![1, 3]);
    assert_eq!(sorted(map.get_neighbors(1)), vec![0, 2]);
    assert_eq!(sorted(map.get_neighbors(2)), vec![1]);
    assert_eq!(sorted(map.get_neighbors(3)), vec![0]);
}

#[test]
fn large_discs_are_found_across_cells() {
    // cell side 3 1/3 holds the cutoff of 3, but not the radii on top of it
    let particles = vec![disc(0, 0, 5, 2), disc(1, 7, 5, 2), disc(2, 9, 2, 0)];
    let cfg = SystemInfo { cyclic: false, interaction_radius: 3, space_length: 10, grid_size: 3 };
    let map = find_neighbors(&particles, cfg).unwrap();
    assert_eq!(sorted(map.get_neighbors(0)), vec![1]);
    assert_eq!(sorted(map.get_neighbors(1)), vec![0, 2]);
    assert_eq!(sorted(map.get_neighbors(2)), vec![1]);
}

#[test]
fn pair_at_exactly_the_cutoff_is_included() {
    let particles = vec![point(0, 10, 10), point(1, 13, 14), point(2, 13, 15)];
    let cfg = SystemInfo { cyclic: false, interaction_radius: 5, space_length: 100, grid_size: 20 };
    let map = find_neighbors(&particles, cfg).unwrap();
    assert_eq!(sorted(map.get_neighbors(0)), vec![1]);
    assert_eq!(sorted(map.get_neighbors(1)), vec![0, 2]);
    let slow = find_neighbors_bruteforce(&particles, 5);
    assert_eq!(sorted(slow.get_neighbors(0)), vec![1]);
    let cyclic = SystemInfo { cyclic: true, ..cfg };
    let edge = vec![point(0, 98, 99), point(1, 1, 3)];
    let map = find_neighbors(&edge, cyclic).unwrap();
    assert_eq!(map.get_neighbors(0), &[1]);
    let tighter = SystemInfo { interaction_radius: 4, ..cyclic };
    assert_eq!(find_neighbors(&edge, tighter).unwrap().len(), 0);
}

#[test]
fn results_are_symmetric_without_self_loops_or_repeats() {
    let particles = scatter(70, 500, 20, 31337);
    for cyclic in [false, true] {
        let cfg = SystemInfo { cyclic, interaction_radius: 60, space_length: 500, grid_size: 2 };
        let map = find_neighbors(&particles, cfg).unwrap();
        for i in 0..70usize {
            let mine = map.get_neighbors(i);
            assert!(!mine.contains(&i));
            let mut once = mine.to_vec();
            once.sort();
            once.dedup();
            assert_eq!(once.len(), mine.len());
            for j in mine {
                assert!(map.get_neighbors(*j).contains(&i));
            }
        }
    }
}

#[test]
fn repeated_searches_agree() {
    let particles = scatter(70, 500, 0, 99);
    let cfg = SystemInfo { cyclic: true, interaction_radius: 45, space_length: 500, grid_size: 11 };
    let first = find_neighbors(&particles, cfg).unwrap();
    let second = find_neighbors(&particles, cfg).unwrap();
    for id in 0..70usize {
        assert_eq!(sorted(first.get_neighbors(id)), sorted(second.get_neighbors(id)));
    }
    assert_eq!(first.to_text(), second.to_text());
}

#[test]
fn no_particles_give_the_empty_map() {
    let cfg = SystemInfo { cyclic: false, interaction_radius: 10, space_length: 100, grid_size: 10 };
    let map = find_neighbors(&[], cfg).unwrap();
    assert_eq!(map.len(), 0);
    assert_eq!(map.to_text(), "");
    assert_eq!(find_neighbors_bruteforce(&[], 10).len(), 0);
    let one = vec![point(4, 3, 3)];
    assert_eq!(find_neighbors(&one, cfg).unwrap().len(), 0);
    assert_eq!(find_neighbors_bruteforce(&one, 10).len(), 0);
}

#[test]
fn cutoff_of_zero_or_less_is_no_error() {
    let particles = vec![point(0, 10, 10), point(1, 10, 11), point(2, 10, 10)];
    let zero = SystemInfo { cyclic: false, interaction_radius: 0, space_length: 100, grid_size: 5 };
    let map = find_neighbors(&particles, zero).unwrap();
    assert_eq!(map.get_neighbors(0), &[2]);
    assert_eq!(map.get_neighbors(2), &[0]);
    assert!(map.get_neighbors(1).is_empty());
    let negative = SystemInfo { interaction_radius: -1, ..zero };
    assert_eq!(find_neighbors(&particles, negative).unwrap().len(), 0);
    assert_eq!(find_neighbors_bruteforce(&particles, -1).len(), 0);
    assert_eq!(find_neighbors_bruteforce(&particles, 0).get_neighbors(0), &[2]);
}

#[test]
fn empty_grid_is_refused() {
    let particles = vec![point(0, 1, 50)];
    for cyclic in [false, true] {
        let cfg = SystemInfo { cyclic, interaction_radius: 5, space_length: 100, grid_size: 0 };
        assert_eq!(find_neighbors(&particles, cfg).err(), Some(FinderError::EmptyGrid));
        assert_eq!(find_neighbors(&[], cfg).err(), Some(FinderError::EmptyGrid));
    }
}

#[test]
fn empty_domain_is_refused() {
    let particles = vec![point(0, 0, 0)];
    for cyclic in [false, true] {
        let cfg = SystemInfo { cyclic, interaction_radius: 5, space_length: 0, grid_size: 4 };
        assert_eq!(find_neighbors(&particles, cfg).err(), Some(FinderError::EmptyDomain));
    }
}

#[test]
fn particle_outside_bounded_domain_is_refused() {
    let cfg = SystemInfo { cyclic: false, interaction_radius: 5, space_length: 100, grid_size: 4 };
    for stray in [point(1, 100, 5), point(1, 5, 100), point(1, -1, 5), point(1, 5, -1)] {
        let particles = vec![point(0, 1, 50), stray];
        assert_eq!(find_neighbors(&particles, cfg).err(), Some(FinderError::OutsideDomain));
    }
    let inside = vec![point(0, 0, 0), point(1, 99, 99)];
    assert!(find_neighbors(&inside, cfg).is_ok());
}

#[test]
fn identifiers_need_not_be_positions() {
    let particles = vec![point(700, 10, 10), point(3, 12, 10), point(usize::MAX, 50, 50)];
    let cfg = SystemInfo { cyclic: false, interaction_radius: 5, space_length: 100, grid_size: 4 };
    let map = find_neighbors(&particles, cfg).unwrap();
    assert_eq!(map.get_neighbors(700), &[3]);
    assert_eq!(map.get_neighbors(3), &[700]);
    assert!(map.get_neighbors(usize::MAX).is_empty());
    assert_eq!(map.to_text(), "700 3\n3 700\n");
    assert_eq!(find_neighbors_bruteforce(&particles, 5).to_text(), "700 3\n3 700\n");
}

#[test]
fn interaction_test_follows_the_domain() {
    let p = point(0, 1, 50);
    let q = point(1, 99, 50);
    let cyclic = SystemInfo { cyclic: true, interaction_radius: 5, space_length: 100, grid_size: 20 };
    assert!(interacting(&p, &q, &cyclic));
    assert!(!interacting(&p, &q, &SystemInfo { cyclic: false, ..cyclic }));
}

#[test]
fn huge_grid_with_few_particles_is_cheap() {
    let particles = vec![
        point(0, 0, 0),
        point(1, 2, 0),
        point(2, 2_000_000_000, 2_000_000_000),
        point(3, i32::MAX, 1),
    ];
    for cyclic in [false, true] {
        let cfg = SystemInfo {
            cyclic,
            interaction_radius: 2,
            space_length: 1 << 31,
            grid_size: 1 << 30,
        };
        let map = find_neighbors(&particles, cfg).unwrap();
        assert_eq!(sorted(map.get_neighbors(1)), vec![0]);
        assert!(map.get_neighbors(2).is_empty());
        if cyclic {
            assert_eq!(sorted(map.get_neighbors(0)), vec![1, 3]);
        } else {
            assert_eq!(sorted(map.get_neighbors(0)), vec![1]);
        }
    }
}

#[test]
fn one_ring_where_cell_side_holds_the_reach() {
    let points = vec![point(0, 1, 1), point(1, 50, 50)];
    let cfg = SystemInfo { cyclic: false, interaction_radius: 10, space_length: 100, grid_size: 10 };
    assert_eq!(ring_count(&points, &cfg), 1);
    assert_eq!(ring_count(&points, &SystemInfo { cyclic: true, ..cfg }), 1);
    assert_eq!(ring_count(&[], &cfg), 1);
    let narrower = SystemInfo { grid_size: 11, ..cfg };
    assert_eq!(ring_count(&points, &narrower), 2);
}

#[test]
fn rings_grow_with_cutoff_and_radii() {
    let cfg = SystemInfo { cyclic: false, interaction_radius: 35, space_length: 100, grid_size: 10 };
    let points = vec![point(0, 1, 1), point(1, 50, 50)];
    assert_eq!(ring_count(&points, &cfg), 4);
    let discs = vec![disc(0, 1, 1, 3), disc(1, 50, 50, 8)];
    // 35 and twice 8 over a cell side of 10
    assert_eq!(ring_count(&discs, &cfg), 6);
}

#[test]
fn rings_stop_where_the_grid_is_covered() {
    let points = vec![point(0, 1, 1)];
    let wide = SystemInfo { cyclic: false, interaction_radius: 500, space_length: 100, grid_size: 10 };
    assert_eq!(ring_count(&points, &wide), 9);
    assert_eq!(ring_count(&points, &SystemInfo { cyclic: true, ..wide }), 5);
    assert_eq!(ring_count(&points, &SystemInfo { grid_size: 1, ..wide }), 0);
    assert_eq!(ring_count(&points, &SystemInfo { cyclic: true, grid_size: 1, ..wide }), 0);
    assert_eq!(ring_count(&points, &SystemInfo { cyclic: true, grid_size: 7, ..wide }), 3);
    let extreme = SystemInfo {
        cyclic: false,
        interaction_radius: i32::MAX,
        space_length: 1,
        grid_size: usize::MAX,
    };
    let widest = vec![disc(0, 0, 0, u32::MAX)];
    assert_eq!(ring_count(&widest, &extreme), usize::MAX - 1);
}

#[test]
fn no_rings_where_only_one_place_can_interact() {
    let points = vec![point(0, 1, 1), point(1, 1, 1)];
    let zero = SystemInfo { cyclic: false, interaction_radius: 0, space_length: 100, grid_size: 10 };
    assert_eq!(ring_count(&points, &zero), 0);
    assert_eq!(ring_count(&points, &SystemInfo { interaction_radius: -7, ..zero }), 0);
    let discs = vec![disc(0, 1, 1, 3), disc(1, 2, 1, 1)];
    assert_eq!(ring_count(&discs, &SystemInfo { interaction_radius: -6, ..zero }), 0);
    assert_eq!(ring_count(&discs, &SystemInfo { interaction_radius: -5, ..zero }), 1);
    let map = find_neighbors(&points, zero).unwrap();
    assert_eq!(map.get_neighbors(0), &[1]);
}

#[test]
fn cells_far_narrower_than_the_cutoff_are_no_burden() {
    let particles = vec![point(0, 0, 0), point(1, 1, 0), point(2, 2_000_000_000, 2_000_000_000)];
    for cyclic in [false, true] {
        let cfg = SystemInfo {
            cyclic,
            interaction_radius: 1,
            space_length: u32::MAX,
            grid_size: usize::MAX,
        };
        let map = find_neighbors(&particles, cfg).unwrap();
        assert_eq!(map.get_neighbors(0), &[1]);
        assert_eq!(map.get_neighbors(1), &[0]);
        assert!(map.get_neighbors(2).is_empty());
    }
    let cloud = scatter(200, 1_000_000, 0, 12345);
    for cyclic in [false, true] {
        let cfg = SystemInfo {
            cyclic,
            interaction_radius: 90_000,
            space_length: 1_000_000,
            grid_size: 1_000_000,
        };
        let map = find_neighbors(&cloud, cfg).unwrap();
        assert_same(&map, &all_pairs(&cloud, cfg));
    }
}

#[test]
fn search_holds_at_the_limits_of_the_lattice() {
    let mut state: u64 = 0x9e37_79b9_7f4a_7c15;
    let mut next = move || {
        state ^= state << 13;
        state ^= state >> 7;
        state ^= state << 17;
        state
    };
    let corners = [i32::MIN, i32::MIN + 1, -1, 0, 1, i32::MAX - 1, i32::MAX];
    let mut particles = Vec::new();
    for id in 0..60usize {
        let x = corners[(next() % 7) as usize].wrapping_add((next() % 5) as i32 - 2);
        let y = corners[(next() % 7) as usize].wrapping_add((next() % 5) as i32 - 2);
        let radius = if id % 7 == 0 { u32::MAX } else { (next() % 4) as u32 };
        particles.push(disc(id, x, y, radius));
    }
    for space_length in [1u32, 2, 3, 1 << 31, u32::MAX] {
        for grid_size in [1usize, 2, 5, 1 << 20, usize::MAX] {
            for cutoff in [i32::MIN, -3, 0, 2, i32::MAX] {
                let cfg = SystemInfo { cyclic: true, interaction_radius: cutoff, space_length, grid_size };
                let fast = find_neighbors(&particles, cfg).unwrap();
                assert_same(&fast, &all_pairs(&particles, cfg));
            }
        }
    }
    let inside: Vec<Particle> = particles
        .iter()
        .map(|p| disc(p.id, p.position.x.max(0), p.position.y.max(0), p.radius))
        .collect();
    for grid_size in [1usize, 3, 1 << 20, usize::MAX] {
        for cutoff in [i32::MIN, -3, 0, 2, i32::MAX] {
            let cfg = SystemInfo {
                cyclic: false,
                interaction_radius: cutoff,
                space_length: 1 << 31,
                grid_size,
            };
            let fast = find_neighbors(&inside, cfg).unwrap();
            let slow = find_neighbors_bruteforce(&inside, cutoff);
            for id in 0..60usize {
                assert_eq!(sorted(fast.get_neighbors(id)), sorted(slow.get_neighbors(id)));
            }
            assert_same(&fast, &all_pairs(&inside, cfg));
        }
    }
}
