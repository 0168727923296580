use cim::neighbor_map::NeighborMap;

#[test]
fn new_map_is_empty() {
    let map = NeighborMap::new();
    assert_eq!(map.len(), 0);
    assert!(map.get_neighbors(0).is_empty());
    assert_eq!(map.to_text(), "");
}

#[test]
fn add_pair_is_symmetric() {
    let mut map = NeighborMap::new();
    map.add_pair(3, 7);
    assert_eq!(map.get_neighbors(3), &[7]);
    assert_eq!(map.get_neighbors(7), &[3]);
}

#[test]
fn add_pair_twice_changes_nothing() {
    let mut map = NeighborMap::new();
    map.add_pair(1, 2);
    map.add_pair(1, 2);
    map.add_pair(2, 1);
    assert_eq!(map.get_neighbors(1), &[2]);
    assert_eq!(map.get_neighbors(2), &[1]);
    assert_eq!(map.len(), 2);
}

#[test]
fn add_pair_with_itself_changes_nothing() {
    let mut map = NeighborMap::new();
    map.add_pair(5, 5);
    assert_eq!(map.len(), 0);
    assert!(map.get_neighbors(5).is_empty());
    map.add_pair(5, 6);
    map.add_pair(5, 5);
    assert_eq!(map.get_neighbors(5), &[6]);
}

#[test]
fn unknown_particle_has_no_neighbors() {
    let mut map = NeighborMap::new();
    map.add_pair(1, 2);
    assert!(map.get_neighbors(9).is_empty());
    assert!(map.get_neighbors(usize::MAX).is_empty());
}

#[test]
fn particles_are_kept_in_order_of_first_pair() {
    let mut map = NeighborMap::new();
    map.add_pair(10, 4);
    map.add_pair(7, 10);
    map.add_pair(4, 7);
    assert_eq!(map.len(), 3);
    assert_eq!(map.key_at(0), 10);
    assert_eq!(map.key_at(1), 4);
    assert_eq!(map.key_at(2), 7);
    assert_eq!(map.get_neighbors(10), &[4, 7]);
    assert_eq!(map.get_neighbors(4), &[10, 7]);
    assert_eq!(map.get_neighbors(7), &[10, 4]);
}

#[test]
fn get_neighbors_can_be_walked_again() {
    let mut map = NeighborMap::new();
    map.add_pair(1, 2);
    map.add_pair(1, 3);
    let first: Vec<usize> = map.get_neighbors(1).iter().copied().collect();
    let second: Vec<usize> = map.get_neighbors(1).iter().copied().collect();
    assert_eq!(first, vec![2, 3]);
    assert_eq!(first, second);
}

#[test]
fn text_has_one_line_per_particle_with_neighbors() {
    let mut map = NeighborMap::new();
    map.add_pair(1, 2);
    map.add_pair(1, 30);
    assert_eq!(map.to_text(), "1 2 30\n2 1\n30 1\n");
}

#[test]
fn text_writes_identifiers_in_decimal() {
    let mut map = NeighborMap::new();
    map.add_pair(0, 1005);
    map.add_pair(18446744073709551615, 0);
    assert_eq!(map.to_text(), "0 1005 18446744073709551615\n1005 0\n18446744073709551615 0\n");
}

#[test]
fn no_particle_is_listed_twice_or_with_itself() {
    let mut map = NeighborMap::new();
    for a in 0..6usize {
        for b in 0..6usize {
            map.add_pair(a, b);
            map.add_pair(b, a);
        }
    }
    for a in 0..6usize {
        let mut seen = map.get_neighbors(a).to_vec();
        assert!(!seen.contains(&a));
        seen.sort();
        let expected: Vec<usize> = (0..6usize).filter(|b| *b != a).collect();
        assert_eq!(seen, expected);
    }
}
