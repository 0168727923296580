use cim::neighbor_map::NeighborMap;
use cim::text::{push_decimal, push_line};

#[test]
fn decimal_of_zero_is_one_digit() {
    let mut out = String::new();
    push_decimal(&mut out, 0);
    assert_eq!(out, "0");
}

#[test]
fn decimal_has_no_leading_zeros() {
    let mut out = String::from("x");
    push_decimal(&mut out, 7);
    push_decimal(&mut out, 10);
    push_decimal(&mut out, 4096);
    assert_eq!(out, "x7104096");
}

#[test]
fn decimal_of_the_largest_number() {
    let mut out = String::new();
    push_decimal(&mut out, usize::MAX);
    assert_eq!(out, usize::MAX.to_string());
}

#[test]
fn decimal_agrees_with_the_standard_library() {
    for n in (0..3000usize).chain([9_999, 10_000, 99_999, 100_000, 1_234_567_890]) {
        let mut out = String::new();
        push_decimal(&mut out, n);
        assert_eq!(out, n.to_string());
    }
}

#[test]
fn line_separates_by_single_spaces() {
    let mut out = String::new();
    push_line(&mut out, 12, &[3, 400, 0]);
    assert_eq!(out, "12 3 400 0\n");
    push_line(&mut out, 5, &[]);
    assert_eq!(out, "12 3 400 0\n5\n");
}

#[test]
fn default_map_is_empty() {
    let map = NeighborMap::default();
    assert_eq!(map.len(), 0);
    assert_eq!(map.to_text(), "");
}

#[test]
fn text_lists_each_pair_in_both_lines() {
    let mut map = NeighborMap::new();
    map.add_pair(2, 1);
    map.add_pair(3, 1);
    map.add_pair(2, 3);
    let text = map.to_text();
    assert_eq!(text, "2 1 3\n1 2 3\n3 1 2\n");
    let mut pairs = Vec::new();
    for line in text.lines() {
        let mut ids = line.split(' ').map(|id| id.parse::<usize>().unwrap());
        let first = ids.next().unwrap();
        for other in ids {
            pairs.push((first, other));
        }
    }
    pairs.sort();
    assert_eq!(pairs, vec![(1, 2), (1, 3), (2, 1), (2, 3), (3, 1), (3, 2)]);
}
