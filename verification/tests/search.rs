use cim::cim_finder::FinderError;
use cim::format::{ParseError, Problem, Span};
use cim::lattice::{read_scaled, MAX_PLACES};
use cim::search::{
    neighbor_list, read_coordinate, read_length, read_particles, Method, SearchError,
};
use cim::parser::parser;

fn whole(input: &[u8]) -> Span {
    Span { start: 0, end: input.len() }
}

fn scaled(text: &str, places: u8) -> Option<i64> {
    read_scaled(text.as_bytes(), whole(text.as_bytes()), places)
}

fn lines(text: &str) -> Vec<Vec<usize>> {
    let mut rows: Vec<Vec<usize>> = text
        .lines()
        .map(|line| {
            let mut ids: Vec<usize> = line.split(' ').map(|id| id.parse().unwrap()).collect();
            ids[1..].sort();
            ids
        })
        .collect();
    rows.sort();
    rows
}

#[test]
fn decimal_is_scaled_exactly() {
    assert_eq!(scaled("0", 4), Some(0));
    assert_eq!(scaled("1", 4), Some(10_000));
    assert_eq!(scaled("0.5", 4), Some(5_000));
    assert_eq!(scaled("12.3456", 4), Some(123_456));
    assert_eq!(scaled("-12.3456", 4), Some(-123_456));
    assert_eq!(scaled("-0", 4), Some(0));
    assert_eq!(scaled("3.07", 2), Some(307));
    assert_eq!(scaled("3.7", 2), Some(370));
    assert_eq!(scaled("42", 0), Some(42));
    assert_eq!(scaled("0.000000000000000001", 18), Some(1));
    assert_eq!(scaled("9.000000000000000001", 18), Some(9_000_000_000_000_000_001));
}

#[test]
fn digits_beyond_the_lattice_are_cut() {
    assert_eq!(scaled("0.99999", 4), Some(9_999));
    assert_eq!(scaled("-0.99999", 4), Some(-9_999));
    assert_eq!(scaled("1.5", 0), Some(1));
    assert_eq!(scaled("-1.5", 0), Some(-1));
    assert_eq!(scaled("0.00009", 4), Some(0));
    assert_eq!(scaled("2.123456789012345678901234567890", 3), Some(2_123));
}

#[test]
fn scaled_value_must_fit_the_word() {
    assert_eq!(scaled("9223372036854775807", 0), Some(i64::MAX));
    assert_eq!(scaled("9223372036854775808", 0), None);
    assert_eq!(scaled("-9223372036854775808", 0), Some(i64::MIN));
    assert_eq!(scaled("-9223372036854775809", 0), None);
    assert_eq!(scaled("922337203685477.5807", 4), Some(i64::MAX));
    assert_eq!(scaled("922337203685477.5808", 4), None);
    assert_eq!(scaled("-922337203685477.5808", 4), Some(i64::MIN));
    assert_eq!(scaled("9.223372036854775807", MAX_PLACES), Some(i64::MAX));
    assert_eq!(scaled("9.223372036854775808", MAX_PLACES), None);
    assert_eq!(scaled("10", MAX_PLACES), None);
    assert_eq!(scaled("99999999999999999999999999999999999999999999", 2), None);
    assert_eq!(scaled("-99999999999999999999999999999999999999999999.5", 2), None);
}

#[test]
fn only_a_whole_number_text_has_a_value() {
    assert_eq!(scaled("", 4), None);
    assert_eq!(scaled("-", 4), None);
    assert_eq!(scaled("1.", 4), None);
    assert_eq!(scaled(".5", 4), None);
    assert_eq!(scaled("01", 4), None);
    assert_eq!(scaled("1 ", 4), None);
    assert_eq!(scaled(" 1", 4), None);
    assert_eq!(scaled("1e3", 4), None);
    assert_eq!(scaled("+1", 4), None);
    let input = b"12.5 7";
    assert_eq!(read_scaled(input, Span { start: 0, end: 4 }, 1), Some(125));
    assert_eq!(read_scaled(input, Span { start: 5, end: 6 }, 1), Some(70));
    assert_eq!(read_scaled(input, Span { start: 0, end: 2 }, 1), None);
    assert_eq!(read_scaled(input, Span { start: 1, end: 4 }, 1), Some(25));
    assert_eq!(read_scaled(input, Span { start: 0, end: 6 }, 1), None);
    assert_eq!(read_scaled(input, Span { start: 4, end: 2 }, 1), None);
    assert_eq!(read_scaled(input, Span { start: 5, end: 7 }, 1), None);
    assert_eq!(read_scaled(input, Span { start: 9, end: 9 }, 1), None);
}

#[test]
fn coordinates_and_lengths_have_their_ranges() {
    let at = |text: &str| read_coordinate(text.as_bytes(), whole(text.as_bytes()), 4);
    assert_eq!(at("214748.3647"), Some(i32::MAX));
    assert_eq!(at("214748.3648"), None);
    assert_eq!(at("-214748.3648"), Some(i32::MIN));
    assert_eq!(at("-214748.3649"), None);
    let long = |text: &str| read_length(text.as_bytes(), whole(text.as_bytes()), 4);
    assert_eq!(long("429496.7295"), Some(u32::MAX));
    assert_eq!(long("429496.7296"), None);
    assert_eq!(long("0"), Some(0));
    assert_eq!(long("-0.0001"), None);
    assert_eq!(long("-0.00001"), Some(0));
}

#[test]
fn rows_become_lattice_particles() {
    let input = b"2\n10\n4\n1.5\n3 1.0 2.25 0.5\n8 -3 4 0\n";
    let read = parser(input).unwrap();
    let particles = read_particles(input, &read.particles, 2).unwrap();
    assert_eq!(particles.len(), 2);
    assert_eq!(particles[0].id, 3);
    assert_eq!((particles[0].position.x, particles[0].position.y), (100, 225));
    assert_eq!(particles[0].radius, 50);
    assert_eq!((particles[1].position.x, particles[1].position.y), (-300, 400));
    let negative = b"2\n10\n4\n1.5\n3 1.0 2.25 -0.5\n";
    let read = parser(negative).unwrap();
    assert!(read_particles(negative, &read.particles, 2).is_none());
}

#[test]
fn search_from_text_lists_neighbors() {
    let input = b"4\n10\n3\n1.5\n0 1 1 0\n1 2 1 0\n2 9.5 1 0\n3 2 2.2 0.25\n";
    let out = neighbor_list(input, 4, Method::AllPairs).unwrap();
    assert_eq!(lines(&out), vec![vec![0, 1, 3], vec![1, 0, 3], vec![3, 0, 1]]);
    let out = neighbor_list(input, 4, Method::Cells { cyclic: false }).unwrap();
    assert_eq!(lines(&out), vec![vec![0, 1, 3], vec![1, 0, 3], vec![3, 0, 1]]);
    let out = neighbor_list(input, 4, Method::Cells { cyclic: true }).unwrap();
    assert_eq!(lines(&out), vec![vec![0, 1, 2, 3], vec![1, 0, 3], vec![2, 0], vec![3, 0, 1]]);
}

#[test]
fn search_from_text_of_lone_particle_is_empty() {
    let input = b"1\n10\n3\n1.5\n0 1 1 0\n";
    assert_eq!(neighbor_list(input, 4, Method::AllPairs), Ok(String::new()));
    assert_eq!(neighbor_list(input, 4, Method::Cells { cyclic: true }), Ok(String::new()));
}

#[test]
fn search_from_text_reports_what_stood_in_the_way() {
    assert_eq!(
        neighbor_list(b"1\n10\n3\n1.5\n0 1 1\n", 4, Method::AllPairs),
        Err(SearchError::Syntax(ParseError { at: 16, problem: Problem::ExpectedSpace }))
    );
    assert_eq!(
        neighbor_list(b"1\n10\n3\n1.5\n0 1 300000 0\n", 4, Method::AllPairs),
        Err(SearchError::OffLattice)
    );
    assert_eq!(
        neighbor_list(b"1\n-10\n3\n1.5\n0 1 1 0\n", 4, Method::AllPairs),
        Err(SearchError::OffLattice)
    );
    assert_eq!(
        neighbor_list(b"1\n10\n3\n1.5\n0 1 1 -1\n", 4, Method::AllPairs),
        Err(SearchError::OffLattice)
    );
    assert_eq!(
        neighbor_list(b"1\n10\n0\n1.5\n0 1 1 0\n", 4, Method::Cells { cyclic: true }),
        Err(SearchError::Finder(FinderError::EmptyGrid))
    );
    assert_eq!(
        neighbor_list(b"1\n0\n3\n1.5\n0 1 1 0\n", 4, Method::Cells { cyclic: true }),
        Err(SearchError::Finder(FinderError::EmptyDomain))
    );
    assert_eq!(
        neighbor_list(b"1\n10\n3\n1.5\n0 1 10 0\n", 4, Method::Cells { cyclic: false }),
        Err(SearchError::Finder(FinderError::OutsideDomain))
    );
    // testing all pairs needs no grid and no domain
    assert_eq!(neighbor_list(b"1\n0\n0\n1.5\n0 1 10 0\n", 4, Method::AllPairs), Ok(String::new()));
}

#[test]
fn search_from_text_has_an_inclusive_cutoff() {
    // 3 across and 4 up: a distance of 5
    let input = b"2\n100\n10\n5\n0 10 10 0\n1 13 14 0\n";
    assert_eq!(neighbor_list(input, 3, Method::AllPairs).unwrap(), "0 1\n1 0\n");
    let tighter = b"2\n100\n10\n4.999\n0 10 10 0\n1 13 14 0\n";
    assert_eq!(neighbor_list(tighter, 3, Method::AllPairs).unwrap(), "");
    // beyond the lattice the difference is lost
    let finer = b"2\n100\n10\n4.9999\n0 10 10 0\n1 13 14.0009 0\n";
    assert_eq!(neighbor_list(finer, 3, Method::Cells { cyclic: false }).unwrap(), "");
    assert_eq!(neighbor_list(finer, 0, Method::Cells { cyclic: false }).unwrap(), "");
    let coarse = b"2\n100\n10\n5.9\n0 10 10 0\n1 13 14.9 0\n";
    assert_eq!(neighbor_list(coarse, 0, Method::Cells { cyclic: false }).unwrap(), "0 1\n1 0\n");
}
