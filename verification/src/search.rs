//! A neighbour search from text to text: the input file is read, its numbers
//! are put on the lattice, the neighbours are found and written out.

use vstd::prelude::*;
use crate::brute_force::{bruteforce_pairs, find_neighbors_bruteforce};
use crate::cim_finder::{find_neighbors, neighbor_pairs, FinderError, SystemInfo};
use crate::format::{ParseError, Span};
use crate::lattice::{is_number, read_scaled, scaled_value, MAX_PLACES};
use crate::neighbor_map::NeighborMap;
use crate::parser::{parser, particles_text, ParticleRow, ParticlesLayout};
use crate::particles::{Particle, Vector2, ID};
use crate::text::text;

verus! {

/// How the neighbours are found.
#[derive(Clone, Copy, Debug, PartialEq, Eq, Structural)]
pub enum Method {
    /// Every pair is tested, in the unbounded plane.
    AllPairs,
    /// The cell-index method, on the grid that the input gives.
    Cells { cyclic: bool },
}

/// Why a search from text failed.
#[derive(Clone, Copy, Debug, PartialEq, Eq, Structural)]
pub enum SearchError {
    /// The input is not of the format.
    Syntax(ParseError),
    /// A number of the input does not fit the lattice: a coordinate or the
    /// interaction radius is too large, or a length is negative or too large.
    OffLattice,
    /// The finder refused the configuration or a particle.
    Finder(FinderError),
}

/// The number at `span` as a coordinate of the lattice, if it is one.
pub open spec fn coordinate_of(s: Seq<u8>, span: Span, places: nat) -> Option<i32> {
    if is_number(s, span) && i32::MIN <= scaled_value(s, span, places) <= i32::MAX {
        Some(scaled_value(s, span, places) as i32)
    } else {
        None
    }
}

/// The number at `span` as a length of the lattice, if it is one.
pub open spec fn length_of(s: Seq<u8>, span: Span, places: nat) -> Option<u32> {
    if is_number(s, span) && 0 <= scaled_value(s, span, places) <= u32::MAX {
        Some(scaled_value(s, span, places) as u32)
    } else {
        None
    }
}

/// The particle of a row, if its numbers fit the lattice.
pub open spec fn particle_of(s: Seq<u8>, row: ParticleRow, places: nat) -> Option<Particle> {
    match (
        coordinate_of(s, row.x, places),
        coordinate_of(s, row.y, places),
        length_of(s, row.radius, places),
    ) {
        (Some(x), Some(y), Some(radius)) => Some(
            Particle { id: row.id, position: Vector2 { x, y }, radius },
        ),
        _ => None,
    }
}

/// The particles of the rows, if the numbers of every row fit the lattice.
pub open spec fn particles_of(s: Seq<u8>, rows: Seq<ParticleRow>, places: nat) -> Option<
    Seq<Particle>,
> {
    if forall|i: int| 0 <= i < rows.len() ==> particle_of(s, #[trigger] rows[i], places) is Some {
        Some(Seq::new(rows.len(), |i: int| particle_of(s, rows[i], places).unwrap()))
    } else {
        None
    }
}

/// The configuration that an input gives, if its numbers fit the lattice.
pub open spec fn system_of(s: Seq<u8>, layout: ParticlesLayout, places: nat, cyclic: bool) -> Option<
    SystemInfo,
> {
    match (length_of(s, layout.l, places), coordinate_of(s, layout.r_c, places)) {
        (Some(space_length), Some(interaction_radius)) => Some(
            SystemInfo { cyclic, interaction_radius, space_length, grid_size: layout.m },
        ),
        _ => None,
    }
}

/// Reads a coordinate of the lattice.
pub fn read_coordinate(input: &[u8], span: Span, places: u8) -> (value: Option<i32>)
    requires
        places <= MAX_PLACES,
    ensures
        value == coordinate_of(input@, span, places as nat),
{
    match read_scaled(input, span, places) {
        Some(v) => if -0x8000_0000 <= v && v <= 0x7fff_ffff {
            Some(v as i32)
        } else {
            None
        },
        None => None,
    }
}

/// Reads a length of the lattice.
pub fn read_length(input: &[u8], span: Span, places: u8) -> (value: Option<u32>)
    requires
        places <= MAX_PLACES,
    ensures
        value == length_of(input@, span, places as nat),
{
    match read_scaled(input, span, places) {
        Some(v) => if 0 <= v && v <= 0xffff_ffff {
            Some(v as u32)
        } else {
            None
        },
        None => None,
    }
}

/// Puts the particle of a row on the lattice.
pub fn read_particle(input: &[u8], row: &ParticleRow, places: u8) -> (particle: Option<Particle>)
    requires
        places <= MAX_PLACES,
    ensures
        particle == particle_of(input@, *row, places as nat),
{
    let x: i32 = match read_coordinate(input, row.x, places) {
        Some(x) => x,
        None => {
            return None;
        },
    };
    let y: i32 = match read_coordinate(input, row.y, places) {
        Some(y) => y,
        None => {
            return None;
        },
    };
    let radius: u32 = match read_length(input, row.radius, places) {
        Some(radius) => radius,
        None => {
            return None;
        },
    };
    Some(Particle { id: row.id, position: Vector2 { x, y }, radius })
}

/// Puts the particles of the rows on the lattice.
pub fn read_particles(input: &[u8], rows: &[ParticleRow], places: u8) -> (particles: Option<
    Vec<Particle>,
>)
    requires
        places <= MAX_PLACES,
    ensures
        particles matches Some(found) ==> particles_of(input@, rows@, places as nat) == Some(
            found@,
        ),
        particles is None ==> particles_of(input@, rows@, places as nat) is None,
{
    let mut found: Vec<Particle> = Vec::new();
    let mut i: usize = 0;
    while i < rows.len()
        invariant
            places <= MAX_PLACES,
            i <= rows@.len(),
            found@.len() == i,
            forall|k: int|
                0 <= k < i ==> particle_of(input@, #[trigger] rows@[k], places as nat) == Some(
                    found@[k],
                ),
        decreases rows@.len() - i,
    {
        match read_particle(input, &rows[i], places) {
            Some(particle) => {
                found.push(particle);
            },
            None => {
                return None;
            },
        }
        i += 1;
    }
    Some(found)
}

/// Reads the configuration that an input gives.
pub fn read_system(input: &[u8], l: Span, r_c: Span, m: usize, places: u8, cyclic: bool) -> (system:
    Option<SystemInfo>)
    requires
        places <= MAX_PLACES,
    ensures
        system == (match (
            length_of(input@, l, places as nat),
            coordinate_of(input@, r_c, places as nat),
        ) {
            (Some(space_length), Some(interaction_radius)) => Some(
                SystemInfo { cyclic, interaction_radius, space_length, grid_size: m },
            ),
            _ => None,
        }),
{
    let space_length: u32 = match read_length(input, l, places) {
        Some(length) => length,
        None => {
            return None;
        },
    };
    let interaction_radius: i32 = match read_coordinate(input, r_c, places) {
        Some(radius) => radius,
        None => {
            return None;
        },
    };
    Some(SystemInfo { cyclic, interaction_radius, space_length, grid_size: m })
}

/// The relation that a search of `particles` under `system` finds.
pub open spec fn pairs_found(particles: Seq<Particle>, system: SystemInfo, method: Method) -> Set<
    (ID, ID),
> {
    match method {
        Method::AllPairs => bruteforce_pairs(particles, system.interaction_radius as int),
        Method::Cells { .. } => neighbor_pairs(particles, system),
    }
}

/// Whether the domain is taken as cyclic under `method`.
pub open spec fn wraps(method: Method) -> bool {
    match method {
        Method::AllPairs => false,
        Method::Cells { cyclic } => cyclic,
    }
}

/// What a search from text comes to: the text of a neighbour map that holds
/// the relation found, or the first thing that stood in the way.
pub open spec fn listing(s: Seq<u8>, places: nat, method: Method, outcome: Result<
    Seq<char>,
    SearchError,
>) -> bool {
    match particles_text(s) {
        Err(e) => outcome == Err::<Seq<char>, SearchError>(SearchError::Syntax(e)),
        Ok(layout) => match (
            particles_of(s, layout.particles, places),
            system_of(s, layout, places, wraps(method)),
        ) {
            (Some(particles), Some(system)) => {
                if method is Cells && system.grid_size == 0 {
                    outcome == Err::<Seq<char>, SearchError>(
                        SearchError::Finder(FinderError::EmptyGrid),
                    )
                } else if method is Cells && system.space_length == 0 {
                    outcome == Err::<Seq<char>, SearchError>(
                        SearchError::Finder(FinderError::EmptyDomain),
                    )
                } else if method is Cells && !system.cyclic && exists|i: int|
                    0 <= i < particles.len() && !system.contains(#[trigger] particles[i]) {
                    outcome == Err::<Seq<char>, SearchError>(
                        SearchError::Finder(FinderError::OutsideDomain),
                    )
                } else {
                    outcome matches Ok(out) && exists|map: NeighborMap|
                        map.wf() && map@ == pairs_found(particles, system, method) && out == text(
                            map,
                        )
                }
            },
            _ => outcome == Err::<Seq<char>, SearchError>(SearchError::OffLattice),
        },
    }
}

/// Reads the input of a neighbour search, finds the neighbours of every
/// particle and writes them out, one line for each particle that has any.
///
/// Numbers are put on a lattice of ten to the power of `places` units to the
/// unit of length, rounded toward zero.
pub fn neighbor_list(input: &[u8], places: u8, method: Method) -> (outcome: Result<
    String,
    SearchError,
>)
    requires
        places <= MAX_PLACES,
    ensures
        listing(
            input@,
            places as nat,
            method,
            match outcome {
                Ok(out) => Ok(out@),
                Err(e) => Err(e),
            },
        ),
{
    let read = match parser(input) {
        Err(e) => {
            return Err(SearchError::Syntax(e));
        },
        Ok(read) => read,
    };
    let cyclic: bool = match method {
        Method::AllPairs => false,
        Method::Cells { cyclic } => cyclic,
    };
    let particles = read_particles(input, read.particles.as_slice(), places);
    let system = read_system(input, read.l, read.r_c, read.m, places, cyclic);
    let (particles, system) = match (particles, system) {
        (Some(particles), Some(system)) => (particles, system),
        _ => {
            return Err(SearchError::OffLattice);
        },
    };
    let map = match method {
        Method::AllPairs => find_neighbors_bruteforce(
            particles.as_slice(),
            system.interaction_radius,
        ),
        Method::Cells { .. } => match find_neighbors(particles.as_slice(), system) {
            Err(e) => {
                return Err(SearchError::Finder(e));
            },
            Ok(map) => map,
        },
    };
    let out = map.to_text();
    Ok(out)
}

} // verus!
