//! The input files of the simulations: a few lines of settings, then one line
//! for each particle.

use vstd::prelude::*;
use crate::format::{
    end_at, lemma_digits_end, lemma_number_is_plain, number_line_at, read_end,
    read_number_line, read_rows, read_spaced_number, read_unsigned, read_unsigned_line, rows_at,
    space_at, spaced_number_at, unsigned_at, unsigned_line_at, ParseError, Row, Span,
};
use crate::lattice::is_number;
use crate::particles::ID;

verus! {

/// A particle at rest: identifier, position and radius.
#[derive(Clone, Copy, Debug, PartialEq, Eq, Structural)]
pub struct ParticleRow {
    pub id: ID,
    pub x: Span,
    pub y: Span,
    pub radius: Span,
}

/// A particle in motion: identifier, position and velocity.
#[derive(Clone, Copy, Debug, PartialEq, Eq, Structural)]
pub struct MovingRow {
    pub id: ID,
    pub x: Span,
    pub y: Span,
    pub vx: Span,
    pub vy: Span,
}

impl Row for ParticleRow {
    /// An identifier and three numbers, separated by single spaces.
    open spec fn row_at(s: Seq<u8>, at: int) -> Result<(Self, int), ParseError> {
        match unsigned_at(s, at) {
            Err(e) => Err(e),
            Ok((id, a)) => match spaced_number_at(s, a) {
                Err(e) => Err(e),
                Ok((x, b)) => match spaced_number_at(s, b) {
                    Err(e) => Err(e),
                    Ok((y, c)) => match spaced_number_at(s, c) {
                        Err(e) => Err(e),
                        Ok((radius, d)) => Ok((ParticleRow { id, x, y, radius }, d)),
                    },
                },
            },
        }
    }

    fn read_row(input: &[u8], at: usize) -> (read: Result<(Self, usize), ParseError>) {
        let (id, a) = match read_unsigned(input, at) {
            Err(e) => {
                return Err(e);
            },
            Ok(found) => found,
        };
        let (x, b) = match read_spaced_number(input, a) {
            Err(e) => {
                return Err(e);
            },
            Ok(found) => found,
        };
        let (y, c) = match read_spaced_number(input, b) {
            Err(e) => {
                return Err(e);
            },
            Ok(found) => found,
        };
        let (radius, d) = match read_spaced_number(input, c) {
            Err(e) => {
                return Err(e);
            },
            Ok(found) => found,
        };
        Ok((ParticleRow { id, x, y, radius }, d))
    }
}

impl Row for MovingRow {
    /// An identifier and four numbers, separated by single spaces.
    open spec fn row_at(s: Seq<u8>, at: int) -> Result<(Self, int), ParseError> {
        match unsigned_at(s, at) {
            Err(e) => Err(e),
            Ok((id, a)) => match spaced_number_at(s, a) {
                Err(e) => Err(e),
                Ok((x, b)) => match spaced_number_at(s, b) {
                    Err(e) => Err(e),
                    Ok((y, c)) => match spaced_number_at(s, c) {
                        Err(e) => Err(e),
                        Ok((vx, d)) => match spaced_number_at(s, d) {
                            Err(e) => Err(e),
                            Ok((vy, end)) => Ok((MovingRow { id, x, y, vx, vy }, end)),
                        },
                    },
                },
            },
        }
    }

    fn read_row(input: &[u8], at: usize) -> (read: Result<(Self, usize), ParseError>) {
        let (id, a) = match read_unsigned(input, at) {
            Err(e) => {
                return Err(e);
            },
            Ok(found) => found,
        };
        let (x, b) = match read_spaced_number(input, a) {
            Err(e) => {
                return Err(e);
            },
            Ok(found) => found,
        };
        let (y, c) = match read_spaced_number(input, b) {
            Err(e) => {
                return Err(e);
            },
            Ok(found) => found,
        };
        let (vx, d) = match read_spaced_number(input, c) {
            Err(e) => {
                return Err(e);
            },
            Ok(found) => found,
        };
        let (vy, end) = match read_spaced_number(input, d) {
            Err(e) => {
                return Err(e);
            },
            Ok(found) => found,
        };
        Ok((MovingRow { id, x, y, vx, vy }, end))
    }
}

/// A number after a space, once located, is the place of a number, and the
/// input goes on after it.
pub proof fn lemma_spaced_number(s: Seq<u8>, at: int)
    requires
        0 <= at <= s.len() <= usize::MAX,
        spaced_number_at(s, at) is Ok,
    ensures
        is_number(s, spaced_number_at(s, at).unwrap().0),
        at < spaced_number_at(s, at).unwrap().1 <= s.len(),
{
    lemma_number_is_plain(s, space_at(s, at).unwrap());
}

/// The numbers of a row of a particle at rest are places of numbers.
pub proof fn lemma_particle_row(s: Seq<u8>, at: int)
    requires
        0 <= at <= s.len() <= usize::MAX,
        ParticleRow::row_at(s, at) is Ok,
    ensures
        ({
            let (row, next) = ParticleRow::row_at(s, at).unwrap();
            &&& is_number(s, row.x)
            &&& is_number(s, row.y)
            &&& is_number(s, row.radius)
            &&& at < next <= s.len()
        }),
{
    lemma_digits_end(s, at);
    let (_, a) = unsigned_at(s, at).unwrap();
    lemma_spaced_number(s, a);
    let (_, b) = spaced_number_at(s, a).unwrap();
    lemma_spaced_number(s, b);
    let (_, c) = spaced_number_at(s, b).unwrap();
    lemma_spaced_number(s, c);
}

/// The numbers of a row of a particle in motion are places of numbers.
pub proof fn lemma_moving_row(s: Seq<u8>, at: int)
    requires
        0 <= at <= s.len() <= usize::MAX,
        MovingRow::row_at(s, at) is Ok,
    ensures
        ({
            let (row, next) = MovingRow::row_at(s, at).unwrap();
            &&& is_number(s, row.x)
            &&& is_number(s, row.y)
            &&& is_number(s, row.vx)
            &&& is_number(s, row.vy)
            &&& at < next <= s.len()
        }),
{
    lemma_digits_end(s, at);
    let (_, a) = unsigned_at(s, at).unwrap();
    lemma_spaced_number(s, a);
    let (_, b) = spaced_number_at(s, a).unwrap();
    lemma_spaced_number(s, b);
    let (_, c) = spaced_number_at(s, b).unwrap();
    lemma_spaced_number(s, c);
    let (_, d) = spaced_number_at(s, c).unwrap();
    lemma_spaced_number(s, d);
}

/// The rows of a file and the end of the input after them.
pub open spec fn rows_to_end<R: Row>(s: Seq<u8>, at: int) -> Result<Seq<R>, ParseError> {
    match rows_at::<R>(s, at) {
        Err(e) => Err(e),
        Ok((rows, next)) => match end_at(s, next) {
            Err(e) => Err(e),
            Ok(_) => Ok(rows),
        },
    }
}

fn read_rows_to_end<R: Row>(input: &[u8], at: usize) -> (read: Result<Vec<R>, ParseError>)
    requires
        at <= input@.len(),
    ensures
        match read {
            Ok(rows) => rows_to_end::<R>(input@, at as int) == Ok::<Seq<R>, ParseError>(rows@),
            Err(e) => rows_to_end::<R>(input@, at as int) == Err::<Seq<R>, ParseError>(e),
        },
{
    let (rows, next) = match read_rows::<R>(input, at) {
        Err(e) => {
            return Err(e);
        },
        Ok(found) => found,
    };
    match read_end(input, next) {
        Err(e) => Err(e),
        Ok(_) => Ok(rows),
    }
}

/// The input of a neighbour search, as read.
#[derive(Debug)]
pub struct ParticlesText {
    /// The number of particles that the file announces; the rows are not
    /// counted against it.
    pub n: usize,
    /// Side of the domain.
    pub l: Span,
    /// Cells per side.
    pub m: usize,
    /// Interaction radius.
    pub r_c: Span,
    pub particles: Vec<ParticleRow>,
}

/// What a `ParticlesText` holds.
pub struct ParticlesLayout {
    pub n: usize,
    pub l: Span,
    pub m: usize,
    pub r_c: Span,
    pub particles: Seq<ParticleRow>,
}

impl View for ParticlesText {
    type V = ParticlesLayout;

    open spec fn view(&self) -> ParticlesLayout {
        ParticlesLayout {
            n: self.n,
            l: self.l,
            m: self.m,
            r_c: self.r_c,
            particles: self.particles@,
        }
    }
}

/// The input of a neighbour search: the number of particles, the side of the
/// domain, the cells per side and the interaction radius, one to a line; then
/// the particles, one to a line.
pub open spec fn particles_text(s: Seq<u8>) -> Result<ParticlesLayout, ParseError> {
    match unsigned_line_at(s, 0) {
        Err(e) => Err(e),
        Ok((n, a)) => match number_line_at(s, a) {
            Err(e) => Err(e),
            Ok((l, b)) => match unsigned_line_at(s, b) {
                Err(e) => Err(e),
                Ok((m, c)) => match number_line_at(s, c) {
                    Err(e) => Err(e),
                    Ok((r_c, d)) => match rows_to_end::<ParticleRow>(s, d) {
                        Err(e) => Err(e),
                        Ok(particles) => Ok(ParticlesLayout { n, l, m, r_c, particles }),
                    },
                },
            },
        }
    }
}

/// Reads the input of a neighbour search.
pub fn parser(input: &[u8]) -> (read: Result<ParticlesText, ParseError>)
    ensures
        match read {
            Ok(text) => particles_text(input@) == Ok::<ParticlesLayout, ParseError>(text@),
            Err(e) => particles_text(input@) == Err::<ParticlesLayout, ParseError>(e),
        },
{
    let (n, a) = match read_unsigned_line(input, 0) {
        Err(e) => {
            return Err(e);
        },
        Ok(found) => found,
    };
    let (l, b) = match read_number_line(input, a) {
        Err(e) => {
            return Err(e);
        },
        Ok(found) => found,
    };
    let (m, c) = match read_unsigned_line(input, b) {
        Err(e) => {
            return Err(e);
        },
        Ok(found) => found,
    };
    let (r_c, d) = match read_number_line(input, c) {
        Err(e) => {
            return Err(e);
        },
        Ok(found) => found,
    };
    match read_rows_to_end::<ParticleRow>(input, d) {
        Err(e) => Err(e),
        Ok(particles) => Ok(ParticlesText { n, l, m, r_c, particles }),
    }
}

/// The input of a billiard run, as read.
#[derive(Debug)]
pub struct TableText {
    pub table_width: Span,
    pub table_height: Span,
    pub hole_diameter: Span,
    pub ball_diameter: Span,
    pub ball_mass: Span,
    /// The number of balls that the file announces; the rows are not counted
    /// against it.
    pub n: usize,
    pub balls: Vec<MovingRow>,
}

/// What a `TableText` holds.
pub struct TableLayout {
    pub table_width: Span,
    pub table_height: Span,
    pub hole_diameter: Span,
    pub ball_diameter: Span,
    pub ball_mass: Span,
    pub n: usize,
    pub balls: Seq<MovingRow>,
}

impl View for TableText {
    type V = TableLayout;

    open spec fn view(&self) -> TableLayout {
        TableLayout {
            table_width: self.table_width,
            table_height: self.table_height,
            hole_diameter: self.hole_diameter,
            ball_diameter: self.ball_diameter,
            ball_mass: self.ball_mass,
            n: self.n,
            balls: self.balls@,
        }
    }
}

/// The input of a billiard run: width and height of the table, diameter of the
/// holes, diameter of the balls, mass of a ball and number of balls, one to a
/// line; then the balls, one to a line.
pub open spec fn table_text(s: Seq<u8>) -> Result<TableLayout, ParseError> {
    match number_line_at(s, 0) {
        Err(e) => Err(e),
        Ok((table_width, a)) => match number_line_at(s, a) {
            Err(e) => Err(e),
            Ok((table_height, b)) => match number_line_at(s, b) {
                Err(e) => Err(e),
                Ok((hole_diameter, c)) => match number_line_at(s, c) {
                    Err(e) => Err(e),
                    Ok((ball_diameter, d)) => match number_line_at(s, d) {
                        Err(e) => Err(e),
                        Ok((ball_mass, f)) => match unsigned_line_at(s, f) {
                            Err(e) => Err(e),
                            Ok((n, g)) => match rows_to_end::<MovingRow>(s, g) {
                                Err(e) => Err(e),
                                Ok(balls) => Ok(
                                    TableLayout {
                                        table_width,
                                        table_height,
                                        hole_diameter,
                                        ball_diameter,
                                        ball_mass,
                                        n,
                                        balls,
                                    },
                                ),
                            },
                        },
                    },
                },
            },
        },
    }
}

/// Reads the input of a billiard run.
pub fn input_parser(input: &[u8]) -> (read: Result<TableText, ParseError>)
    ensures
        match read {
            Ok(text) => table_text(input@) == Ok::<TableLayout, ParseError>(text@),
            Err(e) => table_text(input@) == Err::<TableLayout, ParseError>(e),
        },
{
    let (table_width, a) = match read_number_line(input, 0) {
        Err(e) => {
            return Err(e);
        },
        Ok(found) => found,
    };
    let (table_height, b) = match read_number_line(input, a) {
        Err(e) => {
            return Err(e);
        },
        Ok(found) => found,
    };
    let (hole_diameter, c) = match read_number_line(input, b) {
        Err(e) => {
            return Err(e);
        },
        Ok(found) => found,
    };
    let (ball_diameter, d) = match read_number_line(input, c) {
        Err(e) => {
            return Err(e);
        },
        Ok(found) => found,
    };
    let (ball_mass, f) = match read_number_line(input, d) {
        Err(e) => {
            return Err(e);
        },
        Ok(found) => found,
    };
    let (n, g) = match read_unsigned_line(input, f) {
        Err(e) => {
            return Err(e);
        },
        Ok(found) => found,
    };
    match read_rows_to_end::<MovingRow>(input, g) {
        Err(e) => Err(e),
        Ok(balls) => Ok(
            TableText { table_width, table_height, hole_diameter, ball_diameter, ball_mass, n, balls },
        ),
    }
}

/// The input of a flocking run, as read.
#[derive(Debug)]
pub struct FlockText {
    pub space_length: Span,
    pub interaction_radius: Span,
    pub noise: Span,
    pub particles: Vec<MovingRow>,
}

/// What a `FlockText` holds.
pub struct FlockLayout {
    pub space_length: Span,
    pub interaction_radius: Span,
    pub noise: Span,
    pub particles: Seq<MovingRow>,
}

impl View for FlockText {
    type V = FlockLayout;

    open spec fn view(&self) -> FlockLayout {
        FlockLayout {
            space_length: self.space_length,
            interaction_radius: self.interaction_radius,
            noise: self.noise,
            particles: self.particles@,
        }
    }
}

/// The input of a flocking run: the side of the domain, the interaction radius
/// and the noise, one to a line; then the particles, one to a line.
pub open spec fn flock_text(s: Seq<u8>) -> Result<FlockLayout, ParseError> {
    match number_line_at(s, 0) {
        Err(e) => Err(e),
        Ok((space_length, a)) => match number_line_at(s, a) {
            Err(e) => Err(e),
            Ok((interaction_radius, b)) => match number_line_at(s, b) {
                Err(e) => Err(e),
                Ok((noise, c)) => match rows_to_end::<MovingRow>(s, c) {
                    Err(e) => Err(e),
                    Ok(particles) => Ok(
                        FlockLayout { space_length, interaction_radius, noise, particles },
                    ),
                },
            },
        },
    }
}

/// Reads the input of a flocking run.
pub fn flock_parser(input: &[u8]) -> (read: Result<FlockText, ParseError>)
    ensures
        match read {
            Ok(text) => flock_text(input@) == Ok::<FlockLayout, ParseError>(text@),
            Err(e) => flock_text(input@) == Err::<FlockLayout, ParseError>(e),
        },
{
    let (space_length, a) = match read_number_line(input, 0) {
        Err(e) => {
            return Err(e);
        },
        Ok(found) => found,
    };
    let (interaction_radius, b) = match read_number_line(input, a) {
        Err(e) => {
            return Err(e);
        },
        Ok(found) => found,
    };
    let (noise, c) = match read_number_line(input, b) {
        Err(e) => {
            return Err(e);
        },
        Ok(found) => found,
    };
    match read_rows_to_end::<MovingRow>(input, c) {
        Err(e) => Err(e),
        Ok(particles) => Ok(FlockText { space_length, interaction_radius, noise, particles }),
    }
}

} // verus!
