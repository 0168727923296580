//! Neighbour search for particle simulations on a square lattice.
//!
//! The heart of the crate is the cell-index finder of `cim_finder`, with the
//! all-pairs finder of `brute_force` as its measure and the `neighbor_map` that
//! both fill. Around it stand the readers of the simulations' text files
//! (`format`, `parser`, `frames`), the passage from decimal text to the lattice
//! (`lattice`), a search from text to text (`search`), and the collision checks
//! of a billiard table (`pool`). What holds of the finders on every input is
//! gathered in `laws`.

pub mod brute_force;
pub mod cim_finder;
pub mod format;
pub mod frames;
pub mod grid;
pub mod lattice;
pub mod laws;
pub mod neighbor_map;
pub mod parser;
pub mod particles;
pub mod pool;
pub mod search;
pub mod stencil;
pub mod text;
