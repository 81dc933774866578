//! Solving core of a wave-function-collapse style tile generator.
//!
//! A [`rules::Rules`] catalog holds canonicalized local-adjacency facts; a
//! [`tile::SuperTile`] keeps the set of tile identities still consistent with
//! a cell's neighbors, narrows that set as neighbor information arrives, and
//! finally forces a single outcome through a weighted random draw over a
//! [`weighted::Weighted`] frequency table.

pub mod rng;
pub mod rules;
pub mod sorted;
pub mod tile;
pub mod weighted;
