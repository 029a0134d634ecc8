//! Neighbour search and tick control for a two-dimensional particle fluid.
//!
//! A fluid of particles is advanced tick by tick. In each tick every particle
//! looks at the particles within one smoothing radius of it, so the costly
//! question is which particles lie near which. This library answers it with two
//! indexes over a grid of cells one smoothing radius wide, both rebuilt in each
//! tick from the cells that the particles fall in:
//!
//! - [`region_grid`]: a dense grid of regions over the simulation box;
//! - [`hash_grid`]: a table of the particles ordered by the hashed key of their
//!   cell, with [`spatial_hash`] as its hash.
//!
//! A search looks through the cell of a particle and the eight cells around it.
//! It is proved to find every particle of those cells, each once.
//!
//! [`sim`] holds the two indexes together with the counters and switches that
//! say whether particles move in a tick, and [`keyboard`] what a key press does
//! to them.

pub mod hash_grid;
pub mod keyboard;
pub mod particle;
pub mod region_grid;
mod seq_facts;
pub mod sim;
pub mod spatial_hash;
