//! Tile ID schemes.

pub mod hilbert;
