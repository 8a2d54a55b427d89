//! Codec core for the Mapbox Vector Tile (MVT) wire format: geometry
//! command-stream encoding/decoding and attribute dictionary interning.

pub mod dict;
pub mod geometry;
pub mod geometry_laws;
pub mod tag;
pub mod tag_laws;
pub mod tileid;

use vstd::prelude::*;

verus! {

/// Tile coordinates: zoom level, column, row.
pub type TileZXY = (u8, u32, u32);

} // verus!
