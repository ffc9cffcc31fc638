//! Palette-compressed block storage for a voxel world: 16×16×16 sections
//! whose block states are held as bit-packed indices into a local palette,
//! stacked into chunk columns.

pub mod bit_packed;
pub mod block;
pub mod block_counts;
pub mod block_states;
pub mod chunk;
pub mod connection;
pub mod counting;
pub mod errors;
pub mod laws;
pub mod palette;
pub mod placement;
pub mod registry;
pub mod section;
pub mod vanilla;
