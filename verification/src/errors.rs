use vstd::prelude::*;
use crate::block::BlockData;

verus! {

/// What can go wrong while reading or editing chunk data.
#[derive(Clone, Debug, PartialEq, Eq)]
pub enum WorldError {
    /// No section of the chunk answers to the given vertical index.
    SectionOutOfBounds(i32),
    /// The block has no identifier in the registry, or the count kept for it
    /// was already zero when one more of it was taken away.
    InvalidBlock(BlockData),
    /// The packed data is too short, an access falls outside of it, or a
    /// stored value does not fit the width asked for.
    InvalidBlockStateData,
    /// A palette or registry lookup that had to succeed came back empty.
    ChunkNotFound,
    /// The palette is in a mode that the operation does not handle.
    UnsupportedPalette,
}

} // verus!
