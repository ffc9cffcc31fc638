//! One 16×16×16 cube of blocks.

use vstd::prelude::*;
use crate::block::{BlockData, BlockDescriptor};
use crate::block_states::BlockStates;
use crate::errors::WorldError;
use crate::registry::BlockRegistry;

verus! {

/// The position of the block at `(x, y, z)` within its section: rows of 16
/// along x, 16 rows to a layer, the layers stacked along y. Only the place of
/// each coordinate within its section counts.
pub open spec fn local_index(x: int, y: int, z: int) -> int {
    (y % 16) * 256 + (z % 16) * 16 + (x % 16)
}

/// The vertical index of the section that holds height `y`.
pub open spec fn section_of(y: int) -> int {
    y / 16
}

/// The position of the block at `(x, y, z)` within its section.
pub fn block_index(x: i32, y: i32, z: i32) -> (index: usize)
    ensures
        index == local_index(x as int, y as int, z as int),
        index < 4096,
{
    let lx: i32 = x & 15;
    let ly: i32 = y & 15;
    let lz: i32 = z & 15;
    assert(lx == x % 16 && 0 <= lx < 16) by (bit_vector)
        requires
            lx == x & 15,
    ;
    assert(ly == y % 16 && 0 <= ly < 16) by (bit_vector)
        requires
            ly == y & 15,
    ;
    assert(lz == z % 16 && 0 <= lz < 16) by (bit_vector)
        requires
            lz == z & 15,
    ;
    (ly * 256 + lz * 16 + lx) as usize
}

/// The vertical index of the section that holds height `y`.
pub fn section_index(y: i32) -> (index: i32)
    ensures
        index == section_of(y as int),
{
    let index: i32 = y >> 4;
    assert(index == y / 16) by (bit_vector)
        requires
            index == y >> 4,
    ;
    index
}

/// The biomes of a section. They are carried as they are: nothing here reads
/// or edits them.
#[derive(Clone, Debug)]
pub struct BiomeStates {
    pub bits_per_biome: u8,
    pub data: Vec<i64>,
    pub palette: Vec<u32>,
}

/// A 16×16×16 cube of blocks at vertical index `y`, with its biomes and its
/// two light arrays of 4 bits for each position.
#[derive(Clone, Debug)]
pub struct Section {
    pub y: i8,
    pub block_states: BlockStates,
    pub biome_states: BiomeStates,
    pub block_light: Vec<u8>,
    pub sky_light: Vec<u8>,
}

impl Section {
    /// The section is sound under `registry`: its block states are, and each
    /// light array has its 2048 bytes.
    pub open spec fn wf(&self, registry: &BlockRegistry) -> bool {
        &&& self.block_states.wf(registry)
        &&& self.block_light@.len() == 2048
        &&& self.sky_light@.len() == 2048
    }

    /// The block at each of the 4096 positions.
    pub open spec fn blocks(&self, registry: &BlockRegistry) -> Seq<BlockDescriptor> {
        self.block_states.blocks(registry)
    }

    /// `self` and `after` differ in their block states at most.
    pub open spec fn same_frame(&self, after: &Section) -> bool {
        &&& after.y == self.y
        &&& after.biome_states == self.biome_states
        &&& after.block_light == self.block_light
        &&& after.sky_light == self.sky_light
    }

    /// The block at `(x, y, z)`, of which only the place within the section
    /// counts.
    pub fn get_block(&self, registry: &BlockRegistry, x: i32, y: i32, z: i32) -> (r: Result<
        BlockData,
        WorldError,
    >)
        ensures
            self.block_states.get_ensures(
                registry,
                local_index(x as int, y as int, z as int),
                r,
            ),
    {
        self.block_states.get(registry, block_index(x, y, z))
    }

    /// Makes the position of `(x, y, z)` hold `block`, as `BlockStates::set`
    /// does.
    pub fn set_block(
        &mut self,
        registry: &BlockRegistry,
        x: i32,
        y: i32,
        z: i32,
        block: BlockData,
    ) -> (r: Result<(), WorldError>)
        ensures
            old(self).same_frame(final(self)),
            old(self).block_states.set_ensures(
                &final(self).block_states,
                registry,
                local_index(x as int, y as int, z as int),
                block@,
                r,
            ),
    {
        self.block_states.set(registry, block_index(x, y, z), block)
    }

    /// Makes every position hold `block`, as `BlockStates::fill` does.
    pub fn fill(&mut self, registry: &BlockRegistry, block: BlockData) -> (r: Result<(), WorldError>)
        ensures
            old(self).same_frame(final(self)),
            old(self).block_states.fill_ensures(&final(self).block_states, registry, block@, r),
    {
        self.block_states.fill(registry, block)
    }

    /// Drops the palette entries that are not in use and turns a section of
    /// one block into a single one, as `BlockStates::optimise` does.
    pub fn optimise(&mut self, registry: &BlockRegistry) -> (r: Result<(), WorldError>)
        ensures
            old(self).same_frame(final(self)),
            old(self).block_states.optimise_ensures(&final(self).block_states, registry, r),
    {
        self.block_states.optimise(registry)
    }
}

} // verus!
