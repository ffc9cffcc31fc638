//! A column of sections, addressed by world coordinates.

use vstd::prelude::*;
use crate::block::{air_descriptor, BlockData, BlockDescriptor};
use crate::block_counts::BlockCounts;
use crate::block_states::{lemma_uniform, BlockStates};
use crate::errors::WorldError;
use crate::palette::PaletteType;
use crate::registry::BlockRegistry;
use crate::section::{local_index, section_index, section_of, BiomeStates, Section};

verus! {

/// The number of sections in a new chunk.
pub const SECTIONS_PER_CHUNK: usize = 24;

/// The number of bytes in a light array: 4 bits for each of 4096 positions.
pub const LIGHT_BYTES: usize = 2048;

/// The height maps of a chunk, as packed longs. They are carried as they
/// are.
#[derive(Clone, Debug)]
pub struct Heightmaps {
    pub motion_blocking: Vec<i64>,
    pub world_surface: Vec<i64>,
}

impl Heightmaps {
    /// Empty height maps.
    pub fn new() -> (r: Heightmaps)
        ensures
            r.motion_blocking@.len() == 0,
            r.world_surface@.len() == 0,
    {
        Heightmaps { motion_blocking: Vec::new(), world_surface: Vec::new() }
    }
}

impl Default for Heightmaps {
    fn default() -> (r: Heightmaps)
        ensures
            r.motion_blocking@.len() == 0,
            r.world_surface@.len() == 0,
    {
        Heightmaps::new()
    }
}

/// The sections of one (x, z) column of the world.
#[derive(Clone, Debug)]
pub struct Chunk {
    pub x: i32,
    pub z: i32,
    pub dimension: String,
    pub sections: Vec<Section>,
    pub heightmaps: Heightmaps,
}

/// A light array with every position fully lit.
fn full_light() -> (light: Vec<u8>)
    ensures
        light@.len() == 2048,
        forall|i: int| 0 <= i < 2048 ==> light@[i] == 255,
{
    let mut light: Vec<u8> = Vec::with_capacity(LIGHT_BYTES);
    while light.len() < LIGHT_BYTES
        invariant
            light@.len() <= 2048,
            forall|i: int| 0 <= i < light@.len() ==> light@[i] == 255,
        decreases 2048 - light@.len(),
    {
        light.push(255);
    }
    light
}

/// A section of plain air at vertical index `y`, fully lit.
pub(crate) fn air_section(y: i8) -> (section: Section)
    ensures
        section.is_new_at(y as int),
{
    let mut biomes: Vec<u32> = Vec::new();
    biomes.push(0);
    assert(biomes@ =~= seq![0u32]);
    Section {
        y,
        block_states: BlockStates {
            non_air_blocks: 0,
            block_data: PaletteType::Single(0),
            block_counts: BlockCounts::single(BlockData::default(), 4096),
        },
        biome_states: BiomeStates { bits_per_biome: 0, data: Vec::new(), palette: biomes },
        block_light: full_light(),
        sky_light: full_light(),
    }
}

impl Section {
    /// The section is as a new chunk has it at vertical index `y`: all plain
    /// air under identifier 0, counted as such, and fully lit.
    pub open spec fn is_new_at(&self, y: int) -> bool {
        &&& self.y == y
        &&& self.block_states.block_data == PaletteType::Single(0)
        &&& self.block_states.non_air_blocks == 0
        &&& self.block_states.block_counts.distinct()
        &&& self.block_states.block_counts.total() == 4096
        &&& forall|d: BlockDescriptor|
            self.block_states.block_counts.count(d) == (if d == air_descriptor() {
                4096nat
            } else {
                0nat
            })
        &&& self.biome_states.bits_per_biome == 0
        &&& self.biome_states.data@.len() == 0
        &&& self.biome_states.palette@ == seq![0u32]
        &&& self.block_light@.len() == 2048
        &&& self.sky_light@.len() == 2048
        &&& forall|i: int| 0 <= i < 2048 ==> self.block_light@[i] == 255
        &&& forall|i: int| 0 <= i < 2048 ==> self.sky_light@[i] == 255
    }

    /// A new section is sound under every registry that has plain air as
    /// identifier 0.
    pub proof fn lemma_new_is_sound(&self, y: int, registry: &BlockRegistry)
        requires
            self.is_new_at(y),
            registry.air_is_zero(),
        ensures
            self.wf(registry),
            forall|i: int| 0 <= i < 4096 ==> #[trigger] self.blocks(registry)[i] == air_descriptor(),
    {
        assert(registry.names(0, air_descriptor()));
        registry.lemma_names_is_id(0, air_descriptor());
        assert(self.block_states.block_data.palette_ids()[0] == 0);
        lemma_uniform(self.blocks(registry), air_descriptor());
        assert(crate::block::is_air_name(air_descriptor().name));
    }
}

impl Chunk {
    /// The chunk is sound under `registry`: each of its sections is.
    pub open spec fn wf(&self, registry: &BlockRegistry) -> bool {
        forall|i: int| 0 <= i < self.sections@.len() ==> (#[trigger] self.sections@[i]).wf(registry)
    }

    /// Some section has the vertical index that holds height `y`.
    pub open spec fn has_section(&self, y: int) -> bool {
        exists|i: int| 0 <= i < self.sections@.len() && (#[trigger] self.sections@[i]).y == section_of(y)
    }

    /// Section `i` is the one that answers for height `y`: the first with
    /// the vertical index that holds `y`.
    pub open spec fn is_section_for(&self, i: int, y: int) -> bool {
        &&& 0 <= i < self.sections@.len()
        &&& self.sections@[i].y == section_of(y)
        &&& forall|j: int| 0 <= j < i ==> (#[trigger] self.sections@[j]).y != section_of(y)
    }

    /// The place of the section that answers for height `y`, where there is
    /// one.
    pub open spec fn section_for(&self, y: int) -> int {
        choose|i: int| self.is_section_for(i, y)
    }

    /// Where a section at or below place `k` has the vertical index that
    /// holds `y`, some section is the first to have it.
    proof fn lemma_first_upto(&self, y: int, k: int)
        requires
            0 <= k < self.sections@.len(),
            self.sections@[k].y == section_of(y),
        ensures
            exists|i: int| self.is_section_for(i, y),
        decreases k,
    {
        if exists|j: int| 0 <= j < k && (#[trigger] self.sections@[j]).y == section_of(y) {
            let j = choose|j: int| 0 <= j < k && (#[trigger] self.sections@[j]).y == section_of(y);
            self.lemma_first_upto(y, j);
        } else {
            assert(self.is_section_for(k, y));
        }
    }

    /// Where some section has the vertical index that holds `y`, exactly one
    /// section answers for `y`, and it answers for every height with the
    /// same vertical index.
    pub proof fn lemma_section_for(&self, y: int)
        requires
            self.has_section(y),
        ensures
            self.is_section_for(self.section_for(y), y),
            forall|i: int| self.is_section_for(i, y) ==> i == self.section_for(y),
            forall|other: int|
                section_of(other) == section_of(y) ==> #[trigger] self.section_for(other)
                    == self.section_for(y),
    {
        let k = choose|i: int|
            0 <= i < self.sections@.len() && (#[trigger] self.sections@[i]).y == section_of(y);
        self.lemma_first_upto(y, k);
        let first = self.section_for(y);
        assert forall|i: int| self.is_section_for(i, y) implies i == first by {
            if i < first {
                assert(self.sections@[i].y != section_of(y));
            } else if first < i {
                assert(self.sections@[first].y != section_of(y));
            }
        }
        assert forall|other: int| section_of(other) == section_of(y) implies #[trigger] self.section_for(
            other,
        ) == first by {
            assert(self.is_section_for(first, other));
            let o = self.section_for(other);
            if o < first {
                assert(self.sections@[o].y != section_of(y));
            } else if first < o {
                assert(self.sections@[first].y != section_of(other));
            }
        }
    }

    /// What reading `(x, y, z)` gives: the block there, or the error that
    /// the read ends in.
    pub open spec fn block_at(&self, registry: &BlockRegistry, x: int, y: int, z: int) -> Result<
        BlockDescriptor,
        WorldError,
    > {
        if self.has_section(y) {
            self.sections@[self.section_for(y)].block_states.block_at(
                registry,
                local_index(x, y, z),
            )
        } else {
            Err(WorldError::SectionOutOfBounds(section_of(y) as i32))
        }
    }

    /// Two positions that are the same position of the same section read the
    /// same.
    pub proof fn lemma_same_cell(
        &self,
        registry: &BlockRegistry,
        x: int,
        y: int,
        z: int,
        x2: int,
        y2: int,
        z2: int,
    )
        requires
            Chunk::same_cell(x, y, z, x2, y2, z2),
        ensures
            self.block_at(registry, x, y, z) == self.block_at(registry, x2, y2, z2),
    {
        if self.has_section(y) {
            let k = choose|i: int|
                0 <= i < self.sections@.len() && (#[trigger] self.sections@[i]).y == section_of(y);
            assert(self.has_section(y2));
            self.lemma_section_for(y);
        }
        if self.has_section(y2) {
            let k = choose|i: int|
                0 <= i < self.sections@.len() && (#[trigger] self.sections@[i]).y == section_of(y2);
            assert(self.has_section(y));
        }
    }

    /// Two chunks with the same sections read the same everywhere.
    pub proof fn lemma_same_sections(
        &self,
        after: &Chunk,
        registry: &BlockRegistry,
        x: int,
        y: int,
        z: int,
    )
        requires
            after.sections@ == self.sections@,
        ensures
            after.block_at(registry, x, y, z) == self.block_at(registry, x, y, z),
    {
        if self.has_section(y) {
            let k = choose|i: int|
                0 <= i < self.sections@.len() && (#[trigger] self.sections@[i]).y == section_of(y);
            assert(after.sections@[k].y == section_of(y));
            self.lemma_section_for(y);
            after.lemma_section_for(y);
            assert(after.is_section_for(self.section_for(y), y));
        }
        if after.has_section(y) {
            let k = choose|i: int|
                0 <= i < after.sections@.len() && (#[trigger] after.sections@[i]).y == section_of(y);
            assert(self.sections@[k].y == section_of(y));
        }
    }

    /// `(x, y, z)` and `(x2, y2, z2)` are the same position of the same
    /// section.
    pub open spec fn same_cell(x: int, y: int, z: int, x2: int, y2: int, z2: int) -> bool {
        section_of(y) == section_of(y2) && local_index(x, y, z) == local_index(x2, y2, z2)
    }

    /// What `set_block` of `block` at `(x, y, z)` does to a chunk that is
    /// `self` before and `after` afterwards, and what it answers.
    pub open spec fn set_block_ensures(
        &self,
        after: &Chunk,
        registry: &BlockRegistry,
        x: int,
        y: int,
        z: int,
        block: BlockDescriptor,
        r: Result<(), WorldError>,
    ) -> bool {
        &&& self.same_frame(after)
        &&& r is Err ==> self.same_as(after)
        &&& !self.has_section(y) ==> r is Err && r->Err_0 == WorldError::SectionOutOfBounds(
            section_of(y) as i32,
        )
        &&& forall|i: int|
            self.is_section_for(i, y) ==> {
                &&& self.sections@[i].same_frame(&after.sections@[i])
                &&& self.sections@[i].block_states.set_ensures(
                    &after.sections@[i].block_states,
                    registry,
                    local_index(x, y, z),
                    block,
                    r,
                )
                &&& forall|j: int|
                    0 <= j < self.sections@.len() && j != i ==> after.sections@[j]
                        == self.sections@[j]
            }
        &&& r is Ok ==> after.block_at(registry, x, y, z) == Ok::<BlockDescriptor, WorldError>(
            block,
        )
        &&& r is Ok ==> forall|x2: int, y2: int, z2: int|
            !Chunk::same_cell(x, y, z, x2, y2, z2) && self.block_at(registry, x2, y2, z2) is Ok
                ==> #[trigger] after.block_at(registry, x2, y2, z2) == self.block_at(
                registry,
                x2,
                y2,
                z2,
            )
    }

    /// `self` and `after` are the same chunk: they differ nowhere.
    pub open spec fn same_as(&self, after: &Chunk) -> bool {
        self.same_frame(after) && after.sections@ == self.sections@
    }

    /// `self` and `after` differ in their sections at most, and have as
    /// many.
    pub open spec fn same_frame(&self, after: &Chunk) -> bool {
        &&& after.x == self.x
        &&& after.z == self.z
        &&& after.dimension == self.dimension
        &&& after.heightmaps == self.heightmaps
        &&& after.sections@.len() == self.sections@.len()
    }

    /// Where `after` differs from `self` in the block states of section `i`
    /// alone, the same section answers for every height in both, and it is
    /// section `i` exactly for the heights that section `i` holds.
    proof fn lemma_sections_kept(&self, after: &Chunk, i: int, y: int, y2: int)
        requires
            self.is_section_for(i, y),
            self.same_frame(after),
            self.sections@[i].same_frame(&after.sections@[i]),
            forall|j: int|
                0 <= j < self.sections@.len() && j != i ==> after.sections@[j] == self.sections@[j],
        ensures
            after.has_section(y2) == self.has_section(y2),
            self.has_section(y2) ==> after.section_for(y2) == self.section_for(y2),
            self.has_section(y2) ==> (self.section_for(y2) == i <==> section_of(y2) == section_of(y)),
    {
        assert forall|j: int| 0 <= j < self.sections@.len() implies (#[trigger] after.sections@[j]).y
            == self.sections@[j].y by {}
        self.lemma_section_for(y);
        if self.has_section(y2) {
            self.lemma_section_for(y2);
            let k = self.section_for(y2);
            assert(after.sections@[k].y == section_of(y2));
            assert(after.is_section_for(k, y2));
            after.lemma_section_for(y2);
        }
        if after.has_section(y2) {
            let k = choose|k: int|
                0 <= k < after.sections@.len() && (#[trigger] after.sections@[k]).y == section_of(y2);
            assert(self.sections@[k].y == section_of(y2));
        }
    }

    /// The place of the section that answers for height `y`.
    fn find_section(&self, y: i32) -> (r: Option<usize>)
        ensures
            r is Some <==> self.has_section(y as int),
            r is Some ==> self.is_section_for(r->Some_0 as int, y as int),
    {
        let wanted: i32 = section_index(y);
        let mut i: usize = 0;
        while i < self.sections.len()
            invariant
                i <= self.sections@.len(),
                wanted == section_of(y as int),
                forall|j: int| 0 <= j < i ==> (#[trigger] self.sections@[j]).y != wanted,
            decreases self.sections.len() - i,
        {
            if self.sections[i].y as i32 == wanted {
                return Some(i);
            }
            i += 1;
        }
        None
    }

    /// A chunk of 24 sections with the vertical indices 0 to 23, each of
    /// plain air and fully lit, and with empty height maps.
    pub fn new(x: i32, z: i32, dimension: String) -> (chunk: Chunk)
        ensures
            chunk.x == x,
            chunk.z == z,
            chunk.dimension == dimension,
            chunk.heightmaps.motion_blocking@.len() == 0,
            chunk.heightmaps.world_surface@.len() == 0,
            chunk.sections@.len() == 24,
            forall|i: int| 0 <= i < 24 ==> (#[trigger] chunk.sections@[i]).is_new_at(i),
    {
        let mut sections: Vec<Section> = Vec::with_capacity(SECTIONS_PER_CHUNK);
        let mut y: i8 = 0;
        while y < 24
            invariant
                0 <= y <= 24,
                sections@.len() == y,
                forall|i: int| 0 <= i < y ==> (#[trigger] sections@[i]).is_new_at(i),
            decreases 24 - y,
        {
            sections.push(air_section(y));
            y += 1;
        }
        Chunk { x, z, dimension, sections, heightmaps: Heightmaps::new() }
    }

    /// The block at `(x, y, z)`. Fails when no section has the vertical
    /// index that holds `y`; otherwise the first such section answers.
    pub fn get_block(&self, registry: &BlockRegistry, x: i32, y: i32, z: i32) -> (r: Result<
        BlockData,
        WorldError,
    >)
        ensures
            match self.block_at(registry, x as int, y as int, z as int) {
                Ok(d) => r is Ok && r->Ok_0@ == d,
                Err(e) => r is Err && r->Err_0 == e,
            },
    {
        match self.find_section(y) {
            Some(i) => {
                proof {
                    self.lemma_section_for(y as int);
                }
                self.sections[i].get_block(registry, x, y, z)
            },
            None => Err(WorldError::SectionOutOfBounds(section_index(y))),
        }
    }

    /// Makes the position `(x, y, z)` hold `block`. Fails, changing nothing,
    /// when no section has the vertical index that holds `y`; otherwise the
    /// first such section is edited as `BlockStates::set` does, and no
    /// other.
    pub fn set_block(
        &mut self,
        registry: &BlockRegistry,
        x: i32,
        y: i32,
        z: i32,
        block: BlockData,
    ) -> (r: Result<(), WorldError>)
        ensures
            old(self).set_block_ensures(
                final(self),
                registry,
                x as int,
                y as int,
                z as int,
                block@,
                r,
            ),
    {
        let ghost before = *self;
        match self.find_section(y) {
            Some(i) => {
                let r = self.sections[i].set_block(registry, x, y, z, block);
                proof {
                    if r is Err {
                        assert(self.sections@[i as int] == before.sections@[i as int]);
                        assert(self.sections@ =~= before.sections@);
                    }
                    before.lemma_section_for(y as int);
                    before.lemma_sections_kept(self, i as int, y as int, y as int);
                    assert forall|x2: int, y2: int, z2: int|
                        r is Ok && !Chunk::same_cell(x as int, y as int, z as int, x2, y2, z2)
                            && before.block_at(registry, x2, y2, z2) is Ok implies #[trigger] self.block_at(
                        registry,
                        x2,
                        y2,
                        z2,
                    ) == before.block_at(registry, x2, y2, z2) by {
                        before.lemma_sections_kept(self, i as int, y as int, y2);
                        let index = local_index(x2, y2, z2);
                        assert(0 <= index < 4096);
                        let k = before.section_for(y2);
                        before.lemma_section_for(y2);
                        if k == i {
                            assert(index != local_index(x as int, y as int, z as int));
                            assert(before.sections@[k].block_states.block_at(registry, index) is Ok);
                            assert(self.sections@[k].block_states.block_at(registry, index)
                                == before.sections@[k].block_states.block_at(registry, index));
                        } else {
                            assert(self.sections@[k] == before.sections@[k]);
                        }
                    }
                }
                r
            },
            None => Err(WorldError::SectionOutOfBounds(section_index(y))),
        }
    }

    /// Makes every position of the section at place `section` hold `block`,
    /// as `BlockStates::fill` does. Fails, changing nothing, when the chunk
    /// has no section at that place.
    pub fn set_section(&mut self, registry: &BlockRegistry, section: u8, block: BlockData) -> (r:
        Result<(), WorldError>)
        ensures
            old(self).same_frame(final(self)),
            r is Err ==> old(self).same_as(final(self)),
            section >= old(self).sections@.len() ==> r is Err && r->Err_0
                == WorldError::SectionOutOfBounds(section as i32),
            section < old(self).sections@.len() ==> {
                &&& old(self).sections@[section as int].same_frame(
                    &final(self).sections@[section as int],
                )
                &&& old(self).sections@[section as int].block_states.fill_ensures(
                    &final(self).sections@[section as int].block_states,
                    registry,
                    block@,
                    r,
                )
                &&& forall|j: int|
                    0 <= j < old(self).sections@.len() && j != section ==> final(self).sections@[j]
                        == old(self).sections@[j]
            },
    {
        let ghost before = *self;
        if (section as usize) < self.sections.len() {
            let r = self.sections[section as usize].fill(registry, block);
            proof {
                if r is Err {
                    assert(self.sections@[section as int] == before.sections@[section as int]);
                    assert(self.sections@ =~= before.sections@);
                }
            }
            r
        } else {
            Err(WorldError::SectionOutOfBounds(section as i32))
        }
    }

    /// Makes every position of every section hold `block`. Fails, changing
    /// nothing, when the chunk has sections and `registry` has no identifier
    /// for `block`.
    pub fn fill(&mut self, registry: &BlockRegistry, block: BlockData) -> (r: Result<(), WorldError>)
        ensures
            old(self).same_frame(final(self)),
            r is Ok <==> old(self).sections@.len() == 0 || registry.id(block@) is Some,
            r is Err ==> old(self).same_as(final(self)),
            r is Err ==> (r->Err_0 matches WorldError::InvalidBlock(b) && b@ == block@),
            r is Ok ==> forall|i: int|
                0 <= i < old(self).sections@.len() ==> {
                    &&& (#[trigger] old(self).sections@[i]).same_frame(&final(self).sections@[i])
                    &&& old(self).sections@[i].block_states.fill_ensures(
                        &final(self).sections@[i].block_states,
                        registry,
                        block@,
                        r,
                    )
                },
    {
        let ghost before = *self;
        let mut i: usize = 0;
        while i < self.sections.len()
            invariant
                i <= self.sections@.len(),
                before == *old(self),
                before.same_frame(self),
                i > 0 ==> registry.id(block@) is Some,
                forall|j: int|
                    0 <= j < i ==> {
                        &&& (#[trigger] before.sections@[j]).same_frame(&self.sections@[j])
                        &&& before.sections@[j].block_states.fill_ensures(
                            &self.sections@[j].block_states,
                            registry,
                            block@,
                            Ok(()),
                        )
                    },
                forall|j: int|
                    i <= j < self.sections@.len() ==> self.sections@[j] == before.sections@[j],
            decreases self.sections.len() - i,
        {
            let ghost sections = self.sections@;
            let filled = self.sections[i].fill(registry, block.clone());
            match filled {
                Ok(()) => {},
                Err(e) => {
                    proof {
                        assert(self.sections@[i as int] == sections[i as int]);
                        assert(self.sections@ =~= before.sections@);
                    }
                    return Err(e);
                },
            }
            i += 1;
        }
        Ok(())
    }
}

} // verus!
