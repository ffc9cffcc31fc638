//! Chunks as world files hold them, and their conversion into chunks of this
//! library.
//!
//! A world file stores the blocks of a section as a palette of blocks and
//! packed indices into it. An index never crosses from one long into the
//! next: each long holds as many indices as fit, and the bits that are left
//! over stay unused.

use vstd::prelude::*;
use vstd::string::StringExecFns;
use crate::bit_packed::{in_bounds, read_bits};
use crate::block::{air_descriptor, BlockData, BlockDescriptor};
use crate::chunk::{air_section, Chunk, Heightmaps};
use crate::errors::WorldError;
use crate::palette::{min_width, width_for};
use crate::registry::BlockRegistry;
use crate::section::Section;

verus! {

/// The block states of a stored section.
#[derive(Clone, Debug)]
pub struct VanillaBlockStates {
    pub data: Option<Vec<i64>>,
    pub palette: Option<Vec<BlockData>>,
}

/// A section as a world file holds it.
#[derive(Clone, Debug)]
pub struct VanillaSection {
    pub y: i8,
    pub block_states: Option<VanillaBlockStates>,
    pub block_light: Option<Vec<i8>>,
    pub sky_light: Option<Vec<i8>>,
}

/// The height maps of a stored chunk.
#[derive(Clone, Debug)]
pub struct VanillaHeightmaps {
    pub motion_blocking: Option<Vec<i64>>,
    pub world_surface: Option<Vec<i64>>,
}

/// A chunk as a world file holds it.
#[derive(Clone, Debug)]
pub struct VanillaChunk {
    pub x_pos: i32,
    pub z_pos: i32,
    pub dimension: Option<String>,
    pub sections: Option<Vec<VanillaSection>>,
    pub heightmaps: Option<VanillaHeightmaps>,
}

/// The longs as words of bits.
pub open spec fn as_words(longs: Seq<i64>) -> Seq<u64> {
    Seq::new(longs.len(), |k: int| longs[k] as u64)
}

/// The longs of an optional list, an absent list being an empty one.
pub open spec fn longs_of(list: Option<Vec<i64>>) -> Seq<i64> {
    match list {
        Some(longs) => longs@,
        None => Seq::empty(),
    }
}

/// A stored light array as the bytes of a section: the same bits, and 2048
/// zero bytes for an absent array.
pub open spec fn light_of(light: Option<Vec<i8>>) -> Seq<u8> {
    match light {
        Some(bytes) => Seq::new(bytes@.len(), |k: int| bytes@[k] as u8),
        None => Seq::new(2048, |k: int| 0u8),
    }
}

impl VanillaSection {
    /// The palette, an absent one being empty.
    pub open spec fn palette(&self) -> Seq<BlockData> {
        match self.block_states {
            Some(states) => match states.palette {
                Some(palette) => palette@,
                None => Seq::empty(),
            },
            None => Seq::empty(),
        }
    }

    /// The packed indices as words of bits, absent data being empty.
    pub open spec fn words(&self) -> Seq<u64> {
        match self.block_states {
            Some(states) => as_words(longs_of(states.data)),
            None => Seq::empty(),
        }
    }

    /// The number of bits of each index: the least width, from 4 bits on,
    /// that can index the palette.
    pub open spec fn width(&self) -> int {
        min_width(if self.palette().len() == 0 {
            1
        } else {
            self.palette().len() as int
        })
    }

    /// The data is empty, or long enough for 4096 indices.
    pub open spec fn readable(&self) -> bool {
        self.words().len() == 0 || self.words().len() * (64int / self.width()) >= 4096
    }

    /// Where index `i` starts: in the long that holds it, behind the indices
    /// before it in that long.
    pub open spec fn offset(&self, i: int) -> int {
        let per_long = 64int / self.width();
        (i / per_long) * 64 + (i % per_long) * self.width()
    }

    /// The block at position `i`, as `registry` knows the palette: plain air
    /// everywhere where there is no data, and plain air for an index that
    /// the palette has no block for or `registry` no identifier.
    pub open spec fn block(&self, registry: &BlockRegistry, i: int) -> BlockDescriptor {
        if self.words().len() == 0 {
            air_descriptor()
        } else {
            let index = read_bits(self.words(), self.offset(i), self.width());
            if index < self.palette().len() && registry.id(self.palette()[index as int]@) is Some {
                self.palette()[index as int]@
            } else {
                air_descriptor()
            }
        }
    }

    /// `section` is this section converted: it has the same vertical index
    /// and the same blocks, in block states that are sound under
    /// `registry`, the stored light, and the biomes that a converted section
    /// starts with.
    pub open spec fn converts_to(&self, registry: &BlockRegistry, section: &Section) -> bool {
        &&& section.y == self.y
        &&& section.block_states.wf(registry)
        &&& !(section.block_states.block_data is Direct)
        &&& forall|i: int|
            0 <= i < 4096 ==> #[trigger] section.block_states.block_at(registry, i) == Ok::<
                BlockDescriptor,
                WorldError,
            >(self.block(registry, i))
        &&& self.words().len() == 0 ==> section.block_states.block_data is Single
        &&& section.block_light@ == light_of(self.block_light)
        &&& section.sky_light@ == light_of(self.sky_light)
        &&& section.biome_states.bits_per_biome == 4
        &&& section.biome_states.data@.len() == 0
        &&& section.biome_states.palette@ == seq![0u32]
    }
}

fn to_words(longs: &Vec<i64>) -> (words: Vec<u64>)
    ensures
        words@ == as_words(longs@),
{
    let mut words: Vec<u64> = Vec::with_capacity(longs.len());
    let mut k: usize = 0;
    while k < longs.len()
        invariant
            k <= longs@.len(),
            words@.len() == k,
            forall|j: int| 0 <= j < k ==> words@[j] == longs@[j] as u64,
        decreases longs.len() - k,
    {
        words.push(longs[k] as u64);
        k += 1;
    }
    assert(words@ =~= as_words(longs@));
    words
}

fn copy_longs(list: &Option<Vec<i64>>) -> (longs: Vec<i64>)
    ensures
        longs@ == longs_of(*list),
{
    let mut longs: Vec<i64> = Vec::new();
    if let Some(source) = list {
        let mut k: usize = 0;
        while k < source.len()
            invariant
                k <= source@.len(),
                longs@.len() == k,
                forall|j: int| 0 <= j < k ==> longs@[j] == source@[j],
            decreases source.len() - k,
        {
            longs.push(source[k]);
            k += 1;
        }
        assert(longs@ =~= source@);
    }
    longs
}

fn convert_light(light: &Option<Vec<i8>>) -> (bytes: Vec<u8>)
    ensures
        bytes@ == light_of(*light),
{
    let mut bytes: Vec<u8> = Vec::new();
    match light {
        Some(source) => {
            let mut k: usize = 0;
            while k < source.len()
                invariant
                    k <= source@.len(),
                    bytes@.len() == k,
                    forall|j: int| 0 <= j < k ==> bytes@[j] == source@[j] as u8,
                decreases source.len() - k,
            {
                bytes.push(source[k] as u8);
                k += 1;
            }
        },
        None => {
            while bytes.len() < 2048
                invariant
                    bytes@.len() <= 2048,
                    forall|j: int| 0 <= j < bytes@.len() ==> bytes@[j] == 0,
                decreases 2048 - bytes@.len(),
            {
                bytes.push(0);
            }
        },
    }
    assert(bytes@ =~= light_of(*light));
    bytes
}

/// The identifier of each palette entry, where `registry` has one.
fn known_ids(registry: &BlockRegistry, palette: &Vec<BlockData>) -> (ids: Vec<Option<u32>>)
    ensures
        ids@.len() == palette@.len(),
        forall|k: int| 0 <= k < palette@.len() ==> #[trigger] ids@[k] == registry.id(palette@[k]@),
{
    let mut ids: Vec<Option<u32>> = Vec::with_capacity(palette.len());
    let mut k: usize = 0;
    while k < palette.len()
        invariant
            k <= palette@.len(),
            ids@.len() == k,
            forall|j: int| 0 <= j < k ==> #[trigger] ids@[j] == registry.id(palette@[j]@),
        decreases palette.len() - k,
    {
        ids.push(registry.id_of(&palette[k]));
        k += 1;
    }
    ids
}

/// Every index of readable data lies inside of its long.
proof fn lemma_offset(len: int, width: int, i: int)
    requires
        1 <= width <= 64,
        len * (64int / width) >= 4096,
        0 <= i < 4096,
    ensures
        0 <= i / (64int / width) < len,
        i / (64int / width) < 4096,
        0 <= (i % (64int / width)) * width,
        (i % (64int / width)) * width + width <= 64,
{
    let per = 64int / width;
    assert(1 <= per <= 64) by (nonlinear_arith)
        requires
            per == 64int / width,
            1 <= width <= 64,
    ;
    assert(per * width <= 64) by (nonlinear_arith)
        requires
            per == 64int / width,
            1 <= width <= 64,
    ;
    let long = i / per;
    let slot = i % per;
    assert(0 <= slot < per);
    assert(0 <= slot * width && slot * width + width <= per * width) by (nonlinear_arith)
        requires
            0 <= slot < per,
            1 <= width,
    ;
    assert(0 <= long <= i) by (nonlinear_arith)
        requires
            long == i / per,
            0 <= i,
            1 <= per,
    ;
    if long >= len {
        assert(long * per >= len * per) by (nonlinear_arith)
            requires
                long >= len,
                per >= 1,
        ;
        assert(i == per * long + slot) by (nonlinear_arith)
            requires
                long == i / per,
                slot == i % per,
                per >= 1,
        ;
    }
}

/// Converts one stored section. Fails when `registry` does not have plain air
/// as identifier 0, and when the data of the section is not empty and too
/// short for 4096 indices.
pub fn convert_section(registry: &BlockRegistry, stored: &VanillaSection) -> (r: Result<
    Section,
    WorldError,
>)
    ensures
        r is Ok <==> registry.air_is_zero() && stored.readable(),
        r is Err && !registry.air_is_zero() ==> (r->Err_0 matches WorldError::InvalidBlock(b) && b@
            == air_descriptor()),
        r is Err && registry.air_is_zero() ==> r->Err_0 == WorldError::InvalidBlockStateData,
        r is Ok ==> stored.converts_to(registry, &r->Ok_0),
{
    let air = BlockData::default();
    let air_is_zero = match registry.descriptor_of(0) {
        Some(block) => block == air,
        None => false,
    };
    if !air_is_zero {
        return Err(WorldError::InvalidBlock(air));
    }
    let none: Vec<BlockData> = Vec::new();
    let palette: &Vec<BlockData> = match &stored.block_states {
        Some(states) => match &states.palette {
            Some(palette) => palette,
            None => &none,
        },
        None => &none,
    };
    let words: Vec<u64> = match &stored.block_states {
        Some(states) => match &states.data {
            Some(longs) => to_words(longs),
            None => Vec::new(),
        },
        None => Vec::new(),
    };
    assert(words@ =~= stored.words());
    assert(palette@ =~= stored.palette());
    let width: u8 = width_for(if palette.len() == 0 {
        1
    } else {
        palette.len()
    });
    let per_long: usize = 64 / (width as usize);
    assert(1 <= per_long <= 16) by (nonlinear_arith)
        requires
            per_long == 64int / (width as int),
            4 <= width <= 64,
    ;
    let enough: bool = if words.len() >= 4096 {
        true
    } else {
        assert(words@.len() * per_long <= 4096 * 16) by (nonlinear_arith)
            requires
                words@.len() < 4096,
                1 <= per_long <= 16,
        ;
        words.len() * per_long >= 4096
    };
    proof {
        if words@.len() >= 4096 {
            assert(words@.len() * per_long >= 4096) by (nonlinear_arith)
                requires
                    words@.len() >= 4096,
                    per_long >= 1,
            ;
        }
    }
    if words.len() > 0 && !enough {
        return Err(WorldError::InvalidBlockStateData);
    }
    let mut section = air_section(stored.y);
    proof {
        section.lemma_new_is_sound(stored.y as int, registry);
    }
    section.biome_states.bits_per_biome = 4;
    section.block_light = convert_light(&stored.block_light);
    section.sky_light = convert_light(&stored.sky_light);
    if words.len() == 0 {
        proof {
            assert forall|i: int| 0 <= i < 4096 implies #[trigger] section.block_states.block_at(
                registry,
                i,
            ) == Ok::<BlockDescriptor, WorldError>(stored.block(registry, i)) by {
                section.block_states.lemma_block_at(registry, i);
            }
        }
        return Ok(section);
    }
    let ids = known_ids(registry, palette);
    let mut i: usize = 0;
    while i < 4096
        invariant
            i <= 4096,
            registry.air_is_zero(),
            words@ == stored.words(),
            palette@ == stored.palette(),
            width == stored.width(),
            4 <= width <= 64,
            per_long == 64int / width as int,
            words@.len() > 0,
            words@.len() * (64int / width as int) >= 4096,
            ids@.len() == palette@.len(),
            forall|k: int|
                0 <= k < palette@.len() ==> #[trigger] ids@[k] == registry.id(palette@[k]@),
            section.y == stored.y,
            section.block_states.wf(registry),
            !(section.block_states.block_data is Direct),
            section.block_light@ == light_of(stored.block_light),
            section.sky_light@ == light_of(stored.sky_light),
            section.biome_states.bits_per_biome == 4,
            section.biome_states.data@.len() == 0,
            section.biome_states.palette@ == seq![0u32],
            forall|j: int|
                0 <= j < i ==> #[trigger] section.block_states.block_at(registry, j) == Ok::<
                    BlockDescriptor,
                    WorldError,
                >(stored.block(registry, j)),
        decreases 4096 - i,
    {
        proof {
            lemma_offset(words@.len() as int, width as int, i as int);
            section.block_states.lemma_block_at(registry, i as int);
            assert(registry.names(0, air_descriptor()));
            registry.lemma_names_is_id(0, air_descriptor());
        }
        let offset: usize = (i / per_long) * 64 + (i % per_long) * (width as usize);
        assert(in_bounds(words@.len(), offset as int, width as int));
        let index: u64 = match crate::bit_packed::read(&words, offset, width) {
            Ok(index) => index,
            Err(e) => {
                return Err(e);
            },
        };
        let mut block = BlockData::default();
        let mut id: u32 = 0;
        if index < palette.len() as u64 {
            if let Some(known) = ids[index as usize] {
                block = palette[index as usize].clone();
                id = known;
            }
        }
        assert(block@ == stored.block(registry, i as int));
        let old_block = match section.block_states.get(registry, i) {
            Ok(old_block) => old_block,
            Err(e) => {
                return Err(e);
            },
        };
        if old_block != block {
            let ghost before = section.block_states;
            let replaced = section.block_states.replace(registry, i, old_block, block, id);
            assert(replaced is Ok);
            proof {
                assert forall|j: int| 0 <= j < i implies #[trigger] section.block_states.block_at(
                    registry,
                    j,
                ) == Ok::<BlockDescriptor, WorldError>(stored.block(registry, j)) by {
                    assert(before.block_at(registry, j) is Ok);
                }
            }
        }
        i += 1;
    }
    Ok(section)
}

impl VanillaChunk {
    /// The stored sections, an absent list being empty.
    pub open spec fn stored_sections(&self) -> Seq<VanillaSection> {
        match self.sections {
            Some(sections) => sections@,
            None => Seq::empty(),
        }
    }

    /// Converts the stored chunk: its coordinates, its dimension (the
    /// overworld where none is stored), its height maps and each of its
    /// sections, in their order. Fails when there are sections and
    /// `registry` does not have plain air as identifier 0, and when the
    /// data of a section is not empty and too short for 4096 indices.
    pub fn to_custom_format(&self, registry: &BlockRegistry) -> (r: Result<Chunk, WorldError>)
        requires
            self.sections is Some,
        ensures
            r is Ok <==> (self.stored_sections().len() == 0 || registry.air_is_zero()) && forall|
                k: int,
            |
                0 <= k < self.stored_sections().len() ==> (#[trigger] self.stored_sections()[k]).readable(),
            r is Err && !registry.air_is_zero() ==> (r->Err_0 matches WorldError::InvalidBlock(b)
                && b@ == air_descriptor()),
            r is Err && registry.air_is_zero() ==> r->Err_0 == WorldError::InvalidBlockStateData,
            r is Ok ==> {
                let chunk = r->Ok_0;
                &&& chunk.x == self.x_pos
                &&& chunk.z == self.z_pos
                &&& chunk.dimension@ == (match self.dimension {
                    Some(name) => name@,
                    None => "overworld"@,
                })
                &&& chunk.heightmaps.motion_blocking@ == (match self.heightmaps {
                    Some(maps) => longs_of(maps.motion_blocking),
                    None => Seq::empty(),
                })
                &&& chunk.heightmaps.world_surface@ == (match self.heightmaps {
                    Some(maps) => longs_of(maps.world_surface),
                    None => Seq::empty(),
                })
                &&& chunk.sections@.len() == self.stored_sections().len()
                &&& forall|k: int|
                    0 <= k < self.stored_sections().len() ==> (
                    #[trigger] self.stored_sections()[k]).converts_to(registry, &chunk.sections@[k])
            },
    {
        let stored: &Vec<VanillaSection> = match &self.sections {
            Some(stored) => stored,
            None => {
                return Err(WorldError::InvalidBlockStateData);
            },
        };
        let mut sections: Vec<Section> = Vec::with_capacity(stored.len());
        let mut k: usize = 0;
        while k < stored.len()
            invariant
                k <= stored@.len(),
                stored@ == self.stored_sections(),
                k > 0 ==> registry.air_is_zero(),
                sections@.len() == k,
                forall|j: int|
                    0 <= j < k ==> (#[trigger] stored@[j]).readable() && stored@[j].converts_to(
                        registry,
                        &sections@[j],
                    ),
            decreases stored.len() - k,
        {
            match convert_section(registry, &stored[k]) {
                Ok(section) => {
                    sections.push(section);
                },
                Err(e) => {
                    return Err(e);
                },
            }
            k += 1;
        }
        let heightmaps = match &self.heightmaps {
            Some(maps) => Heightmaps {
                motion_blocking: copy_longs(&maps.motion_blocking),
                world_surface: copy_longs(&maps.world_surface),
            },
            None => Heightmaps::new(),
        };
        let dimension = match &self.dimension {
            Some(name) => name.clone(),
            None => String::from_str("overworld"),
        };
        proof {
            if self.heightmaps is None {
                assert(heightmaps.motion_blocking@ =~= Seq::<i64>::empty());
                assert(heightmaps.world_surface@ =~= Seq::<i64>::empty());
            }
        }
        Ok(Chunk { x: self.x_pos, z: self.z_pos, dimension, sections, heightmaps })
    }
}

} // verus!
