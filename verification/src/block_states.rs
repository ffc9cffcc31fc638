//! The block states of a section: the palette storage together with the
//! histogram of its blocks and the number of blocks that are not air.

use vstd::prelude::*;
use crate::block::{is_air_name, BlockData, BlockDescriptor};
use crate::block_counts::BlockCounts;
use crate::counting::{
    count_true,
    lemma_count_all,
    lemma_count_bound,
    lemma_count_none,
    lemma_count_positive,
    lemma_count_update,
};
use crate::errors::WorldError;
use crate::palette::{
    capacity,
    entries,
    fits_width,
    kept_below,
    kept_ids,
    lemma_kept_at,
    lemma_kept_from,
    PaletteType,
};
use crate::registry::BlockRegistry;

verus! {

/// For each position, whether `blocks` holds `d` there.
pub open spec fn hits(blocks: Seq<BlockDescriptor>, d: BlockDescriptor) -> Seq<bool> {
    Seq::new(blocks.len(), |i: int| blocks[i] == d)
}

/// For each position, whether `blocks` holds a block there that is not air.
pub open spec fn airless(blocks: Seq<BlockDescriptor>) -> Seq<bool> {
    Seq::new(blocks.len(), |i: int| !is_air_name(blocks[i].name))
}

/// At how many positions `blocks` holds `d`.
pub open spec fn occurrences(blocks: Seq<BlockDescriptor>, d: BlockDescriptor) -> nat {
    count_true(hits(blocks, d))
}

/// At how many positions `blocks` holds a block that is not air.
pub open spec fn non_air(blocks: Seq<BlockDescriptor>) -> nat {
    count_true(airless(blocks))
}

/// Replacing the block at one position moves one occurrence from the old
/// block to the new one.
pub proof fn lemma_occurrences_update(
    blocks: Seq<BlockDescriptor>,
    k: int,
    v: BlockDescriptor,
    d: BlockDescriptor,
)
    requires
        0 <= k < blocks.len(),
    ensures
        occurrences(blocks.update(k, v), d) + (if blocks[k] == d {
            1nat
        } else {
            0nat
        }) == occurrences(blocks, d) + (if v == d {
            1nat
        } else {
            0nat
        }),
{
    lemma_count_update(hits(blocks, d), k, v == d);
    assert(hits(blocks.update(k, v), d) =~= hits(blocks, d).update(k, v == d));
}

/// Replacing the block at one position changes the number of blocks that
/// are not air by that position alone.
pub proof fn lemma_non_air_update(blocks: Seq<BlockDescriptor>, k: int, v: BlockDescriptor)
    requires
        0 <= k < blocks.len(),
    ensures
        non_air(blocks.update(k, v)) + (if is_air_name(blocks[k].name) {
            0nat
        } else {
            1nat
        }) == non_air(blocks) + (if is_air_name(v.name) {
            0nat
        } else {
            1nat
        }),
{
    lemma_count_update(airless(blocks), k, !is_air_name(v.name));
    assert(airless(blocks.update(k, v)) =~= airless(blocks).update(k, !is_air_name(v.name)));
}

/// Where every position holds the same block, that block occurs everywhere
/// and no other block anywhere.
pub proof fn lemma_uniform(blocks: Seq<BlockDescriptor>, c: BlockDescriptor)
    requires
        forall|i: int| 0 <= i < blocks.len() ==> blocks[i] == c,
    ensures
        forall|d: BlockDescriptor|
            occurrences(blocks, d) == (if d == c {
                blocks.len()
            } else {
                0
            }),
        non_air(blocks) == (if is_air_name(c.name) {
            0
        } else {
            blocks.len()
        }),
{
    assert forall|d: BlockDescriptor|
        occurrences(blocks, d) == (if d == c {
            blocks.len()
        } else {
            0
        }) by {
        if d == c {
            lemma_count_all(hits(blocks, d));
        } else {
            lemma_count_none(hits(blocks, d));
        }
    }
    if is_air_name(c.name) {
        lemma_count_none(airless(blocks));
    } else {
        lemma_count_all(airless(blocks));
    }
}

/// A block that some position holds occurs at least once.
pub proof fn lemma_occurs(blocks: Seq<BlockDescriptor>, k: int)
    requires
        0 <= k < blocks.len(),
    ensures
        occurrences(blocks, blocks[k]) >= 1,
        !is_air_name(blocks[k].name) ==> non_air(blocks) >= 1,
        non_air(blocks) <= blocks.len(),
{
    lemma_count_positive(hits(blocks, blocks[k]), k);
    lemma_count_bound(airless(blocks));
    if !is_air_name(blocks[k].name) {
        lemma_count_positive(airless(blocks), k);
    }
}

/// Where some element is counted, some element is `true`.
proof fn lemma_counted(s: Seq<bool>) -> (k: int)
    requires
        count_true(s) > 0,
    ensures
        0 <= k < s.len(),
        s[k],
{
    if forall|i: int| 0 <= i < s.len() ==> !s[i] {
        lemma_count_none(s);
    }
    choose|k: int| 0 <= k < s.len() && s[k]
}

/// For each palette entry, whether the histogram counts any of its block.
fn marks(palette: &Vec<u32>, counts: &BlockCounts, registry: &BlockRegistry) -> (keep: Vec<bool>)
    ensures
        keep@.len() == palette@.len(),
        forall|k: int|
            0 <= k < palette@.len() ==> #[trigger] keep@[k] == (counts.count(
                registry.describe(palette@[k]),
            ) > 0),
{
    let mut keep: Vec<bool> = Vec::with_capacity(palette.len());
    let mut k: usize = 0;
    while k < palette.len()
        invariant
            k <= palette@.len(),
            keep@.len() == k,
            forall|j: int|
                0 <= j < k ==> #[trigger] keep@[j] == (counts.count(registry.describe(palette@[j]))
                    > 0),
        decreases palette.len() - k,
    {
        let block = match registry.descriptor_of(palette[k]) {
            Some(block) => block,
            None => BlockData::default(),
        };
        let used = match counts.get(&block) {
            Some(count) => count > 0,
            None => false,
        };
        keep.push(used);
        k += 1;
    }
    keep
}

/// The palette storage of a section with its bookkeeping.
#[derive(Clone, Debug)]
pub struct BlockStates {
    /// How many of the 4096 positions hold a block that is not air.
    pub non_air_blocks: u16,
    /// The stored identifiers.
    pub block_data: PaletteType,
    /// How many positions hold each block.
    pub block_counts: BlockCounts,
}

impl BlockStates {
    /// The block at each of the 4096 positions, as `registry` reads the
    /// stored identifiers.
    pub open spec fn blocks(&self, registry: &BlockRegistry) -> Seq<BlockDescriptor> {
        Seq::new(4096, |i: int| registry.describe(self.block_data.ids()[i]))
    }

    /// Every identifier that the storage names is one that `registry` gives
    /// out: it has a block, and the block has that identifier.
    pub open spec fn canonical_ids(&self, registry: &BlockRegistry) -> bool {
        match self.block_data {
            PaletteType::Direct { .. } => forall|i: int|
                0 <= i < 4096 ==> registry.canonical(#[trigger] self.block_data.ids()[i]),
            _ => forall|k: int|
                0 <= k < self.block_data.palette_ids().len() ==> registry.canonical(
                    #[trigger] self.block_data.palette_ids()[k],
                ),
        }
    }

    /// The states are sound under `registry`: the storage is sound and as
    /// narrow as its palette allows, it names identifiers of `registry`
    /// only, the histogram counts each block exactly as often as it occurs,
    /// which makes 4096 in all, and the number of blocks that are not air is
    /// the true one.
    pub open spec fn wf(&self, registry: &BlockRegistry) -> bool {
        &&& self.block_data.well_formed()
        &&& self.block_data.minimal_width()
        &&& self.canonical_ids(registry)
        &&& self.block_counts.distinct()
        &&& forall|d: BlockDescriptor|
            self.block_counts.count(d) == occurrences(self.blocks(registry), d)
        &&& self.block_counts.total() == 4096
        &&& self.non_air_blocks == non_air(self.blocks(registry))
    }

    /// What reading position `index` gives: the block there, or the error
    /// that the read ends in. An identifier without a block is an error in a
    /// single section and reads as plain air in an indirect one.
    pub open spec fn block_at(&self, registry: &BlockRegistry, index: int) -> Result<
        BlockDescriptor,
        WorldError,
    > {
        match self.block_data.id_at(index) {
            Err(e) => Err(e),
            Ok(id) => if self.block_data is Single && registry.descriptor(id) is None {
                Err(WorldError::ChunkNotFound)
            } else {
                Ok(registry.describe(id))
            },
        }
    }

    /// In sound states that are not direct, every position reads as its
    /// block.
    pub proof fn lemma_block_at(&self, registry: &BlockRegistry, index: int)
        requires
            self.wf(registry),
            !(self.block_data is Direct),
            0 <= index < 4096,
        ensures
            self.block_at(registry, index) == Ok::<BlockDescriptor, WorldError>(
                self.blocks(registry)[index],
            ),
    {
        self.block_data.lemma_id_at(index);
        if self.block_data is Single {
            assert(registry.canonical(self.block_data.palette_ids()[0]));
        }
    }

    /// What `get` answers at position `index`: the block that the position
    /// reads as, or the error that the read ends in.
    pub open spec fn get_ensures(
        &self,
        registry: &BlockRegistry,
        index: int,
        r: Result<BlockData, WorldError>,
    ) -> bool {
        match self.block_at(registry, index) {
            Ok(d) => r is Ok && r->Ok_0@ == d,
            Err(e) => r is Err && r->Err_0 == e,
        }
    }

    /// The block at position `index`.
    pub fn get(&self, registry: &BlockRegistry, index: usize) -> (r: Result<BlockData, WorldError>)
        ensures
            self.get_ensures(registry, index as int, r),
    {
        let id = match self.block_data.get(index) {
            Ok(id) => id,
            Err(e) => {
                return Err(e);
            },
        };
        match registry.descriptor_of(id) {
            Some(block) => Ok(block),
            None => {
                if let PaletteType::Single(_) = self.block_data {
                    Err(WorldError::ChunkNotFound)
                } else {
                    Ok(BlockData::default())
                }
            },
        }
    }

    /// What `resize` to `new_bit_size` bits does to states that are `self`
    /// before and `after` afterwards, and what it answers.
    pub open spec fn resize_ensures(
        &self,
        after: &BlockStates,
        new_bit_size: int,
        r: Result<(), WorldError>,
    ) -> bool {
        &&& r is Ok <==> self.block_data.resizable(new_bit_size)
        &&& r is Err ==> *after == *self
        &&& r is Err ==> r->Err_0 == (if self.block_data is Direct {
            WorldError::UnsupportedPalette
        } else {
            WorldError::InvalidBlockStateData
        })
        &&& after.non_air_blocks == self.non_air_blocks
        &&& after.block_counts == self.block_counts
        &&& r is Ok ==> (after.block_data matches PaletteType::Indirect {
            bits_per_block,
            data,
            palette,
        } && bits_per_block == new_bit_size && data@.len() == 64 * new_bit_size && palette@
            == self.block_data.palette_ids())
        &&& r is Ok ==> after.block_data.indices() == self.block_data.indices()
        &&& r is Ok ==> forall|i: int|
            0 <= i < 4096 ==> #[trigger] after.block_data.id_at(i) == self.block_data.id_at(i)
        &&& r is Ok && self.block_data.well_formed() ==> after.block_data.ids()
            == self.block_data.ids()
        &&& r is Ok && self.block_data.well_formed() && 4 <= new_bit_size
            && self.block_data.palette_ids().len() <= capacity(new_bit_size)
            ==> after.block_data.well_formed()
    }

    /// Stores the same blocks at `new_bit_size` bits per position; the
    /// bookkeeping stays as it is. A single section becomes an indirect one.
    /// Fails, changing nothing, when the width is not between 1 and 64, the
    /// data cannot be read, a stored value needs more bits than the new
    /// width has, or the section is direct.
    pub fn resize(&mut self, new_bit_size: usize) -> (r: Result<(), WorldError>)
        ensures
            old(self).resize_ensures(final(self), new_bit_size as int, r),
    {
        self.block_data.resize(new_bit_size)
    }

    /// What `fill` with `block` does to states that are `self` before and
    /// `after` afterwards, and what it answers.
    pub open spec fn fill_ensures(
        &self,
        after: &BlockStates,
        registry: &BlockRegistry,
        block: BlockDescriptor,
        r: Result<(), WorldError>,
    ) -> bool {
        &&& r is Ok <==> registry.id(block) is Some
        &&& r is Err ==> *after == *self
        &&& r is Err ==> (r->Err_0 matches WorldError::InvalidBlock(b) && b@ == block)
        &&& r is Ok ==> after.block_data == PaletteType::Single(registry.id(block)->Some_0)
        &&& r is Ok ==> forall|d: BlockDescriptor|
            after.block_counts.count(d) == (if d == block {
                4096nat
            } else {
                0nat
            })
        &&& r is Ok ==> after.non_air_blocks == (if is_air_name(block.name) {
            0int
        } else {
            4096int
        })
        &&& r is Ok ==> after.wf(registry)
        &&& r is Ok ==> forall|i: int|
            0 <= i < 4096 ==> #[trigger] after.blocks(registry)[i] == block
        &&& r is Ok ==> forall|i: int|
            0 <= i < 4096 ==> #[trigger] after.block_at(registry, i) == Ok::<
                BlockDescriptor,
                WorldError,
            >(block)
    }

    /// Makes every position hold `block`: the storage becomes single, the
    /// histogram one entry of 4096, and the number of blocks that are not
    /// air 0 or 4096 by the name of `block`. Fails, changing nothing, when
    /// `registry` has no identifier for `block`.
    pub fn fill(&mut self, registry: &BlockRegistry, block: BlockData) -> (r: Result<(), WorldError>)
        ensures
            old(self).fill_ensures(final(self), registry, block@, r),
    {
        let id = match registry.id_of(&block) {
            Some(id) => id,
            None => {
                return Err(WorldError::InvalidBlock(block));
            },
        };
        let airless: u16 = if block.is_air() {
            0
        } else {
            4096
        };
        let ghost d = block@;
        self.block_data = PaletteType::Single(id);
        self.block_counts = BlockCounts::single(block, 4096);
        self.non_air_blocks = airless;
        proof {
            registry.lemma_id_round_trip(d);
            assert(self.blocks(registry) =~= Seq::new(4096, |i: int| d));
            lemma_uniform(self.blocks(registry), d);
            assert(self.block_data.palette_ids()[0] == id);
        }
        Ok(())
    }

    /// What `set` of `block` at position `index` does to states that are
    /// `self` before and `after` afterwards, and what it answers.
    pub open spec fn set_ensures(
        &self,
        after: &BlockStates,
        registry: &BlockRegistry,
        index: int,
        block: BlockDescriptor,
        r: Result<(), WorldError>,
    ) -> bool {
        let at = self.block_at(registry, index);
        // A call that fails changes nothing, and a position that cannot be
        // read cannot be written.
        &&& r is Err ==> *after == *self
        &&& at is Err ==> r is Err && r->Err_0 == at->Err_0
        // The block that is there already: nothing to do.
        &&& at == Ok::<BlockDescriptor, WorldError>(block) ==> r is Ok && *after == *self
        // Another block: what can stand in the way, and what is done.
        &&& at is Ok && at->Ok_0 != block ==> {
            let was = at->Ok_0;
            let counts = self.block_counts;
            let spent = counts.tracks(was) && counts.count(was) == 0;
            let unknown = registry.id(block) is None;
            let full = counts.count(block) >= u32::MAX;
            let unreadable = !self.block_data.settable(index);
            &&& r is Ok <==> !spent && !unknown && !full && !unreadable
            &&& spent ==> (r->Err_0 matches WorldError::InvalidBlock(b) && b@ == was)
            &&& !spent && unknown ==> (r->Err_0 matches WorldError::InvalidBlock(b) && b@ == block)
            &&& !spent && !unknown && full ==> (r->Err_0 matches WorldError::InvalidBlock(b) && b@
                == block)
            &&& !spent && !unknown && !full && unreadable ==> r->Err_0
                == WorldError::InvalidBlockStateData
            &&& r is Ok ==> after.block_data.id_at(index) == Ok::<u32, WorldError>(
                registry.id(block)->Some_0,
            )
            &&& r is Ok ==> after.non_air_blocks == (if is_air_name(was.name) && !is_air_name(
                block.name,
            ) && self.non_air_blocks < u16::MAX {
                self.non_air_blocks + 1
            } else if !is_air_name(was.name) && is_air_name(block.name) && self.non_air_blocks > 0 {
                self.non_air_blocks - 1
            } else {
                self.non_air_blocks as int
            })
            &&& r is Ok ==> forall|d: BlockDescriptor|
                after.block_counts.count(d) + (if d == was && counts.tracks(was) {
                    1nat
                } else {
                    0nat
                }) == counts.count(d) + (if d == block {
                    1nat
                } else {
                    0nat
                })
        }
        // Afterwards the position reads as `block`, and every other position
        // that could be read reads as before.
        &&& r is Ok ==> after.block_at(registry, index) == Ok::<BlockDescriptor, WorldError>(block)
        &&& r is Ok ==> forall|j: int|
            0 <= j < 4096 && j != index && self.block_at(registry, j) is Ok ==> after.block_at(
                registry,
                j,
            ) == self.block_at(registry, j)
        // On sound states only a block without identifier is refused, and the
        // states stay sound.
        &&& self.wf(registry) && !(self.block_data is Direct) && index < 4096 ==> (r is Ok
            <==> self.blocks(registry)[index] == block || registry.id(block) is Some)
        &&& self.wf(registry) && r is Ok ==> after.wf(registry) && after.blocks(registry)
            == self.blocks(registry).update(index, block)
    }

    /// Makes position `index` hold `block` and keeps the books: one less of
    /// the block that was there, one more of `block`. Nothing happens where
    /// the position holds `block` already. A block that was there without an
    /// entry in the histogram is left uncounted; one whose entry is at zero
    /// already is an error. Whatever fails, nothing changes.
    pub fn set(&mut self, registry: &BlockRegistry, index: usize, block: BlockData) -> (r: Result<
        (),
        WorldError,
    >)
        ensures
            old(self).set_ensures(final(self), registry, index as int, block@, r),
    {
        let ghost before = *self;
        proof {
            if before.wf(registry) && !(before.block_data is Direct) && index < 4096 {
                before.lemma_block_at(registry, index as int);
            }
        }
        let old_block = match self.get(registry, index) {
            Ok(b) => b,
            Err(e) => {
                return Err(e);
            },
        };
        let ghost was = old_block@;
        proof {
            if before.wf(registry) {
                before.lemma_block_at(registry, index as int);
                lemma_occurs(before.blocks(registry), index as int);
                lemma_count_bound(hits(before.blocks(registry), block@));
                if !before.block_counts.tracks(was) {
                    assert(before.block_counts.count(was) == 0);
                }
            }
        }
        if old_block == block {
            proof {
                if before.wf(registry) {
                    assert(before.blocks(registry).update(index as int, block@)
                        =~= before.blocks(registry));
                }
            }
            return Ok(());
        }
        if let Some(count) = self.block_counts.get(&old_block) {
            if count == 0 {
                return Err(WorldError::InvalidBlock(old_block));
            }
        }
        let id = match registry.id_of(&block) {
            Some(id) => id,
            None => {
                return Err(WorldError::InvalidBlock(block));
            },
        };
        self.replace(registry, index, old_block, block, id)
    }

    /// Puts `block`, whose identifier is `id`, in place of `old_block` at
    /// position `index`.
    pub(crate) fn replace(
        &mut self,
        registry: &BlockRegistry,
        index: usize,
        old_block: BlockData,
        block: BlockData,
        id: u32,
    ) -> (r: Result<(), WorldError>)
        requires
            old(self).block_at(registry, index as int) == Ok::<BlockDescriptor, WorldError>(
                old_block@,
            ),
            old_block@ != block@,
            registry.id(block@) == Some(id),
        ensures
            old(self).set_ensures(final(self), registry, index as int, block@, r),
    {
        let ghost before = *self;
        let ghost was = old_block@;
        proof {
            if before.wf(registry) {
                before.lemma_block_at(registry, index as int);
                lemma_occurs(before.blocks(registry), index as int);
                lemma_count_bound(hits(before.blocks(registry), block@));
                if !before.block_counts.tracks(was) {
                    assert(before.block_counts.count(was) == 0);
                }
            }
        }
        if let Some(count) = self.block_counts.get(&old_block) {
            if count == 0 {
                return Err(WorldError::InvalidBlock(old_block));
            }
        }
        if let Some(count) = self.block_counts.get(&block) {
            if count == u32::MAX {
                return Err(WorldError::InvalidBlock(block));
            }
        }
        match self.block_data.set(index, id) {
            Ok(()) => {},
            Err(e) => {
                return Err(e);
            },
        }
        let taken = self.block_counts.take_one(&old_block);
        assert(taken);
        self.block_counts.add_one(&block);
        let was_air = old_block.is_air();
        let now_air = block.is_air();
        if was_air && !now_air {
            if self.non_air_blocks < u16::MAX {
                self.non_air_blocks = self.non_air_blocks + 1;
            }
        } else if !was_air && now_air {
            if self.non_air_blocks > 0 {
                self.non_air_blocks = self.non_air_blocks - 1;
            }
        }
        proof {
            registry.lemma_id_round_trip(block@);
            assert forall|j: int|
                0 <= j < 4096 && j != index && before.block_at(registry, j) is Ok implies self.block_at(
                registry,
                j,
            ) == before.block_at(registry, j) by {
                assert(before.block_data.id_at(j) is Ok);
            }
            if before.wf(registry) {
                let b0 = before.blocks(registry);
                let b1 = self.blocks(registry);
                assert(b1 =~= b0.update(index as int, block@));
                assert forall|d: BlockDescriptor|
                    self.block_counts.count(d) == occurrences(b1, d) by {
                    lemma_occurrences_update(b0, index as int, block@, d);
                }
                lemma_non_air_update(b0, index as int, block@);
                assert(self.canonical_ids(registry)) by {
                    let old_ids = before.block_data.palette_ids();
                    let new_ids = self.block_data.palette_ids();
                    assert forall|k: int| 0 <= k < new_ids.len() implies registry.canonical(
                        #[trigger] new_ids[k],
                    ) by {
                        if k < old_ids.len() {
                            assert(registry.canonical(old_ids[k]));
                        }
                    }
                }
            }
        }
        Ok(())
    }

    /// For each palette entry, whether the histogram counts any of the block
    /// that the entry stands for.
    pub open spec fn in_use(&self, registry: &BlockRegistry) -> Seq<bool> {
        Seq::new(
            self.block_data.palette_ids().len(),
            |k: int|
                self.block_counts.count(registry.describe(self.block_data.palette_ids()[k])) > 0,
        )
    }

    /// In sound states of one block alone, one palette entry is in use.
    proof fn lemma_one_in_use(&self, registry: &BlockRegistry)
        requires
            self.wf(registry),
            self.block_data is Indirect,
            forall|i: int|
                0 <= i < 4096 ==> #[trigger] self.blocks(registry)[i] == self.blocks(registry)[0],
        ensures
            kept_ids(self.block_data.palette_ids(), self.in_use(registry)).len() <= 1,
    {
        let palette = self.block_data.palette_ids();
        let keep = self.in_use(registry);
        let kept = kept_ids(palette, keep);
        let blocks = self.blocks(registry);
        if kept.len() >= 2 {
            let s0 = lemma_kept_from(palette, keep, 0);
            let s1 = lemma_kept_from(palette, keep, 1);
            let d0 = registry.describe(palette[s0]);
            let d1 = registry.describe(palette[s1]);
            let i0 = lemma_counted(hits(blocks, d0));
            let i1 = lemma_counted(hits(blocks, d1));
            assert(blocks[i0] == blocks[0] && blocks[i1] == blocks[0]);
            assert(registry.canonical(palette[s0]) && registry.canonical(palette[s1]));
            assert(palette[s0] == palette[s1]);
        }
    }

    /// What `optimise` does to states that are `self` before and `after`
    /// afterwards, and what it answers.
    pub open spec fn optimise_ensures(
        &self,
        after: &BlockStates,
        registry: &BlockRegistry,
        r: Result<(), WorldError>,
    ) -> bool {
        let keep = self.in_use(registry);
        let kept = kept_ids(self.block_data.palette_ids(), keep);
        &&& r is Ok <==> self.block_data.compactable(keep)
        &&& r is Err ==> *after == *self && r->Err_0 == WorldError::InvalidBlockStateData
        &&& r is Ok && !(self.block_data is Indirect) ==> *after == *self
        &&& after.non_air_blocks == self.non_air_blocks
        // One entry left: a single section with its one count.
        &&& r is Ok && self.block_data is Indirect && kept.len() == 1 ==> {
            &&& after.block_data == PaletteType::Single(kept[0])
            &&& forall|d: BlockDescriptor|
                after.block_counts.count(d) == (if d == registry.describe(kept[0]) {
                    4096nat
                } else {
                    0nat
                })
        }
        // Otherwise: the shorter palette at its least width, each value moved
        // down by the number of entries removed below it.
        &&& r is Ok && self.block_data is Indirect && kept.len() != 1 ==> {
            &&& after.block_counts == self.block_counts
            &&& after.block_data matches PaletteType::Indirect { bits_per_block, data, palette }
            &&& palette@ == kept
            &&& fits_width(kept.len() as int, bits_per_block as int)
            &&& data@.len() == 64 * bits_per_block
            &&& forall|i: int|
                0 <= i < 4096 ==> #[trigger] entries(data@, bits_per_block as int)[i] == kept_below(
                    keep,
                    self.block_data.indices()[i] as int,
                )
        }
        &&& r is Ok ==> forall|i: int|
            0 <= i < 4096 ==> #[trigger] after.block_data.id_at(i) == self.block_data.id_at(i)
        // Sound states are always compacted, stay sound and read as before;
        // those of one block alone become single.
        &&& self.wf(registry) ==> r is Ok && after.wf(registry) && after.blocks(registry)
            == self.blocks(registry)
        &&& self.wf(registry) ==> forall|i: int|
            0 <= i < 4096 ==> #[trigger] after.block_at(registry, i) == self.block_at(registry, i)
        &&& self.wf(registry) && !(self.block_data is Direct) && (forall|i: int|
            0 <= i < 4096 ==> #[trigger] self.blocks(registry)[i] == self.blocks(registry)[0])
            ==> after.block_data is Single
    }

    /// Removes from an indirect palette the entries of blocks that the
    /// histogram counts none of, renumbers the stored values to match, and
    /// stores them as narrowly as the shorter palette allows. Where one
    /// entry is left the section becomes single and the histogram one entry
    /// of 4096. Single and direct sections are left as they are. Fails,
    /// changing nothing, when the data cannot be read or a stored value
    /// names an entry that is not there or that would be removed.
    pub fn optimise(&mut self, registry: &BlockRegistry) -> (r: Result<(), WorldError>)
        ensures
            old(self).optimise_ensures(final(self), registry, r),
    {
        let ghost before = *self;
        let keep = match &self.block_data {
            PaletteType::Indirect { palette, .. } => marks(palette, &self.block_counts, registry),
            _ => {
                return Ok(());
            },
        };
        proof {
            assert(keep@ =~= before.in_use(registry));
            if before.wf(registry) {
                let palette = before.block_data.palette_ids();
                let blocks = before.blocks(registry);
                assert forall|i: int| 0 <= i < 4096 implies #[trigger] before.block_data.indices()[i]
                    < keep@.len() && keep@[before.block_data.indices()[i] as int] by {
                    lemma_occurs(blocks, i);
                }
            }
        }
        match self.block_data.compact(&keep) {
            Ok(()) => {},
            Err(e) => {
                return Err(e);
            },
        }
        if let PaletteType::Single(id) = self.block_data {
            let block = match registry.descriptor_of(id) {
                Some(block) => block,
                None => BlockData::default(),
            };
            self.block_counts = BlockCounts::single(block, 4096);
        }
        proof {
            if before.wf(registry) {
                let palette = before.block_data.palette_ids();
                let kept = kept_ids(palette, keep@);
                let blocks = before.blocks(registry);
                assert(self.blocks(registry) =~= blocks);
                assert(self.canonical_ids(registry)) by {
                    assert forall|k: int| 0 <= k < kept.len() implies registry.canonical(
                        #[trigger] kept[k],
                    ) by {
                        let slot = lemma_kept_from(palette, keep@, k);
                        assert(registry.canonical(palette[slot]));
                    }
                }
                if self.block_data is Single {
                    let c = registry.describe(kept[0]);
                    assert forall|i: int| 0 <= i < 4096 implies blocks[i] == c by {
                        assert(self.blocks(registry)[i] == c);
                    }
                    lemma_uniform(blocks, c);
                }
                if forall|i: int| 0 <= i < 4096 ==> #[trigger] blocks[i] == blocks[0] {
                    before.lemma_one_in_use(registry);
                    lemma_kept_at(palette, keep@, before.block_data.indices()[0] as int);
                }
            }
        }
        Ok(())
    }
}

} // verus!
