//! The three ways a section stores its 4096 block identifiers, and the
//! operations that read, edit, widen and compact that storage.
//!
//! A single section holds one identifier for all positions. It becomes
//! indirect, 4 bits wide, the first time another block is put into it. An
//! indirect section grows by one palette entry for each new block, and by as
//! many bits as the new entry needs; compaction shortens its palette again
//! and turns it back into a single section where one entry is left.
//!
//! Direct sections are carried as they are. Nothing here turns a section
//! into a direct one; reading, editing or resizing one ends in
//! `WorldError::UnsupportedPalette`, and compaction leaves it alone.

use vstd::prelude::*;
use crate::bit_packed::{in_bounds, low_mask, mask, read_bits};
use crate::counting::{count_true, lemma_count_step};
use crate::errors::WorldError;

verus! {

/// The number of block positions in a section.
pub const SECTION_BLOCKS: usize = 4096;

/// The block states of a section.
#[derive(Clone, Debug, PartialEq, Eq)]
pub enum PaletteType {
    /// Every position holds the block with this identifier.
    Single(u32),
    /// Each position holds, in `bits_per_block` bits of `data`, an index into
    /// `palette`, which lists the identifiers that the section uses.
    Indirect { bits_per_block: u8, data: Vec<u64>, palette: Vec<u32> },
    /// Each position holds an identifier itself, in `bits_per_block` bits of
    /// `data`.
    Direct { bits_per_block: u8, data: Vec<u64> },
}

/// The 4096 values that `data` holds at `width` bits each, one after the
/// other from bit 0.
pub open spec fn entries(data: Seq<u64>, width: int) -> Seq<u64> {
    Seq::new(4096, |i: int| read_bits(data, i * width, width))
}

/// How many values `width` bits can tell apart.
pub open spec fn capacity(width: int) -> int {
    low_mask(width as u64) + 1
}

/// `data` holds 4096 values of `width` bits.
pub open spec fn decodable(data: Seq<u64>, width: int) -> bool {
    1 <= width <= 64 && data.len() >= 64 * width
}

/// Every one of the 4096 slots of `width` bits lies inside decodable data,
/// and two different slots do not overlap.
pub proof fn lemma_slots(len: nat, width: int)
    requires
        1 <= width <= 64,
        len >= 64 * width,
    ensures
        forall|i: int| 0 <= i < 4096 ==> in_bounds(len, #[trigger] (i * width), width),
        forall|i: int, j: int|
            0 <= i < j < 4096 ==> #[trigger] (i * width) + width <= #[trigger] (j * width),
{
    assert forall|i: int| 0 <= i < 4096 implies in_bounds(len, #[trigger] (i * width), width) by {
        assert(0 <= i * width && i * width + width <= 4096 * width) by (nonlinear_arith)
            requires
                0 <= i < 4096,
                1 <= width,
        ;
    }
    assert forall|i: int, j: int| 0 <= i < j < 4096 implies #[trigger] (i * width) + width
        <= #[trigger] (j * width) by {
        assert(i * width + width <= j * width) by (nonlinear_arith)
            requires
                0 <= i < j,
                1 <= width,
        ;
    }
}

proof fn lemma_mask_grows(a: u64, b: u64)
    by (bit_vector)
    requires
        a <= b,
    ensures
        low_mask(a) <= low_mask(b),
{
}

proof fn lemma_zero_field(s: u64, n: u64)
    by (bit_vector)
    ensures
        crate::bit_packed::field(0, s, n) == 0,
        (0u64 | (0u64 << n)) == 0,
{
}

/// Reads the 4096 values that `data` holds at `width` bits each.
pub fn decode_all(data: &Vec<u64>, width: u8) -> (r: Result<Vec<u64>, WorldError>)
    ensures
        r is Ok <==> decodable(data@, width as int),
        r is Ok ==> r->Ok_0@ == entries(data@, width as int),
        r is Ok ==> forall|i: int| 0 <= i < 4096 ==> #[trigger] r->Ok_0@[i] <= low_mask(width as u64),
        r is Err ==> r->Err_0 == WorldError::InvalidBlockStateData,
{
    if width == 0 || width > 64 || data.len() / 64 < width as usize {
        return Err(WorldError::InvalidBlockStateData);
    }
    proof {
        lemma_slots(data@.len(), width as int);
    }
    let mut values: Vec<u64> = Vec::with_capacity(SECTION_BLOCKS);
    let mut i: usize = 0;
    while i < SECTION_BLOCKS
        invariant
            i <= 4096,
            1 <= width <= 64,
            values.len() == i,
            forall|j: int| 0 <= j < 4096 ==> in_bounds(data@.len(), #[trigger] (j * width), width as int),
            forall|j: int| 0 <= j < i ==> #[trigger] values@[j] == read_bits(data@, j * width, width as int),
            forall|j: int| 0 <= j < i ==> #[trigger] values@[j] <= low_mask(width as u64),
        decreases 4096 - i,
    {
        assert(in_bounds(data@.len(), i * width, width as int));
        assert(i * width <= 4096 * 64) by (nonlinear_arith)
            requires
                0 <= i < 4096,
                0 <= width <= 64,
        ;
        match crate::bit_packed::read(data, i * (width as usize), width) {
            Ok(value) => {
                values.push(value);
            },
            Err(e) => {
                return Err(e);
            },
        }
        i += 1;
    }
    assert(values@ =~= entries(data@, width as int));
    Ok(values)
}

/// Packs 4096 values at `width` bits each into as many words as they need.
pub fn encode_all(values: &Vec<u64>, width: u8) -> (data: Vec<u64>)
    requires
        1 <= width <= 64,
        values@.len() == 4096,
        forall|i: int| 0 <= i < 4096 ==> #[trigger] values@[i] <= low_mask(width as u64),
    ensures
        data@.len() == 64 * width,
        entries(data@, width as int) == values@,
{
    let mut data: Vec<u64> = Vec::new();
    let words: usize = 64 * (width as usize);
    while data.len() < words
        invariant
            data.len() <= words,
        decreases words - data.len(),
    {
        data.push(0);
    }
    proof {
        lemma_slots(data@.len(), width as int);
    }
    let mut i: usize = 0;
    while i < SECTION_BLOCKS
        invariant
            i <= 4096,
            1 <= width <= 64,
            values@.len() == 4096,
            data@.len() == 64 * width,
            forall|j: int| 0 <= j < 4096 ==> #[trigger] values@[j] <= low_mask(width as u64),
            forall|j: int| 0 <= j < 4096 ==> in_bounds(data@.len(), #[trigger] (j * width), width as int),
            forall|j: int, k: int|
                0 <= j < k < 4096 ==> #[trigger] (j * width) + width <= #[trigger] (k * width),
            forall|j: int| 0 <= j < i ==> read_bits(data@, #[trigger] (j * width), width as int) == values@[j],
        decreases 4096 - i,
    {
        assert(in_bounds(data@.len(), i * width, width as int));
        let ghost before = data@;
        let r = crate::bit_packed::write(&mut data, i * (width as usize), values[i], width);
        assert(r is Ok);
        assert forall|j: int| 0 <= j < i + 1 implies read_bits(
            data@,
            #[trigger] (j * width),
            width as int,
        ) == values@[j] by {
            if j < i {
                assert(in_bounds(before.len(), j * width, width as int));
                assert(j * width + width <= i * width);
            }
        }
        i += 1;
    }
    assert(entries(data@, width as int) =~= values@);
    data
}

/// As many zero words as 4096 values of `width` bits need: every value is 0.
fn blank(width: u8) -> (data: Vec<u64>)
    requires
        1 <= width <= 64,
    ensures
        data@.len() == 64 * width,
        entries(data@, width as int) == Seq::new(4096, |i: int| 0u64),
{
    let mut data: Vec<u64> = Vec::new();
    let words: usize = 64 * (width as usize);
    while data.len() < words
        invariant
            data.len() <= words,
            forall|k: int| 0 <= k < data.len() ==> data@[k] == 0,
        decreases words - data.len(),
    {
        data.push(0);
    }
    proof {
        lemma_slots(data@.len(), width as int);
        assert forall|i: int| 0 <= i < 4096 implies #[trigger] entries(data@, width as int)[i]
            == 0 by {
            let o = i * width;
            assert(in_bounds(data@.len(), o, width as int));
            let s = (o % 64) as u64;
            let n = (64 - s) as u64;
            lemma_zero_field(s, width as u64);
            lemma_zero_field(s, n);
            lemma_zero_field(0, (width - n) as u64);
            lemma_zero_field(n, n);
        }
        assert(entries(data@, width as int) =~= Seq::new(4096, |i: int| 0u64));
    }
    data
}

/// Whether every value fits in `width` bits.
fn all_fit(values: &Vec<u64>, width: u8) -> (r: bool)
    ensures
        r == forall|i: int| 0 <= i < values@.len() ==> #[trigger] values@[i] <= low_mask(width as u64),
{
    let limit: u64 = mask(width);
    let mut i: usize = 0;
    while i < values.len()
        invariant
            i <= values.len(),
            limit == low_mask(width as u64),
            forall|j: int| 0 <= j < i ==> #[trigger] values@[j] <= limit,
        decreases values.len() - i,
    {
        if values[i] > limit {
            return false;
        }
        i += 1;
    }
    true
}

/// The first place of `id` in `palette`.
fn position(palette: &Vec<u32>, id: u32) -> (r: Option<usize>)
    ensures
        r is Some ==> r->Some_0 < palette@.len() && palette@[r->Some_0 as int] == id,
        r is Some ==> forall|k: int| 0 <= k < r->Some_0 ==> palette@[k] != id,
        r is None ==> forall|k: int| 0 <= k < palette@.len() ==> palette@[k] != id,
{
    let mut k: usize = 0;
    while k < palette.len()
        invariant
            k <= palette.len(),
            forall|j: int| 0 <= j < k ==> palette@[j] != id,
        decreases palette.len() - k,
    {
        if palette[k] == id {
            return Some(k);
        }
        k += 1;
    }
    None
}

/// Makes position `index` hold `id`: finds the slot of `id` in the palette,
/// appending it and widening the data where the new slot needs more bits,
/// and writes the slot at `index`.
fn store(bits: &mut u8, data: &mut Vec<u64>, palette: &mut Vec<u32>, index: usize, id: u32) -> (slot:
    usize)
    requires
        index < 4096,
        decodable(old(data)@, *old(bits) as int),
    ensures
        slot < final(palette)@.len(),
        final(palette)@[slot as int] == id,
        forall|k: int| 0 <= k < slot ==> old(palette)@[k] != id,
        slot < old(palette)@.len() ==> final(palette)@ == old(palette)@,
        slot >= old(palette)@.len() ==> slot == old(palette)@.len() && final(palette)@ == old(palette)@.push(id),
        *old(bits) <= *final(bits) <= 64,
        slot <= low_mask(*final(bits) as u64),
        *final(bits) > *old(bits) ==> slot > low_mask((*final(bits) - 1) as u64),
        *final(bits) > *old(bits) ==> final(data)@.len() == 64 * *final(bits),
        *final(bits) == *old(bits) ==> final(data)@.len() == old(data)@.len(),
        entries(final(data)@, *final(bits) as int) == entries(
            old(data)@,
            *old(bits) as int,
        ).update(index as int, slot as u64),
{
    let ghost before = entries(data@, *bits as int);
    let slot: usize = match position(palette, id) {
        Some(found) => found,
        None => palette.len(),
    };
    let mut width: u8 = *bits;
    while slot as u64 > mask(width)
        invariant
            *bits <= width <= 64,
            width > *bits ==> slot > low_mask((width - 1) as u64),
        decreases 64 - width,
    {
        width += 1;
    }
    if width > *bits {
        proof {
            lemma_mask_grows(*bits as u64, width as u64);
        }
        match decode_all(data, *bits) {
            Ok(values) => {
                *data = encode_all(&values, width);
                *bits = width;
            },
            Err(_) => {},
        }
    }
    if slot == palette.len() {
        palette.push(id);
    }
    proof {
        lemma_slots(data@.len(), *bits as int);
        assert(index * *bits <= 4096 * 64) by (nonlinear_arith)
            requires
                0 <= index < 4096,
                0 <= *bits <= 64,
        ;
        assert(in_bounds(data@.len(), index * *bits, *bits as int));
    }
    let ghost packed = data@;
    let r = crate::bit_packed::write(data, index * (*bits as usize), slot as u64, *bits);
    assert(r is Ok);
    proof {
        let w = *bits as int;
        assert forall|j: int| 0 <= j < 4096 implies #[trigger] entries(data@, w)[j] == before.update(
            index as int,
            slot as u64,
        )[j] by {
            assert(entries(packed, w)[j] == before[j]);
            if j != index {
                assert(in_bounds(packed.len(), j * w, w));
                if j < index {
                    assert(j * w + w <= index * w);
                } else {
                    assert(index * w + w <= j * w);
                }
            }
        }
        assert(entries(data@, w) =~= before.update(index as int, slot as u64));
    }
    slot
}

/// The palette entries that are kept, in their order: entry `k` of
/// `palette` stays where `keep[k]` holds.
pub open spec fn kept_ids(palette: Seq<u32>, keep: Seq<bool>) -> Seq<u32>
    decreases palette.len(),
{
    if palette.len() == 0 {
        Seq::empty()
    } else {
        let rest = kept_ids(palette.drop_last(), keep.drop_last());
        if keep.last() {
            rest.push(palette.last())
        } else {
            rest
        }
    }
}

/// The slot that palette entry `slot` has once the entries that are not kept
/// are gone: `slot` less the number of removed entries below it.
pub open spec fn kept_below(keep: Seq<bool>, slot: int) -> nat {
    count_true(keep.take(slot))
}

/// As many entries are kept as `keep` marks.
pub proof fn lemma_kept_len(palette: Seq<u32>, keep: Seq<bool>)
    requires
        palette.len() == keep.len(),
    ensures
        kept_ids(palette, keep).len() == count_true(keep),
    decreases palette.len(),
{
    if palette.len() > 0 {
        lemma_kept_len(palette.drop_last(), keep.drop_last());
    }
}

/// A kept entry is found again at its new slot.
pub proof fn lemma_kept_at(palette: Seq<u32>, keep: Seq<bool>, slot: int)
    requires
        palette.len() == keep.len(),
        0 <= slot < palette.len(),
        keep[slot],
    ensures
        kept_below(keep, slot) < kept_ids(palette, keep).len(),
        kept_ids(palette, keep)[kept_below(keep, slot) as int] == palette[slot],
    decreases palette.len(),
{
    lemma_kept_len(palette.drop_last(), keep.drop_last());
    if slot == palette.len() - 1 {
        assert(keep.take(slot) =~= keep.drop_last());
    } else {
        lemma_kept_at(palette.drop_last(), keep.drop_last(), slot);
        assert(keep.drop_last().take(slot) =~= keep.take(slot));
    }
}

/// Every entry of the new palette is a kept entry of the old one, at the
/// slot that the old entry moved to.
pub proof fn lemma_kept_from(palette: Seq<u32>, keep: Seq<bool>, j: int) -> (slot: int)
    requires
        palette.len() == keep.len(),
        0 <= j < kept_ids(palette, keep).len(),
    ensures
        0 <= slot < palette.len(),
        keep[slot],
        kept_below(keep, slot) == j,
        kept_ids(palette, keep)[j] == palette[slot],
    decreases palette.len(),
{
    lemma_kept_len(palette.drop_last(), keep.drop_last());
    let rest = kept_ids(palette.drop_last(), keep.drop_last());
    if keep.last() && j == rest.len() {
        assert(keep.take(palette.len() - 1) =~= keep.drop_last());
        palette.len() - 1
    } else {
        let slot = lemma_kept_from(palette.drop_last(), keep.drop_last(), j);
        assert(keep.drop_last().take(slot) =~= keep.take(slot));
        slot
    }
}

/// A palette that names no identifier twice still does so after entries
/// were removed.
pub proof fn lemma_kept_distinct(palette: Seq<u32>, keep: Seq<bool>)
    requires
        palette.len() == keep.len(),
        palette.no_duplicates(),
    ensures
        kept_ids(palette, keep).no_duplicates(),
{
    let kept = kept_ids(palette, keep);
    assert forall|a: int, b: int| 0 <= a < kept.len() && 0 <= b < kept.len() && a != b implies kept[a]
        != kept[b] by {
        let sa = lemma_kept_from(palette, keep, a);
        let sb = lemma_kept_from(palette, keep, b);
        assert(sa != sb);
    }
}

/// `width` is the least width, from 4 bits on, that can index `n` palette
/// entries.
pub open spec fn fits_width(n: int, width: int) -> bool {
    &&& 4 <= width <= 64
    &&& n <= capacity(width)
    &&& width == 4 || n > capacity(width - 1)
}

/// The least width, from 4 bits on, that can index `n` palette entries.
pub open spec fn min_width(n: int) -> int {
    choose|width: int| fits_width(n, width)
}

/// Only one width is the least one.
pub proof fn lemma_min_width(n: int, width: int)
    requires
        fits_width(n, width),
    ensures
        min_width(n) == width,
{
    let other = min_width(n);
    assert(fits_width(n, other));
    if other < width {
        lemma_mask_grows(other as u64, (width - 1) as u64);
    } else if width < other {
        lemma_mask_grows(width as u64, (other - 1) as u64);
    }
}

/// The least width, from 4 bits on, that can index `n` palette entries.
pub fn width_for(n: usize) -> (width: u8)
    requires
        n >= 1,
    ensures
        fits_width(n as int, width as int),
        width == min_width(n as int),
{
    let top: u64 = (n - 1) as u64;
    let mut width: u8 = 4;
    while top > mask(width)
        invariant
            4 <= width <= 64,
            top == n - 1,
            width == 4 || top > low_mask((width - 1) as u64),
        decreases 64 - width,
    {
        width += 1;
    }
    proof {
        lemma_min_width(n as int, width as int);
    }
    width
}

/// The kept entries of `palette`, and for each old slot the slot it moves to.
fn select(palette: &Vec<u32>, keep: &Vec<bool>) -> (r: (Vec<u32>, Vec<usize>))
    requires
        palette@.len() == keep@.len(),
    ensures
        r.0@ == kept_ids(palette@, keep@),
        r.1@.len() == palette@.len(),
        forall|k: int| 0 <= k < palette@.len() ==> #[trigger] r.1@[k] == kept_below(keep@, k),
{
    let mut kept: Vec<u32> = Vec::new();
    let mut moved: Vec<usize> = Vec::new();
    let mut k: usize = 0;
    assert(palette@.take(0) =~= Seq::empty());
    assert(keep@.take(0) =~= Seq::empty());
    while k < palette.len()
        invariant
            k <= palette@.len(),
            palette@.len() == keep@.len(),
            kept@ == kept_ids(palette@.take(k as int), keep@.take(k as int)),
            kept@.len() == count_true(keep@.take(k as int)),
            moved@.len() == k,
            forall|j: int| 0 <= j < k ==> #[trigger] moved@[j] == kept_below(keep@, j),
        decreases palette.len() - k,
    {
        proof {
            lemma_count_step(keep@, k as int);
            assert(palette@.take(k + 1).drop_last() =~= palette@.take(k as int));
            assert(keep@.take(k + 1).drop_last() =~= keep@.take(k as int));
        }
        moved.push(kept.len());
        if keep[k] {
            kept.push(palette[k]);
        }
        k += 1;
    }
    assert(palette@.take(k as int) =~= palette@);
    assert(keep@.take(k as int) =~= keep@);
    (kept, moved)
}

/// Every value names a kept palette entry.
pub open spec fn all_kept(values: Seq<u64>, keep: Seq<bool>) -> bool {
    forall|i: int| 0 <= i < values.len() ==> #[trigger] values[i] < keep.len() && keep[values[i] as int]
}

/// Each value replaced by the slot that its palette entry moves to; `None`
/// where a value names no entry or one that is removed.
fn renumber(values: &Vec<u64>, keep: &Vec<bool>, moved: &Vec<usize>) -> (r: Option<Vec<u64>>)
    requires
        moved@.len() == keep@.len(),
    ensures
        r is Some <==> all_kept(values@, keep@),
        r is Some ==> r->Some_0@.len() == values@.len(),
        r is Some ==> forall|i: int|
            0 <= i < values@.len() ==> #[trigger] r->Some_0@[i] == moved@[values@[i] as int],
{
    let mut out: Vec<u64> = Vec::with_capacity(values.len());
    let mut i: usize = 0;
    while i < values.len()
        invariant
            i <= values@.len(),
            moved@.len() == keep@.len(),
            out@.len() == i,
            forall|j: int| 0 <= j < i ==> #[trigger] values@[j] < keep@.len() && keep@[values@[j] as int],
            forall|j: int| 0 <= j < i ==> #[trigger] out@[j] == moved@[values@[j] as int],
        decreases values.len() - i,
    {
        let value: u64 = values[i];
        if value >= keep.len() as u64 {
            return None;
        }
        if !keep[value as usize] {
            return None;
        }
        out.push(moved[value as usize] as u64);
        i += 1;
    }
    Some(out)
}

impl PaletteType {
    /// The identifiers that the stored values index: the palette of an
    /// indirect section, the one identifier of a single one.
    pub open spec fn palette_ids(&self) -> Seq<u32> {
        match self {
            PaletteType::Single(id) => seq![*id],
            PaletteType::Indirect { palette, .. } => palette@,
            PaletteType::Direct { .. } => Seq::empty(),
        }
    }

    /// The value stored for each of the 4096 positions: all 0 in a single
    /// section.
    pub open spec fn indices(&self) -> Seq<u64> {
        match self {
            PaletteType::Single(_) => Seq::new(4096, |i: int| 0u64),
            PaletteType::Indirect { bits_per_block, data, .. } => entries(
                data@,
                *bits_per_block as int,
            ),
            PaletteType::Direct { bits_per_block, data } => entries(data@, *bits_per_block as int),
        }
    }

    /// The identifier of the block at each of the 4096 positions.
    pub open spec fn ids(&self) -> Seq<u32> {
        match self {
            PaletteType::Direct { .. } => Seq::new(4096, |i: int| self.indices()[i] as u32),
            _ => Seq::new(4096, |i: int| self.palette_ids()[self.indices()[i] as int]),
        }
    }

    /// The storage is sound: the width is in range and fits the palette, the
    /// data has the length that the width asks for, the palette names no
    /// identifier twice, and every stored value points into the palette.
    pub open spec fn well_formed(&self) -> bool {
        match self {
            PaletteType::Single(_) => true,
            PaletteType::Indirect { bits_per_block, data, palette } => {
                &&& 4 <= *bits_per_block <= 64
                &&& data@.len() == 64 * *bits_per_block
                &&& 1 <= palette@.len() <= capacity(*bits_per_block as int)
                &&& palette@.no_duplicates()
                &&& forall|i: int|
                    0 <= i < 4096 ==> #[trigger] entries(data@, *bits_per_block as int)[i]
                        < palette@.len()
            },
            PaletteType::Direct { bits_per_block, data } => {
                &&& 1 <= *bits_per_block <= 64
                &&& data@.len() == 64 * *bits_per_block
                &&& forall|i: int|
                    0 <= i < 4096 ==> #[trigger] entries(data@, *bits_per_block as int)[i]
                        <= u32::MAX
            },
        }
    }

    /// The width of an indirect section is the least one, from 4 bits on,
    /// that can index its palette.
    pub open spec fn minimal_width(&self) -> bool {
        match self {
            PaletteType::Indirect { bits_per_block, palette, .. } => *bits_per_block == 4
                || palette@.len() > capacity(*bits_per_block - 1),
            _ => true,
        }
    }

    /// What reading position `index` gives: the identifier there, or the
    /// error that the read ends in.
    pub open spec fn id_at(&self, index: int) -> Result<u32, WorldError> {
        if index >= 4096 {
            Err(WorldError::InvalidBlockStateData)
        } else {
            match self {
                PaletteType::Single(id) => Ok(*id),
                PaletteType::Indirect { bits_per_block, data, palette } => {
                    let width = *bits_per_block as int;
                    if !in_bounds(data@.len(), index * width, width) {
                        Err(WorldError::InvalidBlockStateData)
                    } else if read_bits(data@, index * width, width) >= palette@.len() {
                        Err(WorldError::ChunkNotFound)
                    } else {
                        Ok(palette@[read_bits(data@, index * width, width) as int])
                    }
                },
                PaletteType::Direct { .. } => Err(WorldError::UnsupportedPalette),
            }
        }
    }

    /// In sound storage that is not direct, every position reads as its
    /// identifier.
    pub proof fn lemma_id_at(&self, index: int)
        requires
            self.well_formed(),
            !(self is Direct),
            0 <= index < 4096,
        ensures
            self.id_at(index) == Ok::<u32, WorldError>(self.ids()[index]),
    {
        match self {
            PaletteType::Indirect { bits_per_block, data, palette } => {
                lemma_slots(data@.len(), *bits_per_block as int);
                assert(entries(data@, *bits_per_block as int)[index] < palette@.len());
            },
            _ => {},
        }
    }

    /// The identifier of the block at position `index`.
    pub fn get(&self, index: usize) -> (r: Result<u32, WorldError>)
        ensures
            r == self.id_at(index as int),
    {
        if index >= SECTION_BLOCKS {
            return Err(WorldError::InvalidBlockStateData);
        }
        match self {
            PaletteType::Single(id) => Ok(*id),
            PaletteType::Indirect { bits_per_block, data, palette } => {
                assert(index * *bits_per_block <= 4096 * 255) by (nonlinear_arith)
                    requires
                        0 <= index < 4096,
                        0 <= *bits_per_block <= 255,
                ;
                match crate::bit_packed::read(
                    data,
                    index * (*bits_per_block as usize),
                    *bits_per_block,
                ) {
                    Ok(slot) => {
                        if slot >= palette.len() as u64 {
                            Err(WorldError::ChunkNotFound)
                        } else {
                            Ok(palette[slot as usize])
                        }
                    },
                    Err(e) => Err(e),
                }
            },
            PaletteType::Direct { .. } => Err(WorldError::UnsupportedPalette),
        }
    }

    /// Position `index` can be written: it is one of the 4096, and the data
    /// of an indirect section can be read at its width.
    pub open spec fn settable(&self, index: int) -> bool {
        index < 4096 && match self {
            PaletteType::Single(_) => true,
            PaletteType::Indirect { bits_per_block, data, .. } => decodable(
                data@,
                *bits_per_block as int,
            ),
            PaletteType::Direct { .. } => false,
        }
    }

    /// Makes position `index` hold the block `id`. A single section that
    /// held another block becomes indirect, 4 bits wide, with the two blocks
    /// as its palette. An indirect section gets `id` appended to its palette
    /// where it is new, and is widened first where the new slot needs it.
    /// Direct sections are not handled.
    pub fn set(&mut self, index: usize, id: u32) -> (r: Result<(), WorldError>)
        ensures
            r is Ok <==> old(self).settable(index as int),
            r is Err ==> *final(self) == *old(self),
            r is Err ==> r->Err_0 == (if index < 4096 && *old(self) is Direct {
                WorldError::UnsupportedPalette
            } else {
                WorldError::InvalidBlockStateData
            }),
            r is Ok ==> final(self).id_at(index as int) == Ok::<u32, WorldError>(id),
            r is Ok ==> forall|j: int|
                0 <= j < 4096 && j != index && old(self).id_at(j) is Ok ==> final(self).id_at(j)
                    == old(self).id_at(j),
            r is Ok && old(self).well_formed() ==> final(self).well_formed() && final(self).ids()
                == old(self).ids().update(index as int, id),
            r is Ok && old(self).well_formed() && old(self).minimal_width() ==> final(self).minimal_width(),
            r is Ok && *old(self) == PaletteType::Single(id) ==> *final(self) == *old(self),
            r is Ok && *old(self) is Single && *old(self) != PaletteType::Single(id) ==> (
            *final(self) matches PaletteType::Indirect { bits_per_block, palette, .. }
                && bits_per_block == 4 && palette@ == old(self).palette_ids().push(id)),
            r is Ok && *old(self) is Indirect ==> *final(self) is Indirect,
            r is Ok ==> final(self).palette_ids() == (if old(self).palette_ids().contains(id) {
                old(self).palette_ids()
            } else {
                old(self).palette_ids().push(id)
            }),
            r is Ok ==> forall|j: int|
                0 <= j < 4096 && j != index ==> #[trigger] final(self).indices()[j] == old(self).indices()[j],
            r is Ok && *old(self) is Indirect ==> {
                let before = old(self)->Indirect_bits_per_block;
                let after = final(self)->Indirect_bits_per_block;
                let slot = final(self).indices()[index as int];
                &&& before <= after <= 64
                &&& slot <= low_mask(after as u64)
                &&& after > before ==> slot > low_mask((after - 1) as u64)
                &&& final(self)->Indirect_data@.len() == (if after > before {
                    64 * after
                } else {
                    old(self)->Indirect_data@.len() as int
                })
            },
    {
        if index >= SECTION_BLOCKS {
            return Err(WorldError::InvalidBlockStateData);
        }
        let ghost before = *self;
        match self {
            PaletteType::Single(current) => {
                if *current == id {
                    assert(before.palette_ids()[0] == id);
                    return Ok(());
                }
                let first: u32 = *current;
                let mut bits: u8 = 4;
                let mut data: Vec<u64> = blank(4);
                let mut palette: Vec<u32> = Vec::new();
                palette.push(first);
                assert(low_mask(4) == 15) by (bit_vector);
                let slot = store(&mut bits, &mut data, &mut palette, index, id);
                assert(slot == 1);
                assert(bits == 4) by {
                    if bits > 4 {
                        lemma_mask_grows(4, (bits - 1) as u64);
                    }
                }
                assert(palette@ =~= seq![first].push(id));
                *self = PaletteType::Indirect { bits_per_block: bits, data, palette };
                proof {
                    let after = *self;
                    lemma_slots(64 * 4, 4);
                    assert forall|j: int| 0 <= j < 4096 && j != index implies after.id_at(j)
                        == before.id_at(j) by {
                        assert(after.indices()[j] == 0);
                        assert(in_bounds(256, j * 4, 4));
                    }
                    assert(after.indices()[index as int] == 1);
                    assert(in_bounds(256, index * 4, 4));
                    assert(after.ids() =~= before.ids().update(index as int, id)) by {
                        assert forall|j: int| 0 <= j < 4096 implies after.ids()[j]
                            == before.ids().update(index as int, id)[j] by {
                            assert(after.indices()[j] == before.indices().update(
                                index as int,
                                1u64,
                            )[j]);
                        }
                    }
                    assert(after.well_formed()) by {
                        assert forall|j: int| 0 <= j < 4096 implies #[trigger] entries(
                            after->Indirect_data@,
                            4,
                        )[j] < 2 by {
                            assert(after.indices()[j] == before.indices().update(
                                index as int,
                                1u64,
                            )[j]);
                        }
                    }
                }
                Ok(())
            },
            PaletteType::Indirect { bits_per_block, data, palette } => {
                if *bits_per_block == 0 || *bits_per_block > 64 || data.len() / 64
                    < *bits_per_block as usize {
                    return Err(WorldError::InvalidBlockStateData);
                }
                let ghost old_bits = *bits_per_block;
                let ghost old_data = data@;
                let ghost old_palette = palette@;
                let slot = store(bits_per_block, data, palette, index, id);
                proof {
                    let w0 = old_bits as int;
                    let w1 = *bits_per_block as int;
                    let e0 = entries(old_data, w0);
                    let e1 = entries(data@, w1);
                    lemma_slots(old_data.len(), w0);
                    lemma_slots(data@.len(), w1);
                    assert(e1[index as int] == slot);
                    let after = PaletteType::Indirect {
                        bits_per_block: *bits_per_block,
                        data: *data,
                        palette: *palette,
                    };
                    assert forall|j: int|
                        0 <= j < 4096 && j != index && before.id_at(j) is Ok implies after.id_at(j)
                        == before.id_at(j) by {
                        assert(e1[j] == e0[j]);
                        assert(in_bounds(old_data.len(), j * w0, w0));
                        assert(in_bounds(data@.len(), j * w1, w1));
                    }
                    if before.well_formed() {
                        assert forall|j: int| 0 <= j < 4096 implies #[trigger] e1[j]
                            < palette@.len() by {
                            assert(e1[j] == e0.update(index as int, slot as u64)[j]);
                            assert(e0[j] < old_palette.len());
                        }
                        assert(palette@.no_duplicates());
                        if w1 > w0 {
                            lemma_mask_grows(w0 as u64, (w1 - 1) as u64);
                        }
                        assert(after.well_formed());
                        assert forall|j: int| 0 <= j < 4096 implies after.ids()[j]
                            == before.ids().update(index as int, id)[j] by {
                            assert(e1[j] == e0.update(index as int, slot as u64)[j]);
                            assert(e0[j] < old_palette.len());
                        }
                        assert(after.ids() =~= before.ids().update(index as int, id));
                    }
                }
                Ok(())
            },
            PaletteType::Direct { .. } => Err(WorldError::UnsupportedPalette),
        }
    }

    /// The section can be stored at `new_width` bits: the width is between
    /// 1 and 64, and in an indirect section the data can be read and holds
    /// no value that needs more bits.
    pub open spec fn resizable(&self, new_width: int) -> bool {
        1 <= new_width <= 64 && match self {
            PaletteType::Single(_) => true,
            PaletteType::Indirect { bits_per_block, data, .. } => {
                &&& decodable(data@, *bits_per_block as int)
                &&& forall|i: int|
                    0 <= i < 4096 ==> #[trigger] entries(data@, *bits_per_block as int)[i]
                        <= low_mask(new_width as u64)
            },
            PaletteType::Direct { .. } => false,
        }
    }

    /// Stores the same 4096 values at `new_width` bits each, in freshly
    /// packed data of the length that the new width asks for. A single
    /// section becomes an indirect one whose palette is its one block.
    /// Either all of this happens or nothing changes.
    pub fn resize(&mut self, new_width: usize) -> (r: Result<(), WorldError>)
        ensures
            r is Ok <==> old(self).resizable(new_width as int),
            r is Err ==> *final(self) == *old(self),
            r is Err ==> r->Err_0 == (if *old(self) is Direct {
                WorldError::UnsupportedPalette
            } else {
                WorldError::InvalidBlockStateData
            }),
            r is Ok ==> (*final(self) matches PaletteType::Indirect { bits_per_block, data, palette }
                && bits_per_block == new_width && data@.len() == 64 * new_width && palette@ == old(self).palette_ids()),
            r is Ok ==> final(self).indices() == old(self).indices(),
            r is Ok ==> forall|i: int|
                0 <= i < 4096 ==> #[trigger] final(self).id_at(i) == old(self).id_at(i),
            r is Ok && old(self).well_formed() ==> final(self).ids() == old(self).ids(),
            r is Ok && old(self).well_formed() && 4 <= new_width && old(self).palette_ids().len()
                <= capacity(new_width as int) ==> final(self).well_formed(),
    {
        if let PaletteType::Direct { .. } = self {
            return Err(WorldError::UnsupportedPalette);
        }
        if new_width == 0 || new_width > 64 {
            return Err(WorldError::InvalidBlockStateData);
        }
        let width: u8 = new_width as u8;
        let ghost before = *self;
        match self {
            PaletteType::Single(id) => {
                let mut palette: Vec<u32> = Vec::new();
                palette.push(*id);
                let data = blank(width);
                assert(palette@ =~= before.palette_ids());
                *self = PaletteType::Indirect { bits_per_block: width, data, palette };
                proof {
                    lemma_slots((64 * width) as nat, width as int);
                    assert forall|i: int| 0 <= i < 4096 implies #[trigger] self.id_at(i)
                        == before.id_at(i) by {
                        assert(self.indices()[i] == 0);
                    }
                    assert(self.ids() =~= before.ids());
                }
                Ok(())
            },
            PaletteType::Indirect { bits_per_block, data, palette } => {
                let values = match decode_all(data, *bits_per_block) {
                    Ok(values) => values,
                    Err(e) => {
                        return Err(e);
                    },
                };
                if !all_fit(&values, width) {
                    return Err(WorldError::InvalidBlockStateData);
                }
                let ghost old_width = *bits_per_block as int;
                let ghost old_data = data@;
                *data = encode_all(&values, width);
                *bits_per_block = width;
                proof {
                    let after = PaletteType::Indirect {
                        bits_per_block: *bits_per_block,
                        data: *data,
                        palette: *palette,
                    };
                    lemma_slots(old_data.len(), old_width);
                    lemma_slots(data@.len(), width as int);
                    assert forall|i: int| 0 <= i < 4096 implies #[trigger] after.id_at(i)
                        == before.id_at(i) by {
                        assert(entries(data@, width as int)[i] == entries(old_data, old_width)[i]);
                    }
                    assert(after.ids() =~= before.ids());
                }
                Ok(())
            },
            PaletteType::Direct { .. } => Err(WorldError::UnsupportedPalette),
        }
    }

    /// The palette entries that `keep` removes can go: `keep` has a mark for
    /// each entry, the data can be read, and every stored value names an
    /// entry that is kept. Sections that are not indirect have nothing to
    /// remove.
    pub open spec fn compactable(&self, keep: Seq<bool>) -> bool {
        match self {
            PaletteType::Indirect { bits_per_block, data, palette } => {
                &&& keep.len() == palette@.len()
                &&& decodable(data@, *bits_per_block as int)
                &&& all_kept(entries(data@, *bits_per_block as int), keep)
            },
            _ => true,
        }
    }

    /// Removes from the palette of an indirect section the entries that
    /// `keep` does not mark, and renumbers the stored values so that each
    /// names the same identifier as before. Where one entry is left the
    /// section becomes single; otherwise it is stored at the least width
    /// that the shorter palette allows. Single and direct sections are left
    /// as they are. Either all of this happens or nothing changes.
    pub fn compact(&mut self, keep: &Vec<bool>) -> (r: Result<(), WorldError>)
        ensures
            r is Ok <==> old(self).compactable(keep@),
            r is Err ==> *final(self) == *old(self) && r->Err_0
                == WorldError::InvalidBlockStateData,
            r is Ok && !(*old(self) is Indirect) ==> *final(self) == *old(self),
            r is Ok && *old(self) is Indirect && kept_ids(old(self).palette_ids(), keep@).len()
                == 1 ==> *final(self) == PaletteType::Single(
                kept_ids(old(self).palette_ids(), keep@)[0],
            ),
            r is Ok && *old(self) is Indirect && kept_ids(old(self).palette_ids(), keep@).len()
                != 1 ==> (*final(self) matches PaletteType::Indirect { bits_per_block, data, palette }
                && palette@ == kept_ids(old(self).palette_ids(), keep@) && 4 <= bits_per_block
                <= 64 && data@.len() == 64 * bits_per_block && palette@.len() <= capacity(
                bits_per_block as int,
            ) && (bits_per_block == 4 || palette@.len() > capacity(bits_per_block - 1))
                && forall|i: int|
                0 <= i < 4096 ==> #[trigger] entries(data@, bits_per_block as int)[i]
                    == kept_below(keep@, old(self).indices()[i] as int)),
            r is Ok ==> forall|i: int|
                0 <= i < 4096 ==> #[trigger] final(self).id_at(i) == old(self).id_at(i),
            r is Ok && old(self).well_formed() ==> final(self).well_formed() && final(self).minimal_width() && final(self).ids() == old(self).ids(),
    {
        let ghost before = *self;
        match self {
            PaletteType::Indirect { bits_per_block, data, palette } => {
                if keep.len() != palette.len() {
                    return Err(WorldError::InvalidBlockStateData);
                }
                let values = match decode_all(data, *bits_per_block) {
                    Ok(values) => values,
                    Err(e) => {
                        return Err(e);
                    },
                };
                let (kept, moved) = select(palette, keep);
                let renumbered = match renumber(&values, keep, &moved) {
                    Some(renumbered) => renumbered,
                    None => {
                        return Err(WorldError::InvalidBlockStateData);
                    },
                };
                let ghost old_palette = palette@;
                let ghost old_width = *bits_per_block as int;
                let ghost old_data = data@;
                proof {
                    lemma_slots(old_data.len(), old_width);
                    lemma_kept_at(old_palette, keep@, values@[0] as int);
                    assert forall|i: int| 0 <= i < 4096 implies #[trigger] renumbered@[i]
                        < kept@.len() && kept@[renumbered@[i] as int] == old_palette[values@[i] as int]
                        && renumbered@[i] == kept_below(keep@, values@[i] as int) by {
                        lemma_kept_at(old_palette, keep@, values@[i] as int);
                    }
                    if old_palette.no_duplicates() {
                        lemma_kept_distinct(old_palette, keep@);
                    }
                }
                if kept.len() == 1 {
                    *self = PaletteType::Single(kept[0]);
                    proof {
                        assert forall|i: int| 0 <= i < 4096 implies #[trigger] self.id_at(i)
                            == before.id_at(i) by {
                            assert(renumbered@[i] == 0);
                            assert(entries(old_data, old_width)[i] == values@[i]);
                        }
                        if before.well_formed() {
                            assert forall|i: int| 0 <= i < 4096 implies self.ids()[i]
                                == before.ids()[i] by {
                                assert(renumbered@[i] == 0);
                                assert(before.indices()[i] == values@[i]);
                            }
                            assert(self.ids() =~= before.ids());
                        }
                    }
                } else {
                    let width = width_for(kept.len());
                    let packed = encode_all(&renumbered, width);
                    *self = PaletteType::Indirect {
                        bits_per_block: width,
                        data: packed,
                        palette: kept,
                    };
                    proof {
                        lemma_slots((64 * width) as nat, width as int);
                        assert forall|i: int| 0 <= i < 4096 implies #[trigger] self.id_at(i)
                            == before.id_at(i) by {
                            assert(self.indices()[i] == renumbered@[i]);
                            assert(entries(old_data, old_width)[i] == values@[i]);
                        }
                        if before.well_formed() {
                            assert forall|i: int| 0 <= i < 4096 implies self.ids()[i]
                                == before.ids()[i] by {
                                assert(self.indices()[i] == renumbered@[i]);
                                assert(before.indices()[i] == values@[i]);
                            }
                            assert(self.ids() =~= before.ids());
                        }
                    }
                }
                Ok(())
            },
            _ => Ok(()),
        }
    }
}

} // verus!
