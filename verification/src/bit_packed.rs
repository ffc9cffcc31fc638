//! Unsigned integers of 1 to 64 bits stored at arbitrary bit offsets in a
//! sequence of 64-bit words. Bit 0 of the stream is the least significant bit
//! of word 0; a value that does not fit in the rest of its word continues in
//! the low bits of the next one.

use vstd::prelude::*;
use crate::errors::WorldError;

verus! {

/// The word whose low `n` bits are set (all 64 when `n >= 64`): the largest
/// value of `n` bits.
pub open spec fn low_mask(n: u64) -> u64 {
    if n >= 64 {
        0xffff_ffff_ffff_ffffu64
    } else {
        !(0xffff_ffff_ffff_ffffu64 << n)
    }
}

/// The `n` bits of `word` that start at bit `shift`.
pub open spec fn field(word: u64, shift: u64, n: u64) -> u64 {
    (word >> shift) & low_mask(n)
}

/// `word` with the `n` bits from bit `shift` on replaced by `value`.
pub open spec fn put(word: u64, shift: u64, n: u64, value: u64) -> u64 {
    (word & !(low_mask(n) << shift)) | (value << shift)
}

/// An access of `width` bits at `offset` lies inside `len` words.
pub open spec fn in_bounds(len: nat, offset: int, width: int) -> bool {
    1 <= width <= 64 && 0 <= offset && offset + width <= 64 * len
}

/// The value of the `width` bits that start at bit `offset` of the stream:
/// the bits up to the end of the word that holds `offset`, and above them
/// the low bits of the following word where the value goes on there.
pub open spec fn read_bits(words: Seq<u64>, offset: int, width: int) -> u64 {
    let i = offset / 64;
    let s = (offset % 64) as u64;
    let n = (64 - s) as u64;
    if width <= n {
        field(words[i], s, width as u64)
    } else {
        field(words[i], s, n) | (field(words[i + 1], 0, (width - n) as u64) << n)
    }
}

/// Bit `i` of the stream: bit `i % 64` of word `i / 64`, counted from the
/// least significant.
pub open spec fn bit_at(words: Seq<u64>, i: int) -> bool {
    read_bits(words, i, 1) == 1
}

proof fn lemma_field_bit(x: u64, s: u64, n: u64, k: u64)
    by (bit_vector)
    requires
        s + n <= 64,
        k < n,
    ensures
        (field(x, s, n) >> k) & 1 == field(x, (s + k) as u64, 1),
{
}

proof fn lemma_join_bit(lo: u64, hi: u64, n: u64, k: u64)
    by (bit_vector)
    requires
        0 < n < 64,
        k < 64,
        lo <= low_mask(n),
    ensures
        k < n ==> ((lo | (hi << n)) >> k) & 1 == (lo >> k) & 1,
        k >= n ==> ((lo | (hi << n)) >> k) & 1 == (hi >> ((k - n) as u64)) & 1,
{
}

/// A value that is read has the bits of the stream: its bit `k` is bit
/// `offset + k` of the stream.
pub proof fn lemma_read_is_bitwise(words: Seq<u64>, offset: int, width: int, k: int)
    requires
        in_bounds(words.len(), offset, width),
        0 <= k < width,
    ensures
        ((read_bits(words, offset, width) >> (k as u64)) & 1 == 1) == bit_at(words, offset + k),
{
    let i = offset / 64;
    let s = (offset % 64) as u64;
    let n = (64 - s) as u64;
    if width <= n {
        lemma_field_bit(words[i], s, width as u64, k as u64);
    } else {
        let lo = field(words[i], s, n);
        let hi = field(words[i + 1], 0, (width - n) as u64);
        lemma_field_bound(words[i], s, n);
        lemma_join_bit(lo, hi, n, k as u64);
        if k < n {
            lemma_field_bit(words[i], s, n, k as u64);
        } else {
            lemma_field_bit(words[i + 1], 0, (width - n) as u64, (k - n) as u64);
        }
    }
}

proof fn lemma_field_bound(x: u64, s: u64, n: u64)
    by (bit_vector)
    ensures
        field(x, s, n) <= low_mask(n),
{
}

proof fn lemma_join_bound(lo: u64, hi: u64, n: u64, w: u64)
    by (bit_vector)
    requires
        0 < n < w <= 64,
        lo <= low_mask(n),
        hi <= low_mask((w - n) as u64),
    ensures
        (lo | (hi << n)) <= low_mask(w),
{
}

proof fn lemma_split(v: u64, n: u64, w: u64)
    by (bit_vector)
    requires
        0 < n < w <= 64,
        v <= low_mask(w),
    ensures
        (v & low_mask(n)) <= low_mask(n),
        (v >> n) <= low_mask((w - n) as u64),
        ((v & low_mask(n)) | ((v >> n) << n)) == v,
{
}

proof fn lemma_put_field(x: u64, s: u64, n: u64, v: u64)
    by (bit_vector)
    requires
        s + n <= 64,
        v <= low_mask(n),
    ensures
        field(put(x, s, n, v), s, n) == v,
{
}

proof fn lemma_put_elsewhere(x: u64, s: u64, n: u64, v: u64, t: u64, m: u64)
    by (bit_vector)
    requires
        s + n <= 64,
        t + m <= 64,
        t + m <= s || s + n <= t,
        v <= low_mask(n),
    ensures
        field(put(x, s, n, v), t, m) == field(x, t, m),
{
}

/// The largest value of `n` bits.
pub fn mask(n: u8) -> (m: u64)
    ensures
        m == low_mask(n as u64),
{
    if n >= 64 {
        u64::MAX
    } else {
        !(u64::MAX << n)
    }
}

/// Reads the `width`-bit value at `bit_offset`. Fails when the width is not
/// between 1 and 64 or the bits asked for do not all lie inside `words`.
pub fn read(words: &Vec<u64>, bit_offset: usize, width: u8) -> (r: Result<u64, WorldError>)
    ensures
        r is Ok <==> in_bounds(words@.len(), bit_offset as int, width as int),
        r is Ok ==> r->Ok_0 == read_bits(words@, bit_offset as int, width as int),
        r is Ok ==> r->Ok_0 <= low_mask(width as u64),
        r is Err ==> r->Err_0 == WorldError::InvalidBlockStateData,
{
    if width == 0 || width > 64 {
        return Err(WorldError::InvalidBlockStateData);
    }
    let i: usize = bit_offset / 64;
    let s: u8 = (bit_offset % 64) as u8;
    let n: u8 = 64 - s;
    if i >= words.len() {
        return Err(WorldError::InvalidBlockStateData);
    }
    if width <= n {
        let r: u64 = (words[i] >> s) & mask(width);
        proof {
            lemma_field_bound(words@[i as int], s as u64, width as u64);
        }
        Ok(r)
    } else {
        if i + 1 >= words.len() {
            return Err(WorldError::InvalidBlockStateData);
        }
        let lo: u64 = (words[i] >> s) & mask(n);
        let hi: u64 = words[i + 1] & mask(width - n);
        proof {
            let h = words@[i + 1];
            assert(h >> 0u64 == h) by (bit_vector);
            lemma_field_bound(words@[i as int], s as u64, n as u64);
            lemma_field_bound(h, 0, (width - n) as u64);
            lemma_join_bound(lo, hi, n as u64, width as u64);
        }
        Ok(lo | (hi << n))
    }
}

/// `after` is `before` with the `width` bits at `offset` replaced by `value`,
/// word by word.
spec fn overwritten(before: Seq<u64>, after: Seq<u64>, offset: int, width: int, value: u64) -> bool {
    let i = offset / 64;
    let s = (offset % 64) as u64;
    let n = (64 - s) as u64;
    &&& after.len() == before.len()
    &&& if width <= n {
        &&& after[i] == put(before[i], s, width as u64, value)
        &&& forall|k: int| 0 <= k < before.len() && k != i ==> after[k] == before[k]
    } else {
        &&& after[i] == put(before[i], s, n, value & low_mask(n))
        &&& after[i + 1] == put(before[i + 1], 0, (width - n) as u64, value >> n)
        &&& forall|k: int| 0 <= k < before.len() && k != i && k != i + 1 ==> after[k] == before[k]
    }
}

/// The part of word `k` from bit `t` on, `m` bits long, is the same in both
/// streams when it lies outside of the bits that were overwritten.
proof fn lemma_part_kept(
    before: Seq<u64>,
    after: Seq<u64>,
    offset: int,
    width: int,
    value: u64,
    k: int,
    t: u64,
    m: u64,
)
    requires
        in_bounds(before.len(), offset, width),
        value <= low_mask(width as u64),
        overwritten(before, after, offset, width, value),
        0 <= k < before.len(),
        t + m <= 64,
        64 * k + t + m <= offset || offset + width <= 64 * k + t,
    ensures
        field(after[k], t, m) == field(before[k], t, m),
{
    let i = offset / 64;
    let s = (offset % 64) as u64;
    let n = (64 - s) as u64;
    if width <= n {
        if k == i {
            lemma_put_elsewhere(before[i], s, width as u64, value, t, m);
        }
    } else {
        lemma_split(value, n, width as u64);
        if k == i {
            lemma_put_elsewhere(before[i], s, n, value & low_mask(n), t, m);
        } else if k == i + 1 {
            lemma_put_elsewhere(before[i + 1], 0, (width - n) as u64, value >> n, t, m);
        }
    }
}

/// A read of bits that were not overwritten gives what it gave before.
proof fn lemma_read_kept(
    before: Seq<u64>,
    after: Seq<u64>,
    offset: int,
    width: int,
    value: u64,
    o: int,
    m: int,
)
    requires
        in_bounds(before.len(), offset, width),
        value <= low_mask(width as u64),
        overwritten(before, after, offset, width, value),
        in_bounds(before.len(), o, m),
        o + m <= offset || offset + width <= o,
    ensures
        read_bits(after, o, m) == read_bits(before, o, m),
{
    let k = o / 64;
    let t = (o % 64) as u64;
    let r = (64 - t) as u64;
    if m <= r {
        lemma_part_kept(before, after, offset, width, value, k, t, m as u64);
    } else {
        lemma_part_kept(before, after, offset, width, value, k, t, r);
        lemma_part_kept(before, after, offset, width, value, k + 1, 0, (m - r) as u64);
    }
}

/// A read of the bits that were overwritten gives the value written.
proof fn lemma_read_written(
    before: Seq<u64>,
    after: Seq<u64>,
    offset: int,
    width: int,
    value: u64,
)
    requires
        in_bounds(before.len(), offset, width),
        value <= low_mask(width as u64),
        overwritten(before, after, offset, width, value),
    ensures
        read_bits(after, offset, width) == value,
{
    let i = offset / 64;
    let s = (offset % 64) as u64;
    let n = (64 - s) as u64;
    if width <= n {
        lemma_put_field(before[i], s, width as u64, value);
    } else {
        lemma_split(value, n, width as u64);
        lemma_put_field(before[i], s, n, value & low_mask(n));
        lemma_put_field(before[i + 1], 0, (width - n) as u64, value >> n);
    }
}

/// Stores `value` in the `width` bits at `bit_offset` and leaves every other
/// bit as it was. Fails, changing nothing, when the width is not between 1
/// and 64, the bits do not all lie inside `words`, or `value` needs more than
/// `width` bits.
pub fn write(words: &mut Vec<u64>, bit_offset: usize, value: u64, width: u8) -> (r: Result<
    (),
    WorldError,
>)
    ensures
        r is Ok <==> in_bounds(old(words)@.len(), bit_offset as int, width as int) && value
            <= low_mask(width as u64),
        r is Err ==> r->Err_0 == WorldError::InvalidBlockStateData && final(words)@ == old(words)@,
        r is Ok ==> final(words)@.len() == old(words)@.len(),
        r is Ok ==> read_bits(final(words)@, bit_offset as int, width as int) == value,
        r is Ok ==> forall|o: int, m: int|
            in_bounds(old(words)@.len(), o, m) && (o + m <= bit_offset || bit_offset + width <= o)
                ==> #[trigger] read_bits(final(words)@, o, m) == read_bits(old(words)@, o, m),
{
    if width == 0 || width > 64 {
        return Err(WorldError::InvalidBlockStateData);
    }
    if value > mask(width) {
        return Err(WorldError::InvalidBlockStateData);
    }
    let i: usize = bit_offset / 64;
    let s: u8 = (bit_offset % 64) as u8;
    let n: u8 = 64 - s;
    if i >= words.len() {
        return Err(WorldError::InvalidBlockStateData);
    }
    let ghost before = words@;
    if width <= n {
        let cleared: u64 = words[i] & !(mask(width) << s);
        words.set(i, cleared | (value << s));
    } else {
        if i + 1 >= words.len() {
            return Err(WorldError::InvalidBlockStateData);
        }
        let lo: u64 = value & mask(n);
        let hi: u64 = value >> n;
        let first: u64 = (words[i] & !(mask(n) << s)) | (lo << s);
        let second: u64 = (words[i + 1] & !mask(width - n)) | hi;
        proof {
            let m = low_mask((width - n) as u64);
            assert(m << 0u64 == m) by (bit_vector);
            assert(hi << 0u64 == hi) by (bit_vector);
        }
        words.set(i, first);
        words.set(i + 1, second);
    }
    proof {
        let after = words@;
        assert(overwritten(before, after, bit_offset as int, width as int, value));
        lemma_read_written(before, after, bit_offset as int, width as int, value);
        assert forall|o: int, m: int|
            in_bounds(before.len(), o, m) && (o + m <= bit_offset || bit_offset + width
                <= o) implies #[trigger] read_bits(after, o, m) == read_bits(before, o, m) by {
            lemma_read_kept(before, after, bit_offset as int, width as int, value, o, m);
        }
    }
    Ok(())
}

} // verus!
