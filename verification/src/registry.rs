//! The table between block descriptors and the dense integer identifiers
//! under which sections store them. It is filled once and only read after.

use vstd::prelude::*;
use crate::block::{air_descriptor, BlockData, BlockDescriptor};

verus! {

/// The number that a sequence of decimal digits stands for.
pub open spec fn decimal(digits: Seq<u8>) -> nat
    decreases digits.len(),
{
    if digits.len() == 0 {
        0
    } else {
        decimal(digits.drop_last()) * 10 + (digits.last() - 48) as nat
    }
}

/// Every byte is one of the digits `0` to `9`.
pub open spec fn all_digits(bytes: Seq<u8>) -> bool {
    forall|i: int| 0 <= i < bytes.len() ==> 48 <= #[trigger] bytes[i] <= 57
}

/// The identifier that a key of the block table stands for: the key is one
/// or more decimal digits, and their number is an identifier.
pub open spec fn key_id(key: Seq<u8>) -> Option<u32> {
    if key.len() >= 1 && all_digits(key) && decimal(key) <= u32::MAX {
        Some(decimal(key) as u32)
    } else {
        None
    }
}

/// The blocks that a table of keys and blocks registers, each under the
/// identifier of its key; of two entries with one identifier the later one
/// stays.
pub open spec fn table(entries: Seq<(String, BlockData)>) -> Map<u32, BlockDescriptor>
    decreases entries.len(),
{
    if entries.len() == 0 {
        Map::empty()
    } else {
        let rest = table(entries.drop_last());
        match key_id(vstd::utf8::encode_utf8(entries.last().0@)) {
            Some(id) => rest.insert(id, entries.last().1@),
            None => rest,
        }
    }
}

/// A prefix of decimal digits stands for no more than the whole.
proof fn lemma_decimal_prefix(digits: Seq<u8>, k: int)
    requires
        all_digits(digits),
        0 <= k <= digits.len(),
    ensures
        decimal(digits.take(k)) <= decimal(digits),
    decreases digits.len() - k,
{
    if k < digits.len() {
        lemma_decimal_prefix(digits, k + 1);
        assert(digits.take(k + 1).drop_last() =~= digits.take(k));
    } else {
        assert(digits.take(k) =~= digits);
    }
}

/// The identifier that `key` stands for, where it is one or more decimal
/// digits whose number is an identifier.
pub fn parse_id(key: &str) -> (r: Option<u32>)
    ensures
        r == key_id(vstd::utf8::encode_utf8(key@)),
{
    let bytes = key.as_bytes();
    if bytes.len() == 0 {
        return None;
    }
    let mut value: u64 = 0;
    let mut i: usize = 0;
    assert(bytes@.take(0) =~= Seq::<u8>::empty());
    while i < bytes.len()
        invariant
            i <= bytes@.len(),
            bytes@ == vstd::utf8::encode_utf8(key@),
            all_digits(bytes@.take(i as int)),
            value == decimal(bytes@.take(i as int)),
            value <= u32::MAX,
        decreases bytes.len() - i,
    {
        let byte: u8 = bytes[i];
        assert(bytes@.take(i + 1).drop_last() =~= bytes@.take(i as int));
        if byte < 48 || byte > 57 {
            return None;
        }
        value = value * 10 + (byte - 48) as u64;
        if value > 0xffff_ffff {
            proof {
                if all_digits(bytes@) {
                    lemma_decimal_prefix(bytes@, i + 1);
                }
            }
            return None;
        }
        i += 1;
    }
    assert(bytes@.take(i as int) =~= bytes@);
    Some(value as u32)
}

/// The block of each identifier, at the index that is the identifier; `None`
/// where an identifier has no block.
#[derive(Clone, Debug)]
pub struct BlockRegistry {
    pub blocks: Vec<Option<BlockData>>,
}

impl BlockRegistry {
    /// The descriptor registered under `id`, if there is one.
    pub open spec fn descriptor(&self, id: u32) -> Option<BlockDescriptor> {
        if (id as int) < self.blocks@.len() {
            match self.blocks@[id as int] {
                Some(block) => Some(block@),
                None => None,
            }
        } else {
            None
        }
    }

    /// `id` is the identifier of `d`: the lowest one under which `d` is
    /// registered.
    pub open spec fn names(&self, id: u32, d: BlockDescriptor) -> bool {
        &&& self.descriptor(id) == Some(d)
        &&& forall|j: u32| j < id ==> self.descriptor(j) != Some(d)
    }

    /// The identifier of `d`, if `d` is registered.
    pub open spec fn id(&self, d: BlockDescriptor) -> Option<u32> {
        if exists|id: u32| self.names(id, d) {
            Some(choose|id: u32| self.names(id, d))
        } else {
            None
        }
    }

    /// The descriptor that a stored identifier is read as: the registered
    /// one, and plain air for an identifier without a block.
    pub open spec fn describe(&self, id: u32) -> BlockDescriptor {
        match self.descriptor(id) {
            Some(d) => d,
            None => air_descriptor(),
        }
    }

    /// `id` has a block, and is the identifier that the table gives back for
    /// that block.
    pub open spec fn canonical(&self, id: u32) -> bool {
        self.descriptor(id) is Some && self.id(self.describe(id)) == Some(id)
    }

    /// Plain air is registered, under identifier 0.
    pub open spec fn air_is_zero(&self) -> bool {
        self.descriptor(0) == Some(air_descriptor())
    }

    /// An identifier that names a descriptor is the one `id` gives.
    pub proof fn lemma_names_is_id(&self, id: u32, d: BlockDescriptor)
        requires
            self.names(id, d),
        ensures
            self.id(d) == Some(id),
    {
        let other = choose|other: u32| self.names(other, d);
        assert(self.names(other, d));
        if other < id {
            assert(self.descriptor(other) != Some(d));
        } else if id < other {
            assert(self.descriptor(id) != Some(d));
        }
    }

    /// Looking up the identifier of a descriptor and then the descriptor of
    /// that identifier gives the descriptor back.
    pub proof fn lemma_id_round_trip(&self, d: BlockDescriptor)
        requires
            self.id(d) is Some,
        ensures
            self.descriptor(self.id(d)->Some_0) == Some(d),
            self.describe(self.id(d)->Some_0) == d,
            self.canonical(self.id(d)->Some_0),
    {
        let id = choose|id: u32| self.names(id, d);
        assert(self.names(id, d));
    }

    /// An empty table.
    pub fn new() -> (r: BlockRegistry)
        ensures
            forall|id: u32| r.descriptor(id) is None,
    {
        BlockRegistry { blocks: Vec::new() }
    }

    /// Registers `block` under `id`, in place of what was there.
    pub fn register(&mut self, id: u32, block: BlockData)
        ensures
            final(self).descriptor(id) == Some(block@),
            forall|j: u32| j != id ==> final(self).descriptor(j) == old(self).descriptor(j),
    {
        while self.blocks.len() <= id as usize
            invariant
                forall|j: u32| self.descriptor(j) == old(self).descriptor(j),
            decreases id + 1 - self.blocks.len(),
        {
            self.blocks.push(None);
        }
        self.blocks.set(id as usize, Some(block));
    }

    /// The block registered under `id`.
    pub fn descriptor_of(&self, id: u32) -> (r: Option<BlockData>)
        ensures
            r is Some <==> self.descriptor(id) is Some,
            r is Some ==> self.descriptor(id) == Some(r->Some_0@),
    {
        if (id as usize) < self.blocks.len() {
            match &self.blocks[id as usize] {
                Some(block) => Some(block.clone()),
                None => None,
            }
        } else {
            None
        }
    }

    /// The identifier of `block`: the lowest one under which an equal block
    /// is registered.
    pub fn id_of(&self, block: &BlockData) -> (r: Option<u32>)
        ensures
            r == self.id(block@),
    {
        let mut i: usize = 0;
        while i < self.blocks.len() && i <= 0xffff_ffff
            invariant
                i <= self.blocks.len(),
                forall|j: u32| j < i ==> self.descriptor(j) != Some(block@),
            decreases self.blocks.len() - i,
        {
            let found = match &self.blocks[i] {
                Some(other) => *other == *block,
                None => false,
            };
            if found {
                proof {
                    self.lemma_names_is_id(i as u32, block@);
                }
                return Some(i as u32);
            }
            i += 1;
        }
        assert forall|id: u32| !self.names(id, block@) by {
            if self.descriptor(id) == Some(block@) {
                assert((id as int) < self.blocks@.len());
            }
        }
        None
    }

    /// The registry of a table of keys and blocks: each block under the
    /// identifier that its key stands for, the later of two entries with
    /// one identifier in place of the earlier. `None` where a key stands for
    /// no identifier.
    pub fn from_entries(entries: &Vec<(String, BlockData)>) -> (r: Option<BlockRegistry>)
        ensures
            r is Some <==> forall|i: int|
                0 <= i < entries@.len() ==> key_id(
                    vstd::utf8::encode_utf8(#[trigger] entries@[i].0@),
                ) is Some,
            r is Some ==> forall|id: u32|
                r->Some_0.descriptor(id) == (if table(entries@).dom().contains(id) {
                    Some(table(entries@)[id])
                } else {
                    None
                }),
    {
        let mut registry = BlockRegistry::new();
        let mut i: usize = 0;
        assert(entries@.take(0) =~= Seq::empty());
        while i < entries.len()
            invariant
                i <= entries@.len(),
                forall|j: int|
                    0 <= j < i ==> key_id(vstd::utf8::encode_utf8(#[trigger] entries@[j].0@)) is Some,
                forall|id: u32|
                    registry.descriptor(id) == (if table(entries@.take(i as int)).dom().contains(
                        id,
                    ) {
                        Some(table(entries@.take(i as int))[id])
                    } else {
                        None
                    }),
            decreases entries.len() - i,
        {
            assert(entries@.take(i + 1).drop_last() =~= entries@.take(i as int));
            let id = match parse_id(entries[i].0.as_str()) {
                Some(id) => id,
                None => {
                    return None;
                },
            };
            registry.register(id, entries[i].1.clone());
            i += 1;
        }
        assert(entries@.take(i as int) =~= entries@);
        Some(registry)
    }
}

} // verus!
