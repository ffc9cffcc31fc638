//! Block descriptors: the name of a block and the properties that tell its
//! states apart.

use vstd::prelude::*;
use vstd::string::StringExecFns;

verus! {

/// What a `BlockData` stands for: its name and its properties as sequences of
/// characters. Two blocks are the same block exactly when these are equal.
pub struct BlockDescriptor {
    pub name: Seq<char>,
    pub properties: Option<Seq<(Seq<char>, Seq<char>)>>,
}

/// A block: a name such as `minecraft:stone` and, where the block has states,
/// its properties as pairs of name and value, in order.
#[derive(Debug)]
pub struct BlockData {
    pub name: String,
    pub properties: Option<Vec<(String, String)>>,
}

/// The pairs of a property list as sequences of characters.
pub open spec fn properties_view(entries: Seq<(String, String)>) -> Seq<(Seq<char>, Seq<char>)> {
    Seq::new(entries.len(), |i: int| (entries[i].0@, entries[i].1@))
}

/// The descriptor of the default block, plain air.
pub open spec fn air_descriptor() -> BlockDescriptor {
    BlockDescriptor { name: "minecraft:air"@, properties: None }
}

/// The name is one of the three that count as air.
pub open spec fn is_air_name(name: Seq<char>) -> bool {
    name == "minecraft:air"@ || name == "minecraft:void_air"@ || name == "minecraft:cave_air"@
}

impl View for BlockData {
    type V = BlockDescriptor;

    open spec fn view(&self) -> BlockDescriptor {
        BlockDescriptor {
            name: self.name@,
            properties: match self.properties {
                Some(entries) => Some(properties_view(entries@)),
                None => None,
            },
        }
    }
}

fn same_properties(a: &Vec<(String, String)>, b: &Vec<(String, String)>) -> (r: bool)
    ensures
        r == (properties_view(a@) == properties_view(b@)),
{
    if a.len() != b.len() {
        assert(properties_view(a@).len() != properties_view(b@).len());
        return false;
    }
    let mut i: usize = 0;
    while i < a.len()
        invariant
            a.len() == b.len(),
            i <= a.len(),
            forall|j: int| 0 <= j < i ==> properties_view(a@)[j] == properties_view(b@)[j],
        decreases a.len() - i,
    {
        if a[i].0 != b[i].0 || a[i].1 != b[i].1 {
            assert(properties_view(a@)[i as int] != properties_view(b@)[i as int]);
            return false;
        }
        i += 1;
    }
    assert(properties_view(a@) =~= properties_view(b@));
    true
}

fn copy_properties(a: &Vec<(String, String)>) -> (r: Vec<(String, String)>)
    ensures
        properties_view(r@) == properties_view(a@),
{
    let mut r: Vec<(String, String)> = Vec::new();
    let mut i: usize = 0;
    while i < a.len()
        invariant
            i <= a.len(),
            r.len() == i,
            forall|j: int| 0 <= j < i ==> properties_view(r@)[j] == properties_view(a@)[j],
        decreases a.len() - i,
    {
        r.push((a[i].0.clone(), a[i].1.clone()));
        i += 1;
    }
    assert(properties_view(r@) =~= properties_view(a@));
    r
}

impl BlockData {
    /// A block without properties.
    pub fn new(name: &str) -> (r: BlockData)
        ensures
            r@ == (BlockDescriptor { name: name@, properties: None }),
    {
        BlockData { name: String::from_str(name), properties: None }
    }

    /// Whether the block is air, void air or cave air, by its name alone.
    pub fn is_air(&self) -> (r: bool)
        ensures
            r == is_air_name(self@.name),
    {
        self.name == String::from_str("minecraft:air") || self.name == String::from_str(
            "minecraft:void_air",
        ) || self.name == String::from_str("minecraft:cave_air")
    }
}

impl Default for BlockData {
    /// Plain air.
    fn default() -> (r: BlockData)
        ensures
            r@ == air_descriptor(),
    {
        BlockData::new("minecraft:air")
    }
}

impl Clone for BlockData {
    fn clone(&self) -> (r: BlockData)
        ensures
            r@ == self@,
    {
        let properties = match &self.properties {
            Some(entries) => Some(copy_properties(entries)),
            None => None,
        };
        BlockData { name: self.name.clone(), properties }
    }
}

impl PartialEq for BlockData {
    fn eq(&self, other: &BlockData) -> (r: bool) {
        if self.name != other.name {
            return false;
        }
        match (&self.properties, &other.properties) {
            (Some(a), Some(b)) => same_properties(a, b),
            (None, None) => true,
            _ => false,
        }
    }
}

impl vstd::std_specs::cmp::PartialEqSpecImpl for BlockData {
    open spec fn obeys_eq_spec() -> bool {
        true
    }

    open spec fn eq_spec(&self, other: &BlockData) -> bool {
        self@ == other@
    }
}

impl Eq for BlockData {

}

} // verus!
