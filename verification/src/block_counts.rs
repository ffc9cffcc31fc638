//! The histogram of a section: how many of its positions hold each block.

use vstd::prelude::*;
use crate::block::{BlockData, BlockDescriptor};

verus! {

/// The sum of a sequence of counts.
pub open spec fn sum(s: Seq<nat>) -> nat
    decreases s.len(),
{
    if s.len() == 0 {
        0
    } else {
        sum(s.drop_last()) + s.last()
    }
}

/// Changing one count changes the sum by the difference.
pub proof fn lemma_sum_update(s: Seq<nat>, k: int, v: nat)
    requires
        0 <= k < s.len(),
    ensures
        sum(s.update(k, v)) + s[k] == sum(s) + v,
    decreases s.len(),
{
    if k == s.len() - 1 {
        assert(s.update(k, v).drop_last() =~= s.drop_last());
    } else {
        lemma_sum_update(s.drop_last(), k, v);
        assert(s.update(k, v).drop_last() =~= s.drop_last().update(k, v));
    }
}

/// One more count adds itself to the sum.
pub proof fn lemma_sum_push(s: Seq<nat>, v: nat)
    ensures
        sum(s.push(v)) == sum(s) + v,
{
    assert(s.push(v).drop_last() =~= s);
}

/// Blocks with their counts. A block is looked up at the first entry that
/// holds it.
#[derive(Clone, Debug)]
pub struct BlockCounts {
    pub entries: Vec<(BlockData, u32)>,
}

impl BlockCounts {
    /// Entry `i` is the one at which `d` is looked up.
    pub open spec fn is_slot(&self, i: int, d: BlockDescriptor) -> bool {
        &&& 0 <= i < self.entries@.len()
        &&& self.entries@[i].0@ == d
        &&& forall|j: int| 0 <= j < i ==> self.entries@[j].0@ != d
    }

    /// The histogram has an entry for `d`.
    pub open spec fn tracks(&self, d: BlockDescriptor) -> bool {
        exists|i: int| self.is_slot(i, d)
    }

    /// The count kept for `d`: 0 where there is no entry for it.
    pub open spec fn count(&self, d: BlockDescriptor) -> nat {
        if self.tracks(d) {
            self.entries@[choose|i: int| self.is_slot(i, d)].1 as nat
        } else {
            0
        }
    }

    /// No block has two entries.
    pub open spec fn distinct(&self) -> bool {
        forall|i: int, j: int|
            0 <= i < j < self.entries@.len() ==> self.entries@[i].0@ != self.entries@[j].0@
    }

    /// The counts of all entries, in order.
    pub open spec fn counts(&self) -> Seq<nat> {
        Seq::new(self.entries@.len(), |i: int| self.entries@[i].1 as nat)
    }

    /// The sum of all counts.
    pub open spec fn total(&self) -> nat {
        sum(self.counts())
    }

    /// The entry at which a block is looked up is the only such entry.
    pub proof fn lemma_slot(&self, i: int, d: BlockDescriptor)
        requires
            self.is_slot(i, d),
        ensures
            self.tracks(d),
            self.count(d) == self.entries@[i].1,
    {
        let other = choose|other: int| self.is_slot(other, d);
        assert(self.is_slot(other, d));
        if other < i {
            assert(self.entries@[other].0@ != d);
        } else if i < other {
            assert(self.entries@[i].0@ != d);
        }
    }

    /// A block that no entry holds is not tracked.
    pub proof fn lemma_absent(&self, d: BlockDescriptor)
        requires
            forall|j: int| 0 <= j < self.entries@.len() ==> self.entries@[j].0@ != d,
        ensures
            !self.tracks(d),
            self.count(d) == 0,
    {
    }

    /// A histogram of one entry.
    pub fn single(block: BlockData, count: u32) -> (r: BlockCounts)
        ensures
            r.distinct(),
            r.total() == count,
            r.tracks(block@),
            forall|d: BlockDescriptor|
                r.count(d) == (if d == block@ {
                    count as nat
                } else {
                    0
                }),
            forall|d: BlockDescriptor| r.tracks(d) <==> d == block@,
    {
        let mut entries: Vec<(BlockData, u32)> = Vec::new();
        entries.push((block, count));
        let r = BlockCounts { entries };
        proof {
            assert(r.counts().drop_last() =~= Seq::<nat>::empty());
            assert(sum(r.counts().drop_last()) == 0);
            assert(r.is_slot(0, block@));
            r.lemma_slot(0, block@);
            assert forall|d: BlockDescriptor| d != block@ implies !r.tracks(d) by {
                r.lemma_absent(d);
            }
        }
        r
    }

    /// The entry at which `block` is looked up.
    pub fn find(&self, block: &BlockData) -> (r: Option<usize>)
        ensures
            r is Some <==> self.tracks(block@),
            r is Some ==> self.is_slot(r->Some_0 as int, block@),
            r is None ==> forall|j: int|
                0 <= j < self.entries@.len() ==> self.entries@[j].0@ != block@,
    {
        let mut i: usize = 0;
        while i < self.entries.len()
            invariant
                i <= self.entries@.len(),
                forall|j: int| 0 <= j < i ==> self.entries@[j].0@ != block@,
            decreases self.entries.len() - i,
        {
            if self.entries[i].0 == *block {
                proof {
                    self.lemma_slot(i as int, block@);
                }
                return Some(i);
            }
            i += 1;
        }
        proof {
            self.lemma_absent(block@);
        }
        None
    }

    /// The count kept for `block`, if there is an entry for it.
    pub fn get(&self, block: &BlockData) -> (r: Option<u32>)
        ensures
            r is Some <==> self.tracks(block@),
            r is Some ==> r->Some_0 == self.count(block@),
    {
        match self.find(block) {
            Some(i) => {
                proof {
                    self.lemma_slot(i as int, block@);
                }
                Some(self.entries[i].1)
            },
            None => None,
        }
    }

    /// Changing the count of one entry and nothing else leaves every block
    /// at its entry, and changes that one count and the total alone.
    proof fn lemma_recount(&self, after: &BlockCounts, i: int)
        requires
            0 <= i < self.entries@.len(),
            after.entries@.len() == self.entries@.len(),
            forall|j: int| 0 <= j < self.entries@.len() ==> after.entries@[j].0 == self.entries@[j].0,
            forall|j: int|
                0 <= j < self.entries@.len() && j != i ==> after.entries@[j].1 == self.entries@[j].1,
            self.is_slot(i, self.entries@[i].0@),
        ensures
            forall|d: BlockDescriptor| after.tracks(d) <==> self.tracks(d),
            forall|d: BlockDescriptor|
                d != self.entries@[i].0@ ==> after.count(d) == self.count(d),
            after.count(self.entries@[i].0@) == after.entries@[i].1,
            after.total() + self.entries@[i].1 == self.total() + after.entries@[i].1,
            self.distinct() ==> after.distinct(),
    {
        assert forall|d: BlockDescriptor, j: int| after.is_slot(j, d) <==> self.is_slot(j, d) by {}
        assert forall|d: BlockDescriptor| after.tracks(d) <==> self.tracks(d) by {
            if self.tracks(d) {
                let j = choose|j: int| self.is_slot(j, d);
                assert(after.is_slot(j, d));
            }
            if after.tracks(d) {
                let j = choose|j: int| after.is_slot(j, d);
                assert(self.is_slot(j, d));
            }
        }
        assert forall|d: BlockDescriptor| d != self.entries@[i].0@ implies after.count(d)
            == self.count(d) by {
            if self.tracks(d) {
                let j = choose|j: int| self.is_slot(j, d);
                assert(after.is_slot(j, d));
                after.lemma_slot(j, d);
                self.lemma_slot(j, d);
            }
        }
        assert(after.is_slot(i, self.entries@[i].0@));
        after.lemma_slot(i, self.entries@[i].0@);
        lemma_sum_update(self.counts(), i, after.entries@[i].1 as nat);
        assert(after.counts() =~= self.counts().update(i, after.entries@[i].1 as nat));
    }

    /// Counts one more of `block`, in its entry or in a new one.
    pub fn add_one(&mut self, block: &BlockData)
        requires
            old(self).count(block@) < u32::MAX,
        ensures
            forall|d: BlockDescriptor|
                final(self).count(d) == old(self).count(d) + (if d == block@ {
                    1nat
                } else {
                    0nat
                }),
            forall|d: BlockDescriptor| final(self).tracks(d) <==> old(self).tracks(d) || d == block@,
            final(self).total() == old(self).total() + 1,
            old(self).distinct() ==> final(self).distinct(),
    {
        let ghost before = *self;
        match self.find(block) {
            Some(i) => {
                proof {
                    before.lemma_slot(i as int, block@);
                }
                let count: u32 = self.entries[i].1;
                self.entries[i].1 = count + 1;
                proof {
                    before.lemma_recount(self, i as int);
                }
            },
            None => {
                self.entries.push((block.clone(), 1));
                proof {
                    let n = before.entries@.len() as int;
                    assert(self.entries@[n].0@ == block@);
                    lemma_sum_push(before.counts(), 1);
                    assert(self.counts() =~= before.counts().push(1));
                    assert forall|d: BlockDescriptor, j: int|
                        before.is_slot(j, d) implies self.is_slot(j, d) by {}
                    assert(self.is_slot(n, block@));
                    self.lemma_slot(n, block@);
                    assert forall|d: BlockDescriptor| d != block@ implies (self.tracks(d)
                        <==> before.tracks(d)) && self.count(d) == before.count(d) by {
                        if before.tracks(d) {
                            let j = choose|j: int| before.is_slot(j, d);
                            assert(self.is_slot(j, d));
                            self.lemma_slot(j, d);
                            before.lemma_slot(j, d);
                        }
                        if self.tracks(d) {
                            let j = choose|j: int| self.is_slot(j, d);
                            assert(j < n);
                            assert forall|k: int| 0 <= k < j implies before.entries@[k].0@
                                != d by {
                                assert(self.entries@[k] == before.entries@[k]);
                            }
                            assert(self.entries@[j] == before.entries@[j]);
                            assert(before.is_slot(j, d));
                        }
                    }
                }
            },
        }
    }

    /// Counts one less of `block`. A block without an entry is left
    /// uncounted. Where the entry of `block` is already at zero nothing
    /// changes and the answer is `false`.
    pub fn take_one(&mut self, block: &BlockData) -> (r: bool)
        ensures
            r == !(old(self).tracks(block@) && old(self).count(block@) == 0),
            !r ==> *final(self) == *old(self),
            r ==> forall|d: BlockDescriptor|
                final(self).count(d) + (if d == block@ && old(self).tracks(d) {
                    1nat
                } else {
                    0nat
                }) == old(self).count(d),
            forall|d: BlockDescriptor| final(self).tracks(d) <==> old(self).tracks(d),
            r ==> final(self).total() + (if old(self).tracks(block@) {
                1nat
            } else {
                0nat
            }) == old(self).total(),
            old(self).distinct() ==> final(self).distinct(),
    {
        let ghost before = *self;
        match self.find(block) {
            Some(i) => {
                proof {
                    before.lemma_slot(i as int, block@);
                }
                let count: u32 = self.entries[i].1;
                if count == 0 {
                    return false;
                }
                self.entries[i].1 = count - 1;
                proof {
                    before.lemma_recount(self, i as int);
                }
                true
            },
            None => true,
        }
    }
}

} // verus!
