//! What holds across the operations on block states and chunks.

use vstd::prelude::*;
use crate::block::BlockDescriptor;
use crate::block_states::BlockStates;
use crate::chunk::Chunk;
use crate::errors::WorldError;
use crate::registry::BlockRegistry;

verus! {

/// One call of `Chunk::set_block`: the position, the block, and how the call
/// ended.
pub struct Edit {
    pub x: int,
    pub y: int,
    pub z: int,
    pub block: BlockDescriptor,
    pub result: Result<(), WorldError>,
}

/// `chunks` are the states that a chunk goes through under the calls
/// `edits`, one after the other: call `n` takes the chunk from `chunks[n]` to
/// `chunks[n + 1]`.
pub open spec fn edits_applied(chunks: Seq<Chunk>, registry: &BlockRegistry, edits: Seq<Edit>) -> bool {
    &&& chunks.len() == edits.len() + 1
    &&& forall|n: int|
        0 <= n < edits.len() ==> (#[trigger] chunks[n]).set_block_ensures(
            &chunks[n + 1],
            registry,
            edits[n].x,
            edits[n].y,
            edits[n].z,
            edits[n].block,
            edits[n].result,
        )
}

/// Call `k` succeeded at the position `(x, y, z)`, and no later call up to
/// state `m` succeeded there.
pub open spec fn is_last_set(edits: Seq<Edit>, k: int, m: int, x: int, y: int, z: int) -> bool {
    &&& 0 <= k < m <= edits.len()
    &&& edits[k].result is Ok
    &&& Chunk::same_cell(edits[k].x, edits[k].y, edits[k].z, x, y, z)
    &&& forall|n: int|
        k < n < m && (#[trigger] edits[n]).result is Ok ==> !Chunk::same_cell(
            edits[n].x,
            edits[n].y,
            edits[n].z,
            x,
            y,
            z,
        )
}

proof fn lemma_last_set_upto(
    chunks: Seq<Chunk>,
    registry: &BlockRegistry,
    edits: Seq<Edit>,
    k: int,
    m: int,
    x: int,
    y: int,
    z: int,
)
    requires
        edits_applied(chunks, registry, edits),
        is_last_set(edits, k, m, x, y, z),
    ensures
        chunks[m].block_at(registry, x, y, z) == Ok::<BlockDescriptor, WorldError>(edits[k].block),
    decreases m - k,
{
    let call = edits[m - 1];
    let before = chunks[m - 1];
    let after = chunks[m];
    assert(before.set_block_ensures(
        &after,
        registry,
        call.x,
        call.y,
        call.z,
        call.block,
        call.result,
    ));
    if m == k + 1 {
        after.lemma_same_cell(registry, call.x, call.y, call.z, x, y, z);
    } else {
        lemma_last_set_upto(chunks, registry, edits, k, m - 1, x, y, z);
        if call.result is Err {
            before.lemma_same_sections(&after, registry, x, y, z);
        } else {
            assert(!Chunk::same_cell(call.x, call.y, call.z, x, y, z));
        }
    }
}

/// After any sequence of `set_block` calls on a chunk, a position reads as
/// the block of the last call that succeeded at that position.
pub proof fn law_last_set_is_read(
    chunks: Seq<Chunk>,
    registry: &BlockRegistry,
    edits: Seq<Edit>,
    k: int,
    x: int,
    y: int,
    z: int,
)
    requires
        edits_applied(chunks, registry, edits),
        is_last_set(edits, k, edits.len() as int, x, y, z),
    ensures
        chunks.last().block_at(registry, x, y, z) == Ok::<BlockDescriptor, WorldError>(
            edits[k].block,
        ),
{
    lemma_last_set_upto(chunks, registry, edits, k, edits.len() as int, x, y, z);
}

/// After a `fill` that succeeded, each of the 4096 positions reads as the
/// block that the section was filled with.
pub proof fn law_fill_then_get(
    before: &BlockStates,
    after: &BlockStates,
    registry: &BlockRegistry,
    block: BlockDescriptor,
    r: Result<(), WorldError>,
    index: int,
)
    requires
        before.fill_ensures(after, registry, block, r),
        r is Ok,
        0 <= index < 4096,
    ensures
        after.block_at(registry, index) == Ok::<BlockDescriptor, WorldError>(block),
{
}

/// After a `resize` that succeeded, every position that read as a block
/// before reads as the same block.
pub proof fn law_resize_keeps_blocks(
    before: &BlockStates,
    after: &BlockStates,
    registry: &BlockRegistry,
    new_bit_size: int,
    r: Result<(), WorldError>,
    index: int,
)
    requires
        before.resize_ensures(after, new_bit_size, r),
        r is Ok,
        0 <= index < 4096,
        before.block_at(registry, index) is Ok,
    ensures
        after.block_at(registry, index) == before.block_at(registry, index),
{
    assert(after.block_data.id_at(index) == before.block_data.id_at(index));
}

/// `optimise` succeeds on sound states and leaves every position reading as
/// it did.
pub proof fn law_optimise_keeps_blocks(
    before: &BlockStates,
    after: &BlockStates,
    registry: &BlockRegistry,
    r: Result<(), WorldError>,
    index: int,
)
    requires
        before.wf(registry),
        before.optimise_ensures(after, registry, r),
        0 <= index < 4096,
    ensures
        r is Ok,
        after.wf(registry),
        after.block_at(registry, index) == before.block_at(registry, index),
{
}

/// `optimise` turns sound states that hold one block at every position,
/// and are not direct, into a single section.
pub proof fn law_optimise_collapses(
    before: &BlockStates,
    after: &BlockStates,
    registry: &BlockRegistry,
    r: Result<(), WorldError>,
)
    requires
        before.wf(registry),
        !(before.block_data is Direct),
        before.optimise_ensures(after, registry, r),
        forall|i: int|
            0 <= i < 4096 ==> #[trigger] before.blocks(registry)[i] == before.blocks(registry)[0],
    ensures
        after.block_data is Single,
{
}

/// The counts of sound states add up to 4096, and still do after `set`,
/// `fill`, `optimise` and `resize`, however the call ended.
pub proof fn law_histogram_total(
    before: &BlockStates,
    after: &BlockStates,
    registry: &BlockRegistry,
    index: int,
    block: BlockDescriptor,
    new_bit_size: int,
    r: Result<(), WorldError>,
)
    requires
        before.wf(registry),
        before.set_ensures(after, registry, index, block, r) || before.fill_ensures(
            after,
            registry,
            block,
            r,
        ) || before.optimise_ensures(after, registry, r) || before.resize_ensures(
            after,
            new_bit_size,
            r,
        ),
    ensures
        before.block_counts.total() == 4096,
        after.block_counts.total() == 4096,
{
}

} // verus!
