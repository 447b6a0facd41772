//! The two-phase protocol by which a generator takes storage for a
//! macro-chunk: it stages the chunk's voxels in a candidate slot, tests
//! whether any of them is set, and only then commits the slot to the chunk.
//! A candidate that was not committed is staged again for the next chunk.

use vstd::prelude::*;
use crate::shared::{
    entries_resolve, lemma_occupied_count_update, occupied_count, ChunkMapping, Voxels,
};

verus! {

/// Whether a slot holds a voxel that is not empty.
pub open spec fn slot_occupied(slot: Seq<u32>) -> bool {
    exists|i: int| 0 <= i < slot.len() && #[trigger] slot[i] != 0
}

/// Whether every voxel of a slot is empty.
pub open spec fn slot_empty(slot: Seq<u32>) -> bool {
    forall|i: int| 0 <= i < slot.len() ==> #[trigger] slot[i] == 0
}

/// Every populated macro-chunk points to a slot below `next` that exists and
/// holds a voxel that is not empty.
pub open spec fn claims_consistent(entries: Seq<u32>, slots: Seq<Seq<u32>>, next: int) -> bool {
    &&& 1 <= next <= slots.len()
    &&& forall|c: int|
        0 <= c < entries.len() && #[trigger] entries[c] != 0 ==> entries[c] < next
            && slot_occupied(slots[entries[c] as int])
}

/// A claim of a macro-chunk that was not populated raises the number of
/// populated macro-chunks by one, as it raises the number of slots in use; a
/// claim of one that was populated leaves the number as it is.
pub proof fn lemma_claim_count(entries: Seq<u32>, chunk_index: int, slot: u32)
    requires
        0 <= chunk_index < entries.len(),
        slot != 0,
    ensures
        entries[chunk_index] == 0 ==> occupied_count(entries.update(chunk_index, slot))
            == occupied_count(entries) + 1,
        entries[chunk_index] != 0 ==> occupied_count(entries.update(chunk_index, slot))
            == occupied_count(entries),
{
    lemma_occupied_count_update(entries, chunk_index, slot);
}

/// Where every populated macro-chunk points to a slot below the candidate,
/// every entry of the mapping names a slot that exists.
pub proof fn lemma_claims_resolve(entries: Seq<u32>, slots: Seq<Seq<u32>>, next: int)
    requires
        claims_consistent(entries, slots, next),
    ensures
        entries_resolve(entries, slots),
{
}

/// Makes the candidate slot ready for staging: where it lies directly behind
/// the last slot, an empty slot is appended.
pub fn open_candidate(voxels: &mut Voxels, candidate: usize)
    requires
        old(voxels).wf(),
        1 <= candidate <= old(voxels)@.len(),
    ensures
        final(voxels).wf(),
        final(voxels).dims() == old(voxels).dims(),
        candidate < final(voxels)@.len(),
        final(voxels)@.len() == if candidate < old(voxels)@.len() {
            old(voxels)@.len()
        } else {
            old(voxels)@.len() + 1
        },
        forall|s: int| 0 <= s < old(voxels)@.len() ==> final(voxels)@[s] == old(voxels)@[s],
        candidate == old(voxels)@.len() ==> slot_empty(final(voxels)@[candidate as int]),
{
    if candidate >= voxels.slot_count() {
        voxels.push_slot();
    }
}

/// The occupancy test: whether `slot` holds a voxel that is not empty.
pub fn is_occupied(voxels: &Voxels, slot: usize) -> (r: bool)
    requires
        slot < voxels@.len(),
    ensures
        r == slot_occupied(voxels@[slot as int]),
{
    let n = voxels.slot_len(slot);
    let mut i: usize = 0;
    while i < n
        invariant
            slot < voxels@.len(),
            n == voxels@[slot as int].len(),
            0 <= i <= n,
            forall|j: int| 0 <= j < i ==> voxels@[slot as int][j] == 0,
        decreases n - i,
    {
        if voxels.get(slot, i) != 0 {
            return true;
        }
        i += 1;
    }
    false
}

/// The commit: points the macro-chunk at `chunk_index` to the candidate slot
/// `*new_chunk` and moves the candidate on to the next slot.
pub fn claim(chunk_index: usize, new_chunk: &mut usize, chunk_mapping: &mut ChunkMapping)
    requires
        chunk_index < old(chunk_mapping)@.len(),
        1 <= *old(new_chunk) < u32::MAX,
    ensures
        *final(new_chunk) == *old(new_chunk) + 1,
        final(chunk_mapping)@ == old(chunk_mapping)@.update(
            chunk_index as int,
            *old(new_chunk) as u32,
        ),
        final(chunk_mapping).dims() == old(chunk_mapping).dims(),
        old(chunk_mapping).wf() ==> final(chunk_mapping).wf(),
        occupied_count(final(chunk_mapping)@) == occupied_count(old(chunk_mapping)@)
            + if old(chunk_mapping)@[chunk_index as int] == 0 {
            1nat
        } else {
            0nat
        },
{
    proof {
        lemma_claim_count(old(chunk_mapping)@, chunk_index as int, *new_chunk as u32);
    }
    chunk_mapping.set(chunk_index, *new_chunk as u32);
    *new_chunk = *new_chunk + 1;
}

/// The second phase of the protocol: tests the candidate slot `*new_chunk`,
/// which holds what was staged for the macro-chunk at `chunk_index`, and
/// commits it where it holds a voxel that is not empty. Where it does not,
/// nothing changes, and the candidate is left to be staged again.
pub fn claim_if_occupied(
    chunk_index: usize,
    new_chunk: &mut usize,
    chunk_mapping: &mut ChunkMapping,
    voxels: &Voxels,
) -> (claimed: bool)
    requires
        chunk_index < old(chunk_mapping)@.len(),
        1 <= *old(new_chunk) < u32::MAX,
        *old(new_chunk) < voxels@.len(),
    ensures
        claimed == slot_occupied(voxels@[*old(new_chunk) as int]),
        final(chunk_mapping).dims() == old(chunk_mapping).dims(),
        old(chunk_mapping).wf() ==> final(chunk_mapping).wf(),
        claimed ==> *final(new_chunk) == *old(new_chunk) + 1,
        claimed ==> final(chunk_mapping)@ == old(chunk_mapping)@.update(
            chunk_index as int,
            *old(new_chunk) as u32,
        ),
        !claimed ==> *final(new_chunk) == *old(new_chunk),
        !claimed ==> final(chunk_mapping)@ == old(chunk_mapping)@,
        occupied_count(final(chunk_mapping)@) == occupied_count(old(chunk_mapping)@) + if claimed
            && old(chunk_mapping)@[chunk_index as int] == 0 {
            1nat
        } else {
            0nat
        },
{
    if is_occupied(voxels, *new_chunk) {
        claim(chunk_index, new_chunk, chunk_mapping);
        true
    } else {
        false
    }
}

} // verus!
