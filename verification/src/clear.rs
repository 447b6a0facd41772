//! The reset of a world before a generation pass.

use vstd::prelude::*;
use crate::shared::{
    entries_resolve, lemma_occupied_count_zero, occupied_count, ChunkMapping, Voxels, AIR_MARKER,
};

verus! {

/// Resets the world: every macro-chunk becomes unpopulated, slot 0 is filled
/// with the air marker again, and the slots from 1 up to, but not including,
/// `chunk_count` are emptied. `chunk_count` is the number of slots that the
/// last generation pass left in use, the sentinel included; the slots from
/// there on keep what they hold.
pub fn clear(chunk_count: usize, chunk_mapping: &mut ChunkMapping, voxels: &mut Voxels)
    requires
        old(chunk_mapping).wf(),
        old(voxels).wf(),
    ensures
        final(chunk_mapping).wf(),
        final(chunk_mapping).dims() == old(chunk_mapping).dims(),
        final(chunk_mapping)@.len() == old(chunk_mapping)@.len(),
        forall|i: int| 0 <= i < final(chunk_mapping)@.len() ==> final(chunk_mapping)@[i] == 0,
        occupied_count(final(chunk_mapping)@) == 0,
        final(voxels).wf(),
        final(voxels).dims() == old(voxels).dims(),
        final(voxels)@.len() == old(voxels)@.len(),
        final(voxels).sentinel_intact(),
        entries_resolve(final(chunk_mapping)@, final(voxels)@),
        forall|s: int, i: int|
            1 <= s < final(voxels)@.len() && s < chunk_count && 0 <= i < final(voxels)@[s].len()
                ==> #[trigger] final(voxels)@[s][i] == 0,
        forall|s: int|
            1 <= s < final(voxels)@.len() && s >= chunk_count ==> #[trigger] final(voxels)@[s]
                == old(voxels)@[s],
{
    let n = chunk_mapping.len();
    let mut c: usize = 0;
    while c < n
        invariant
            0 <= c <= n,
            n == chunk_mapping@.len(),
            chunk_mapping.wf(),
            chunk_mapping.dims() == old(chunk_mapping).dims(),
            forall|i: int| 0 <= i < c ==> chunk_mapping@[i] == 0,
        decreases n - c,
    {
        chunk_mapping.set(c, 0);
        c += 1;
    }
    proof {
        lemma_occupied_count_zero(chunk_mapping@);
        voxels.lemma_wf();
    }
    voxels.fill(0, AIR_MARKER);
    let slots = voxels.slot_count();
    let stop = if chunk_count < slots {
        chunk_count
    } else {
        slots
    };
    let mut s: usize = 1;
    while s < stop
        invariant
            1 <= s,
            stop <= slots,
            s <= stop || s == 1,
            slots == voxels@.len(),
            slots == old(voxels)@.len(),
            voxels.wf(),
            voxels.dims() == old(voxels).dims(),
            voxels.sentinel_intact(),
            forall|t: int, i: int|
                1 <= t < s && 0 <= i < voxels@[t].len() ==> #[trigger] voxels@[t][i] == 0,
            forall|t: int| s <= t < slots ==> #[trigger] voxels@[t] == old(voxels)@[t],
        decreases stop - s,
    {
        voxels.fill(s, 0);
        s += 1;
    }
}

} // verus!
