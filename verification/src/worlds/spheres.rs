//! The sphere field: a fixed number of spheres of random size and place.

use vstd::prelude::*;
use crate::claim::{claims_consistent, lemma_claims_resolve, slot_occupied};
use crate::clear::clear;
use crate::place_one_sphere::{
    drawn, place_one_sphere, slot_of_sphere, sphere_placed, Sphere, MAX_RADIUS, SPHERE_BOX_CHUNKS,
};
use crate::shared::{occupied_count, ChunkMapping, Dims, Voxels, AIR_MARKER};
use crate::worlds::{Key, KeyState, Population, World};

verus! {

/// The number of spheres of a field.
pub const SPHERE_COUNT: usize = 200;

/// The smallest material that a sphere field writes.
pub const FIELD_MATERIAL_MIN: u32 = 3;

/// The largest material that a sphere field writes.
pub const FIELD_MATERIAL_MAX: u32 = 26;

/// Whether a slot is one that a sphere of a field claimed: it holds a voxel
/// that is set, and every voxel that is set holds a material of the field.
pub open spec fn slot_of_field(slot: Seq<u32>) -> bool {
    &&& slot_occupied(slot)
    &&& forall|i: int|
        0 <= i < slot.len() ==> #[trigger] slot[i] == 0 || FIELD_MATERIAL_MIN <= slot[i]
            <= FIELD_MATERIAL_MAX
}

/// What the first `count` spheres of a field do to the world, one after the
/// other. The passes begin with the candidate slot `first`, the mapping
/// `entries0` and the slots `slots0`, and end with the candidate `next`, the
/// mapping `entries` and the slots `slots`. Sphere `n` is some sphere that
/// may be drawn for the number `n`, and it finds the world as sphere `n - 1`
/// left it.
pub open spec fn field_placed(
    dims: Dims,
    count: nat,
    first: int,
    entries0: Seq<u32>,
    slots0: Seq<Seq<u32>>,
    next: int,
    entries: Seq<u32>,
    slots: Seq<Seq<u32>>,
) -> bool
    decreases count,
{
    if count == 0 {
        next == first && entries == entries0 && slots == slots0
    } else {
        exists|s: Sphere, between: int, entries1: Seq<u32>, slots1: Seq<Seq<u32>>|
            field_placed(dims, (count - 1) as nat, first, entries0, slots0, between, entries1, slots1)
                && drawn(s, (count - 1) as usize, dims) && #[trigger] sphere_placed(
                s,
                dims,
                between,
                entries1,
                slots1,
                next,
                entries,
                slots,
            )
    }
}

/// The world after `clear`: no macro-chunk is populated, slot 0 holds the
/// air marker, the slots from 1 up to, but not including, `in_use` are empty
/// and the others as they were.
pub open spec fn cleared(
    in_use: int,
    slots0: Seq<Seq<u32>>,
    entries: Seq<u32>,
    slots: Seq<Seq<u32>>,
) -> bool {
    &&& forall|i: int| 0 <= i < entries.len() ==> entries[i] == 0
    &&& slots.len() == slots0.len()
    &&& slots.len() >= 1
    &&& forall|i: int| 0 <= i < slots[0].len() ==> slots[0][i] == AIR_MARKER
    &&& forall|t: int, i: int|
        1 <= t < slots.len() && t < in_use && 0 <= i < slots[t].len() ==> #[trigger] slots[t][i]
            == 0
    &&& forall|t: int| 1 <= t < slots.len() && t >= in_use ==> #[trigger] slots[t] == slots0[t]
}

/// The generator of the sphere field.
pub struct Spheres {
    state: Population,
    chunk_count: usize,
}

impl Spheres {
    /// The number of slots that the last pass left in use, the sentinel
    /// included; 0 before the first pass.
    pub closed spec fn slots_in_use(&self) -> int {
        self.chunk_count as int
    }

    /// A generator that has not run.
    pub fn new() -> (s: Spheres)
        ensures
            !s.populated(),
            s.slots_in_use() == 0,
    {
        Spheres { state: Population::Unpopulated, chunk_count: 0 }
    }

    /// The number of slots that the last pass left in use, the sentinel
    /// included; 0 before the first pass.
    pub fn chunk_count(&self) -> (n: usize)
        ensures
            n == self.slots_in_use(),
    {
        self.chunk_count
    }
}

impl Default for Spheres {
    fn default() -> (s: Spheres)
        ensures
            !s.populated(),
            s.slots_in_use() == 0,
    {
        Spheres::new()
    }
}

impl World for Spheres {
    closed spec fn populated(&self) -> bool {
        self.state == Population::Populated
    }

    fn is_populated(&self) -> (b: bool) {
        self.state == Population::Populated
    }

    /// The world is wide enough for the largest sphere, and the squared
    /// distances that are computed fit an `i32`.
    open spec fn ready(&self, chunk_mapping: &ChunkMapping, voxels: &Voxels) -> bool {
        &&& voxels.dims().world_edge_voxels() >= 2 * MAX_RADIUS - 1
        &&& 3 * ((MAX_RADIUS + voxels.dims().chunk_edge) * (MAX_RADIUS + voxels.dims().chunk_edge))
            <= i32::MAX
    }

    /// The world is reset, with the slots emptied that the last pass left in
    /// use, and then the spheres of a field are placed one after the other.
    /// At the end the generator holds the number of slots in use. Slot 0
    /// holds the air marker, every populated macro-chunk points to a slot in
    /// use that holds a voxel of the field, and no more macro-chunks are
    /// populated than slots were claimed.
    open spec fn populates(
        &self,
        after: &Spheres,
        dims: Dims,
        entries0: Seq<u32>,
        slots0: Seq<Seq<u32>>,
        entries: Seq<u32>,
        slots: Seq<Seq<u32>>,
    ) -> bool {
        &&& slots.len() >= slots0.len()
        &&& 1 <= after.slots_in_use() <= slots.len()
        &&& forall|i: int| 0 <= i < slots[0].len() ==> slots[0][i] == AIR_MARKER
        &&& claims_consistent(entries, slots, after.slots_in_use())
        &&& occupied_count(entries) <= after.slots_in_use() - 1
        &&& forall|t: int| 1 <= t < after.slots_in_use() ==> slot_of_field(#[trigger] slots[t])
        &&& exists|entries1: Seq<u32>, slots1: Seq<Seq<u32>>|
            entries1.len() == entries0.len() && cleared(
                self.slots_in_use(),
                slots0,
                entries1,
                slots1,
            ) && #[trigger] field_placed(
                dims,
                SPHERE_COUNT as nat,
                1,
                entries1,
                slots1,
                after.slots_in_use(),
                entries,
                slots,
            )
    }

    open spec fn kept(&self, after: &Spheres) -> bool {
        after.slots_in_use() == self.slots_in_use()
    }

    fn is_ready(&self, chunk_mapping: &ChunkMapping, voxels: &Voxels) -> (b: bool) {
        let dims = voxels.dims();
        proof {
            voxels.lemma_wf();
            dims.lemma_edges();
        }
        let reach = MAX_RADIUS as u64 + dims.chunk_edge as u64;
        assert(reach * reach <= 0x1_0000_0000 * 0x1_0000_0000) by (nonlinear_arith)
            requires
                0 <= reach <= 0x1_0000_0000,
        ;
        dims.edge_voxels() >= (2 * MAX_RADIUS - 1) as usize && 3 * (reach as u128 * reach as u128)
            <= i32::MAX as u128
    }

    /// Where the world is not populated: resets the world, emptying the
    /// slots that the last pass used, and places `SPHERE_COUNT` spheres one
    /// after the other, each through the claim protocol.
    fn fill_in_voxels(&mut self, chunk_mapping: &mut ChunkMapping, voxels: &mut Voxels) {
        if self.state == Population::Populated {
            return ;
        }
        self.state = Population::Populated;
        clear(self.chunk_count, chunk_mapping, voxels);
        let ghost dims = voxels.dims();
        let ghost cleared_entries = chunk_mapping@;
        let ghost cleared_slots = voxels@;
        let mut new_chunk: usize = 1;
        let mut n: usize = 0;
        while n < SPHERE_COUNT
            invariant
                0 <= n <= SPHERE_COUNT,
                chunk_mapping.wf(),
                voxels.wf(),
                chunk_mapping.dims() == dims,
                voxels.dims() == dims,
                dims == old(voxels).dims(),
                dims.world_edge_voxels() >= 2 * MAX_RADIUS - 1,
                3 * ((MAX_RADIUS + dims.chunk_edge) * (MAX_RADIUS + dims.chunk_edge)) <= i32::MAX,
                self.state == Population::Populated,
                voxels@.len() >= old(voxels)@.len(),
                1 <= new_chunk <= voxels@.len(),
                new_chunk <= 1 + n * SPHERE_BOX_CHUNKS,
                voxels.sentinel_intact(),
                claims_consistent(chunk_mapping@, voxels@, new_chunk as int),
                occupied_count(chunk_mapping@) <= new_chunk - 1,
                forall|t: int| 1 <= t < new_chunk ==> slot_of_field(#[trigger] voxels@[t]),
                field_placed(
                    dims,
                    n as nat,
                    1,
                    cleared_entries,
                    cleared_slots,
                    new_chunk as int,
                    chunk_mapping@,
                    voxels@,
                ),
            decreases SPHERE_COUNT - n,
        {
            let ghost first = new_chunk as int;
            let ghost entries0 = chunk_mapping@;
            let ghost slots0 = voxels@;
            place_one_sphere(n, &mut new_chunk, chunk_mapping, voxels);
            proof {
                let s = choose|s: Sphere|
                    drawn(s, n, dims) && #[trigger] sphere_placed(
                        s,
                        dims,
                        first,
                        entries0,
                        slots0,
                        new_chunk as int,
                        chunk_mapping@,
                        voxels@,
                    );
                assert forall|t: int| 1 <= t < new_chunk implies slot_of_field(
                    #[trigger] voxels@[t],
                ) by {
                    if t < first {
                        assert(voxels@[t] == slots0[t]);
                    } else {
                        assert(slot_of_sphere(s.index as int, voxels@[t]));
                    }
                }
            }
            n += 1;
        }
        self.chunk_count = new_chunk;
        proof {
            lemma_claims_resolve(chunk_mapping@, voxels@, new_chunk as int);
        }
    }

    fn reset_event(&mut self) {
        self.state = Population::Unpopulated;
    }

    fn keyboard_input(&mut self, key: Key, state: KeyState) {
        if key == Key::X && state == KeyState::Pressed {
            self.reset_event();
        }
    }
}

} // verus!
