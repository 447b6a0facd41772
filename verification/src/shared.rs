//! The data of a voxel world: its dimensions, the table that maps each
//! macro-chunk to a storage slot, the slots themselves, and the vertices of
//! the bounding geometry.

use vstd::prelude::*;
use crate::pos_to_index::cube;

verus! {

/// The material code that fills slot 0: every voxel of a macro-chunk that maps
/// there is air, and a ray may skip the whole macro-chunk.
pub const AIR_MARKER: u32 = 2;

/// The number of vertices of the cube that bounds one macro-chunk.
pub const CUBE_VERTICES: usize = 36;

/// The length that a type of fixed length has.
pub trait Length {
    /// The number of elements.
    const LEN: usize;
}

impl<T, const LENGTH: usize> Length for [T; LENGTH] {
    const LEN: usize = LENGTH;
}

/// The two edge lengths that fix the size of a world.
#[derive(Clone, Copy, Debug, PartialEq, Eq, Structural)]
pub struct Dims {
    /// Voxels along one edge of a macro-chunk.
    pub chunk_edge: usize,
    /// Macro-chunks along one edge of the world.
    pub world_edge_chunks: usize,
}

impl Dims {
    /// Voxels in one macro-chunk.
    pub open spec fn chunk_volume(self) -> int {
        cube(self.chunk_edge as int)
    }

    /// Macro-chunks in the world.
    pub open spec fn world_chunks(self) -> int {
        cube(self.world_edge_chunks as int)
    }

    /// Voxels along one edge of the world.
    pub open spec fn world_edge_voxels(self) -> int {
        self.chunk_edge * self.world_edge_chunks
    }

    /// Both edges are positive, every voxel coordinate fits an `i32`, and the
    /// slot length and the largest vertex count fit a `usize`.
    pub open spec fn wf(self) -> bool {
        &&& 1 <= self.chunk_edge
        &&& 1 <= self.world_edge_chunks
        &&& self.world_edge_voxels() <= i32::MAX
        &&& self.chunk_volume() <= usize::MAX
        &&& CUBE_VERTICES * self.world_chunks() <= usize::MAX
    }

    /// Neither edge is longer than the world's edge in voxels.
    pub proof fn lemma_edges(self)
        requires
            self.wf(),
        ensures
            self.chunk_edge <= self.world_edge_voxels() <= i32::MAX,
            self.world_edge_chunks <= self.world_edge_voxels(),
    {
        let e = self.chunk_edge as int;
        let c = self.world_edge_chunks as int;
        assert(e <= e * c && c <= e * c) by (nonlinear_arith)
            requires
                1 <= e,
                1 <= c,
        ;
    }

    /// The dimensions with these two edges, where they are well formed.
    pub fn new(chunk_edge: usize, world_edge_chunks: usize) -> (r: Option<Dims>)
        ensures
            (Dims { chunk_edge, world_edge_chunks }).wf() ==> r == Some(
                Dims { chunk_edge, world_edge_chunks },
            ),
            !(Dims { chunk_edge, world_edge_chunks }).wf() ==> r is None,
    {
        if chunk_edge < 1 || world_edge_chunks < 1 {
            return None;
        }
        let fits = match chunk_edge.checked_mul(world_edge_chunks) {
            Some(w) => w <= 0x7fff_ffff,
            None => false,
        };
        if !fits {
            return None;
        }
        let e: u128 = chunk_edge as u128;
        let c: u128 = world_edge_chunks as u128;
        proof {
            assert(e <= 0x7fff_ffff && c <= 0x7fff_ffff) by (nonlinear_arith)
                requires
                    1 <= e,
                    1 <= c,
                    e * c <= 0x7fff_ffff,
            ;
            assert(e * e * e <= 0x7fff_ffff * 0x7fff_ffff * 0x7fff_ffff && e * e <= 0x7fff_ffff
                * 0x7fff_ffff) by (nonlinear_arith)
                requires
                    0 <= e <= 0x7fff_ffff,
            ;
            assert(c * c * c <= 0x7fff_ffff * 0x7fff_ffff * 0x7fff_ffff && c * c <= 0x7fff_ffff
                * 0x7fff_ffff) by (nonlinear_arith)
                requires
                    0 <= c <= 0x7fff_ffff,
            ;
        }
        if e * e * e > usize::MAX as u128 || CUBE_VERTICES as u128 * (c * c * c) > usize::MAX as u128 {
            return None;
        }
        Some(Dims { chunk_edge, world_edge_chunks })
    }

    /// Voxels in one macro-chunk.
    pub fn volume(&self) -> (v: usize)
        requires
            self.wf(),
        ensures
            v == self.chunk_volume(),
            v >= 1,
    {
        proof {
            let e = self.chunk_edge as int;
            assert(1 <= e * e <= e * e * e) by (nonlinear_arith)
                requires
                    1 <= e,
            ;
        }
        self.chunk_edge * self.chunk_edge * self.chunk_edge
    }

    /// Macro-chunks in the world.
    pub fn chunk_count(&self) -> (v: usize)
        requires
            self.wf(),
        ensures
            v == self.world_chunks(),
            v >= 1,
    {
        proof {
            let c = self.world_edge_chunks as int;
            assert(1 <= c * c <= c * c * c) by (nonlinear_arith)
                requires
                    1 <= c,
            ;
        }
        self.world_edge_chunks * self.world_edge_chunks * self.world_edge_chunks
    }

    /// Voxels along one edge of the world.
    pub fn edge_voxels(&self) -> (v: usize)
        requires
            self.wf(),
        ensures
            v == self.world_edge_voxels(),
            1 <= v <= i32::MAX,
    {
        proof {
            let e = self.chunk_edge as int;
            let c = self.world_edge_chunks as int;
            assert(1 <= e * c) by (nonlinear_arith)
                requires
                    1 <= e,
                    1 <= c,
            ;
        }
        self.chunk_edge * self.world_edge_chunks
    }
}

/// How many entries of a mapping are not zero.
pub open spec fn occupied_count(entries: Seq<u32>) -> nat
    decreases entries.len(),
{
    if entries.len() == 0 {
        0
    } else {
        occupied_count(entries.drop_last()) + if entries.last() != 0 {
            1nat
        } else {
            0nat
        }
    }
}

/// A mapping whose entries are all zero has no occupied entry.
pub proof fn lemma_occupied_count_zero(entries: Seq<u32>)
    requires
        forall|i: int| 0 <= i < entries.len() ==> entries[i] == 0,
    ensures
        occupied_count(entries) == 0,
    decreases entries.len(),
{
    if entries.len() > 0 {
        lemma_occupied_count_zero(entries.drop_last());
    }
}

/// Writing one entry changes the number of occupied entries by what the
/// entry itself changes.
pub proof fn lemma_occupied_count_update(entries: Seq<u32>, i: int, slot: u32)
    requires
        0 <= i < entries.len(),
    ensures
        occupied_count(entries.update(i, slot)) + (if entries[i] != 0 {
            1nat
        } else {
            0nat
        }) == occupied_count(entries) + (if slot != 0 {
            1nat
        } else {
            0nat
        }),
    decreases entries.len(),
{
    let after = entries.update(i, slot);
    if i == entries.len() - 1 {
        assert(after.drop_last() =~= entries.drop_last());
    } else {
        assert(after.drop_last() =~= entries.drop_last().update(i, slot));
        lemma_occupied_count_update(entries.drop_last(), i, slot);
    }
}

/// The table with one entry for each macro-chunk of the world, in the order of
/// the linear index of its position. An entry of 0 says that the macro-chunk
/// was never populated and has no geometry; any other entry is the slot that
/// holds its voxels.
pub struct ChunkMapping {
    dims: Dims,
    entries: Vec<u32>,
}

impl View for ChunkMapping {
    type V = Seq<u32>;

    closed spec fn view(&self) -> Seq<u32> {
        self.entries@
    }
}

impl ChunkMapping {
    /// The dimensions of the world that the table belongs to.
    pub closed spec fn spec_dims(&self) -> Dims {
        self.dims
    }

    /// The dimensions are well formed and there is one entry for each
    /// macro-chunk.
    pub closed spec fn wf(&self) -> bool {
        &&& self.dims.wf()
        &&& self.entries@.len() == self.dims.world_chunks()
    }

    /// What `wf` says, for those who cannot see inside.
    pub proof fn lemma_wf(&self)
        requires
            self.wf(),
        ensures
            self.spec_dims().wf(),
            self@.len() == self.spec_dims().world_chunks(),
    {
    }

    /// A table in which no macro-chunk is populated.
    pub fn new(dims: Dims) -> (m: ChunkMapping)
        requires
            dims.wf(),
        ensures
            m.wf(),
            m.spec_dims() == dims,
            m@.len() == dims.world_chunks(),
            forall|i: int| 0 <= i < m@.len() ==> m@[i] == 0,
    {
        let n = dims.chunk_count();
        let entries = vec![0u32; n];
        ChunkMapping { dims, entries }
    }

    /// The dimensions of the world that the table belongs to.
    #[verifier::when_used_as_spec(spec_dims)]
    pub fn dims(&self) -> (d: Dims)
        ensures
            d == self.spec_dims(),
    {
        self.dims
    }

    /// The number of entries.
    pub fn len(&self) -> (n: usize)
        ensures
            n == self@.len(),
    {
        self.entries.len()
    }

    /// The entry at the linear index `i`.
    pub fn get(&self, i: usize) -> (slot: u32)
        requires
            i < self@.len(),
        ensures
            slot == self@[i as int],
    {
        self.entries[i]
    }

    /// Points the macro-chunk at the linear index `i` to `slot`.
    pub fn set(&mut self, i: usize, slot: u32)
        requires
            i < old(self)@.len(),
        ensures
            final(self)@ == old(self)@.update(i as int, slot),
            final(self).spec_dims() == old(self).spec_dims(),
            old(self).wf() ==> final(self).wf(),
    {
        self.entries.set(i, slot);
    }
}

/// The voxel storage: a sequence of slots, each holding the material codes of
/// one macro-chunk in the order of the linear index of the voxel's position in
/// the chunk. Slot 0 is the air sentinel; the slots after it are handed out to
/// populated macro-chunks one after the other.
pub struct Voxels {
    dims: Dims,
    slots: Vec<Vec<u32>>,
}

impl View for Voxels {
    type V = Seq<Seq<u32>>;

    closed spec fn view(&self) -> Seq<Seq<u32>> {
        Seq::new(self.slots@.len(), |s: int| self.slots@[s]@)
    }
}

impl Voxels {
    /// The dimensions of the world that the storage belongs to.
    pub closed spec fn spec_dims(&self) -> Dims {
        self.dims
    }

    /// The dimensions are well formed, slot 0 exists, and every slot holds one
    /// material code for each voxel of a macro-chunk.
    pub closed spec fn wf(&self) -> bool {
        &&& self.dims.wf()
        &&& self.slots@.len() >= 1
        &&& forall|s: int| 0 <= s < self.slots@.len() ==> (#[trigger] self.slots@[s])@.len()
            == self.dims.chunk_volume()
    }

    /// Slot 0 holds the air marker in every place.
    pub open spec fn sentinel_intact(&self) -> bool {
        &&& self@.len() >= 1
        &&& forall|i: int| 0 <= i < self@[0].len() ==> self@[0][i] == AIR_MARKER
    }

    /// What `wf` says, for those who cannot see inside.
    pub proof fn lemma_wf(&self)
        requires
            self.wf(),
        ensures
            self.spec_dims().wf(),
            self@.len() >= 1,
            forall|s: int| 0 <= s < self@.len() ==> (#[trigger] self@[s]).len()
                == self.spec_dims().chunk_volume(),
    {
    }

    /// Storage that holds the air sentinel and no other slot.
    pub fn new(dims: Dims) -> (v: Voxels)
        requires
            dims.wf(),
        ensures
            v.wf(),
            v.spec_dims() == dims,
            v@.len() == 1,
            v.sentinel_intact(),
    {
        let n = dims.volume();
        let sentinel = vec![AIR_MARKER; n];
        let mut slots: Vec<Vec<u32>> = Vec::new();
        slots.push(sentinel);
        Voxels { dims, slots }
    }

    /// The dimensions of the world that the storage belongs to.
    #[verifier::when_used_as_spec(spec_dims)]
    pub fn dims(&self) -> (d: Dims)
        ensures
            d == self.spec_dims(),
    {
        self.dims
    }

    /// The number of slots, the sentinel included.
    pub fn slot_count(&self) -> (n: usize)
        ensures
            n == self@.len(),
    {
        self.slots.len()
    }

    /// The number of places of `slot`.
    pub fn slot_len(&self, slot: usize) -> (n: usize)
        requires
            slot < self@.len(),
        ensures
            n == self@[slot as int].len(),
    {
        self.slots[slot].len()
    }

    /// The material code at place `i` of `slot`.
    pub fn get(&self, slot: usize, i: usize) -> (code: u32)
        requires
            slot < self@.len(),
            i < self@[slot as int].len(),
        ensures
            code == self@[slot as int][i as int],
    {
        self.slots[slot][i]
    }

    /// Writes `code` at place `i` of `slot`. Slot 0 is never written this way.
    pub fn set(&mut self, slot: usize, i: usize, code: u32)
        requires
            1 <= slot < old(self)@.len(),
            i < old(self)@[slot as int].len(),
        ensures
            final(self)@ == old(self)@.update(
                slot as int,
                old(self)@[slot as int].update(i as int, code),
            ),
            final(self).spec_dims() == old(self).spec_dims(),
            old(self).wf() ==> final(self).wf(),
    {
        self.slots[slot].set(i, code);
        assert(self@ =~= old(self)@.update(
            slot as int,
            old(self)@[slot as int].update(i as int, code),
        ));
    }

    /// Appends a slot in which every voxel is empty.
    pub fn push_slot(&mut self)
        requires
            old(self).wf(),
        ensures
            final(self).wf(),
            final(self).spec_dims() == old(self).spec_dims(),
            final(self)@.len() == old(self)@.len() + 1,
            forall|s: int| 0 <= s < old(self)@.len() ==> final(self)@[s] == old(self)@[s],
            final(self)@[old(self)@.len() as int].len() == old(self).spec_dims().chunk_volume(),
            forall|i: int|
                0 <= i < old(self).spec_dims().chunk_volume() ==> final(self)@[old(self)@.len() as int][i]
                    == 0,
    {
        let n = self.dims.volume();
        let slot = vec![0u32; n];
        self.slots.push(slot);
    }

    /// Writes `code` at every place of `slot`.
    pub(crate) fn fill(&mut self, slot: usize, code: u32)
        requires
            old(self).wf(),
            slot < old(self)@.len(),
        ensures
            final(self).wf(),
            final(self).spec_dims() == old(self).spec_dims(),
            final(self)@.len() == old(self)@.len(),
            forall|s: int|
                0 <= s < old(self)@.len() && s != slot ==> final(self)@[s] == old(self)@[s],
            final(self)@[slot as int].len() == old(self)@[slot as int].len(),
            forall|i: int|
                0 <= i < final(self)@[slot as int].len() ==> final(self)@[slot as int][i] == code,
    {
        let n = self.slots[slot].len();
        let mut i: usize = 0;
        while i < n
            invariant
                0 <= i <= n,
                slot < self.slots@.len(),
                self.slots@.len() == old(self).slots@.len(),
                self.dims == old(self).dims,
                n == old(self).slots@[slot as int]@.len(),
                self.slots@[slot as int]@.len() == n,
                forall|s: int|
                    0 <= s < self.slots@.len() && s != slot ==> self.slots@[s] == old(self).slots@[s],
                forall|j: int| 0 <= j < i ==> self.slots@[slot as int]@[j] == code,
            decreases n - i,
        {
            self.slots[slot].set(i, code);
            i += 1;
        }
    }
}

/// Every entry of the mapping names a slot that exists.
pub open spec fn entries_resolve(entries: Seq<u32>, slots: Seq<Seq<u32>>) -> bool {
    forall|i: int| 0 <= i < entries.len() ==> #[trigger] entries[i] < slots.len()
}

/// One vertex of the bounding geometry, in voxel units.
#[derive(Clone, Copy, Debug, PartialEq, Eq)]
pub struct MyVertex {
    pub position: (i32, i32, i32),
}

impl MyVertex {
    /// The degenerate vertex that pads the unused tail of a vertex buffer.
    pub open spec fn zero() -> MyVertex {
        MyVertex { position: (0, 0, 0) }
    }
}

impl Default for MyVertex {
    fn default() -> (v: MyVertex)
        ensures
            v == MyVertex::zero(),
    {
        MyVertex { position: (0, 0, 0) }
    }
}

/// The vertex buffer that the bounding geometry is written to.
pub struct Vertices {
    vertices: Vec<MyVertex>,
}

impl View for Vertices {
    type V = Seq<MyVertex>;

    closed spec fn view(&self) -> Seq<MyVertex> {
        self.vertices@
    }
}

impl Vertices {
    /// A buffer without vertices.
    pub fn new() -> (v: Vertices)
        ensures
            v@.len() == 0,
    {
        Vertices { vertices: Vec::new() }
    }

    /// The number of vertices that the buffer holds.
    pub fn len(&self) -> (n: usize)
        ensures
            n == self@.len(),
    {
        self.vertices.len()
    }

    /// The vertex at place `i`.
    pub fn get(&self, i: usize) -> (v: MyVertex)
        requires
            i < self@.len(),
        ensures
            v == self@[i as int],
    {
        self.vertices[i]
    }

    /// Writes `v` at place `i`, which is inside the buffer or directly behind
    /// its end.
    pub fn put(&mut self, i: usize, v: MyVertex)
        requires
            i <= old(self)@.len(),
        ensures
            i < old(self)@.len() ==> final(self)@ == old(self)@.update(i as int, v),
            i == old(self)@.len() ==> final(self)@ == old(self)@.push(v),
    {
        if i < self.vertices.len() {
            self.vertices.set(i, v);
        } else {
            self.vertices.push(v);
        }
    }
}

} // verus!
