//! The layered hills: a ground layer of four macro-chunks that repeat over
//! the world, shaped by a height field, under a layer of solid chunks.

use vstd::prelude::*;
use crate::pos_to_index::{
    cell_index, cube, from_index, in_cube, lemma_index_round_trip, lemma_to_index_bounds,
    lemma_to_index_injective, to_index,
};
use crate::random::{random_u32, seed};
use crate::shared::{entries_resolve, ChunkMapping, Dims, Voxels};
use crate::worlds::{Key, KeyState, Population, World};

verus! {

/// The state that the generator of random numbers is set to before the
/// voxels are drawn.
pub const HILLS_SEED: u64 = 12;

/// The slot of the solid layer.
pub const SOLID_SLOT: usize = 5;

/// The number of materials that a voxel's material is drawn from.
pub const SHADES: u32 = 4;

/// The slot that the macro-chunk at `c` is pointed to: the chunks of the
/// second layer to the solid slot, the chunks of the ground layer to one of
/// the four quadrants, by the parity of `x` and `z`. Every other chunk keeps
/// its slot `before`.
pub open spec fn hills_entry(c: (int, int, int), before: u32) -> u32 {
    if c.1 == 1 {
        SOLID_SLOT as u32
    } else if c.1 == 0 {
        (1 + c.0 % 2 + (c.2 % 2) * 2) as u32
    } else {
        before
    }
}

/// The place in the height field of the column `(x, z)` of quadrant `n`. The
/// field covers two chunk edges in each direction; quadrant `n` begins at
/// `(n % 2, n / 2)` chunk edges.
pub open spec fn height_index(dims: Dims, n: int, x: int, z: int) -> int {
    (z + (n / 2) * dims.chunk_edge) * (2 * dims.chunk_edge) + (x + (n % 2) * dims.chunk_edge)
}

/// Whether `code` may stand at height `y` of a column of height `h` in
/// quadrant `n`: at or below the height the voxel is empty, above it the
/// material is one of the quadrant's four. In the solid slot, which `solid`
/// marks, every voxel holds one of the first four materials.
pub open spec fn hill_code(solid: bool, n: int, h: int, y: int, code: u32) -> bool {
    if solid {
        1 <= code < 1 + SHADES
    } else if y <= h {
        code == 0
    } else {
        1 + n * SHADES <= code < 1 + SHADES + n * SHADES
    }
}

/// Whether the voxel `v` has been written when the voxel `at` is next. The
/// voxels are written with `x` slowest and `z` fastest.
pub open spec fn written(v: (int, int, int), at: (int, int, int)) -> bool {
    v.0 < at.0 || (v.0 == at.0 && (v.1 < at.1 || (v.1 == at.1 && v.2 < at.2)))
}

/// Whether the voxels of `slot` that are written before `at` are those of
/// quadrant `n` under the height field `heights`, or of the solid slot.
pub open spec fn hill_slot_until(
    dims: Dims,
    heights: Seq<u32>,
    solid: bool,
    n: int,
    at: (int, int, int),
    slot: Seq<u32>,
) -> bool {
    &&& slot.len() == dims.chunk_volume()
    &&& forall|v: (int, int, int)|
        in_cube(v.0, v.1, v.2, dims.chunk_edge as int) && written(v, at) ==> hill_code(
            solid,
            n,
            heights[height_index(dims, n, v.0, v.2)] as int,
            v.1,
            #[trigger] slot[to_index(v.0, v.1, v.2, dims.chunk_edge as int)],
        )
}

/// Whether `slot` holds quadrant `n` under the height field `heights`, or the
/// solid layer.
pub open spec fn hill_slot(dims: Dims, heights: Seq<u32>, solid: bool, n: int, slot: Seq<u32>) -> bool {
    hill_slot_until(dims, heights, solid, n, (dims.chunk_edge as int, 0, 0), slot)
}

/// Writing the voxel that is next keeps what was written.
proof fn lemma_write_next(
    dims: Dims,
    heights: Seq<u32>,
    solid: bool,
    n: int,
    p: (int, int, int),
    slot: Seq<u32>,
    code: u32,
)
    requires
        in_cube(p.0, p.1, p.2, dims.chunk_edge as int),
        hill_slot_until(dims, heights, solid, n, p, slot),
        hill_code(solid, n, heights[height_index(dims, n, p.0, p.2)] as int, p.1, code),
    ensures
        hill_slot_until(
            dims,
            heights,
            solid,
            n,
            (p.0, p.1, p.2 + 1),
            slot.update(to_index(p.0, p.1, p.2, dims.chunk_edge as int), code),
        ),
{
    let e = dims.chunk_edge as int;
    let after = slot.update(to_index(p.0, p.1, p.2, e), code);
    lemma_to_index_bounds(p.0, p.1, p.2, e);
    assert forall|v: (int, int, int)|
        in_cube(v.0, v.1, v.2, e) && written(v, (p.0, p.1, p.2 + 1)) implies hill_code(
        solid,
        n,
        heights[height_index(dims, n, v.0, v.2)] as int,
        v.1,
        #[trigger] after[to_index(v.0, v.1, v.2, e)],
    ) by {
        lemma_to_index_bounds(v.0, v.1, v.2, e);
        if v != p {
            if to_index(v.0, v.1, v.2, e) == to_index(p.0, p.1, p.2, e) {
                lemma_to_index_injective(v, p, e);
            }
            assert(written(v, p));
            assert(after[to_index(v.0, v.1, v.2, e)] == slot[to_index(v.0, v.1, v.2, e)]);
        }
    }
}

/// Two places before which the same voxels are written describe the same
/// slot.
proof fn lemma_same_place(
    dims: Dims,
    heights: Seq<u32>,
    solid: bool,
    n: int,
    a: (int, int, int),
    b: (int, int, int),
    slot: Seq<u32>,
)
    requires
        hill_slot_until(dims, heights, solid, n, a, slot),
        forall|v: (int, int, int)|
            in_cube(v.0, v.1, v.2, dims.chunk_edge as int) ==> written(v, a) == written(v, b),
    ensures
        hill_slot_until(dims, heights, solid, n, b, slot),
{
    let e = dims.chunk_edge as int;
    assert forall|v: (int, int, int)| in_cube(v.0, v.1, v.2, e) && written(v, b) implies hill_code(
        solid,
        n,
        heights[height_index(dims, n, v.0, v.2)] as int,
        v.1,
        #[trigger] slot[to_index(v.0, v.1, v.2, e)],
    ) by {
        assert(written(v, a) == written(v, b));
    }
}

/// The place of a column of quadrant `n` lies in a height field of two chunk
/// edges in each direction.
proof fn lemma_height_index(e: int, n: int, x: int, z: int)
    by (nonlinear_arith)
    requires
        1 <= e,
        0 <= n < 4,
        0 <= x < e,
        0 <= z < e,
    ensures
        0 <= (n / 2) * e <= e,
        0 <= (n % 2) * e <= e,
        0 <= (z + (n / 2) * e) * (2 * e) <= (z + (n / 2) * e) * (2 * e) + (x + (n % 2) * e) < 4 * e
            * e,
{
    assert(0 <= n / 2 <= 1 && 0 <= n % 2 <= 1);
    assert(z + (n / 2) * e <= 2 * e - 1);
    assert((z + (n / 2) * e) * (2 * e) <= (2 * e - 1) * (2 * e));
}

/// The generator of the layered hills.
pub struct Hills {
    state: Population,
    heights: Vec<u32>,
}

impl Hills {
    /// The height field: for each column of a square of two chunk edges, row
    /// by row with `x` fastest, the height up to which the column is empty.
    pub closed spec fn heights(&self) -> Seq<u32> {
        self.heights@
    }

    /// A generator that has not run, with its height field.
    pub fn new(heights: Vec<u32>) -> (h: Hills)
        ensures
            !h.populated(),
            h.heights() == heights@,
    {
        Hills { state: Population::Unpopulated, heights }
    }

    /// Writes every voxel of `slot`, with `x` slowest and `z` fastest: where
    /// `solid` is set, a random material of the first four; else nothing at
    /// or below the height of the voxel's column in quadrant `n`, and above
    /// it a random material of the quadrant's four.
    fn fill_slot(&self, voxels: &mut Voxels, slot: usize, solid: bool, n: u32)
        requires
            old(voxels).wf(),
            1 <= slot < old(voxels)@.len(),
            n < 4,
            self.heights().len() == 4 * old(voxels).dims().chunk_edge * old(voxels).dims().chunk_edge,
        ensures
            final(voxels).wf(),
            final(voxels).dims() == old(voxels).dims(),
            final(voxels)@.len() == old(voxels)@.len(),
            forall|s: int|
                0 <= s < old(voxels)@.len() && s != slot ==> final(voxels)@[s] == old(voxels)@[s],
            hill_slot(
                old(voxels).dims(),
                self.heights(),
                solid,
                n as int,
                final(voxels)@[slot as int],
            ),
    {
        let dims = voxels.dims();
        let e = dims.chunk_edge;
        let ghost heights = self.heights();
        let ghost q = n as int;
        proof {
            voxels.lemma_wf();
            dims.lemma_edges();
            assert forall|v: (int, int, int)| !written(v, (0int, 0int, 0int)) || !in_cube(
                v.0,
                v.1,
                v.2,
                e as int,
            ) by {}
        }
        let ox = (n % 2) as usize;
        let oz = (n / 2) as usize;
        let total = self.heights.len();
        let mut x: usize = 0;
        while x < e
            invariant
                0 <= x <= e,
                e == dims.chunk_edge,
                dims.wf(),
                voxels.wf(),
                voxels.dims() == dims,
                dims == old(voxels).dims(),
                voxels@.len() == old(voxels)@.len(),
                1 <= slot < voxels@.len(),
                n < 4,
                q == n,
                ox == n % 2,
                oz == n / 2,
                heights == self.heights(),
                heights.len() == 4 * e * e,
                heights.len() == total,
                e <= i32::MAX,
                forall|s: int|
                    0 <= s < voxels@.len() && s != slot ==> voxels@[s] == old(voxels)@[s],
                hill_slot_until(dims, heights, solid, q, (x as int, 0, 0), voxels@[slot as int]),
            decreases e - x,
        {
            let mut y: usize = 0;
            while y < e
                invariant
                    0 <= x < e,
                    0 <= y <= e,
                    e == dims.chunk_edge,
                    dims.wf(),
                    voxels.wf(),
                    voxels.dims() == dims,
                    dims == old(voxels).dims(),
                    voxels@.len() == old(voxels)@.len(),
                    1 <= slot < voxels@.len(),
                    n < 4,
                    q == n,
                    ox == n % 2,
                    oz == n / 2,
                    heights == self.heights(),
                    heights.len() == 4 * e * e,
                    heights.len() == total,
                    e <= i32::MAX,
                heights.len() == total,
                e <= i32::MAX,
                    forall|s: int|
                        0 <= s < voxels@.len() && s != slot ==> voxels@[s] == old(voxels)@[s],
                    hill_slot_until(
                        dims,
                        heights,
                        solid,
                        q,
                        (x as int, y as int, 0),
                        voxels@[slot as int],
                    ),
                decreases e - y,
            {
                let mut z: usize = 0;
                while z < e
                    invariant
                        0 <= x < e,
                        0 <= y < e,
                        0 <= z <= e,
                        e == dims.chunk_edge,
                        dims.wf(),
                        voxels.wf(),
                        voxels.dims() == dims,
                        dims == old(voxels).dims(),
                        voxels@.len() == old(voxels)@.len(),
                        1 <= slot < voxels@.len(),
                        n < 4,
                        q == n,
                        ox == n % 2,
                        oz == n / 2,
                        heights == self.heights(),
                        heights.len() == 4 * e * e,
                        heights.len() == total,
                        e <= i32::MAX,
                    heights.len() == total,
                    e <= i32::MAX,
                heights.len() == total,
                e <= i32::MAX,
                        forall|s: int|
                            0 <= s < voxels@.len() && s != slot ==> voxels@[s] == old(voxels)@[s],
                        hill_slot_until(
                            dims,
                            heights,
                            solid,
                            q,
                            (x as int, y as int, z as int),
                            voxels@[slot as int],
                        ),
                    decreases e - z,
                {
                    proof {
                        lemma_height_index(e as int, q, x as int, z as int);
                        voxels.lemma_wf();
                    }
                    let h = self.heights[(z + oz * e) * (2 * e) + (x + ox * e)];
                    let code = if solid {
                        random_u32(1, 1 + SHADES)
                    } else if y as u64 <= h as u64 {
                        0
                    } else {
                        random_u32(1, 1 + SHADES) + n * SHADES
                    };
                    let i = cell_index(x, y, z, e);
                    proof {
                        lemma_write_next(
                            dims,
                            heights,
                            solid,
                            q,
                            (x as int, y as int, z as int),
                            voxels@[slot as int],
                            code,
                        );
                    }
                    voxels.set(slot, i, code);
                    z += 1;
                }
                proof {
                    lemma_same_place(
                        dims,
                        heights,
                        solid,
                        q,
                        (x as int, y as int, e as int),
                        (x as int, y + 1, 0),
                        voxels@[slot as int],
                    );
                }
                y += 1;
            }
            proof {
                lemma_same_place(
                    dims,
                    heights,
                    solid,
                    q,
                    (x as int, e as int, 0),
                    (x + 1, 0, 0),
                    voxels@[slot as int],
                );
            }
            x += 1;
        }
    }
}

/// Whether the column `(x, z)` of the mapping has been written when the
/// column `at` is next. The columns are written with `x` slowest.
pub open spec fn column_written(x: int, z: int, at: (int, int)) -> bool {
    x < at.0 || (x == at.0 && z < at.1)
}

/// Whether the two lowest layers of the mapping are written in every column
/// before `at`, and all else is as in `entries0`.
pub open spec fn hills_mapping_until(
    dims: Dims,
    entries0: Seq<u32>,
    at: (int, int),
    entries: Seq<u32>,
) -> bool {
    &&& entries.len() == entries0.len()
    &&& forall|c: (int, int, int)|
        in_cube(c.0, c.1, c.2, dims.world_edge_chunks as int) ==> #[trigger] entries[to_index(
            c.0,
            c.1,
            c.2,
            dims.world_edge_chunks as int,
        )] == if column_written(c.0, c.2, at) {
            hills_entry(c, entries0[to_index(c.0, c.1, c.2, dims.world_edge_chunks as int)])
        } else {
            entries0[to_index(c.0, c.1, c.2, dims.world_edge_chunks as int)]
        }
}

/// Writing the two lowest chunks of the column that is next keeps what was
/// written.
proof fn lemma_write_column(dims: Dims, entries0: Seq<u32>, x: int, z: int, entries: Seq<u32>)
    requires
        2 <= dims.world_edge_chunks,
        0 <= x < dims.world_edge_chunks,
        0 <= z < dims.world_edge_chunks,
        entries.len() == cube(dims.world_edge_chunks as int),
        hills_mapping_until(dims, entries0, (x, z), entries),
    ensures
        hills_mapping_until(
            dims,
            entries0,
            (x, z + 1),
            entries.update(to_index(x, 1, z, dims.world_edge_chunks as int), SOLID_SLOT as u32).update(
                to_index(x, 0, z, dims.world_edge_chunks as int),
                (1 + x % 2 + (z % 2) * 2) as u32,
            ),
        ),
{
    let n = dims.world_edge_chunks as int;
    let upper = (x, 1int, z);
    let lower = (x, 0int, z);
    let after = entries.update(to_index(x, 1, z, n), SOLID_SLOT as u32).update(
        to_index(x, 0, z, n),
        (1 + x % 2 + (z % 2) * 2) as u32,
    );
    lemma_to_index_bounds(x, 1, z, n);
    lemma_to_index_bounds(x, 0, z, n);
    if to_index(x, 1, z, n) == to_index(x, 0, z, n) {
        lemma_to_index_injective(upper, lower, n);
    }
    assert forall|c: (int, int, int)| in_cube(c.0, c.1, c.2, n) implies #[trigger] after[to_index(
        c.0,
        c.1,
        c.2,
        n,
    )] == if column_written(c.0, c.2, (x, z + 1)) {
        hills_entry(c, entries0[to_index(c.0, c.1, c.2, n)])
    } else {
        entries0[to_index(c.0, c.1, c.2, n)]
    } by {
        lemma_to_index_bounds(c.0, c.1, c.2, n);
        if c != upper && to_index(c.0, c.1, c.2, n) == to_index(x, 1, z, n) {
            lemma_to_index_injective(c, upper, n);
        }
        if c != lower && to_index(c.0, c.1, c.2, n) == to_index(x, 0, z, n) {
            lemma_to_index_injective(c, lower, n);
        }
        if c != upper && c != lower {
            assert(after[to_index(c.0, c.1, c.2, n)] == entries[to_index(c.0, c.1, c.2, n)]);
        }
    }
}

/// Two places before which the same columns are written describe the same
/// mapping.
proof fn lemma_same_column(
    dims: Dims,
    entries0: Seq<u32>,
    a: (int, int),
    b: (int, int),
    entries: Seq<u32>,
)
    requires
        hills_mapping_until(dims, entries0, a, entries),
        forall|c: (int, int, int)|
            in_cube(c.0, c.1, c.2, dims.world_edge_chunks as int) ==> column_written(c.0, c.2, a)
                == column_written(c.0, c.2, b),
    ensures
        hills_mapping_until(dims, entries0, b, entries),
{
    let n = dims.world_edge_chunks as int;
    assert forall|c: (int, int, int)| in_cube(c.0, c.1, c.2, n) implies #[trigger] entries[to_index(
        c.0,
        c.1,
        c.2,
        n,
    )] == if column_written(c.0, c.2, b) {
        hills_entry(c, entries0[to_index(c.0, c.1, c.2, n)])
    } else {
        entries0[to_index(c.0, c.1, c.2, n)]
    } by {
        assert(column_written(c.0, c.2, a) == column_written(c.0, c.2, b));
    }
}

/// What the hills leave of a world: the two lowest layers of the mapping
/// point to the four quadrants and to the solid slot, the slots from 1 to 5
/// hold the quadrants and the solid layer, and all else is as it was.
pub open spec fn hills_placed(
    dims: Dims,
    heights: Seq<u32>,
    entries0: Seq<u32>,
    slots0: Seq<Seq<u32>>,
    entries: Seq<u32>,
    slots: Seq<Seq<u32>>,
) -> bool {
    &&& hills_mapping_until(dims, entries0, (dims.world_edge_chunks as int, 0), entries)
    &&& slots.len() == if slots0.len() > SOLID_SLOT {
        slots0.len()
    } else {
        (SOLID_SLOT + 1) as nat
    }
    &&& forall|s: int|
        0 <= s < slots0.len() && (s == 0 || s > SOLID_SLOT) ==> #[trigger] slots[s] == slots0[s]
    &&& hill_slot(dims, heights, true, 0, slots[SOLID_SLOT as int])
    &&& forall|n: int| 0 <= n < 4 ==> hill_slot(dims, heights, false, n, #[trigger] slots[n + 1])
}

/// The hills leave a world through which rays can be cast, where they found
/// one: every entry of the mapping names a slot that exists.
pub proof fn lemma_hills_resolve(
    dims: Dims,
    heights: Seq<u32>,
    entries0: Seq<u32>,
    slots0: Seq<Seq<u32>>,
    entries: Seq<u32>,
    slots: Seq<Seq<u32>>,
)
    requires
        dims.wf(),
        entries0.len() == dims.world_chunks(),
        entries_resolve(entries0, slots0),
        hills_placed(dims, heights, entries0, slots0, entries, slots),
    ensures
        entries_resolve(entries, slots),
{
    let n = dims.world_edge_chunks as int;
    assert forall|i: int| 0 <= i < entries.len() implies #[trigger] entries[i] < slots.len() by {
        lemma_index_round_trip(i, n);
        let c = from_index(i, n);
        assert(entries[to_index(c.0, c.1, c.2, n)] == entries[i]);
        assert(entries0[i] < slots0.len());
    }
}

impl World for Hills {
    closed spec fn populated(&self) -> bool {
        self.state == Population::Populated
    }

    fn is_populated(&self) -> (b: bool) {
        self.state == Population::Populated
    }

    /// The world has two layers of macro-chunks at least, and the height
    /// field covers a square of two chunk edges.
    open spec fn ready(&self, chunk_mapping: &ChunkMapping, voxels: &Voxels) -> bool {
        &&& 2 <= voxels.dims().world_edge_chunks
        &&& self.heights().len() == 4 * voxels.dims().chunk_edge * voxels.dims().chunk_edge
    }

    /// The hills are placed, over the height field that the generator holds
    /// and keeps.
    open spec fn populates(
        &self,
        after: &Hills,
        dims: Dims,
        entries0: Seq<u32>,
        slots0: Seq<Seq<u32>>,
        entries: Seq<u32>,
        slots: Seq<Seq<u32>>,
    ) -> bool {
        hills_placed(dims, self.heights(), entries0, slots0, entries, slots) && self.kept(after)
    }

    open spec fn kept(&self, after: &Hills) -> bool {
        after.heights() == self.heights()
    }

    fn is_ready(&self, chunk_mapping: &ChunkMapping, voxels: &Voxels) -> (b: bool) {
        let dims = voxels.dims();
        proof {
            voxels.lemma_wf();
            dims.lemma_edges();
        }
        let e = dims.chunk_edge as u128;
        assert(4 * e * e <= 4 * 0x8000_0000 * 0x8000_0000) by (nonlinear_arith)
            requires
                0 <= e <= 0x8000_0000,
        ;
        2 <= dims.world_edge_chunks && self.heights.len() as u128 == 4 * e * e
    }

    /// Where the world is not populated: points the second layer of
    /// macro-chunks to the solid slot and the ground layer to the four
    /// quadrants, sets the state of the generator of random numbers, and
    /// draws the solid slot and then the quadrants, each voxel above its
    /// column's height.
    fn fill_in_voxels(&mut self, chunk_mapping: &mut ChunkMapping, voxels: &mut Voxels) {
        if self.state == Population::Populated {
            return ;
        }
        self.state = Population::Populated;
        let dims = voxels.dims();
        let n = dims.world_edge_chunks;
        let ghost entries0 = chunk_mapping@;
        proof {
            voxels.lemma_wf();
            chunk_mapping.lemma_wf();
        }
        let mut x: usize = 0;
        while x < n
            invariant
                0 <= x <= n,
                2 <= n,
                n == dims.world_edge_chunks,
                dims.wf(),
                chunk_mapping.wf(),
                chunk_mapping.dims() == dims,
                chunk_mapping@.len() == cube(n as int),
                hills_mapping_until(dims, entries0, (x as int, 0), chunk_mapping@),
            decreases n - x,
        {
            let mut z: usize = 0;
            while z < n
                invariant
                    0 <= x < n,
                    0 <= z <= n,
                    2 <= n,
                    n == dims.world_edge_chunks,
                    dims.wf(),
                    chunk_mapping.wf(),
                    chunk_mapping.dims() == dims,
                    chunk_mapping@.len() == cube(n as int),
                    hills_mapping_until(dims, entries0, (x as int, z as int), chunk_mapping@),
                decreases n - z,
            {
                proof {
                    lemma_write_column(dims, entries0, x as int, z as int, chunk_mapping@);
                }
                let upper = cell_index(x, 1, z, n);
                let lower = cell_index(x, 0, z, n);
                chunk_mapping.set(upper, SOLID_SLOT as u32);
                chunk_mapping.set(lower, (1 + x % 2 + (z % 2) * 2) as u32);
                z += 1;
            }
            proof {
                lemma_same_column(
                    dims,
                    entries0,
                    (x as int, n as int),
                    (x + 1, 0),
                    chunk_mapping@,
                );
            }
            x += 1;
        }
        seed(HILLS_SEED);
        while voxels.slot_count() <= SOLID_SLOT
            invariant
                voxels.wf(),
                voxels.dims() == dims,
                voxels@.len() >= old(voxels)@.len(),
                voxels@.len() > old(voxels)@.len() ==> voxels@.len() <= SOLID_SLOT + 1,
                forall|s: int| 0 <= s < old(voxels)@.len() ==> voxels@[s] == old(voxels)@[s],
            decreases SOLID_SLOT + 1 - voxels@.len(),
        {
            voxels.push_slot();
        }
        self.fill_slot(voxels, SOLID_SLOT, true, 0);
        let mut q: u32 = 0;
        while q < 4
            invariant
                0 <= q <= 4,
                voxels.wf(),
                voxels.dims() == dims,
                self.heights() == old(self).heights(),
                self.heights().len() == 4 * dims.chunk_edge * dims.chunk_edge,
                voxels@.len() > SOLID_SLOT,
                voxels@.len() == if old(voxels)@.len() > SOLID_SLOT {
                    old(voxels)@.len()
                } else {
                    (SOLID_SLOT + 1) as nat
                },
                forall|s: int|
                    0 <= s < old(voxels)@.len() && (s == 0 || s > SOLID_SLOT) ==> #[trigger] voxels@[s]
                        == old(voxels)@[s],
                hill_slot(dims, self.heights(), true, 0, voxels@[SOLID_SLOT as int]),
                forall|k: int|
                    0 <= k < q ==> hill_slot(dims, self.heights(), false, k, #[trigger] voxels@[k + 1]),
            decreases 4 - q,
        {
            self.fill_slot(voxels, (q + 1) as usize, false, q);
            q += 1;
        }
        proof {
            if entries_resolve(old(chunk_mapping)@, old(voxels)@) {
                lemma_hills_resolve(
                    dims,
                    self.heights(),
                    old(chunk_mapping)@,
                    old(voxels)@,
                    chunk_mapping@,
                    voxels@,
                );
            }
        }
    }

    fn reset_event(&mut self) {
        self.state = Population::Unpopulated;
    }

    fn keyboard_input(&mut self, key: Key, state: KeyState) {
        if key == Key::X && state == KeyState::Pressed {
            self.reset_event();
        }
    }
}

} // verus!
