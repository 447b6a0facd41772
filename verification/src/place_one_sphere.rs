//! The sphere generator: one solid sphere, written chunk by chunk through the
//! claim protocol.

use vstd::prelude::*;
use vstd::arithmetic::div_mod::{
    lemma_div_is_ordered, lemma_fundamental_div_mod, lemma_hoist_over_denominator, lemma_mod_bound,
};
use crate::claim::{
    claim_if_occupied, claims_consistent, open_candidate, slot_empty, slot_occupied,
};
use crate::pos_to_index::{
    cell_index, cube, from_index, in_cube, index_cell, lemma_index_round_trip,
    lemma_to_index_bounds, lemma_to_index_injective, to_index,
};
use crate::random::random_i32;
use crate::shared::{occupied_count, ChunkMapping, Dims, Voxels};

verus! {

/// The smallest radius that is drawn for a sphere.
pub const MIN_RADIUS: i32 = 20;

/// The bound below which the radius of a sphere is drawn.
pub const MAX_RADIUS: i32 = 60;

/// A sphere of the sphere field.
#[derive(Clone, Copy, Debug, PartialEq, Eq)]
pub struct Sphere {
    /// The number of the sphere in its field, which picks its colours.
    pub index: usize,
    /// The radius, in voxels.
    pub radius: i32,
    /// The centre, in voxel coordinates.
    pub center: (i32, i32, i32),
}

/// The square of the distance between two points.
pub open spec fn dist_sq(a: (int, int, int), b: (int, int, int)) -> int {
    (a.0 - b.0) * (a.0 - b.0) + (a.1 - b.1) * (a.1 - b.1) + (a.2 - b.2) * (a.2 - b.2)
}

/// The material of a voxel of sphere `n` at the squared distance `d2` from its
/// centre: two bits of the distance pick one of four shades, the sphere's
/// number modulo ten picks the band of the palette.
pub open spec fn sphere_material(d2: int, n: int) -> u32 {
    ((((d2 as u32) & 10) >> 1) + 3 + (n % 10) * 2) as u32
}

/// The voxel position at which the macro-chunk `chunk` begins.
pub open spec fn chunk_origin(dims: Dims, chunk: (int, int, int)) -> (int, int, int) {
    (chunk.0 * dims.chunk_edge, chunk.1 * dims.chunk_edge, chunk.2 * dims.chunk_edge)
}

impl Sphere {
    /// The centre as a point.
    pub open spec fn centre(self) -> (int, int, int) {
        (self.center.0 as int, self.center.1 as int, self.center.2 as int)
    }

    /// The whole sphere lies inside the world, and the squared distances that
    /// are computed for it fit an `i32`.
    pub open spec fn fits(self, dims: Dims) -> bool {
        &&& 0 <= self.radius
        &&& self.radius <= self.center.0 && self.center.0 + self.radius < dims.world_edge_voxels()
        &&& self.radius <= self.center.1 && self.center.1 + self.radius < dims.world_edge_voxels()
        &&& self.radius <= self.center.2 && self.center.2 + self.radius < dims.world_edge_voxels()
        &&& 3 * ((self.radius + dims.chunk_edge) * (self.radius + dims.chunk_edge)) <= i32::MAX
    }

    /// The macro-chunk that holds the corner of the sphere's bounding box
    /// with the smallest coordinates.
    pub open spec fn first_chunk(self, dims: Dims) -> (int, int, int) {
        (
            (self.center.0 - self.radius) / (dims.chunk_edge as int),
            (self.center.1 - self.radius) / (dims.chunk_edge as int),
            (self.center.2 - self.radius) / (dims.chunk_edge as int),
        )
    }

    /// The macro-chunk that holds the corner of the sphere's bounding box
    /// with the largest coordinates.
    pub open spec fn last_chunk(self, dims: Dims) -> (int, int, int) {
        (
            (self.center.0 + self.radius) / (dims.chunk_edge as int),
            (self.center.1 + self.radius) / (dims.chunk_edge as int),
            (self.center.2 + self.radius) / (dims.chunk_edge as int),
        )
    }

    /// Whether the macro-chunk is one of those that the sphere's bounding box
    /// touches.
    pub open spec fn in_box(self, dims: Dims, chunk: (int, int, int)) -> bool {
        &&& self.first_chunk(dims).0 <= chunk.0 <= self.last_chunk(dims).0
        &&& self.first_chunk(dims).1 <= chunk.1 <= self.last_chunk(dims).1
        &&& self.first_chunk(dims).2 <= chunk.2 <= self.last_chunk(dims).2
    }

    /// The number of macro-chunks that the sphere's bounding box touches.
    pub open spec fn box_chunks(self, dims: Dims) -> int {
        (self.last_chunk(dims).0 - self.first_chunk(dims).0 + 1) * (self.last_chunk(dims).1
            - self.first_chunk(dims).1 + 1) * (self.last_chunk(dims).2 - self.first_chunk(dims).2
            + 1)
    }

    /// The material that the sphere gives to the voxel at `p`: none outside
    /// the sphere.
    pub open spec fn code_at(self, p: (int, int, int)) -> u32 {
        if dist_sq(p, self.centre()) < self.radius * self.radius {
            sphere_material(dist_sq(p, self.centre()), self.index as int)
        } else {
            0
        }
    }

    /// The broad phase: a macro-chunk is passed over where the squared
    /// distance from its middle to the sphere's centre exceeds the square of
    /// the radius less the chunk edge.
    pub open spec fn culled(self, dims: Dims, chunk: (int, int, int)) -> bool {
        let o = chunk_origin(dims, chunk);
        let h = dims.chunk_edge as int / 2;
        dist_sq((o.0 + h, o.1 + h, o.2 + h), self.centre()) > (self.radius - dims.chunk_edge) * (
        self.radius - dims.chunk_edge)
    }

    /// What the sphere stages for the macro-chunk: the material of each of
    /// the chunk's voxels, in the order of their linear indices.
    pub open spec fn staged(self, dims: Dims, chunk: (int, int, int)) -> Seq<u32> {
        Seq::new(
            dims.chunk_volume() as nat,
            |i: int|
                {
                    let o = chunk_origin(dims, chunk);
                    let v = from_index(i, dims.chunk_edge as int);
                    self.code_at((o.0 + v.0, o.1 + v.1, o.2 + v.2))
                },
        )
    }

    /// Whether the sphere claims a slot for the macro-chunk: it is not passed
    /// over and the sphere sets at least one of its voxels.
    pub open spec fn claims(self, dims: Dims, chunk: (int, int, int)) -> bool {
        !self.culled(dims, chunk) && slot_occupied(self.staged(dims, chunk))
    }

    /// The number of claims among the chunks `(x, y, z)` of the box with `z`
    /// below `z_end`.
    pub open spec fn claims_in_column(self, dims: Dims, x: int, y: int, z_end: int) -> nat
        decreases z_end - self.first_chunk(dims).2,
    {
        if z_end <= self.first_chunk(dims).2 {
            0
        } else {
            self.claims_in_column(dims, x, y, z_end - 1) + if self.claims(dims, (x, y, z_end - 1)) {
                1nat
            } else {
                0nat
            }
        }
    }

    /// The number of claims among the chunks `(x, y, z)` of the box with `y`
    /// below `y_end`.
    pub open spec fn claims_in_slab(self, dims: Dims, x: int, y_end: int) -> nat
        decreases y_end - self.first_chunk(dims).1,
    {
        if y_end <= self.first_chunk(dims).1 {
            0
        } else {
            self.claims_in_slab(dims, x, y_end - 1) + self.claims_in_column(
                dims,
                x,
                y_end - 1,
                self.last_chunk(dims).2 + 1,
            )
        }
    }

    /// The number of claims among the chunks of the box with `x` below
    /// `x_end`.
    pub open spec fn claims_in_box(self, dims: Dims, x_end: int) -> nat
        decreases x_end - self.first_chunk(dims).0,
    {
        if x_end <= self.first_chunk(dims).0 {
            0
        } else {
            self.claims_in_box(dims, x_end - 1) + self.claims_in_slab(
                dims,
                x_end - 1,
                self.last_chunk(dims).1 + 1,
            )
        }
    }

    /// The number of claims that are made before the macro-chunk's turn. The
    /// chunks of the box take their turns with `x` slowest and `z` fastest.
    pub open spec fn claims_before(self, dims: Dims, chunk: (int, int, int)) -> nat {
        self.claims_in_box(dims, chunk.0) + self.claims_in_slab(dims, chunk.0, chunk.1)
            + self.claims_in_column(dims, chunk.0, chunk.1, chunk.2)
    }

    /// The number of claims that the sphere makes.
    pub open spec fn claims_total(self, dims: Dims) -> nat {
        self.claims_in_box(dims, self.last_chunk(dims).0 + 1)
    }

    /// Whether the macro-chunk has had its turn when the chunk `at` is next.
    pub open spec fn visited(self, dims: Dims, chunk: (int, int, int), at: (int, int, int)) -> bool {
        self.in_box(dims, chunk) && before(chunk, at)
    }

    /// Whether the macro-chunk is one that is staged and not claimed: the
    /// broad phase does not pass it over, and the sphere sets none of its
    /// voxels.
    pub open spec fn idle(self, dims: Dims, chunk: (int, int, int)) -> bool {
        !self.culled(dims, chunk) && !self.claims(dims, chunk)
    }

    /// Whether every chunk that had its turn after `chunk`, when `at` is
    /// next, was passed over.
    pub open spec fn quiet_after(
        self,
        dims: Dims,
        chunk: (int, int, int),
        at: (int, int, int),
    ) -> bool {
        forall|d: (int, int, int)|
            #[trigger] self.visited(dims, d, at) && before(chunk, d) ==> self.culled(dims, d)
    }

    /// Whether the candidate slot holds a chunk that was staged and not
    /// claimed, when `at` is next: the last chunk that was staged was not
    /// claimed.
    pub open spec fn pending(self, dims: Dims, at: (int, int, int)) -> bool {
        exists|c: (int, int, int)|
            #[trigger] self.visited(dims, c, at) && self.idle(dims, c) && self.quiet_after(
                dims,
                c,
                at,
            )
    }
}

/// Whether the chunk `a` takes its turn before the chunk `b`: the chunks take
/// their turns with `x` slowest and `z` fastest.
pub open spec fn before(a: (int, int, int), b: (int, int, int)) -> bool {
    a.0 < b.0 || (a.0 == b.0 && (a.1 < b.1 || (a.1 == b.1 && a.2 < b.2)))
}

/// Every material that a sphere writes lies in the band of six codes that
/// begins at `3 + (n mod 10) * 2`.
pub proof fn lemma_material_band(d2: int, n: int)
    requires
        0 <= n,
    ensures
        3 + (n % 10) * 2 <= sphere_material(d2, n) <= 3 + (n % 10) * 2 + 5,
{
    let d = d2 as u32;
    assert(((d & 10) >> 1) <= 5) by (bit_vector);
}

/// Every voxel that a sphere stages is empty or holds a material of the
/// sphere's band.
pub proof fn lemma_staged_band(s: Sphere, dims: Dims, chunk: (int, int, int), i: int)
    requires
        0 <= i < dims.chunk_volume(),
    ensures
        s.staged(dims, chunk).len() == dims.chunk_volume(),
        s.staged(dims, chunk)[i] == 0 || 3 + (s.index % 10) * 2 <= s.staged(dims, chunk)[i] <= 3
            + (s.index % 10) * 2 + 5,
{
    let o = chunk_origin(dims, chunk);
    let v = from_index(i, dims.chunk_edge as int);
    let p = (o.0 + v.0, o.1 + v.1, o.2 + v.2);
    lemma_material_band(dist_sq(p, s.centre()), s.index as int);
}

/// Along one axis: a chunk of the sphere's box lies in the world, and each of
/// its voxels is nearer to the centre than the radius and the chunk edge
/// together.
proof fn lemma_axis(e: int, n: int, centre: int, r: int, q: int, v: int)
    requires
        1 <= e,
        0 <= r <= centre,
        centre + r < e * n,
        (centre - r) / e <= q <= (centre + r) / e,
        0 <= v < e,
    ensures
        0 <= q < n,
        0 <= q * e + v < e * n,
        -(r + e) < q * e + v - centre < r + e,
{
    let a = centre - r;
    let b = centre + r;
    lemma_fundamental_div_mod(a, e);
    lemma_fundamental_div_mod(b, e);
    lemma_mod_bound(a, e);
    lemma_mod_bound(b, e);
    let qa = a / e;
    let qb = b / e;
    assert(0 <= q < n && 0 <= q * e + v < e * n && -(r + e) < q * e + v - centre < r + e)
        by (nonlinear_arith)
        requires
            1 <= e,
            0 <= a,
            a == centre - r,
            b == centre + r,
            b < e * n,
            a == e * qa + a % e,
            b == e * qb + b % e,
            0 <= a % e < e,
            0 <= b % e < e,
            qa <= q <= qb,
            0 <= v < e,
    ;
}

/// A square grows with the size of its root.
proof fn lemma_square_bound(d: int, m: int)
    by (nonlinear_arith)
    requires
        -m <= d <= m,
    ensures
        0 <= d * d <= m * m,
{
}

/// `glam::IVec3::length_squared` of the vector `v`: the sum of the squares of
/// its components, which must fit an `i32`.
#[verifier::external_body]
fn length_squared(v: (i32, i32, i32)) -> (d2: i32)
    requires
        v.0 * v.0 + v.1 * v.1 + v.2 * v.2 <= i32::MAX,
    ensures
        d2 == v.0 * v.0 + v.1 * v.1 + v.2 * v.2,
{
    glam::IVec3::new(v.0, v.1, v.2).length_squared()
}

/// The material of a voxel of sphere `n` at the squared distance `d2`.
fn material(d2: i32, n: usize) -> (code: u32)
    requires
        0 <= d2,
    ensures
        code == sphere_material(d2 as int, n as int),
        code >= 3,
{
    let bits = ((d2 as u32) & 10) >> 1;
    assert(bits <= 5) by (bit_vector)
        requires
            bits == ((d2 as u32) & 10) >> 1,
    ;
    bits + 3 + ((n % 10) as u32) * 2
}

/// The squared distance from the sphere's centre to the voxel at the offset
/// `v` in the macro-chunk `chunk` of the sphere's box.
fn offset_dist_sq(
    sphere: &Sphere,
    dims: Dims,
    chunk: (usize, usize, usize),
    v: (usize, usize, usize),
) -> (d2: i32)
    requires
        dims.wf(),
        sphere.fits(dims),
        sphere.in_box(dims, (chunk.0 as int, chunk.1 as int, chunk.2 as int)),
        v.0 < dims.chunk_edge && v.1 < dims.chunk_edge && v.2 < dims.chunk_edge,
    ensures
        d2 == dist_sq(
            (
                chunk.0 * dims.chunk_edge + v.0,
                chunk.1 * dims.chunk_edge + v.1,
                chunk.2 * dims.chunk_edge + v.2,
            ),
            sphere.centre(),
        ),
        0 <= d2,
        in_cube(chunk.0 as int, chunk.1 as int, chunk.2 as int, dims.world_edge_chunks as int),
{
    let e = dims.chunk_edge;
    let ghost n = dims.world_edge_chunks as int;
    let ghost m = sphere.radius + e;
    proof {
        lemma_axis(e as int, n, sphere.center.0 as int, sphere.radius as int, chunk.0 as int, v.0 as int);
        lemma_axis(e as int, n, sphere.center.1 as int, sphere.radius as int, chunk.1 as int, v.1 as int);
        lemma_axis(e as int, n, sphere.center.2 as int, sphere.radius as int, chunk.2 as int, v.2 as int);
        lemma_square_bound(chunk.0 * e + v.0 - sphere.center.0, m);
        lemma_square_bound(chunk.1 * e + v.1 - sphere.center.1, m);
        lemma_square_bound(chunk.2 * e + v.2 - sphere.center.2, m);
        assert(0 <= chunk.0 * e <= chunk.0 * e + v.0);
        assert(0 <= chunk.1 * e <= chunk.1 * e + v.1);
        assert(0 <= chunk.2 * e <= chunk.2 * e + v.2);
    }
    let dx = (chunk.0 * e + v.0) as i32 - sphere.center.0;
    let dy = (chunk.1 * e + v.1) as i32 - sphere.center.1;
    let dz = (chunk.2 * e + v.2) as i32 - sphere.center.2;
    length_squared((dx, dy, dz))
}

/// The broad phase for one macro-chunk of the sphere's box.
fn is_culled(sphere: &Sphere, dims: Dims, chunk: (usize, usize, usize)) -> (r: bool)
    requires
        dims.wf(),
        sphere.fits(dims),
        sphere.in_box(dims, (chunk.0 as int, chunk.1 as int, chunk.2 as int)),
    ensures
        r == sphere.culled(dims, (chunk.0 as int, chunk.1 as int, chunk.2 as int)),
{
    let e = dims.chunk_edge;
    let h = e / 2;
    let d2 = offset_dist_sq(sphere, dims, chunk, (h, h, h));
    proof {
        dims.lemma_edges();
        lemma_square_bound(sphere.radius - e, sphere.radius + e);
    }
    let t = sphere.radius - (e as i32);
    d2 > t * t
}

/// The first phase of the protocol for one macro-chunk of the sphere's box:
/// writes every voxel of the candidate `slot`.
fn stage_chunk(sphere: &Sphere, chunk: (usize, usize, usize), slot: usize, voxels: &mut Voxels)
    requires
        old(voxels).wf(),
        1 <= slot < old(voxels)@.len(),
        sphere.fits(old(voxels).dims()),
        sphere.in_box(old(voxels).dims(), (chunk.0 as int, chunk.1 as int, chunk.2 as int)),
    ensures
        final(voxels).wf(),
        final(voxels).dims() == old(voxels).dims(),
        final(voxels)@.len() == old(voxels)@.len(),
        forall|s: int|
            0 <= s < old(voxels)@.len() && s != slot ==> final(voxels)@[s] == old(voxels)@[s],
        final(voxels)@[slot as int] == sphere.staged(
            old(voxels).dims(),
            (chunk.0 as int, chunk.1 as int, chunk.2 as int),
        ),
{
    let dims = voxels.dims();
    let e = dims.chunk_edge;
    let ghost c = (chunk.0 as int, chunk.1 as int, chunk.2 as int);
    let ghost target = sphere.staged(dims, c);
    proof {
        voxels.lemma_wf();
        lemma_square_bound(sphere.radius as int, sphere.radius + e);
    }
    let volume = dims.volume();
    let radius_squared = sphere.radius * sphere.radius;
    let mut i: usize = 0;
    while i < volume
        invariant
            0 <= i <= volume,
            volume == dims.chunk_volume(),
            dims.wf(),
            e == dims.chunk_edge,
            voxels.wf(),
            voxels.dims() == dims,
            dims == old(voxels).dims(),
            voxels@.len() == old(voxels)@.len(),
            1 <= slot < voxels@.len(),
            voxels@[slot as int].len() == volume,
            sphere.fits(dims),
            sphere.in_box(dims, c),
            c == (chunk.0 as int, chunk.1 as int, chunk.2 as int),
            target == sphere.staged(dims, c),
            radius_squared == sphere.radius * sphere.radius,
            forall|s: int|
                0 <= s < voxels@.len() && s != slot ==> voxels@[s] == old(voxels)@[s],
            forall|j: int| 0 <= j < i ==> #[trigger] voxels@[slot as int][j] == target[j],
        decreases volume - i,
    {
        let v = index_cell(i, e);
        let d2 = offset_dist_sq(sphere, dims, chunk, v);
        let code = if d2 < radius_squared {
            material(d2, sphere.index)
        } else {
            0
        };
        assert(code == target[i as int]);
        voxels.set(slot, i, code);
        proof {
            voxels.lemma_wf();
        }
        i += 1;
    }
    assert(voxels@[slot as int] =~= target);
}

/// Whether a slot is one that sphere `n` claimed: it holds a voxel that is set,
/// and every voxel that is set holds a material of the sphere's band.
pub open spec fn slot_of_sphere(n: int, slot: Seq<u32>) -> bool {
    &&& slot_occupied(slot)
    &&& forall|i: int|
        0 <= i < slot.len() ==> #[trigger] slot[i] == 0 || 3 + (n % 10) * 2 <= slot[i] <= 3 + (n
            % 10) * 2 + 5
}

/// The linear index of a macro-chunk in the mapping.
pub open spec fn chunk_index(dims: Dims, chunk: (int, int, int)) -> int {
    to_index(chunk.0, chunk.1, chunk.2, dims.world_edge_chunks as int)
}

/// No macro-chunk of the sphere's box is populated.
pub open spec fn box_unpopulated(s: Sphere, dims: Dims, entries: Seq<u32>) -> bool {
    forall|c: (int, int, int)|
        s.in_box(dims, c) ==> #[trigger] entries[chunk_index(dims, c)] == 0
}

/// A pass of one sphere over the chunks of its box: the sphere, the world's
/// dimensions, and the candidate slot, the mapping and the slots that the
/// pass began with.
pub struct Pass {
    pub sphere: Sphere,
    pub dims: Dims,
    pub first: int,
    pub entries0: Seq<u32>,
    pub slots0: Seq<Seq<u32>>,
}

impl Pass {
    /// The mapping when the chunk `at` is next to take its turn: each chunk
    /// that had its turn and was claimed points to the slot that its place
    /// among the claims gives it, and every other chunk points where it did.
    pub open spec fn entries_ok(self, at: (int, int, int), entries: Seq<u32>) -> bool {
        &&& entries.len() == self.entries0.len()
        &&& forall|c: (int, int, int)|
            in_cube(c.0, c.1, c.2, self.dims.world_edge_chunks as int) ==> #[trigger] entries[chunk_index(
                self.dims,
                c,
            )] == if self.sphere.visited(self.dims, c, at) && self.sphere.claims(self.dims, c) {
                (self.first + self.sphere.claims_before(self.dims, c)) as u32
            } else {
                self.entries0[chunk_index(self.dims, c)]
            }
    }

    /// The slots when the chunk `at` is next to take its turn and `next` is
    /// the candidate. The slots below the first candidate are as they were.
    /// The slots from the first candidate up to the candidate are those of
    /// the chunks that had their turn and were claimed, each holding what
    /// the sphere stages for its chunk. The candidate slot is empty where
    /// the chunk that was staged last was not claimed, and else as it was,
    /// if it was at all. The slots behind it are as they were.
    pub open spec fn slots_ok(self, at: (int, int, int), next: int, slots: Seq<Seq<u32>>) -> bool {
        &&& self.first <= next <= slots.len()
        &&& slots.len() == if self.slots0.len() > next {
            self.slots0.len() as int
        } else if self.sphere.pending(self.dims, at) {
            next + 1
        } else {
            next
        }
        &&& forall|t: int| 0 <= t < self.first ==> #[trigger] slots[t] == self.slots0[t]
        &&& forall|c: (int, int, int)|
            #[trigger] self.sphere.visited(self.dims, c, at) && self.sphere.claims(self.dims, c)
                ==> self.first + self.sphere.claims_before(self.dims, c) < next && slots[self.first
                + self.sphere.claims_before(self.dims, c)] == self.sphere.staged(self.dims, c)
        &&& forall|t: int| self.first <= t < next ==> #[trigger] self.claimed_at(at, t)
        &&& forall|t: int|
            self.first <= t < next ==> slot_of_sphere(self.sphere.index as int, #[trigger] slots[t])
        &&& self.sphere.pending(self.dims, at) ==> slot_empty(slots[next])
        &&& !self.sphere.pending(self.dims, at) && next < slots.len() ==> slots[next]
            == self.slots0[next]
        &&& forall|t: int|
            next < t < slots.len() ==> t < self.slots0.len() && #[trigger] slots[t]
                == self.slots0[t]
    }

    /// Whether the slot `t` is the one of a chunk that had its turn, when
    /// `at` is next, and was claimed.
    pub open spec fn claimed_at(self, at: (int, int, int), t: int) -> bool {
        exists|c: (int, int, int)|
            #[trigger] self.sphere.visited(self.dims, c, at) && self.sphere.claims(self.dims, c)
                && self.first + self.sphere.claims_before(self.dims, c) == t
    }

    /// The number of populated macro-chunks has grown by no more than the
    /// number of slots claimed, and by as much where the pass found no
    /// populated chunk in the sphere's box.
    pub open spec fn counts_ok(self, next: int, entries: Seq<u32>) -> bool {
        &&& occupied_count(entries) <= occupied_count(self.entries0) + (next - self.first)
        &&& box_unpopulated(self.sphere, self.dims, self.entries0) ==> occupied_count(entries)
            == occupied_count(self.entries0) + (next - self.first)
    }

    /// How the world stands when the chunk `at` of the sphere's box is next
    /// to take its turn: `next` is the candidate slot, `entries` the mapping
    /// and `slots` the slots.
    pub open spec fn state(
        self,
        at: (int, int, int),
        next: int,
        entries: Seq<u32>,
        slots: Seq<Seq<u32>>,
    ) -> bool {
        &&& next == self.first + self.sphere.claims_before(self.dims, at)
        &&& self.entries_ok(at, entries)
        &&& self.slots_ok(at, next, slots)
        &&& self.counts_ok(next, entries)
    }

    /// The place behind the last chunk of the box.
    pub open spec fn end(self) -> (int, int, int) {
        (
            self.sphere.last_chunk(self.dims).0 + 1,
            self.sphere.first_chunk(self.dims).1,
            self.sphere.first_chunk(self.dims).2,
        )
    }
}

/// What a sphere does to the world. The pass begins with the candidate slot
/// `first`, the mapping `entries0` and the slots `slots0`, and ends with the
/// candidate `next`, the mapping `entries` and the slots `slots`, when every
/// chunk of the sphere's box had its turn.
pub open spec fn sphere_placed(
    s: Sphere,
    dims: Dims,
    first: int,
    entries0: Seq<u32>,
    slots0: Seq<Seq<u32>>,
    next: int,
    entries: Seq<u32>,
    slots: Seq<Seq<u32>>,
) -> bool {
    let pass = Pass { sphere: s, dims, first, entries0, slots0 };
    pass.state(pass.end(), next, entries, slots)
}

impl Sphere {
    /// No more claims are made before a chunk's turn than chunks had their
    /// turn before it.
    pub proof fn lemma_claims_bound(self, dims: Dims, chunk: (int, int, int))
        requires
            self.in_box(dims, chunk),
        ensures
            self.claims_before(dims, chunk) < self.box_chunks(dims),
    {
        let f = self.first_chunk(dims);
        let l = self.last_chunk(dims);
        let ny = l.1 - f.1 + 1;
        let nz = l.2 - f.2 + 1;
        self.lemma_box_bound(dims, chunk.0);
        self.lemma_slab_bound(dims, chunk.0, chunk.1);
        self.lemma_column_bound(dims, chunk.0, chunk.1, chunk.2);
        let a = chunk.0 - f.0;
        let b = chunk.1 - f.1;
        let c = chunk.2 - f.2;
        let nx = l.0 - f.0 + 1;
        assert(a * (ny * nz) + b * nz + c < nx * ny * nz) by (nonlinear_arith)
            requires
                0 <= a < nx,
                0 <= b < ny,
                0 <= c < nz,
        ;
    }

    /// No more claims are made in a column than the column has chunks.
    proof fn lemma_column_bound(self, dims: Dims, x: int, y: int, z_end: int)
        requires
            self.first_chunk(dims).2 <= z_end,
        ensures
            self.claims_in_column(dims, x, y, z_end) <= z_end - self.first_chunk(dims).2,
        decreases z_end - self.first_chunk(dims).2,
    {
        if z_end > self.first_chunk(dims).2 {
            self.lemma_column_bound(dims, x, y, z_end - 1);
        }
    }

    /// No more claims are made in a slab than the slab has chunks.
    proof fn lemma_slab_bound(self, dims: Dims, x: int, y_end: int)
        requires
            self.first_chunk(dims).1 <= y_end,
            self.first_chunk(dims).2 <= self.last_chunk(dims).2,
        ensures
            self.claims_in_slab(dims, x, y_end) <= (y_end - self.first_chunk(dims).1) * (
            self.last_chunk(dims).2 - self.first_chunk(dims).2 + 1),
        decreases y_end - self.first_chunk(dims).1,
    {
        let nz = self.last_chunk(dims).2 - self.first_chunk(dims).2 + 1;
        let b = y_end - self.first_chunk(dims).1;
        if b > 0 {
            self.lemma_slab_bound(dims, x, y_end - 1);
            self.lemma_column_bound(dims, x, y_end - 1, self.last_chunk(dims).2 + 1);
            assert((b - 1) * nz + nz == b * nz) by (nonlinear_arith);
        } else {
            assert(b * nz == 0) by (nonlinear_arith)
                requires
                    b == 0,
            ;
        }
    }

    /// No more claims are made in the slabs of the box than they have
    /// chunks.
    proof fn lemma_box_bound(self, dims: Dims, x_end: int)
        requires
            self.first_chunk(dims).0 <= x_end,
            self.first_chunk(dims).1 <= self.last_chunk(dims).1,
            self.first_chunk(dims).2 <= self.last_chunk(dims).2,
        ensures
            self.claims_in_box(dims, x_end) <= (x_end - self.first_chunk(dims).0) * ((
            self.last_chunk(dims).1 - self.first_chunk(dims).1 + 1) * (self.last_chunk(dims).2
                - self.first_chunk(dims).2 + 1)),
        decreases x_end - self.first_chunk(dims).0,
    {
        let ny = self.last_chunk(dims).1 - self.first_chunk(dims).1 + 1;
        let nz = self.last_chunk(dims).2 - self.first_chunk(dims).2 + 1;
        let a = x_end - self.first_chunk(dims).0;
        if a > 0 {
            self.lemma_box_bound(dims, x_end - 1);
            self.lemma_slab_bound(dims, x_end - 1, self.last_chunk(dims).1 + 1);
            assert((a - 1) * (ny * nz) + ny * nz == a * (ny * nz)) by (nonlinear_arith);
        } else {
            assert(a * (ny * nz) == 0) by (nonlinear_arith)
                requires
                    a == 0,
            ;
        }
    }
}

impl Pass {
    /// The mapping after the turn of the chunk `p`.
    proof fn lemma_entries_step(self, p: (int, int, int), entries: Seq<u32>, after: Seq<u32>)
        requires
            self.sphere.in_box(self.dims, p),
            in_cube(p.0, p.1, p.2, self.dims.world_edge_chunks as int),
            entries.len() == cube(self.dims.world_edge_chunks as int),
            self.entries_ok(p, entries),
            after == if self.sphere.claims(self.dims, p) {
                entries.update(
                    chunk_index(self.dims, p),
                    (self.first + self.sphere.claims_before(self.dims, p)) as u32,
                )
            } else {
                entries
            },
        ensures
            self.entries_ok((p.0, p.1, p.2 + 1), after),
            entries[chunk_index(self.dims, p)] == self.entries0[chunk_index(self.dims, p)],
    {
        let n = self.dims.world_edge_chunks as int;
        let next = (p.0, p.1, p.2 + 1);
        lemma_to_index_bounds(p.0, p.1, p.2, n);
        assert(!self.sphere.visited(self.dims, p, p));
        assert(entries[chunk_index(self.dims, p)] == self.entries0[chunk_index(self.dims, p)]);
        assert forall|c: (int, int, int)| in_cube(c.0, c.1, c.2, n) implies #[trigger] after[chunk_index(
            self.dims,
            c,
        )] == if self.sphere.visited(self.dims, c, next) && self.sphere.claims(self.dims, c) {
            (self.first + self.sphere.claims_before(self.dims, c)) as u32
        } else {
            self.entries0[chunk_index(self.dims, c)]
        } by {
            lemma_to_index_bounds(c.0, c.1, c.2, n);
            assert(self.sphere.visited(self.dims, c, next) == (self.sphere.visited(
                self.dims,
                c,
                p,
            ) || c == p));
            if c != p {
                if chunk_index(self.dims, c) == chunk_index(self.dims, p) {
                    lemma_to_index_injective(c, p, n);
                }
                assert(after[chunk_index(self.dims, c)] == entries[chunk_index(self.dims, c)]);
            }
        }
    }

    /// Whether the candidate holds a chunk that was staged and not claimed,
    /// after the turn of the chunk `p`.
    proof fn lemma_pending_step(self, p: (int, int, int))
        requires
            self.sphere.in_box(self.dims, p),
        ensures
            self.sphere.pending(self.dims, (p.0, p.1, p.2 + 1)) == if self.sphere.culled(
                self.dims,
                p,
            ) {
                self.sphere.pending(self.dims, p)
            } else {
                !self.sphere.claims(self.dims, p)
            },
    {
        let s = self.sphere;
        let dims = self.dims;
        let at = (p.0, p.1, p.2 + 1);
        assert(s.visited(dims, p, at));
        assert forall|c: (int, int, int)| s.visited(dims, c, at) == (s.visited(dims, c, p) || c
            == p) by {}
        if s.culled(dims, p) {
            if s.pending(dims, p) {
                let c = choose|c: (int, int, int)|
                    #[trigger] s.visited(dims, c, p) && s.idle(dims, c) && s.quiet_after(dims, c, p);
                assert(s.visited(dims, c, at));
                assert forall|d: (int, int, int)|
                    #[trigger] s.visited(dims, d, at) && before(c, d) implies s.culled(dims, d) by {
                    if d != p {
                        assert(s.visited(dims, d, p));
                    }
                }
                assert(s.quiet_after(dims, c, at));
            }
            if s.pending(dims, at) {
                let c = choose|c: (int, int, int)|
                    #[trigger] s.visited(dims, c, at) && s.idle(dims, c) && s.quiet_after(dims, c, at);
                assert(c != p);
                assert(s.visited(dims, c, p));
                assert forall|d: (int, int, int)|
                    #[trigger] s.visited(dims, d, p) && before(c, d) implies s.culled(dims, d) by {
                    assert(s.visited(dims, d, at));
                }
                assert(s.quiet_after(dims, c, p));
            }
        } else if s.claims(dims, p) {
            if s.pending(dims, at) {
                let c = choose|c: (int, int, int)|
                    #[trigger] s.visited(dims, c, at) && s.idle(dims, c) && s.quiet_after(dims, c, at);
                assert(c != p);
                assert(before(c, p));
                assert(s.visited(dims, p, at));
                assert(false);
            }
        } else {
            assert forall|d: (int, int, int)|
                #[trigger] s.visited(dims, d, at) && before(p, d) implies s.culled(dims, d) by {}
            assert(s.quiet_after(dims, p, at));
            assert(s.idle(dims, p));
        }
    }

    /// The slots after the turn of the chunk `p`, where `next` was the
    /// candidate before it.
    proof fn lemma_slots_step(
        self,
        p: (int, int, int),
        next: int,
        slots: Seq<Seq<u32>>,
        after: Seq<Seq<u32>>,
    )
        requires
            1 <= self.first,
            self.sphere.in_box(self.dims, p),
            next == self.first + self.sphere.claims_before(self.dims, p),
            self.slots_ok(p, next, slots),
            self.sphere.culled(self.dims, p) ==> after == slots,
            !self.sphere.culled(self.dims, p) ==> {
                &&& after.len() == if next < slots.len() {
                    slots.len() as int
                } else {
                    next + 1
                }
                &&& after[next] == self.sphere.staged(self.dims, p)
                &&& forall|t: int|
                    0 <= t < slots.len() && t != next ==> #[trigger] after[t] == slots[t]
            },
        ensures
            self.slots_ok(
                (p.0, p.1, p.2 + 1),
                next + if self.sphere.claims(self.dims, p) {
                    1int
                } else {
                    0int
                },
                after,
            ),
    {
        let at = (p.0, p.1, p.2 + 1);
        let claimed = self.sphere.claims(self.dims, p);
        let next2 = next + if claimed {
            1int
        } else {
            0int
        };
        self.lemma_pending_step(p);
        assert forall|c: (int, int, int)|
            self.sphere.visited(self.dims, c, at) == (self.sphere.visited(self.dims, c, p) || c
                == p) by {}
        assert forall|c: (int, int, int)|
            #[trigger] self.sphere.visited(self.dims, c, at) && self.sphere.claims(
                self.dims,
                c,
            ) implies self.first + self.sphere.claims_before(self.dims, c) < next2 && after[self.first
            + self.sphere.claims_before(self.dims, c)] == self.sphere.staged(self.dims, c) by {
            if c != p {
                let t = self.first + self.sphere.claims_before(self.dims, c);
                assert(self.sphere.visited(self.dims, c, p));
                assert(t < next);
                assert(after[t] == slots[t]);
            }
        }
        assert forall|t: int| self.first <= t < next2 implies #[trigger] self.claimed_at(at, t) by {
            if t == next {
                assert(self.sphere.visited(self.dims, p, at));
            } else {
                assert(self.claimed_at(p, t));
                let c = choose|c: (int, int, int)|
                    #[trigger] self.sphere.visited(self.dims, c, p) && self.sphere.claims(
                        self.dims,
                        c,
                    ) && self.first + self.sphere.claims_before(self.dims, c) == t;
                assert(self.sphere.visited(self.dims, c, at));
            }
        }
        assert forall|t: int| self.first <= t < next2 implies slot_of_sphere(
            self.sphere.index as int,
            #[trigger] after[t],
        ) by {
            if t == next {
                let slot = self.sphere.staged(self.dims, p);
                assert forall|i: int| 0 <= i < slot.len() implies #[trigger] slot[i] == 0 || 3 + (
                self.sphere.index % 10) * 2 <= slot[i] <= 3 + (self.sphere.index % 10) * 2 + 5 by {
                    lemma_staged_band(self.sphere, self.dims, p, i);
                }
            } else {
                assert(after[t] == slots[t]);
            }
        }
        if !self.sphere.culled(self.dims, p) && !claimed {
            assert(!slot_occupied(after[next]));
            assert(slot_empty(after[next]));
        }
        assert forall|t: int| next2 < t < after.len() implies t < self.slots0.len()
            && #[trigger] after[t] == self.slots0[t] by {
            if t < slots.len() {
                assert(after[t] == slots[t]);
            }
        }
        assert forall|t: int| 0 <= t < self.first implies #[trigger] after[t] == self.slots0[t] by {
            assert(after[t] == slots[t]);
        }
    }
}

/// One macro-chunk of the sphere's box takes its turn: unless the broad phase
/// passes it over, its voxels are staged in the candidate slot, the slot is
/// tested, and it is claimed for the chunk where any of its voxels was set.
fn visit_chunk(
    sphere: &Sphere,
    chunk: (usize, usize, usize),
    new_chunk: &mut usize,
    chunk_mapping: &mut ChunkMapping,
    voxels: &mut Voxels,
    Ghost(pass): Ghost<Pass>,
)
    requires
        old(chunk_mapping).wf(),
        old(voxels).wf(),
        old(chunk_mapping).dims() == old(voxels).dims(),
        pass.sphere == *sphere,
        pass.dims == old(voxels).dims(),
        sphere.fits(pass.dims),
        sphere.in_box(pass.dims, (chunk.0 as int, chunk.1 as int, chunk.2 as int)),
        1 <= pass.first,
        pass.first + sphere.box_chunks(pass.dims) <= u32::MAX,
        pass.state(
            (chunk.0 as int, chunk.1 as int, chunk.2 as int),
            *old(new_chunk) as int,
            old(chunk_mapping)@,
            old(voxels)@,
        ),
    ensures
        final(chunk_mapping).wf(),
        final(voxels).wf(),
        final(chunk_mapping).dims() == old(chunk_mapping).dims(),
        final(voxels).dims() == old(voxels).dims(),
        pass.state(
            (chunk.0 as int, chunk.1 as int, chunk.2 + 1),
            *final(new_chunk) as int,
            final(chunk_mapping)@,
            final(voxels)@,
        ),
{
    let dims = voxels.dims();
    let ghost p = (chunk.0 as int, chunk.1 as int, chunk.2 as int);
    let ghost n = dims.world_edge_chunks as int;
    proof {
        voxels.lemma_wf();
        chunk_mapping.lemma_wf();
        lemma_axis(dims.chunk_edge as int, n, sphere.center.0 as int, sphere.radius as int, p.0, 0);
        lemma_axis(dims.chunk_edge as int, n, sphere.center.1 as int, sphere.radius as int, p.1, 0);
        lemma_axis(dims.chunk_edge as int, n, sphere.center.2 as int, sphere.radius as int, p.2, 0);
        sphere.lemma_claims_bound(dims, p);
    }
    let mut claimed = false;
    if !is_culled(sphere, dims, chunk) {
        open_candidate(voxels, *new_chunk);
        stage_chunk(sphere, chunk, *new_chunk, voxels);
        let idx = cell_index(chunk.0, chunk.1, chunk.2, dims.world_edge_chunks);
        claimed = claim_if_occupied(idx, new_chunk, chunk_mapping, voxels);
    }
    proof {
        assert(claimed == sphere.claims(dims, p));
        pass.lemma_entries_step(p, old(chunk_mapping)@, chunk_mapping@);
        pass.lemma_slots_step(p, *old(new_chunk) as int, old(voxels)@, voxels@);
    }
}

impl Pass {
    /// Before the first chunk of the box takes its turn, the world is as the
    /// pass found it.
    proof fn lemma_begin(self)
        requires
            self.first <= self.slots0.len(),
        ensures
            self.state(self.sphere.first_chunk(self.dims), self.first, self.entries0, self.slots0),
    {
        let at = self.sphere.first_chunk(self.dims);
        assert forall|c: (int, int, int)| !self.sphere.visited(self.dims, c, at) by {}
    }

    /// Behind the last chunk of a row the first chunk of the next row is
    /// next.
    proof fn lemma_next_row(
        self,
        x: int,
        y: int,
        next: int,
        entries: Seq<u32>,
        slots: Seq<Seq<u32>>,
    )
        requires
            self.sphere.first_chunk(self.dims).1 <= y,
            self.state((x, y, self.sphere.last_chunk(self.dims).2 + 1), next, entries, slots),
        ensures
            self.state((x, y + 1, self.sphere.first_chunk(self.dims).2), next, entries, slots),
    {
        let a = (x, y, self.sphere.last_chunk(self.dims).2 + 1);
        let b = (x, y + 1, self.sphere.first_chunk(self.dims).2);
        assert forall|c: (int, int, int)|
            self.sphere.visited(self.dims, c, a) == self.sphere.visited(self.dims, c, b) by {}
        self.lemma_same_turn(a, b, next, entries, slots);
    }

    /// Behind the last row of a slab the first chunk of the next slab is
    /// next.
    proof fn lemma_next_slab(self, x: int, next: int, entries: Seq<u32>, slots: Seq<Seq<u32>>)
        requires
            self.sphere.first_chunk(self.dims).0 <= x,
            self.state(
                (x, self.sphere.last_chunk(self.dims).1 + 1, self.sphere.first_chunk(self.dims).2),
                next,
                entries,
                slots,
            ),
        ensures
            self.state(
                (x + 1, self.sphere.first_chunk(self.dims).1, self.sphere.first_chunk(self.dims).2),
                next,
                entries,
                slots,
            ),
    {
        let a = (x, self.sphere.last_chunk(self.dims).1 + 1, self.sphere.first_chunk(self.dims).2);
        let b = (x + 1, self.sphere.first_chunk(self.dims).1, self.sphere.first_chunk(self.dims).2);
        assert forall|c: (int, int, int)|
            self.sphere.visited(self.dims, c, a) == self.sphere.visited(self.dims, c, b) by {}
        self.lemma_same_turn(a, b, next, entries, slots);
    }

    /// Two places before which the same chunks had their turn describe the
    /// same state.
    proof fn lemma_same_turn(
        self,
        a: (int, int, int),
        b: (int, int, int),
        next: int,
        entries: Seq<u32>,
        slots: Seq<Seq<u32>>,
    )
        requires
            self.state(a, next, entries, slots),
            self.sphere.claims_before(self.dims, a) == self.sphere.claims_before(self.dims, b),
            forall|c: (int, int, int)|
                self.sphere.visited(self.dims, c, a) == self.sphere.visited(self.dims, c, b),
        ensures
            self.state(b, next, entries, slots),
    {
        assert forall|c: (int, int, int)|
            in_cube(
                c.0,
                c.1,
                c.2,
                self.dims.world_edge_chunks as int,
            ) implies #[trigger] entries[chunk_index(self.dims, c)] == if self.sphere.visited(
            self.dims,
            c,
            b,
        ) && self.sphere.claims(self.dims, c) {
            (self.first + self.sphere.claims_before(self.dims, c)) as u32
        } else {
            self.entries0[chunk_index(self.dims, c)]
        } by {
            assert(self.sphere.visited(self.dims, c, a) == self.sphere.visited(self.dims, c, b));
        }
        assert forall|c: (int, int, int)|
            #[trigger] self.sphere.visited(self.dims, c, b) && self.sphere.claims(
                self.dims,
                c,
            ) implies self.first + self.sphere.claims_before(self.dims, c) < next && slots[self.first
            + self.sphere.claims_before(self.dims, c)] == self.sphere.staged(self.dims, c) by {
            assert(self.sphere.visited(self.dims, c, a) == self.sphere.visited(self.dims, c, b));
        }
        self.lemma_same_pending(a, b);
        assert forall|t: int| self.first <= t < next implies #[trigger] self.claimed_at(b, t) by {
            assert(self.claimed_at(a, t));
            let c = choose|c: (int, int, int)|
                #[trigger] self.sphere.visited(self.dims, c, a) && self.sphere.claims(self.dims, c)
                    && self.first + self.sphere.claims_before(self.dims, c) == t;
            assert(self.sphere.visited(self.dims, c, b));
        }
    }

    /// Two places before which the same chunks had their turn agree on
    /// whether the candidate holds a chunk that was staged and not claimed.
    proof fn lemma_same_pending(self, a: (int, int, int), b: (int, int, int))
        requires
            forall|c: (int, int, int)|
                self.sphere.visited(self.dims, c, a) == self.sphere.visited(self.dims, c, b),
        ensures
            self.sphere.pending(self.dims, a) == self.sphere.pending(self.dims, b),
    {
        let s = self.sphere;
        let dims = self.dims;
        assert forall|c: (int, int, int)|
            s.quiet_after(dims, c, a) == s.quiet_after(dims, c, b) by {
            if s.quiet_after(dims, c, a) {
                assert forall|d: (int, int, int)|
                    #[trigger] s.visited(dims, d, b) && before(c, d) implies s.culled(dims, d) by {
                    assert(s.visited(dims, d, a));
                }
            }
            if s.quiet_after(dims, c, b) {
                assert forall|d: (int, int, int)|
                    #[trigger] s.visited(dims, d, a) && before(c, d) implies s.culled(dims, d) by {
                    assert(s.visited(dims, d, b));
                }
            }
        }
        if s.pending(dims, a) {
            let c = choose|c: (int, int, int)|
                #[trigger] s.visited(dims, c, a) && s.idle(dims, c) && s.quiet_after(dims, c, a);
            assert(s.visited(dims, c, b) && s.quiet_after(dims, c, b));
        }
        if s.pending(dims, b) {
            let c = choose|c: (int, int, int)|
                #[trigger] s.visited(dims, c, b) && s.idle(dims, c) && s.quiet_after(dims, c, b);
            assert(s.visited(dims, c, a) && s.quiet_after(dims, c, a));
        }
    }

    /// A pass keeps the claims consistent: when every populated macro-chunk
    /// pointed to an occupied slot below the first candidate, then at the
    /// end every populated macro-chunk points to an occupied slot below the
    /// last candidate.
    pub proof fn lemma_consistent(self, next: int, entries: Seq<u32>, slots: Seq<Seq<u32>>)
        requires
            self.state(self.end(), next, entries, slots),
            claims_consistent(self.entries0, self.slots0, self.first),
            self.entries0.len() == self.dims.world_chunks(),
            next <= u32::MAX,
        ensures
            claims_consistent(entries, slots, next),
    {
        let n = self.dims.world_edge_chunks as int;
        assert forall|i: int| 0 <= i < entries.len() && #[trigger] entries[i] != 0 implies entries[i]
            < next && slot_occupied(slots[entries[i] as int]) by {
            lemma_index_round_trip(i, n);
            let c = from_index(i, n);
            assert(entries[chunk_index(self.dims, c)] == entries[i]);
            if self.sphere.visited(self.dims, c, self.end()) && self.sphere.claims(self.dims, c) {
            } else {
                assert(self.entries0[i] != 0);
                assert(slots[self.entries0[i] as int] == self.slots0[self.entries0[i] as int]);
            }
        }
    }
}

/// Along one axis the sphere's box touches at most one macro-chunk more than
/// the sphere's diameter has voxels.
proof fn lemma_span(e: int, centre: int, r: int)
    requires
        1 <= e,
        0 <= r <= centre,
    ensures
        0 <= (centre + r) / e - (centre - r) / e <= 2 * r,
{
    let a = centre - r;
    let b = centre + r;
    lemma_div_is_ordered(a, b, e);
    assert(b <= a + (2 * r) * e) by (nonlinear_arith)
        requires
            b == a + 2 * r,
            0 <= r,
            1 <= e,
    ;
    lemma_div_is_ordered(b, a + (2 * r) * e, e);
    lemma_hoist_over_denominator(a, 2 * r, e as nat);
}

/// The box of a sphere whose radius is below the largest touches no more
/// macro-chunks than `SPHERE_BOX_CHUNKS`.
pub proof fn lemma_box_chunks(s: Sphere, dims: Dims)
    requires
        dims.wf(),
        s.fits(dims),
        s.radius < MAX_RADIUS,
    ensures
        1 <= s.box_chunks(dims) <= SPHERE_BOX_CHUNKS,
{
    let e = dims.chunk_edge as int;
    lemma_span(e, s.center.0 as int, s.radius as int);
    lemma_span(e, s.center.1 as int, s.radius as int);
    lemma_span(e, s.center.2 as int, s.radius as int);
    let nx = s.last_chunk(dims).0 - s.first_chunk(dims).0 + 1;
    let ny = s.last_chunk(dims).1 - s.first_chunk(dims).1 + 1;
    let nz = s.last_chunk(dims).2 - s.first_chunk(dims).2 + 1;
    assert(1 <= nx * ny * nz <= 119 * 119 * 119) by (nonlinear_arith)
        requires
            1 <= nx <= 119,
            1 <= ny <= 119,
            1 <= nz <= 119,
    ;
}

/// Writes the sphere into the world. The macro-chunks that the sphere's
/// bounding box touches take their turns one after the other, with `x`
/// slowest and `z` fastest. Each one that the broad phase does not pass over
/// is staged in the candidate slot `*new_chunk`, every voxel of the slot
/// written; where the sphere set one of them, the chunk is pointed to the
/// slot and the candidate moves on to the next slot.
pub fn place_sphere(
    sphere: &Sphere,
    new_chunk: &mut usize,
    chunk_mapping: &mut ChunkMapping,
    voxels: &mut Voxels,
)
    requires
        old(chunk_mapping).wf(),
        old(voxels).wf(),
        old(chunk_mapping).dims() == old(voxels).dims(),
        sphere.fits(old(voxels).dims()),
        1 <= *old(new_chunk) <= old(voxels)@.len(),
        *old(new_chunk) + sphere.box_chunks(old(voxels).dims()) <= u32::MAX,
    ensures
        final(chunk_mapping).wf(),
        final(voxels).wf(),
        final(chunk_mapping).dims() == old(chunk_mapping).dims(),
        final(voxels).dims() == old(voxels).dims(),
        sphere_placed(
            *sphere,
            old(voxels).dims(),
            *old(new_chunk) as int,
            old(chunk_mapping)@,
            old(voxels)@,
            *final(new_chunk) as int,
            final(chunk_mapping)@,
            final(voxels)@,
        ),
        *final(new_chunk) == *old(new_chunk) + sphere.claims_total(old(voxels).dims()),
        *old(new_chunk) <= *final(new_chunk) <= final(voxels)@.len(),
        *final(new_chunk) <= *old(new_chunk) + sphere.box_chunks(old(voxels).dims()),
        final(voxels)@[0] == old(voxels)@[0],
        forall|t: int|
            *old(new_chunk) <= t < *final(new_chunk) ==> slot_of_sphere(
                sphere.index as int,
                #[trigger] final(voxels)@[t],
            ),
        claims_consistent(old(chunk_mapping)@, old(voxels)@, *old(new_chunk) as int)
            ==> claims_consistent(final(chunk_mapping)@, final(voxels)@, *final(new_chunk) as int),
        occupied_count(final(chunk_mapping)@) <= occupied_count(old(chunk_mapping)@)
            + (*final(new_chunk) - *old(new_chunk)),
        box_unpopulated(*sphere, old(voxels).dims(), old(chunk_mapping)@) ==> occupied_count(
            final(chunk_mapping)@,
        ) == occupied_count(old(chunk_mapping)@) + (*final(new_chunk) - *old(new_chunk)),
{
    let dims = voxels.dims();
    let e = dims.chunk_edge;
    let ghost pass = Pass {
        sphere: *sphere,
        dims,
        first: *new_chunk as int,
        entries0: chunk_mapping@,
        slots0: voxels@,
    };
    let ghost f = sphere.first_chunk(dims);
    let ghost l = sphere.last_chunk(dims);
    proof {
        voxels.lemma_wf();
        chunk_mapping.lemma_wf();
        dims.lemma_edges();
        lemma_span(e as int, sphere.center.0 as int, sphere.radius as int);
        lemma_span(e as int, sphere.center.1 as int, sphere.radius as int);
        lemma_span(e as int, sphere.center.2 as int, sphere.radius as int);
        lemma_axis(e as int, dims.world_edge_chunks as int, sphere.center.0 as int, sphere.radius as int, l.0, 0);
        lemma_axis(e as int, dims.world_edge_chunks as int, sphere.center.1 as int, sphere.radius as int, l.1, 0);
        lemma_axis(e as int, dims.world_edge_chunks as int, sphere.center.2 as int, sphere.radius as int, l.2, 0);
        lemma_axis(e as int, dims.world_edge_chunks as int, sphere.center.0 as int, sphere.radius as int, f.0, 0);
        lemma_axis(e as int, dims.world_edge_chunks as int, sphere.center.1 as int, sphere.radius as int, f.1, 0);
        lemma_axis(e as int, dims.world_edge_chunks as int, sphere.center.2 as int, sphere.radius as int, f.2, 0);
        pass.lemma_begin();
    }
    let x0 = ((sphere.center.0 - sphere.radius) as usize) / e;
    let y0 = ((sphere.center.1 - sphere.radius) as usize) / e;
    let z0 = ((sphere.center.2 - sphere.radius) as usize) / e;
    let x1 = ((sphere.center.0 + sphere.radius) as usize) / e;
    let y1 = ((sphere.center.1 + sphere.radius) as usize) / e;
    let z1 = ((sphere.center.2 + sphere.radius) as usize) / e;
    let mut cx = x0;
    while cx <= x1
        invariant
            (x0 as int, y0 as int, z0 as int) == f,
            (x1 as int, y1 as int, z1 as int) == l,
            f == sphere.first_chunk(dims),
            l == sphere.last_chunk(dims),
            x0 <= cx <= x1 + 1,
            x1 < dims.world_edge_chunks <= i32::MAX,
            y1 < dims.world_edge_chunks,
            z1 < dims.world_edge_chunks,
            y0 <= y1,
            z0 <= z1,
            chunk_mapping.wf(),
            voxels.wf(),
            chunk_mapping.dims() == dims,
            voxels.dims() == dims,
            pass.sphere == *sphere,
            pass.dims == dims,
            sphere.fits(dims),
            1 <= pass.first,
            pass.first + sphere.box_chunks(dims) <= u32::MAX,
            pass.state((cx as int, y0 as int, z0 as int), *new_chunk as int, chunk_mapping@, voxels@),
        decreases x1 + 1 - cx,
    {
        let mut cy = y0;
        while cy <= y1
            invariant
                (x0 as int, y0 as int, z0 as int) == f,
                (x1 as int, y1 as int, z1 as int) == l,
                f == sphere.first_chunk(dims),
                l == sphere.last_chunk(dims),
                x0 <= cx <= x1,
                y0 <= cy <= y1 + 1,
                y1 < dims.world_edge_chunks <= i32::MAX,
                z1 < dims.world_edge_chunks,
                z0 <= z1,
                chunk_mapping.wf(),
                voxels.wf(),
                chunk_mapping.dims() == dims,
                voxels.dims() == dims,
                pass.sphere == *sphere,
                pass.dims == dims,
                sphere.fits(dims),
                1 <= pass.first,
                pass.first + sphere.box_chunks(dims) <= u32::MAX,
                pass.state((cx as int, cy as int, z0 as int), *new_chunk as int, chunk_mapping@, voxels@),
            decreases y1 + 1 - cy,
        {
            let mut cz = z0;
            while cz <= z1
                invariant
                    (x0 as int, y0 as int, z0 as int) == f,
                    (x1 as int, y1 as int, z1 as int) == l,
                    f == sphere.first_chunk(dims),
                    l == sphere.last_chunk(dims),
                    x0 <= cx <= x1,
                    y0 <= cy <= y1,
                    z0 <= cz <= z1 + 1,
                    z1 < dims.world_edge_chunks <= i32::MAX,
                    chunk_mapping.wf(),
                    voxels.wf(),
                    chunk_mapping.dims() == dims,
                    voxels.dims() == dims,
                    pass.sphere == *sphere,
                    pass.dims == dims,
                    sphere.fits(dims),
                    1 <= pass.first,
                    pass.first + sphere.box_chunks(dims) <= u32::MAX,
                    pass.state((cx as int, cy as int, cz as int), *new_chunk as int, chunk_mapping@, voxels@),
                decreases z1 + 1 - cz,
            {
                visit_chunk(sphere, (cx, cy, cz), new_chunk, chunk_mapping, voxels, Ghost(pass));
                cz += 1;
            }
            proof {
                pass.lemma_next_row(cx as int, cy as int, *new_chunk as int, chunk_mapping@, voxels@);
            }
            cy += 1;
        }
        proof {
            pass.lemma_next_slab(cx as int, *new_chunk as int, chunk_mapping@, voxels@);
        }
        cx += 1;
    }
    proof {
        assert(pass.end() == (cx as int, y0 as int, z0 as int));
        sphere.lemma_box_bound(dims, l.0 + 1);
        assert(sphere.claims_before(dims, pass.end()) == sphere.claims_in_box(dims, l.0 + 1));
        assert((l.0 + 1 - f.0) * ((l.1 - f.1 + 1) * (l.2 - f.2 + 1)) == sphere.box_chunks(dims))
            by (nonlinear_arith)
            requires
                sphere.box_chunks(dims) == (l.0 - f.0 + 1) * (l.1 - f.1 + 1) * (l.2 - f.2 + 1),
        ;
        if claims_consistent(old(chunk_mapping)@, old(voxels)@, *old(new_chunk) as int) {
            pass.lemma_consistent(*new_chunk as int, chunk_mapping@, voxels@);
        }
    }
}

/// For every sphere of a field the radius lies below `MAX_RADIUS`, so its
/// box touches at most `2 * 59 + 1` macro-chunks along each axis.
pub const SPHERE_BOX_CHUNKS: usize = 1_685_159;

/// A sphere as `place_one_sphere` draws it for the number `n`: the radius
/// lies in `[MIN_RADIUS, MAX_RADIUS)`, and each coordinate of the centre at
/// least the radius away from both ends of the world.
pub open spec fn drawn(s: Sphere, n: usize, dims: Dims) -> bool {
    &&& s.index == n
    &&& MIN_RADIUS <= s.radius < MAX_RADIUS
    &&& s.radius <= s.center.0 < dims.world_edge_voxels() - s.radius
    &&& s.radius <= s.center.1 < dims.world_edge_voxels() - s.radius
    &&& s.radius <= s.center.2 < dims.world_edge_voxels() - s.radius
}

/// Draws sphere `n` of a field and writes it into the world, as
/// `place_sphere` does: the radius at random from `[MIN_RADIUS, MAX_RADIUS)`,
/// then each coordinate of the centre at random such that the whole sphere
/// lies in the world.
///
/// The world is wide enough for the largest sphere, and the candidate slot
/// leaves room below `u32::MAX` for the chunks of one sphere.
pub fn place_one_sphere(
    n: usize,
    new_chunk: &mut usize,
    chunk_mapping: &mut ChunkMapping,
    voxels: &mut Voxels,
)
    requires
        old(chunk_mapping).wf(),
        old(voxels).wf(),
        old(chunk_mapping).dims() == old(voxels).dims(),
        old(voxels).dims().world_edge_voxels() >= 2 * MAX_RADIUS - 1,
        3 * ((MAX_RADIUS + old(voxels).dims().chunk_edge) * (MAX_RADIUS + old(voxels).dims().chunk_edge))
            <= i32::MAX,
        1 <= *old(new_chunk) <= old(voxels)@.len(),
        *old(new_chunk) + SPHERE_BOX_CHUNKS <= u32::MAX,
    ensures
        final(chunk_mapping).wf(),
        final(voxels).wf(),
        final(chunk_mapping).dims() == old(chunk_mapping).dims(),
        final(voxels).dims() == old(voxels).dims(),
        exists|s: Sphere|
            drawn(s, n, old(voxels).dims()) && #[trigger] sphere_placed(
                s,
                old(voxels).dims(),
                *old(new_chunk) as int,
                old(chunk_mapping)@,
                old(voxels)@,
                *final(new_chunk) as int,
                final(chunk_mapping)@,
                final(voxels)@,
            ),
        *old(new_chunk) <= *final(new_chunk) <= final(voxels)@.len(),
        *final(new_chunk) <= *old(new_chunk) + SPHERE_BOX_CHUNKS,
        final(voxels)@[0] == old(voxels)@[0],
        forall|t: int|
            *old(new_chunk) <= t < *final(new_chunk) ==> slot_of_sphere(
                n as int,
                #[trigger] final(voxels)@[t],
            ),
        claims_consistent(old(chunk_mapping)@, old(voxels)@, *old(new_chunk) as int)
            ==> claims_consistent(final(chunk_mapping)@, final(voxels)@, *final(new_chunk) as int),
        occupied_count(final(chunk_mapping)@) <= occupied_count(old(chunk_mapping)@)
            + (*final(new_chunk) - *old(new_chunk)),
{
    let dims = voxels.dims();
    proof {
        voxels.lemma_wf();
    }
    let edge = dims.edge_voxels() as i32;
    let radius = random_i32(MIN_RADIUS, MAX_RADIUS);
    let center = (
        random_i32(radius, edge - radius),
        random_i32(radius, edge - radius),
        random_i32(radius, edge - radius),
    );
    let sphere = Sphere { index: n, radius, center };
    proof {
        let e = dims.chunk_edge as int;
        assert((radius + e) * (radius + e) <= (MAX_RADIUS + e) * (MAX_RADIUS + e))
            by (nonlinear_arith)
            requires
                0 <= radius < MAX_RADIUS,
                1 <= e,
        ;
        lemma_box_chunks(sphere, dims);
    }
    place_sphere(&sphere, new_chunk, chunk_mapping, voxels);
}

} // verus!
