//! The ray caster: a traversal of the voxel grid, one cell at a time along
//! the axis whose next cell boundary the ray reaches first, which stops at
//! the first voxel that is neither empty nor air. Rays are given in whole
//! numbers, so that every comparison that the traversal makes is exact.

use vstd::prelude::*;
use vstd::arithmetic::div_mod::{
    lemma_fundamental_div_mod, lemma_fundamental_div_mod_converse, lemma_mod_bound,
    lemma_multiply_divide_lt,
};
use crate::pos_to_index::{cell_index, in_cube, lemma_to_index_bounds, to_index};
use crate::shared::{entries_resolve, ChunkMapping, Dims, Voxels, AIR_MARKER};

verus! {

/// The largest product of a ray's scale and a component of its direction.
pub const MAX_REACH: u64 = 0x8_0000_0000_0000;

/// The bound on the coordinates of a ray's origin, in voxels.
pub const MAX_COORD: i128 = 0x100_0000_0000;

/// A ray. The origin is the point `origin / scale`, in voxels; the direction
/// is any vector that points along the ray, of whatever length.
#[derive(Clone, Copy, Debug, PartialEq, Eq)]
pub struct Ray {
    pub origin: (i128, i128, i128),
    pub scale: u64,
    pub direction: (i32, i32, i32),
}

/// The size of a number.
pub open spec fn magnitude(x: int) -> int {
    if x < 0 {
        -x
    } else {
        x
    }
}

/// The sign of a number: -1, 0 or 1.
pub open spec fn sign(x: int) -> int {
    if x < 0 {
        -1
    } else if x > 0 {
        1
    } else {
        0
    }
}

/// Whether a component of a ray's origin and the same component of its
/// direction are within the limits, for the ray's scale.
pub open spec fn component_wf(origin: int, scale: int, direction: int) -> bool {
    &&& -MAX_COORD * scale <= origin < MAX_COORD * scale
    &&& -i32::MAX <= direction <= i32::MAX
    &&& scale * magnitude(direction) <= MAX_REACH
}

impl Ray {
    /// The direction as a vector of numbers.
    pub open spec fn dir(self) -> (int, int, int) {
        (self.direction.0 as int, self.direction.1 as int, self.direction.2 as int)
    }

    /// The scale is positive, the direction is not the zero vector, and the
    /// origin and the direction are within the limits.
    pub open spec fn wf(self) -> bool {
        &&& 1 <= self.scale <= MAX_REACH
        &&& self.direction != (0i32, 0i32, 0i32)
        &&& component_wf(self.origin.0 as int, self.scale as int, self.direction.0 as int)
        &&& component_wf(self.origin.1 as int, self.scale as int, self.direction.1 as int)
        &&& component_wf(self.origin.2 as int, self.scale as int, self.direction.2 as int)
    }

    /// Where the traversal of the ray begins.
    pub open spec fn start(self) -> March {
        March {
            cell: (
                (self.origin.0 as int) / (self.scale as int),
                (self.origin.1 as int) / (self.scale as int),
                (self.origin.2 as int) / (self.scale as int),
            ),
            reach: (
                first_reach(self.origin.0 as int, self.scale as int, self.direction.0 as int),
                first_reach(self.origin.1 as int, self.scale as int, self.direction.1 as int),
                first_reach(self.origin.2 as int, self.scale as int, self.direction.2 as int),
            ),
        }
    }
}

/// The distance, in units of `1 / scale`, from the origin to the first cell
/// boundary along one axis: to the upper end of the origin's cell where the
/// ray rises, to the lower end where it does not.
pub open spec fn first_reach(origin: int, scale: int, direction: int) -> int {
    if direction > 0 {
        scale - origin % scale
    } else {
        origin % scale
    }
}

/// A place in the traversal of a ray: the cell that the traversal stands in,
/// and for each axis the distance along that axis, in units of `1 / scale`,
/// from the origin to the next cell boundary. The ray reaches the boundary
/// of axis `a` at the parameter `reach.a / (scale * |direction.a|)`.
pub struct March {
    pub cell: (int, int, int),
    pub reach: (int, int, int),
}

/// The material code that a cell reads as. A cell outside the world reads as
/// air. For a cell inside it, the mapping entry of the cell's macro-chunk
/// names the slot, and the cell's place in the chunk the voxel; an entry of 0
/// names slot 0, the air sentinel.
pub open spec fn material_at(
    dims: Dims,
    entries: Seq<u32>,
    slots: Seq<Seq<u32>>,
    cell: (int, int, int),
) -> u32 {
    let e = dims.chunk_edge as int;
    if !in_cube(cell.0, cell.1, cell.2, dims.world_edge_voxels()) {
        AIR_MARKER
    } else {
        let chunk = to_index(cell.0 / e, cell.1 / e, cell.2 / e, dims.world_edge_chunks as int);
        let place = to_index(cell.0 % e, cell.1 % e, cell.2 % e, e);
        slots[entries[chunk] as int][place]
    }
}

/// A mapping and its slots make a world that rays can be cast through.
pub open spec fn world_wf(chunk_mapping: &ChunkMapping, voxels: &Voxels) -> bool {
    &&& chunk_mapping.wf()
    &&& voxels.wf()
    &&& chunk_mapping.dims() == voxels.dims()
    &&& entries_resolve(chunk_mapping@, voxels@)
}

/// Along one axis, a voxel of the world lies in a macro-chunk of the world.
proof fn lemma_split(x: int, e: int, n: int)
    requires
        1 <= e,
        0 <= x < e * n,
    ensures
        0 <= x / e < n,
        0 <= x % e < e,
{
    lemma_fundamental_div_mod(x, e);
    lemma_mod_bound(x, e);
    lemma_multiply_divide_lt(x, e, n);
    assert(0 <= x / e) by (nonlinear_arith)
        requires
            x == e * (x / e) + x % e,
            0 <= x,
            x % e < e,
            1 <= e,
    ;
}

/// A cell of a macro-chunk that is not populated reads as air, where slot 0
/// holds the air marker in every place.
pub proof fn lemma_unpopulated_reads_air(
    dims: Dims,
    entries: Seq<u32>,
    slots: Seq<Seq<u32>>,
    cell: (int, int, int),
)
    requires
        dims.wf(),
        slots.len() >= 1,
        slots[0].len() == dims.chunk_volume(),
        forall|i: int| 0 <= i < slots[0].len() ==> slots[0][i] == AIR_MARKER,
        in_cube(cell.0, cell.1, cell.2, dims.world_edge_voxels()),
        entries[to_index(
            chunk_of(dims, cell).0,
            chunk_of(dims, cell).1,
            chunk_of(dims, cell).2,
            dims.world_edge_chunks as int,
        )] == 0,
    ensures
        material_at(dims, entries, slots, cell) == AIR_MARKER,
{
    let e = dims.chunk_edge as int;
    let n = dims.world_edge_chunks as int;
    lemma_split(cell.0, e, n);
    lemma_split(cell.1, e, n);
    lemma_split(cell.2, e, n);
    lemma_to_index_bounds(cell.0 % e, cell.1 % e, cell.2 % e, e);
}

/// In a world without a populated macro-chunk every cell reads as air,
/// where slot 0 holds the air marker in every place.
pub proof fn lemma_empty_world_reads_air(dims: Dims, entries: Seq<u32>, slots: Seq<Seq<u32>>)
    requires
        dims.wf(),
        entries.len() == dims.world_chunks(),
        forall|i: int| 0 <= i < entries.len() ==> entries[i] == 0,
        slots.len() >= 1,
        slots[0].len() == dims.chunk_volume(),
        forall|i: int| 0 <= i < slots[0].len() ==> slots[0][i] == AIR_MARKER,
    ensures
        forall|c: (int, int, int)| #[trigger] material_at(dims, entries, slots, c) == AIR_MARKER,
{
    let e = dims.chunk_edge as int;
    let n = dims.world_edge_chunks as int;
    assert forall|c: (int, int, int)| #[trigger]
        material_at(dims, entries, slots, c) == AIR_MARKER by {
        if in_cube(c.0, c.1, c.2, dims.world_edge_voxels()) {
            lemma_split(c.0, e, n);
            lemma_split(c.1, e, n);
            lemma_split(c.2, e, n);
            lemma_to_index_bounds(c.0 / e, c.1 / e, c.2 / e, n);
            lemma_unpopulated_reads_air(dims, entries, slots, c);
        }
    }
}

/// Whether every entry of the mapping names a slot that exists.
pub fn check_entries(chunk_mapping: &ChunkMapping, voxels: &Voxels) -> (ok: bool)
    ensures
        ok == entries_resolve(chunk_mapping@, voxels@),
{
    let n = chunk_mapping.len();
    let slots = voxels.slot_count();
    let mut i: usize = 0;
    while i < n
        invariant
            0 <= i <= n,
            n == chunk_mapping@.len(),
            slots == voxels@.len(),
            forall|j: int| 0 <= j < i ==> #[trigger] chunk_mapping@[j] < slots,
        decreases n - i,
    {
        if chunk_mapping.get(i) as usize >= slots {
            return false;
        }
        i += 1;
    }
    true
}

/// The material code that the cell at `cell` reads as.
pub fn voxel_unit_at(
    chunk_mapping: &ChunkMapping,
    voxels: &Voxels,
    cell: (i128, i128, i128),
) -> (code: u32)
    requires
        world_wf(chunk_mapping, voxels),
    ensures
        code == material_at(
            voxels.dims(),
            chunk_mapping@,
            voxels@,
            (cell.0 as int, cell.1 as int, cell.2 as int),
        ),
{
    let dims = voxels.dims();
    proof {
        voxels.lemma_wf();
        chunk_mapping.lemma_wf();
    }
    let w = dims.edge_voxels() as i128;
    if cell.0 < 0 || cell.0 >= w || cell.1 < 0 || cell.1 >= w || cell.2 < 0 || cell.2 >= w {
        return AIR_MARKER;
    }
    let e = dims.chunk_edge;
    let n = dims.world_edge_chunks;
    let x = cell.0 as usize;
    let y = cell.1 as usize;
    let z = cell.2 as usize;
    proof {
        lemma_split(x as int, e as int, n as int);
        lemma_split(y as int, e as int, n as int);
        lemma_split(z as int, e as int, n as int);
        lemma_to_index_bounds((x / e) as int, (y / e) as int, (z / e) as int, n as int);
        lemma_to_index_bounds((x % e) as int, (y % e) as int, (z % e) as int, e as int);
    }
    let chunk = cell_index(x / e, y / e, z / e, n);
    let slot = chunk_mapping.get(chunk) as usize;
    let place = cell_index(x % e, y % e, z % e, e);
    voxels.get(slot, place)
}

/// Whether the ray reaches the next boundary of axis `a` before that of axis
/// `b`, where `ra` and `rb` are the distances to them and `ma` and `mb` the
/// sizes of the direction's components. An axis along which the ray does not
/// move has no next boundary.
pub open spec fn nearer(ra: int, ma: int, rb: int, mb: int) -> bool {
    ma != 0 && (mb == 0 || ra * mb < rb * ma)
}

/// Whether the ray reaches the next boundary of axis `a` no later than that
/// of axis `b`.
pub open spec fn as_near(ra: int, ma: int, rb: int, mb: int) -> bool {
    mb == 0 || (ma != 0 && ra * mb <= rb * ma)
}

/// The axis of the next step: the one whose next boundary the ray reaches
/// first. Of two axes that tie, `x` goes before `z`, `z` before `y` and `y`
/// before `x`; where all three tie, the step is along `x`.
pub open spec fn next_axis(mag: (int, int, int), reach: (int, int, int)) -> int {
    if nearer(reach.1, mag.1, reach.2, mag.2) && as_near(reach.1, mag.1, reach.0, mag.0) {
        1
    } else if nearer(reach.2, mag.2, reach.0, mag.0) && as_near(reach.2, mag.2, reach.1, mag.1) {
        2
    } else {
        0
    }
}

/// Component `axis` of a vector.
pub open spec fn part(v: (int, int, int), axis: int) -> int {
    if axis == 0 {
        v.0
    } else if axis == 1 {
        v.1
    } else {
        v.2
    }
}

/// The vector `v` with `by` added to component `axis`.
pub open spec fn nudge(v: (int, int, int), axis: int, by: int) -> (int, int, int) {
    if axis == 0 {
        (v.0 + by, v.1, v.2)
    } else if axis == 1 {
        (v.0, v.1 + by, v.2)
    } else {
        (v.0, v.1, v.2 + by)
    }
}

/// The macro-chunk that holds a cell, also for a cell outside the world.
pub open spec fn chunk_of(dims: Dims, cell: (int, int, int)) -> (int, int, int) {
    (
        cell.0 / (dims.chunk_edge as int),
        cell.1 / (dims.chunk_edge as int),
        cell.2 / (dims.chunk_edge as int),
    )
}

impl Ray {
    /// The sizes of the direction's components.
    pub open spec fn mag(self) -> (int, int, int) {
        (
            magnitude(self.direction.0 as int),
            magnitude(self.direction.1 as int),
            magnitude(self.direction.2 as int),
        )
    }

    /// The axis of the step that follows the place `m`.
    pub open spec fn axis_at(self, m: March) -> int {
        next_axis(self.mag(), m.reach)
    }

    /// The cell that the step from the place `m` leads to.
    pub open spec fn cell_after(self, m: March) -> (int, int, int) {
        nudge(m.cell, self.axis_at(m), sign(part(self.dir(), self.axis_at(m))))
    }

    /// The place after the step from the place `m`: one cell further along
    /// the step's axis, with the next boundary of that axis one cell further
    /// too.
    pub open spec fn advance(self, m: March) -> March {
        March {
            cell: self.cell_after(m),
            reach: nudge(m.reach, self.axis_at(m), self.scale as int),
        }
    }

    /// The place after the skip through a macro-chunk of air: up to `moves`
    /// steps are made without reading a voxel, until the traversal stands in
    /// another macro-chunk than `first`.
    pub open spec fn skip(self, dims: Dims, m: March, first: (int, int, int), moves: nat) -> March
        decreases moves,
    {
        if moves == 0 || chunk_of(dims, m.cell) != first {
            m
        } else {
            self.skip(dims, self.advance(m), first, (moves - 1) as nat)
        }
    }
}

/// What a ray found.
#[derive(Clone, Copy, Debug, PartialEq, Eq)]
pub struct Hit {
    /// The point where the ray enters the voxel that it hit, as the
    /// numerators of its coordinates over `scale`.
    pub position: (i128, i128, i128),
    /// The denominator of `position`.
    pub scale: u64,
    /// The face through which the ray enters: the unit vector against the
    /// step that led into the voxel.
    pub normal: (i32, i32, i32),
    /// The material code of the voxel.
    pub material: u32,
    /// Whether the ray found nothing to shade: it used up its steps, or it
    /// ended at a voxel of the opaque marker 1.
    pub is_air: bool,
    /// The voxel that the ray hit.
    pub cell: (i32, i32, i32),
    /// The number of steps of the traversal, the skips through air not
    /// counted.
    pub steps: u64,
}

/// The outcome of a ray that used up its steps.
pub open spec fn miss(steps: nat) -> Hit {
    Hit {
        position: (0, 0, 0),
        scale: 1,
        normal: (0, 0, 0),
        material: 0,
        is_air: true,
        cell: (0, 0, 0),
        steps: steps as u64,
    }
}

impl Ray {
    /// The outcome of a ray whose step from the place `m` leads into a voxel
    /// of the material `code`, as step number `steps`. The ray enters the
    /// voxel at the parameter `r / (scale * d)`, where `r` is the distance
    /// to the boundary along the step's axis and `d` the size of the
    /// direction along it; the position is the origin plus the direction
    /// times that parameter.
    pub open spec fn hit_at(self, m: March, code: u32, steps: nat) -> Hit {
        let axis = self.axis_at(m);
        let d = part(self.mag(), axis);
        let r = part(m.reach, axis);
        let cell = self.cell_after(m);
        let n = nudge((0, 0, 0), axis, -sign(part(self.dir(), axis)));
        Hit {
            position: (
                (self.origin.0 * d + self.direction.0 * r) as i128,
                (self.origin.1 * d + self.direction.1 * r) as i128,
                (self.origin.2 * d + self.direction.2 * r) as i128,
            ),
            scale: (self.scale * d) as u64,
            normal: (n.0 as i32, n.1 as i32, n.2 as i32),
            material: code,
            is_air: code == 1,
            cell: (cell.0 as i32, cell.1 as i32, cell.2 as i32),
            steps: steps as u64,
        }
    }

    /// The outcome of the traversal from the place `m` on, with `left` steps
    /// left of which `taken` were taken. Each step leads into the next cell
    /// along the axis of the nearest boundary, and the cell is read: an
    /// empty voxel lets the traversal go on; air lets it skip on through the
    /// cell's macro-chunk; any other material ends it.
    pub open spec fn march(
        self,
        dims: Dims,
        entries: Seq<u32>,
        slots: Seq<Seq<u32>>,
        m: March,
        left: nat,
        taken: nat,
    ) -> Hit
        decreases left,
    {
        if left == 0 {
            miss(taken)
        } else {
            let code = material_at(dims, entries, slots, self.cell_after(m));
            if code == 0 {
                self.march(dims, entries, slots, self.advance(m), (left - 1) as nat, taken + 1)
            } else if code == AIR_MARKER {
                self.march(
                    dims,
                    entries,
                    slots,
                    self.skip(
                        dims,
                        self.advance(m),
                        chunk_of(dims, self.cell_after(m)),
                        dims.chunk_edge as nat,
                    ),
                    (left - 1) as nat,
                    taken + 1,
                )
            } else {
                self.hit_at(m, code, taken + 1)
            }
        }
    }

    /// What the ray finds in the world: the outcome of the traversal from
    /// its origin, with three steps for each voxel of the world's edge.
    pub open spec fn traced(self, dims: Dims, entries: Seq<u32>, slots: Seq<Seq<u32>>) -> Hit {
        self.march(dims, entries, slots, self.start(), (3 * dims.world_edge_voxels()) as nat, 0)
    }
}

/// The quotient and the remainder of `c` by `d`, the quotient rounded down.
fn floor_div(c: i128, d: u64) -> (r: (i128, u64))
    requires
        1 <= d,
        -0x1000_0000_0000_0000_0000_0000_0000_0000 <= c <= 0x1000_0000_0000_0000_0000_0000_0000_0000,
    ensures
        r.0 == (c as int) / (d as int),
        r.1 == (c as int) % (d as int),
{
    if c >= 0 {
        let q = (c as u128) / (d as u128);
        let m = (c as u128) % (d as u128);
        (q as i128, m as u64)
    } else {
        let n = (-(c + 1)) as u128;
        let q = n / (d as u128);
        let m = n % (d as u128);
        proof {
            lemma_fundamental_div_mod(n as int, d as int);
            lemma_mod_bound(n as int, d as int);
            assert(c == (-(q as int) - 1) * d + (d - 1 - m)) by (nonlinear_arith)
                requires
                    n == d * q + m,
                    c == -(n as int) - 1,
            ;
            lemma_fundamental_div_mod_converse(c as int, d as int, -(q as int) - 1, d - 1 - m);
        }
        (-(q as i128) - 1, d - 1 - (m as u64))
    }
}

/// The size of a component of a direction.
fn size_of(d: i32) -> (m: u128)
    requires
        -i32::MAX <= d,
    ensures
        m == magnitude(d as int),
{
    if d < 0 {
        (-d) as u128
    } else {
        d as u128
    }
}

/// The sign of a component of a direction.
fn sign_of(d: i32) -> (s: i128)
    ensures
        s == sign(d as int),
{
    if d < 0 {
        -1
    } else if d > 0 {
        1
    } else {
        0
    }
}

/// The axis of the next step.
fn choose_axis(mag: (u128, u128, u128), reach: (u128, u128, u128)) -> (axis: u8)
    requires
        reach.0 * mag.1 <= u128::MAX,
        reach.0 * mag.2 <= u128::MAX,
        reach.1 * mag.0 <= u128::MAX,
        reach.1 * mag.2 <= u128::MAX,
        reach.2 * mag.0 <= u128::MAX,
        reach.2 * mag.1 <= u128::MAX,
    ensures
        axis == next_axis(
            (mag.0 as int, mag.1 as int, mag.2 as int),
            (reach.0 as int, reach.1 as int, reach.2 as int),
        ),
        axis < 3,
{
    let y_before_z = mag.1 != 0 && (mag.2 == 0 || reach.1 * mag.2 < reach.2 * mag.1);
    let y_with_x = mag.0 == 0 || (mag.1 != 0 && reach.1 * mag.0 <= reach.0 * mag.1);
    let z_before_x = mag.2 != 0 && (mag.0 == 0 || reach.2 * mag.0 < reach.0 * mag.2);
    let z_with_y = mag.1 == 0 || (mag.2 != 0 && reach.2 * mag.1 <= reach.1 * mag.2);
    if y_before_z && y_with_x {
        1
    } else if z_before_x && z_with_y {
        2
    } else {
        0
    }
}

/// The most steps that a traversal can make, the skips through air counted.
pub const MAX_STEPS: u128 = 0x1_0000_0000_0000_0000;

/// Whether the place `m` can be reached with `total` steps from the start of
/// a well-formed ray: each coordinate of the cell is at most `total` away
/// from the bound on the origin, and each distance at most `total + 1` cells
/// long.
pub open spec fn within(ray: Ray, m: March, total: int) -> bool {
    &&& -MAX_COORD - total <= m.cell.0 <= MAX_COORD + total
    &&& -MAX_COORD - total <= m.cell.1 <= MAX_COORD + total
    &&& -MAX_COORD - total <= m.cell.2 <= MAX_COORD + total
    &&& 0 <= m.reach.0 <= ray.scale * (total + 1)
    &&& 0 <= m.reach.1 <= ray.scale * (total + 1)
    &&& 0 <= m.reach.2 <= ray.scale * (total + 1)
}

/// A place of the traversal in the numbers of the machine.
#[derive(Clone, Copy)]
struct Walk {
    cell: (i128, i128, i128),
    reach: (u128, u128, u128),
}

impl View for Walk {
    type V = March;

    closed spec fn view(&self) -> March {
        March {
            cell: (self.cell.0 as int, self.cell.1 as int, self.cell.2 as int),
            reach: (self.reach.0 as int, self.reach.1 as int, self.reach.2 as int),
        }
    }
}

/// Along one axis, the traversal begins in the cell of the origin, at most
/// one cell away from the first boundary.
proof fn lemma_start_axis(origin: int, scale: int, direction: int)
    requires
        1 <= scale,
        -MAX_COORD * scale <= origin < MAX_COORD * scale,
    ensures
        -MAX_COORD <= origin / scale < MAX_COORD,
        0 <= first_reach(origin, scale, direction) <= scale,
{
    lemma_fundamental_div_mod(origin, scale);
    lemma_mod_bound(origin, scale);
    let q = origin / scale;
    let r = origin % scale;
    assert(-MAX_COORD <= q < MAX_COORD) by (nonlinear_arith)
        requires
            origin == scale * q + r,
            0 <= r < scale,
            -MAX_COORD * scale <= origin < MAX_COORD * scale,
    ;
}

/// A distance times the size of a direction's component fits the machine's
/// numbers.
proof fn lemma_product(reach: int, scale: int, mag: int, total: int)
    by (nonlinear_arith)
    requires
        0 <= reach <= scale * (total + 1),
        0 <= mag,
        1 <= scale <= MAX_REACH,
        scale * mag <= MAX_REACH,
        0 <= total < MAX_STEPS,
    ensures
        0 <= reach * mag <= MAX_REACH * MAX_STEPS,
        0 <= reach <= MAX_REACH * MAX_STEPS,
{
    assert(reach * mag <= (scale * (total + 1)) * mag);
    assert((scale * (total + 1)) * mag == (scale * mag) * (total + 1));
    assert((scale * mag) * (total + 1) <= MAX_REACH * (total + 1));
}

impl Ray {
    /// A step leads from a place within `total` steps to one within
    /// `total + 1`.
    proof fn lemma_advance_within(self, m: March, total: int)
        requires
            self.wf(),
            within(self, m, total),
            0 <= total,
        ensures
            within(self, self.advance(m), total + 1),
            within(self, m, total + 1),
    {
        let s = self.scale as int;
        assert(s * (total + 1) + s == s * (total + 2)) by (nonlinear_arith);
    }

    /// The products that the choice of the axis compares fit the machine's
    /// numbers.
    proof fn lemma_products(self, m: March, total: int)
        requires
            self.wf(),
            within(self, m, total),
            0 <= total < MAX_STEPS,
        ensures
            m.reach.0 * self.mag().1 <= u128::MAX,
            m.reach.0 * self.mag().2 <= u128::MAX,
            m.reach.1 * self.mag().0 <= u128::MAX,
            m.reach.1 * self.mag().2 <= u128::MAX,
            m.reach.2 * self.mag().0 <= u128::MAX,
            m.reach.2 * self.mag().1 <= u128::MAX,
            0 <= m.reach.0 * self.mag().0 <= MAX_REACH * MAX_STEPS,
            0 <= m.reach.0 * self.mag().1 <= MAX_REACH * MAX_STEPS,
            0 <= m.reach.0 * self.mag().2 <= MAX_REACH * MAX_STEPS,
            0 <= m.reach.1 * self.mag().0 <= MAX_REACH * MAX_STEPS,
            0 <= m.reach.1 * self.mag().1 <= MAX_REACH * MAX_STEPS,
            0 <= m.reach.1 * self.mag().2 <= MAX_REACH * MAX_STEPS,
            0 <= m.reach.2 * self.mag().0 <= MAX_REACH * MAX_STEPS,
            0 <= m.reach.2 * self.mag().1 <= MAX_REACH * MAX_STEPS,
            0 <= m.reach.2 * self.mag().2 <= MAX_REACH * MAX_STEPS,
            m.reach.0 <= MAX_REACH * MAX_STEPS,
            m.reach.1 <= MAX_REACH * MAX_STEPS,
            m.reach.2 <= MAX_REACH * MAX_STEPS,
    {
        let s = self.scale as int;
        lemma_product(m.reach.0, s, self.mag().0, total);
        lemma_product(m.reach.0, s, self.mag().1, total);
        lemma_product(m.reach.0, s, self.mag().2, total);
        lemma_product(m.reach.1, s, self.mag().0, total);
        lemma_product(m.reach.1, s, self.mag().1, total);
        lemma_product(m.reach.1, s, self.mag().2, total);
        lemma_product(m.reach.2, s, self.mag().0, total);
        lemma_product(m.reach.2, s, self.mag().1, total);
        lemma_product(m.reach.2, s, self.mag().2, total);
    }

    /// The sizes of the direction's components.
    fn sizes(&self) -> (m: (u128, u128, u128))
        requires
            self.wf(),
        ensures
            (m.0 as int, m.1 as int, m.2 as int) == self.mag(),
    {
        (size_of(self.direction.0), size_of(self.direction.1), size_of(self.direction.2))
    }

    /// The place where the traversal begins.
    fn begin(&self) -> (w: Walk)
        requires
            self.wf(),
        ensures
            w@ == self.start(),
            within(*self, w@, 0),
    {
        proof {
            lemma_start_axis(self.origin.0 as int, self.scale as int, self.direction.0 as int);
            lemma_start_axis(self.origin.1 as int, self.scale as int, self.direction.1 as int);
            lemma_start_axis(self.origin.2 as int, self.scale as int, self.direction.2 as int);
            assert(MAX_COORD * self.scale <= MAX_COORD * MAX_REACH) by (nonlinear_arith)
                requires
                    self.scale <= MAX_REACH,
            ;
        }
        let x = floor_div(self.origin.0, self.scale);
        let y = floor_div(self.origin.1, self.scale);
        let z = floor_div(self.origin.2, self.scale);
        let s = self.scale as u128;
        Walk {
            cell: (x.0, y.0, z.0),
            reach: (
                if self.direction.0 > 0 {
                    s - x.1 as u128
                } else {
                    x.1 as u128
                },
                if self.direction.1 > 0 {
                    s - y.1 as u128
                } else {
                    y.1 as u128
                },
                if self.direction.2 > 0 {
                    s - z.1 as u128
                } else {
                    z.1 as u128
                },
            ),
        }
    }

    /// The axis of the step that follows the place `w`.
    fn axis_of(&self, w: Walk, Ghost(total): Ghost<int>) -> (axis: u8)
        requires
            self.wf(),
            within(*self, w@, total),
            0 <= total < MAX_STEPS,
        ensures
            axis == self.axis_at(w@),
            axis < 3,
    {
        proof {
            self.lemma_products(w@, total);
        }
        choose_axis(self.sizes(), w.reach)
    }

    /// The cell that the step along `axis` leads to.
    fn ahead(&self, w: Walk, axis: u8, Ghost(total): Ghost<int>) -> (cell: (i128, i128, i128))
        requires
            self.wf(),
            within(*self, w@, total),
            0 <= total < MAX_STEPS,
            axis == self.axis_at(w@),
        ensures
            (cell.0 as int, cell.1 as int, cell.2 as int) == self.cell_after(w@),
    {
        if axis == 0 {
            (w.cell.0 + sign_of(self.direction.0), w.cell.1, w.cell.2)
        } else if axis == 1 {
            (w.cell.0, w.cell.1 + sign_of(self.direction.1), w.cell.2)
        } else {
            (w.cell.0, w.cell.1, w.cell.2 + sign_of(self.direction.2))
        }
    }

    /// The place after the step along `axis`.
    fn stepped(&self, w: Walk, axis: u8, Ghost(total): Ghost<int>) -> (r: Walk)
        requires
            self.wf(),
            within(*self, w@, total),
            0 <= total < MAX_STEPS,
            axis == self.axis_at(w@),
        ensures
            r@ == self.advance(w@),
            within(*self, r@, total + 1),
    {
        proof {
            self.lemma_advance_within(w@, total);
            self.lemma_products(w@, total);
        }
        let cell = self.ahead(w, axis, Ghost(total));
        let s = self.scale as u128;
        let reach = if axis == 0 {
            (w.reach.0 + s, w.reach.1, w.reach.2)
        } else if axis == 1 {
            (w.reach.0, w.reach.1 + s, w.reach.2)
        } else {
            (w.reach.0, w.reach.1, w.reach.2 + s)
        };
        Walk { cell, reach }
    }
}

/// The macro-chunk that holds a cell.
fn chunk_at(dims: Dims, cell: (i128, i128, i128)) -> (chunk: (i128, i128, i128))
    requires
        dims.wf(),
        -MAX_COORD - MAX_STEPS <= cell.0 <= MAX_COORD + MAX_STEPS,
        -MAX_COORD - MAX_STEPS <= cell.1 <= MAX_COORD + MAX_STEPS,
        -MAX_COORD - MAX_STEPS <= cell.2 <= MAX_COORD + MAX_STEPS,
    ensures
        (chunk.0 as int, chunk.1 as int, chunk.2 as int) == chunk_of(
            dims,
            (cell.0 as int, cell.1 as int, cell.2 as int),
        ),
{
    let e = dims.chunk_edge as u64;
    (floor_div(cell.0, e).0, floor_div(cell.1, e).0, floor_div(cell.2, e).0)
}

/// A product of a bounded origin and the size of a direction's component
/// fits the machine's numbers.
proof fn lemma_origin_product(origin: int, scale: int, mag: int)
    by (nonlinear_arith)
    requires
        1 <= scale,
        -MAX_COORD * scale <= origin < MAX_COORD * scale,
        0 <= mag,
        scale * mag <= MAX_REACH,
    ensures
        -MAX_COORD * MAX_REACH <= origin * mag <= MAX_COORD * MAX_REACH,
{
    assert(origin * mag <= (MAX_COORD * scale) * mag);
    assert((-MAX_COORD * scale) * mag <= origin * mag);
    assert((MAX_COORD * scale) * mag == MAX_COORD * (scale * mag));
    assert((-MAX_COORD * scale) * mag == -MAX_COORD * (scale * mag));
}

/// A component of a direction times a distance is of the size of the
/// product of their sizes.
proof fn lemma_signed_product(d: int, r: int)
    by (nonlinear_arith)
    requires
        0 <= r,
    ensures
        -(magnitude(d) * r) <= d * r <= magnitude(d) * r,
        magnitude(d) * r == r * magnitude(d),
{
}

/// The steps of a traversal stay below the bound, the skips through air
/// counted.
proof fn lemma_steps(i: int, e: int, w: int)
    by (nonlinear_arith)
    requires
        0 <= i < 3 * w,
        1 <= e <= i32::MAX,
        w <= i32::MAX,
    ensures
        i * (e + 1) + (e + 1) == (i + 1) * (e + 1),
        (i + 1) * (e + 1) < MAX_STEPS,
{
    assert((i + 1) * (e + 1) <= (3 * 0x7fff_ffff) * 0x8000_0000);
}

impl Ray {
    /// The outcome of a ray whose step along `axis` from the place `w` leads
    /// into the voxel `cell` of the material `code`.
    fn hit_from(
        &self,
        w: Walk,
        axis: u8,
        cell: (i128, i128, i128),
        code: u32,
        steps: u64,
        Ghost(total): Ghost<int>,
    ) -> (hit: Hit)
        requires
            self.wf(),
            within(*self, w@, total),
            0 <= total < MAX_STEPS,
            axis == self.axis_at(w@),
            (cell.0 as int, cell.1 as int, cell.2 as int) == self.cell_after(w@),
            0 <= cell.0 <= i32::MAX && 0 <= cell.1 <= i32::MAX && 0 <= cell.2 <= i32::MAX,
        ensures
            hit == self.hit_at(w@, code, steps as nat),
    {
        let mag = self.sizes();
        let d = if axis == 0 {
            mag.0
        } else if axis == 1 {
            mag.1
        } else {
            mag.2
        };
        let r = if axis == 0 {
            w.reach.0
        } else if axis == 1 {
            w.reach.1
        } else {
            w.reach.2
        };
        let toward = if axis == 0 {
            sign_of(self.direction.0)
        } else if axis == 1 {
            sign_of(self.direction.1)
        } else {
            sign_of(self.direction.2)
        };
        proof {
            self.lemma_products(w@, total);
            lemma_origin_product(self.origin.0 as int, self.scale as int, d as int);
            lemma_origin_product(self.origin.1 as int, self.scale as int, d as int);
            lemma_origin_product(self.origin.2 as int, self.scale as int, d as int);
            lemma_signed_product(self.direction.0 as int, r as int);
            lemma_signed_product(self.direction.1 as int, r as int);
            lemma_signed_product(self.direction.2 as int, r as int);
        }
        let di = d as i128;
        let ri = r as i128;
        let back = (-toward) as i32;
        Hit {
            position: (
                self.origin.0 * di + (self.direction.0 as i128) * ri,
                self.origin.1 * di + (self.direction.1 as i128) * ri,
                self.origin.2 * di + (self.direction.2 as i128) * ri,
            ),
            scale: ((self.scale as u128) * d) as u64,
            normal: if axis == 0 {
                (back, 0, 0)
            } else if axis == 1 {
                (0, back, 0)
            } else {
                (0, 0, back)
            },
            material: code,
            is_air: code == 1,
            cell: (cell.0 as i32, cell.1 as i32, cell.2 as i32),
            steps,
        }
    }

    /// Skips on through the macro-chunk `first`: steps without reading a
    /// voxel, until the traversal stands in another macro-chunk or has made
    /// as many steps as a macro-chunk is wide.
    fn skip_from(
        &self,
        dims: Dims,
        start: Walk,
        first: (i128, i128, i128),
        Ghost(total): Ghost<int>,
    ) -> (w: Walk)
        requires
            self.wf(),
            dims.wf(),
            within(*self, start@, total),
            0 <= total,
            total + dims.chunk_edge < MAX_STEPS,
        ensures
            w@ == self.skip(
                dims,
                start@,
                (first.0 as int, first.1 as int, first.2 as int),
                dims.chunk_edge as nat,
            ),
            within(*self, w@, total + dims.chunk_edge),
    {
        let e = dims.chunk_edge;
        let ghost f = (first.0 as int, first.1 as int, first.2 as int);
        let mut w = start;
        let mut moves: usize = 0;
        while moves < e
            invariant_except_break
                self.skip(dims, start@, f, e as nat) == self.skip(
                    dims,
                    w@,
                    f,
                    (e - moves) as nat,
                ),
            invariant
                0 <= moves <= e,
                e == dims.chunk_edge,
                self.wf(),
                dims.wf(),
                0 <= total,
                total + e < MAX_STEPS,
                f == (first.0 as int, first.1 as int, first.2 as int),
                within(*self, w@, total + moves),
            ensures
                self.skip(dims, start@, f, e as nat) == w@,
            decreases e - moves,
        {
            let here = chunk_at(dims, w.cell);
            if here.0 != first.0 || here.1 != first.1 || here.2 != first.2 {
                break ;
            }
            let axis = self.axis_of(w, Ghost(total + moves));
            w = self.stepped(w, axis, Ghost(total + moves));
            moves += 1;
        }
        proof {
            self.lemma_within_more(w@, total + moves, total + e);
        }
        w
    }

    /// A place within some number of steps is within any larger number.
    proof fn lemma_within_more(self, m: March, total: int, more: int)
        requires
            within(self, m, total),
            0 <= total <= more,
        ensures
            within(self, m, more),
    {
        let s = self.scale as int;
        assert(s * (total + 1) <= s * (more + 1)) by (nonlinear_arith)
            requires
                0 <= s,
                total <= more,
        ;
    }
}

/// Along one axis, the distance that a place holds is the distance from the
/// origin to the boundary through which the ray leaves the place's cell; along
/// an axis on which the ray does not move, the place stays in the origin's
/// cell.
pub open spec fn anchored(origin: int, scale: int, direction: int, cell: int, reach: int) -> bool {
    &&& reach >= 0
    &&& if direction > 0 {
        origin + reach == scale * (cell + 1)
    } else if direction < 0 {
        origin - reach == scale * cell
    } else {
        cell == origin / scale && reach == origin % scale
    }
}

/// The ray reaches the next boundary of axis `a` no earlier than it entered
/// the place's cell along axis `b`.
pub open spec fn paced(ra: int, ma: int, rb: int, mb: int, scale: int) -> bool {
    ra * mb >= (rb - scale) * ma
}

/// Whether a place lies on the ray: each distance belongs to its cell
/// boundary, and the ray passes through the place's cell.
pub open spec fn sound(ray: Ray, m: March) -> bool {
    let s = ray.scale as int;
    let d = ray.dir();
    let g = ray.mag();
    &&& anchored(ray.origin.0 as int, s, d.0, m.cell.0, m.reach.0)
    &&& anchored(ray.origin.1 as int, s, d.1, m.cell.1, m.reach.1)
    &&& anchored(ray.origin.2 as int, s, d.2, m.cell.2, m.reach.2)
    &&& paced(m.reach.0, g.0, m.reach.1, g.1, s)
    &&& paced(m.reach.0, g.0, m.reach.2, g.2, s)
    &&& paced(m.reach.1, g.1, m.reach.0, g.0, s)
    &&& paced(m.reach.1, g.1, m.reach.2, g.2, s)
    &&& paced(m.reach.2, g.2, m.reach.0, g.0, s)
    &&& paced(m.reach.2, g.2, m.reach.1, g.1, s)
}

/// Whether the position of a hit lies on the voxel that was hit, on the
/// face that the normal names.
pub open spec fn on_face(h: Hit) -> bool {
    &&& 1 <= h.scale
    &&& (h.normal.0 != 0 && h.normal.1 == 0 && h.normal.2 == 0) || (h.normal.0 == 0 && h.normal.1
        != 0 && h.normal.2 == 0) || (h.normal.0 == 0 && h.normal.1 == 0 && h.normal.2 != 0)
    &&& face_part(h.scale as int, h.cell.0 as int, h.normal.0 as int, h.position.0 as int)
    &&& face_part(h.scale as int, h.cell.1 as int, h.normal.1 as int, h.position.1 as int)
    &&& face_part(h.scale as int, h.cell.2 as int, h.normal.2 as int, h.position.2 as int)
}

/// Along one axis: the position lies between the two ends of the voxel, at
/// the lower end where the normal points down and at the upper end where it
/// points up.
pub open spec fn face_part(scale: int, cell: int, normal: int, position: int) -> bool {
    &&& -1 <= normal <= 1
    &&& scale * cell <= position <= scale * (cell + 1)
    &&& normal == -1 ==> position == scale * cell
    &&& normal == 1 ==> position == scale * (cell + 1)
}

/// The axis of the next step is one along which the ray moves, and the ray
/// reaches its next boundary no later than that of any axis.
proof fn lemma_axis_nearest(mag: (int, int, int), reach: (int, int, int))
    requires
        0 <= mag.0 && 0 <= mag.1 && 0 <= mag.2,
        mag != (0int, 0int, 0int),
    ensures
        0 <= next_axis(mag, reach) < 3,
        part(mag, next_axis(mag, reach)) != 0,
        as_near(part(reach, next_axis(mag, reach)), part(mag, next_axis(mag, reach)), reach.0, mag.0),
        as_near(part(reach, next_axis(mag, reach)), part(mag, next_axis(mag, reach)), reach.1, mag.1),
        as_near(part(reach, next_axis(mag, reach)), part(mag, next_axis(mag, reach)), reach.2, mag.2),
{
    if as_near(reach.2, mag.2, reach.1, mag.1) && nearer(reach.1, mag.1, reach.0, mag.0) {
        lemma_nearer_chain(reach.2, mag.2, reach.1, mag.1, reach.0, mag.0);
    }
    if nearer(reach.1, mag.1, reach.2, mag.2) && nearer(reach.2, mag.2, reach.0, mag.0) {
        lemma_nearer_chain(reach.1, mag.1, reach.2, mag.2, reach.0, mag.0);
    }
}

/// Where the ray reaches the boundary of `a` no later than that of `b`, and
/// that of `b` before that of `c`, it reaches that of `a` before that of
/// `c`.
proof fn lemma_nearer_chain(ra: int, ma: int, rb: int, mb: int, rc: int, mc: int)
    requires
        0 <= ma,
        0 <= mb,
        0 <= mc,
        as_near(ra, ma, rb, mb),
        nearer(rb, mb, rc, mc),
    ensures
        nearer(ra, ma, rc, mc),
{
    if mc != 0 {
        assert(ra * mc < rc * ma) by (nonlinear_arith)
            requires
                0 < ma,
                0 < mb,
                0 < mc,
                ra * mb <= rb * ma,
                rb * mc < rc * mb,
        {
            assert((ra * mb) * mc <= (rb * ma) * mc);
            assert((rb * mc) * ma < (rc * mb) * ma);
            assert((ra * mc) * mb < (rc * ma) * mb);
        }
    }
}

/// A step along an axis keeps the distance of that axis with its boundary.
proof fn lemma_step_anchor(origin: int, scale: int, direction: int, cell: int, reach: int)
    by (nonlinear_arith)
    requires
        direction != 0,
        0 <= scale,
        anchored(origin, scale, direction, cell, reach),
    ensures
        anchored(origin, scale, direction, cell + sign(direction), reach + scale),
{
}

/// A step along the axis `a` of the nearest boundary keeps the pace of `a`
/// and any other axis `b`.
proof fn lemma_step_paced(ra: int, ma: int, rb: int, mb: int, scale: int)
    by (nonlinear_arith)
    requires
        0 <= ma,
        0 <= mb,
        0 <= scale,
        0 <= rb,
        paced(ra, ma, rb, mb, scale),
        as_near(ra, ma, rb, mb),
    ensures
        paced(ra + scale, ma, rb, mb, scale),
        paced(rb, mb, ra + scale, ma, scale),
{
}

/// Where the ray enters the next cell along the axis `a` of the nearest
/// boundary, along `a` itself: at the end of the cell that faces the ray.
proof fn lemma_entry_along(origin: int, scale: int, direction: int, cell: int, reach: int)
    by (nonlinear_arith)
    requires
        direction != 0,
        1 <= scale,
        anchored(origin, scale, direction, cell, reach),
    ensures
        face_part(
            scale * magnitude(direction),
            cell + sign(direction),
            -sign(direction),
            origin * magnitude(direction) + direction * reach,
        ),
{
}

/// Where the ray enters the next cell along the axis `a` of the nearest
/// boundary, along another axis `b`: between the two ends of the cell.
proof fn lemma_entry_across(
    origin: int,
    scale: int,
    db: int,
    cell: int,
    rb: int,
    ra: int,
    ma: int,
)
    requires
        1 <= scale,
        1 <= ma,
        0 <= ra,
        anchored(origin, scale, db, cell, rb),
        paced(ra, ma, rb, magnitude(db), scale),
        as_near(ra, ma, rb, magnitude(db)),
    ensures
        face_part(scale * ma, cell, 0, origin * ma + db * ra),
{
    let mb = magnitude(db);
    if db == 0 {
        lemma_fundamental_div_mod(origin, scale);
        lemma_mod_bound(origin, scale);
        let rem = origin % scale;
        assert(scale * ma * cell <= origin * ma + db * ra <= scale * ma * (cell + 1))
            by (nonlinear_arith)
            requires
                origin == scale * cell + rem,
                0 <= rem < scale,
                1 <= ma,
                db == 0,
        ;
    } else if db > 0 {
        assert(scale * ma * cell <= origin * ma + db * ra <= scale * ma * (cell + 1))
            by (nonlinear_arith)
            requires
                origin + rb == scale * (cell + 1),
                ra * db >= (rb - scale) * ma,
                ra * db <= rb * ma,
        ;
    } else {
        assert(scale * ma * cell <= origin * ma + db * ra <= scale * ma * (cell + 1))
            by (nonlinear_arith)
            requires
                origin - rb == scale * cell,
                ra * (-db) >= (rb - scale) * ma,
                ra * (-db) <= rb * ma,
        ;
    }
}

impl Ray {
    /// The start of a ray lies on the ray.
    proof fn lemma_start_sound(self)
        requires
            self.wf(),
        ensures
            sound(self, self.start()),
    {
        let s = self.scale as int;
        let m = self.start();
        let g = self.mag();
        lemma_fundamental_div_mod(self.origin.0 as int, s);
        lemma_fundamental_div_mod(self.origin.1 as int, s);
        lemma_fundamental_div_mod(self.origin.2 as int, s);
        lemma_mod_bound(self.origin.0 as int, s);
        lemma_mod_bound(self.origin.1 as int, s);
        lemma_mod_bound(self.origin.2 as int, s);
        lemma_first_anchor(self.origin.0 as int, s, self.dir().0);
        lemma_first_anchor(self.origin.1 as int, s, self.dir().1);
        lemma_first_anchor(self.origin.2 as int, s, self.dir().2);
        lemma_first_pace(m.reach.0, g.0, m.reach.1, g.1, s);
        lemma_first_pace(m.reach.0, g.0, m.reach.2, g.2, s);
        lemma_first_pace(m.reach.1, g.1, m.reach.0, g.0, s);
        lemma_first_pace(m.reach.1, g.1, m.reach.2, g.2, s);
        lemma_first_pace(m.reach.2, g.2, m.reach.0, g.0, s);
        lemma_first_pace(m.reach.2, g.2, m.reach.1, g.1, s);
    }

    /// A step leads from a place on the ray to a place on the ray.
    proof fn lemma_advance_sound(self, m: March)
        requires
            self.wf(),
            sound(self, m),
        ensures
            sound(self, self.advance(m)),
    {
        let s = self.scale as int;
        let g = self.mag();
        let d = self.dir();
        let r = m.reach;
        lemma_axis_nearest(g, r);
        let a = self.axis_at(m);
        if a == 0 {
            lemma_step_anchor(self.origin.0 as int, s, d.0, m.cell.0, r.0);
            lemma_step_paced(r.0, g.0, r.1, g.1, s);
            lemma_step_paced(r.0, g.0, r.2, g.2, s);
        } else if a == 1 {
            lemma_step_anchor(self.origin.1 as int, s, d.1, m.cell.1, r.1);
            lemma_step_paced(r.1, g.1, r.0, g.0, s);
            lemma_step_paced(r.1, g.1, r.2, g.2, s);
        } else {
            lemma_step_anchor(self.origin.2 as int, s, d.2, m.cell.2, r.2);
            lemma_step_paced(r.2, g.2, r.0, g.0, s);
            lemma_step_paced(r.2, g.2, r.1, g.1, s);
        }
    }

    /// A skip leads from a place on the ray to a place on the ray, within
    /// as many more steps as the skip may make.
    proof fn lemma_skip_sound(
        self,
        dims: Dims,
        m: March,
        first: (int, int, int),
        moves: nat,
        total: int,
    )
        requires
            self.wf(),
            sound(self, m),
            within(self, m, total),
            0 <= total,
        ensures
            sound(self, self.skip(dims, m, first, moves)),
            within(self, self.skip(dims, m, first, moves), total + moves),
        decreases moves,
    {
        if moves == 0 || chunk_of(dims, m.cell) != first {
            self.lemma_within_more(m, total, total + moves);
        } else {
            self.lemma_advance_sound(m);
            self.lemma_advance_within(m, total);
            self.lemma_skip_sound(dims, self.advance(m), first, (moves - 1) as nat, total + 1);
        }
    }

    /// The position of a hit lies on the voxel that was hit, on the face
    /// that the normal names, and the hit holds the numbers that describe it
    /// without loss.
    proof fn lemma_hit_on_face(self, m: March, code: u32, steps: nat, total: int)
        requires
            self.wf(),
            sound(self, m),
            within(self, m, total),
            0 <= total < MAX_STEPS,
            0 <= self.cell_after(m).0 <= i32::MAX,
            0 <= self.cell_after(m).1 <= i32::MAX,
            0 <= self.cell_after(m).2 <= i32::MAX,
        ensures
            on_face(self.hit_at(m, code, steps)),
            (
                self.hit_at(m, code, steps).cell.0 as int,
                self.hit_at(m, code, steps).cell.1 as int,
                self.hit_at(m, code, steps).cell.2 as int,
            ) == self.cell_after(m),
    {
        let s = self.scale as int;
        let g = self.mag();
        let d = self.dir();
        let r = m.reach;
        let o = (self.origin.0 as int, self.origin.1 as int, self.origin.2 as int);
        lemma_axis_nearest(g, r);
        self.lemma_products(m, total);
        let a = self.axis_at(m);
        let ga = part(g, a);
        let ra = part(r, a);
        lemma_origin_product(o.0, s, ga);
        lemma_origin_product(o.1, s, ga);
        lemma_origin_product(o.2, s, ga);
        lemma_signed_product(d.0, ra);
        lemma_signed_product(d.1, ra);
        lemma_signed_product(d.2, ra);
        assert(1 <= s * ga) by (nonlinear_arith)
            requires
                1 <= s,
                1 <= ga,
        ;
        if a == 0 {
            lemma_entry_along(o.0, s, d.0, m.cell.0, r.0);
            lemma_entry_across(o.1, s, d.1, m.cell.1, r.1, ra, ga);
            lemma_entry_across(o.2, s, d.2, m.cell.2, r.2, ra, ga);
        } else if a == 1 {
            lemma_entry_across(o.0, s, d.0, m.cell.0, r.0, ra, ga);
            lemma_entry_along(o.1, s, d.1, m.cell.1, r.1);
            lemma_entry_across(o.2, s, d.2, m.cell.2, r.2, ra, ga);
        } else {
            lemma_entry_across(o.0, s, d.0, m.cell.0, r.0, ra, ga);
            lemma_entry_across(o.1, s, d.1, m.cell.1, r.1, ra, ga);
            lemma_entry_along(o.2, s, d.2, m.cell.2, r.2);
        }
    }
}

/// At the start each distance belongs to a boundary of the origin's cell.
proof fn lemma_first_anchor(origin: int, scale: int, direction: int)
    requires
        1 <= scale,
    ensures
        anchored(origin, scale, direction, origin / scale, first_reach(origin, scale, direction)),
        0 <= first_reach(origin, scale, direction) <= scale,
{
    lemma_fundamental_div_mod(origin, scale);
    lemma_mod_bound(origin, scale);
    let q = origin / scale;
    assert(scale * (q + 1) == scale * q + scale) by (nonlinear_arith);
}

/// At the start no boundary lies more than one cell away, so each pair of
/// axes keeps pace.
proof fn lemma_first_pace(ra: int, ma: int, rb: int, mb: int, scale: int)
    by (nonlinear_arith)
    requires
        0 <= ra,
        0 <= ma,
        0 <= mb,
        rb <= scale,
    ensures
        paced(ra, ma, rb, mb, scale),
{
}

/// What holds of the outcome `h` of every traversal of at most `limit`
/// steps. It made no more steps than that. Where it found nothing, it used
/// up its steps. Where it found a voxel, the voxel lies in the world and
/// reads as the material of the hit, which is neither empty nor air, and the
/// position lies on the face of the voxel that the normal names.
pub open spec fn outcome_ok(
    dims: Dims,
    entries: Seq<u32>,
    slots: Seq<Seq<u32>>,
    h: Hit,
    limit: int,
) -> bool {
    &&& h.steps <= limit
    &&& h.material != AIR_MARKER
    &&& h.material == 0 ==> h == miss(limit as nat)
    &&& h.material != 0 ==> {
        &&& 1 <= h.steps
        &&& h.is_air == (h.material == 1)
        &&& in_cube(h.cell.0 as int, h.cell.1 as int, h.cell.2 as int, dims.world_edge_voxels())
        &&& material_at(
            dims,
            entries,
            slots,
            (h.cell.0 as int, h.cell.1 as int, h.cell.2 as int),
        ) == h.material
        &&& on_face(h)
        &&& h.scale <= MAX_REACH
    }
}

impl Ray {
    /// The outcome of the traversal from a place on the ray is as
    /// `outcome_ok` says.
    proof fn lemma_march_outcome(
        self,
        dims: Dims,
        entries: Seq<u32>,
        slots: Seq<Seq<u32>>,
        m: March,
        left: nat,
        taken: nat,
        total: int,
    )
        requires
            self.wf(),
            dims.wf(),
            sound(self, m),
            within(self, m, total),
            0 <= total <= taken * (dims.chunk_edge + 1),
            taken + left == 3 * dims.world_edge_voxels(),
        ensures
            outcome_ok(
                dims,
                entries,
                slots,
                self.march(dims, entries, slots, m, left, taken),
                3 * dims.world_edge_voxels(),
            ),
        decreases left,
    {
        dims.lemma_edges();
        if left > 0 {
            let e = dims.chunk_edge as int;
            lemma_steps(taken as int, e, dims.world_edge_voxels());
            let cell = self.cell_after(m);
            let code = material_at(dims, entries, slots, cell);
            self.lemma_advance_sound(m);
            self.lemma_advance_within(m, total);
            if code == 0 {
                self.lemma_within_more(self.advance(m), total + 1, total + 1 + e);
                self.lemma_march_outcome(
                    dims,
                    entries,
                    slots,
                    self.advance(m),
                    (left - 1) as nat,
                    taken + 1,
                    total + 1 + e,
                );
            } else if code == AIR_MARKER {
                let first = chunk_of(dims, cell);
                self.lemma_skip_sound(dims, self.advance(m), first, e as nat, total + 1);
                self.lemma_march_outcome(
                    dims,
                    entries,
                    slots,
                    self.skip(dims, self.advance(m), first, e as nat),
                    (left - 1) as nat,
                    taken + 1,
                    total + 1 + e,
                );
            } else {
                self.lemma_hit_on_face(m, code, taken + 1, total);
                lemma_axis_nearest(self.mag(), m.reach);
            }
        }
    }

    /// Where every cell reads as empty or as air, the traversal from any place
    /// finds nothing.
    proof fn lemma_march_nothing(
        self,
        dims: Dims,
        entries: Seq<u32>,
        slots: Seq<Seq<u32>>,
        m: March,
        left: nat,
        taken: nat,
    )
        requires
            forall|c: (int, int, int)|
                #[trigger] material_at(dims, entries, slots, c) == 0 || material_at(
                    dims,
                    entries,
                    slots,
                    c,
                ) == AIR_MARKER,
        ensures
            self.march(dims, entries, slots, m, left, taken) == miss(taken + left),
        decreases left,
    {
        if left > 0 {
            let code = material_at(dims, entries, slots, self.cell_after(m));
            if code == 0 {
                self.lemma_march_nothing(
                    dims,
                    entries,
                    slots,
                    self.advance(m),
                    (left - 1) as nat,
                    taken + 1,
                );
            } else {
                self.lemma_march_nothing(
                    dims,
                    entries,
                    slots,
                    self.skip(
                        dims,
                        self.advance(m),
                        chunk_of(dims, self.cell_after(m)),
                        dims.chunk_edge as nat,
                    ),
                    (left - 1) as nat,
                    taken + 1,
                );
            }
        }
    }

    /// In a world in which every cell reads as empty or as air, a ray finds
    /// nothing, whatever its origin and direction.
    pub proof fn lemma_nothing_to_hit(self, dims: Dims, entries: Seq<u32>, slots: Seq<Seq<u32>>)
        requires
            dims.wf(),
            forall|c: (int, int, int)|
                #[trigger] material_at(dims, entries, slots, c) == 0 || material_at(
                    dims,
                    entries,
                    slots,
                    c,
                ) == AIR_MARKER,
        ensures
            self.traced(dims, entries, slots) == miss((3 * dims.world_edge_voxels()) as nat),
    {
        dims.lemma_edges();
        self.lemma_march_nothing(
            dims,
            entries,
            slots,
            self.start(),
            (3 * dims.world_edge_voxels()) as nat,
            0,
        );
    }

    /// What a ray finds is as `outcome_ok` says: in particular no traversal
    /// makes more than three steps for each voxel of the world's edge.
    pub proof fn lemma_traced(self, dims: Dims, entries: Seq<u32>, slots: Seq<Seq<u32>>)
        requires
            self.wf(),
            dims.wf(),
        ensures
            outcome_ok(
                dims,
                entries,
                slots,
                self.traced(dims, entries, slots),
                3 * dims.world_edge_voxels(),
            ),
    {
        self.lemma_start_sound();
        lemma_start_axis(self.origin.0 as int, self.scale as int, self.direction.0 as int);
        lemma_start_axis(self.origin.1 as int, self.scale as int, self.direction.1 as int);
        lemma_start_axis(self.origin.2 as int, self.scale as int, self.direction.2 as int);
        dims.lemma_edges();
        self.lemma_march_outcome(
            dims,
            entries,
            slots,
            self.start(),
            (3 * dims.world_edge_voxels()) as nat,
            0,
            0,
        );
    }
}

/// Casts the ray through the world and tells what it finds.
///
/// The traversal begins in the cell of the ray's origin and makes at most
/// three steps for each voxel of the world's edge. Each step leads into the
/// next cell along the axis whose cell boundary the ray reaches first. A
/// voxel that is neither empty nor air ends the traversal: the hit names the
/// voxel, its material, the point where the ray enters it and the face that
/// the point lies on. Through a macro-chunk of air the traversal skips on
/// without reading voxels, up to one chunk edge of steps; the cell that the
/// skip ends in is not read either. A ray that uses up its steps has found
/// nothing.
pub fn trace(chunk_mapping: &ChunkMapping, voxels: &Voxels, ray: &Ray) -> (hit: Hit)
    requires
        world_wf(chunk_mapping, voxels),
        ray.wf(),
    ensures
        hit == ray.traced(voxels.dims(), chunk_mapping@, voxels@),
        hit.steps <= 3 * voxels.dims().world_edge_voxels(),
        outcome_ok(
            voxels.dims(),
            chunk_mapping@,
            voxels@,
            hit,
            3 * voxels.dims().world_edge_voxels(),
        ),
{
    let dims = voxels.dims();
    proof {
        voxels.lemma_wf();
        dims.lemma_edges();
        ray.lemma_traced(dims, chunk_mapping@, voxels@);
    }
    let e = dims.chunk_edge;
    let limit: u64 = 3 * (dims.edge_voxels() as u64);
    let ghost entries = chunk_mapping@;
    let ghost slots = voxels@;
    let mut w = ray.begin();
    let ghost mut total: int = 0;
    let mut i: u64 = 0;
    while i < limit
        invariant
            0 <= i <= limit,
            limit == 3 * dims.world_edge_voxels(),
            dims.world_edge_voxels() <= i32::MAX,
            1 <= e <= i32::MAX,
            e == dims.chunk_edge,
            dims.wf(),
            dims == voxels.dims(),
            world_wf(chunk_mapping, voxels),
            entries == chunk_mapping@,
            slots == voxels@,
            ray.wf(),
            within(*ray, w@, total),
            0 <= total <= i * (e + 1),
            outcome_ok(dims, entries, slots, ray.traced(dims, entries, slots), limit as int),
            ray.traced(dims, entries, slots) == ray.march(
                dims,
                entries,
                slots,
                w@,
                (limit - i) as nat,
                i as nat,
            ),
        decreases limit - i,
    {
        proof {
            lemma_steps(i as int, e as int, dims.world_edge_voxels());
        }
        let axis = ray.axis_of(w, Ghost(total));
        let cell = ray.ahead(w, axis, Ghost(total));
        let code = voxel_unit_at(chunk_mapping, voxels, cell);
        if code != 0 && code != AIR_MARKER {
            return ray.hit_from(w, axis, cell, code, i + 1, Ghost(total));
        }
        w = ray.stepped(w, axis, Ghost(total));
        proof {
            total = total + 1;
        }
        if code == AIR_MARKER {
            let first = chunk_at(dims, cell);
            w = ray.skip_from(dims, w, first, Ghost(total));
            proof {
                total = total + e;
            }
        }
        i += 1;
    }
    Hit {
        position: (0, 0, 0),
        scale: 1,
        normal: (0, 0, 0),
        material: 0,
        is_air: true,
        cell: (0, 0, 0),
        steps: i,
    }
}

/// How a sample of the screen is shaded.
#[derive(Clone, Copy, Debug, PartialEq, Eq)]
pub enum Shade {
    /// The ray found nothing: the sample shows the sky.
    Sky,
    /// The ray hit a voxel of this material that the light reaches.
    Lit(u32),
    /// The ray hit a voxel of this material that lies in shadow: the sample
    /// shows the material at half its intensity.
    Shadowed(u32),
}

/// The ray from a hit towards the light. It begins one voxel in front of the
/// face that was hit and runs against the diagonal `(1, 1, 1)`.
pub open spec fn shadow_ray(h: Hit) -> Ray {
    Ray {
        origin: (
            (h.position.0 + h.normal.0 * h.scale) as i128,
            (h.position.1 + h.normal.1 * h.scale) as i128,
            (h.position.2 + h.normal.2 * h.scale) as i128,
        ),
        scale: h.scale,
        direction: (-1i32, -1i32, -1i32),
    }
}

/// How the sample that a ray stands for is shaded: the sky where the ray
/// finds nothing; else the material of the hit, in shadow where a second ray
/// from the hit towards the light hits a voxel too. The second ray casts no
/// third.
pub open spec fn shaded(ray: Ray, dims: Dims, entries: Seq<u32>, slots: Seq<Seq<u32>>) -> Shade {
    let h = ray.traced(dims, entries, slots);
    if h.is_air {
        Shade::Sky
    } else if shadow_ray(h).traced(dims, entries, slots).is_air {
        Shade::Lit(h.material)
    } else {
        Shade::Shadowed(h.material)
    }
}

/// The ray from a hit towards the light is one that can be cast.
proof fn lemma_shadow_ray(dims: Dims, h: Hit)
    requires
        dims.wf(),
        on_face(h),
        h.scale <= MAX_REACH,
        in_cube(h.cell.0 as int, h.cell.1 as int, h.cell.2 as int, dims.world_edge_voxels()),
    ensures
        shadow_ray(h).wf(),
        shadow_ray(h).origin.0 == h.position.0 + h.normal.0 * h.scale,
        shadow_ray(h).origin.1 == h.position.1 + h.normal.1 * h.scale,
        shadow_ray(h).origin.2 == h.position.2 + h.normal.2 * h.scale,
{
    let s = h.scale as int;
    lemma_shadow_part(s, h.cell.0 as int, h.normal.0 as int, h.position.0 as int);
    lemma_shadow_part(s, h.cell.1 as int, h.normal.1 as int, h.position.1 as int);
    lemma_shadow_part(s, h.cell.2 as int, h.normal.2 as int, h.position.2 as int);
}

/// Along one axis, the origin of the ray towards the light lies within the
/// bound on origins.
proof fn lemma_shadow_part(scale: int, cell: int, normal: int, position: int)
    by (nonlinear_arith)
    requires
        1 <= scale <= MAX_REACH,
        0 <= cell <= i32::MAX,
        face_part(scale, cell, normal, position),
    ensures
        -MAX_COORD * scale <= position + normal * scale < MAX_COORD * scale,
        -MAX_COORD * MAX_REACH <= position + normal * scale < MAX_COORD * MAX_REACH,
        -MAX_REACH <= normal * scale <= MAX_REACH,
        scale * magnitude(-1) <= MAX_REACH,
{
    assert(scale * (cell + 1) + scale <= scale * 0x1_0000_0000);
    assert(scale * cell >= 0);
    assert(normal * scale >= -scale && normal * scale <= scale);
    assert(MAX_COORD * scale <= MAX_COORD * MAX_REACH);
}

/// Shades the sample that the ray stands for: casts the ray, and from a hit
/// a second ray towards the light.
pub fn shade(chunk_mapping: &ChunkMapping, voxels: &Voxels, ray: &Ray) -> (s: Shade)
    requires
        world_wf(chunk_mapping, voxels),
        ray.wf(),
    ensures
        s == shaded(*ray, voxels.dims(), chunk_mapping@, voxels@),
{
    let hit = trace(chunk_mapping, voxels, ray);
    if hit.is_air {
        return Shade::Sky;
    }
    proof {
        voxels.lemma_wf();
        lemma_shadow_ray(voxels.dims(), hit);
        lemma_shadow_part(hit.scale as int, hit.cell.0 as int, hit.normal.0 as int, hit.position.0 as int);
        lemma_shadow_part(hit.scale as int, hit.cell.1 as int, hit.normal.1 as int, hit.position.1 as int);
        lemma_shadow_part(hit.scale as int, hit.cell.2 as int, hit.normal.2 as int, hit.position.2 as int);
    }
    let scale = hit.scale as i128;
    let second = Ray {
        origin: (
            hit.position.0 + (hit.normal.0 as i128) * scale,
            hit.position.1 + (hit.normal.1 as i128) * scale,
            hit.position.2 + (hit.normal.2 as i128) * scale,
        ),
        scale: hit.scale,
        direction: (-1, -1, -1),
    };
    if trace(chunk_mapping, voxels, &second).is_air {
        Shade::Lit(hit.material)
    } else {
        Shade::Shadowed(hit.material)
    }
}

impl Ray {
    /// The ray from the point `origin / scale` along `direction`, where the
    /// three are within the limits: the scale is positive and at most
    /// `MAX_REACH`, as is its product with the size of each component of the
    /// direction; the direction is not the zero vector; and each coordinate
    /// of the origin lies within `MAX_COORD` voxels of 0.
    pub fn new(origin: (i128, i128, i128), scale: u64, direction: (i32, i32, i32)) -> (r: Option<Ray>)
        ensures
            (Ray { origin, scale, direction }).wf() ==> r == Some(Ray { origin, scale, direction }),
            !(Ray { origin, scale, direction }).wf() ==> r is None,
    {
        if scale < 1 || scale > MAX_REACH {
            return None;
        }
        if direction.0 == 0 && direction.1 == 0 && direction.2 == 0 {
            return None;
        }
        if !component_ok(origin.0, scale, direction.0) || !component_ok(origin.1, scale, direction.1)
            || !component_ok(origin.2, scale, direction.2) {
            return None;
        }
        Some(Ray { origin, scale, direction })
    }
}

/// Whether a component of an origin and the same component of a direction
/// are within the limits for a scale.
fn component_ok(origin: i128, scale: u64, direction: i32) -> (ok: bool)
    requires
        1 <= scale <= MAX_REACH,
    ensures
        ok == component_wf(origin as int, scale as int, direction as int),
{
    if direction < -i32::MAX {
        return false;
    }
    let bound = MAX_COORD * (scale as i128);
    if origin < -bound || origin >= bound {
        return false;
    }
    let size = size_of(direction);
    assert(scale * size <= MAX_REACH * 0x8000_0000) by (nonlinear_arith)
        requires
            0 <= scale <= MAX_REACH,
            0 <= size <= 0x8000_0000,
    ;
    (scale as u128) * size <= MAX_REACH as u128
}

} // verus!
