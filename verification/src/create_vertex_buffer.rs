//! The bounding geometry: one cube of 36 vertices around each populated
//! macro-chunk, in the order of the chunks' linear indices.

use vstd::prelude::*;
use crate::pos_to_index::{from_index, index_cell};
use crate::shared::{occupied_count, ChunkMapping, Dims, MyVertex, Vertices, CUBE_VERTICES};

verus! {

/// The corners of the two triangles that cover the unit square: the first runs
/// through `(1,1)`, `(0,1)`, `(1,0)`, the second through `(0,1)`, `(1,0)`,
/// `(0,0)`.
pub open spec fn square_corner(k: int) -> (int, int) {
    if k == 0 {
        (1, 1)
    } else if k == 1 || k == 3 {
        (0, 1)
    } else if k == 2 || k == 4 {
        (1, 0)
    } else {
        (0, 0)
    }
}

/// Vertex `j` of the unit cube. Six vertices make a face: the faces `z = 0`
/// and `z = 1` come first, then `x = 0` and `x = 1`, then `y = 0` and `y = 1`.
pub open spec fn cube_corner(j: int) -> (int, int, int) {
    let face = j / 6;
    let (a, b) = square_corner(j % 6);
    let side = face % 2;
    if face < 2 {
        (a, b, side)
    } else if face < 4 {
        (side, b, a)
    } else {
        (b, side, a)
    }
}

/// Vertex `j` of the cube around the macro-chunk with linear index `c`: the
/// unit cube, moved to the chunk's position and scaled by the chunk edge.
pub open spec fn chunk_vertex(dims: Dims, c: int, j: int) -> MyVertex {
    let p = from_index(c, dims.world_edge_chunks as int);
    let k = cube_corner(j);
    MyVertex {
        position: (
            ((p.0 + k.0) * dims.chunk_edge) as i32,
            ((p.1 + k.1) * dims.chunk_edge) as i32,
            ((p.2 + k.2) * dims.chunk_edge) as i32,
        ),
    }
}

/// The 36 vertices of the cube around the macro-chunk with linear index `c`.
pub open spec fn chunk_cube(dims: Dims, c: int) -> Seq<MyVertex> {
    Seq::new(CUBE_VERTICES as nat, |j: int| chunk_vertex(dims, c, j))
}

/// The bounding geometry of a mapping: the cubes of its nonzero entries, one
/// after the other in the order of the entries.
pub open spec fn geometry(entries: Seq<u32>, dims: Dims) -> Seq<MyVertex>
    decreases entries.len(),
{
    if entries.len() == 0 {
        Seq::empty()
    } else {
        let before = geometry(entries.drop_last(), dims);
        if entries.last() != 0 {
            before + chunk_cube(dims, entries.len() - 1)
        } else {
            before
        }
    }
}

/// The bounding geometry holds 36 vertices for each nonzero entry.
pub proof fn lemma_geometry_len(entries: Seq<u32>, dims: Dims)
    ensures
        geometry(entries, dims).len() == 36 * occupied_count(entries),
        geometry(entries, dims).len() % 36 == 0,
        occupied_count(entries) <= entries.len(),
    decreases entries.len(),
{
    if entries.len() > 0 {
        lemma_geometry_len(entries.drop_last(), dims);
    }
}

/// Every vertex of the unit cube is one of its eight corners, every corner is
/// among the vertices, and the six vertices of a face lie in the face's plane.
pub proof fn lemma_cube_corners()
    ensures
        forall|j: int|
            0 <= j < 36 ==> {
                let k = #[trigger] cube_corner(j);
                0 <= k.0 <= 1 && 0 <= k.1 <= 1 && 0 <= k.2 <= 1
            },
        cube_corner(5) == (0int, 0int, 0int),
        cube_corner(2) == (1int, 0int, 0int),
        cube_corner(1) == (0int, 1int, 0int),
        cube_corner(0) == (1int, 1int, 0int),
        cube_corner(11) == (0int, 0int, 1int),
        cube_corner(8) == (1int, 0int, 1int),
        cube_corner(7) == (0int, 1int, 1int),
        cube_corner(6) == (1int, 1int, 1int),
        forall|j: int| 0 <= j < 6 ==> (#[trigger] cube_corner(j)).2 == 0,
        forall|j: int| 6 <= j < 12 ==> (#[trigger] cube_corner(j)).2 == 1,
        forall|j: int| 12 <= j < 18 ==> (#[trigger] cube_corner(j)).0 == 0,
        forall|j: int| 18 <= j < 24 ==> (#[trigger] cube_corner(j)).0 == 1,
        forall|j: int| 24 <= j < 30 ==> (#[trigger] cube_corner(j)).1 == 0,
        forall|j: int| 30 <= j < 36 ==> (#[trigger] cube_corner(j)).1 == 1,
{
}

/// Vertex `j` of the unit cube.
fn corner(j: usize) -> (k: (usize, usize, usize))
    requires
        j < 36,
    ensures
        (k.0 as int, k.1 as int, k.2 as int) == cube_corner(j as int),
        k.0 <= 1 && k.1 <= 1 && k.2 <= 1,
{
    let face = j / 6;
    let k = j % 6;
    let (a, b): (usize, usize) = if k == 0 {
        (1, 1)
    } else if k == 1 || k == 3 {
        (0, 1)
    } else if k == 2 || k == 4 {
        (1, 0)
    } else {
        (0, 0)
    };
    let side = face % 2;
    if face < 2 {
        (a, b, side)
    } else if face < 4 {
        (side, b, a)
    } else {
        (b, side, a)
    }
}

/// Vertex `j` of the cube around the macro-chunk with linear index `c`.
fn vert(dims: Dims, c: usize, j: usize) -> (v: MyVertex)
    requires
        dims.wf(),
        c < dims.world_chunks(),
        j < 36,
    ensures
        v == chunk_vertex(dims, c as int, j as int),
{
    let p = index_cell(c, dims.world_edge_chunks);
    let k = corner(j);
    let e = dims.chunk_edge;
    proof {
        let n = dims.world_edge_chunks as int;
        assert forall|a: int| 0 <= a <= n implies 0 <= #[trigger] (a * e) <= i32::MAX by {
            assert(0 <= a * e <= e * n) by (nonlinear_arith)
                requires
                    0 <= a <= n,
                    0 <= e,
            ;
        }
        assert(0 <= (p.0 + k.0) * e <= i32::MAX);
        assert(0 <= (p.1 + k.1) * e <= i32::MAX);
        assert(0 <= (p.2 + k.2) * e <= i32::MAX);
    }
    MyVertex {
        position: (((p.0 + k.0) * e) as i32, ((p.1 + k.1) * e) as i32, ((p.2 + k.2) * e) as i32),
    }
}

/// Writes the bounding geometry of `chunk_mapping` to the front of
/// `vertex_buffer` and its length to `vertex_count`, which held the length of
/// the geometry written before.
///
/// The buffer grows where the geometry needs more room than it has. Where
/// the geometry is shorter than the one before, the vertices that are left
/// over behind it become the zero vertex.
pub fn set_vertex_buffer(
    chunk_mapping: &ChunkMapping,
    vertex_buffer: &mut Vertices,
    vertex_count: &mut usize,
)
    requires
        chunk_mapping.wf(),
    ensures
        *final(vertex_count) == 36 * occupied_count(chunk_mapping@),
        *final(vertex_count) % 36 == 0,
        *final(vertex_count) <= final(vertex_buffer)@.len(),
        final(vertex_buffer)@.subrange(0, *final(vertex_count) as int) == geometry(
            chunk_mapping@,
            chunk_mapping.dims(),
        ),
        final(vertex_buffer)@.len() == if old(vertex_buffer)@.len() >= *final(vertex_count) {
            old(vertex_buffer)@.len()
        } else {
            *final(vertex_count) as nat
        },
        forall|i: int|
            *final(vertex_count) <= i < final(vertex_buffer)@.len() ==> #[trigger] final(vertex_buffer)@[i]
                == if i < *old(vertex_count) {
                MyVertex::zero()
            } else {
                old(vertex_buffer)@[i]
            },
{
    let dims = chunk_mapping.dims();
    let n = chunk_mapping.len();
    proof {
        chunk_mapping.lemma_wf();
    }
    let mut vertex_index: usize = 0;
    let mut c: usize = 0;
    while c < n
        invariant
            0 <= c <= n,
            n == chunk_mapping@.len(),
            n == dims.world_chunks(),
            dims.wf(),
            dims == chunk_mapping.dims(),
            vertex_index == 36 * occupied_count(chunk_mapping@.subrange(0, c as int)),
            occupied_count(chunk_mapping@.subrange(0, c as int)) <= c,
            vertex_index <= vertex_buffer@.len(),
            vertex_buffer@.subrange(0, vertex_index as int) == geometry(
                chunk_mapping@.subrange(0, c as int),
                dims,
            ),
            vertex_buffer@.len() == if old(vertex_buffer)@.len() >= vertex_index {
                old(vertex_buffer)@.len()
            } else {
                vertex_index as nat
            },
            forall|i: int|
                vertex_index <= i < vertex_buffer@.len() ==> #[trigger] vertex_buffer@[i]
                    == old(vertex_buffer)@[i],
        decreases n - c,
    {
        let ghost before = chunk_mapping@.subrange(0, c as int);
        let ghost after = chunk_mapping@.subrange(0, c + 1);
        proof {
            assert(after.drop_last() =~= before);
            assert(after.last() == chunk_mapping@[c as int]);
        }
        if chunk_mapping.get(c) != 0 {
            let ghost start = vertex_buffer@;
            let mut j: usize = 0;
            while j < 36
                invariant
                    0 <= j <= 36,
                    c < n,
                    n == dims.world_chunks(),
                    dims.wf(),
                    vertex_index + 36 <= usize::MAX,
                    vertex_index <= start.len(),
                    vertex_buffer@.len() == if start.len() >= vertex_index + j {
                        start.len()
                    } else {
                        (vertex_index + j) as nat
                    },
                    forall|i: int|
                        0 <= i < vertex_index ==> #[trigger] vertex_buffer@[i] == start[i],
                    forall|i: int|
                        vertex_index + j <= i < vertex_buffer@.len() ==> #[trigger] vertex_buffer@[i]
                            == start[i],
                    forall|i: int|
                        0 <= i < j ==> #[trigger] vertex_buffer@[vertex_index + i] == chunk_vertex(
                            dims,
                            c as int,
                            i,
                        ),
                decreases 36 - j,
            {
                let v = vert(dims, c, j);
                vertex_buffer.put(vertex_index + j, v);
                j += 1;
            }
            proof {
                assert(vertex_buffer@.subrange(0, vertex_index + 36) =~= start.subrange(
                    0,
                    vertex_index as int,
                ) + chunk_cube(dims, c as int)) by {
                    assert forall|i: int| 0 <= i < vertex_index + 36 implies vertex_buffer@[i] == (
                    start.subrange(0, vertex_index as int) + chunk_cube(dims, c as int))[i] by {
                        if i >= vertex_index {
                            assert(vertex_buffer@[vertex_index + (i - vertex_index)]
                                == chunk_vertex(dims, c as int, i - vertex_index));
                        }
                    }
                }
            }
            vertex_index += 36;
        }
        c += 1;
    }
    proof {
        assert(chunk_mapping@.subrange(0, n as int) =~= chunk_mapping@);
        lemma_geometry_len(chunk_mapping@, dims);
    }
    let len = vertex_buffer.len();
    let previous = *vertex_count;
    let stop = if previous < len {
        previous
    } else {
        len
    };
    let ghost filled = vertex_buffer@;
    let mut i: usize = vertex_index;
    while i < stop
        invariant
            vertex_index <= i,
            stop <= len,
            i <= stop || i == vertex_index,
            len == vertex_buffer@.len(),
            len == filled.len(),
            forall|k: int| 0 <= k < vertex_index ==> #[trigger] vertex_buffer@[k] == filled[k],
            forall|k: int|
                vertex_index <= k < i ==> #[trigger] vertex_buffer@[k] == MyVertex::zero(),
            forall|k: int| i <= k < len ==> #[trigger] vertex_buffer@[k] == filled[k],
        decreases stop - i,
    {
        vertex_buffer.put(i, MyVertex::default());
        i += 1;
    }
    proof {
        assert(vertex_buffer@.subrange(0, vertex_index as int) =~= filled.subrange(
            0,
            vertex_index as int,
        ));
    }
    *vertex_count = vertex_index;
}

} // verus!
