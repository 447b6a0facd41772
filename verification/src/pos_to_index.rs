//! The mapping between a coordinate in a cubic grid and its place in the
//! linear array that stores the grid, x fastest and z slowest.

use vstd::prelude::*;
use vstd::arithmetic::div_mod::{
    lemma_div_denominator, lemma_fundamental_div_mod, lemma_fundamental_div_mod_converse,
    lemma_mod_bound,
};

verus! {

/// Why a coordinate or an index was turned down.
#[derive(Clone, Copy, Debug, PartialEq, Eq, Structural)]
pub enum IndexError {
    /// A component of the coordinate lies outside `[0, edge)`.
    InvalidCoordinate,
    /// The index lies outside `[0, edge * edge * edge)`.
    InvalidIndex,
}

/// The number of cells of a cubic grid.
pub open spec fn cube(edge: int) -> int {
    edge * edge * edge
}

/// Whether `(x, y, z)` names a cell of the grid.
pub open spec fn in_cube(x: int, y: int, z: int, edge: int) -> bool {
    0 <= x < edge && 0 <= y < edge && 0 <= z < edge
}

/// The linear index of the cell `(x, y, z)`.
pub open spec fn to_index(x: int, y: int, z: int, edge: int) -> int {
    z * edge * edge + y * edge + x
}

/// The cell that the linear index `i` names.
pub open spec fn from_index(i: int, edge: int) -> (int, int, int) {
    (i % edge, (i / edge) % edge, i / (edge * edge))
}

/// The index of a cell of the grid is its `x` beside `edge` times the index
/// of its row, and lies inside the array.
proof fn lemma_index_shape(x: int, y: int, z: int, edge: int)
    by (nonlinear_arith)
    requires
        in_cube(x, y, z, edge),
    ensures
        to_index(x, y, z, edge) == (z * edge + y) * edge + x,
        0 <= z * edge + y < edge * edge,
        0 <= z * edge * edge <= to_index(x, y, z, edge) < cube(edge),
        0 <= y * edge,
{
    assert(z * edge + y <= (edge - 1) * edge + (edge - 1));
    assert((z * edge + y) * edge <= ((edge - 1) * edge + (edge - 1)) * edge);
}

/// The index of a cell of the grid lies inside the array.
pub proof fn lemma_to_index_bounds(x: int, y: int, z: int, edge: int)
    requires
        in_cube(x, y, z, edge),
    ensures
        0 <= to_index(x, y, z, edge) < cube(edge),
{
    lemma_index_shape(x, y, z, edge);
}

/// From a cell to its index and back gives the cell again, for every edge
/// length and every cell of the grid.
pub proof fn lemma_round_trip(x: int, y: int, z: int, edge: int)
    requires
        edge > 0,
        in_cube(x, y, z, edge),
    ensures
        from_index(to_index(x, y, z, edge), edge) == (x, y, z),
{
    let i = to_index(x, y, z, edge);
    lemma_index_shape(x, y, z, edge);
    lemma_fundamental_div_mod_converse(i, edge, z * edge + y, x);
    lemma_fundamental_div_mod_converse(i / edge, edge, z, y);
    lemma_div_denominator(i, edge, edge);
}

/// From an index to its cell and back gives the index again, and the cell
/// lies in the grid.
pub proof fn lemma_index_round_trip(i: int, edge: int)
    requires
        0 <= i < cube(edge),
    ensures
        edge > 0,
        in_cube(from_index(i, edge).0, from_index(i, edge).1, from_index(i, edge).2, edge),
        to_index(from_index(i, edge).0, from_index(i, edge).1, from_index(i, edge).2, edge) == i,
{
    assert(edge > 0) by (nonlinear_arith)
        requires
            0 < edge * edge * edge,
    ;
    let q = i / edge;
    lemma_fundamental_div_mod(i, edge);
    lemma_fundamental_div_mod(q, edge);
    lemma_mod_bound(i, edge);
    lemma_mod_bound(q, edge);
    lemma_div_denominator(i, edge, edge);
    let x = i % edge;
    let y = q % edge;
    let z = q / edge;
    assert(0 <= z < edge && z * edge * edge + y * edge + x == i) by (nonlinear_arith)
        requires
            0 <= i < edge * edge * edge,
            edge > 0,
            i == edge * q + x,
            q == edge * z + y,
            0 <= x < edge,
            0 <= y < edge,
    ;
}

/// Two cells of the grid with the same index are the same cell.
pub proof fn lemma_to_index_injective(a: (int, int, int), b: (int, int, int), edge: int)
    requires
        in_cube(a.0, a.1, a.2, edge),
        in_cube(b.0, b.1, b.2, edge),
        to_index(a.0, a.1, a.2, edge) == to_index(b.0, b.1, b.2, edge),
    ensures
        a == b,
{
    lemma_round_trip(a.0, a.1, a.2, edge);
    lemma_round_trip(b.0, b.1, b.2, edge);
}

/// `num::cast` from `i32` to `usize`: the same number where it is not
/// negative, and nothing where it is.
#[verifier::external_body]
fn cast_to_usize(n: i32) -> (r: Option<usize>)
    ensures
        n >= 0 ==> r == Some(n as usize),
        n < 0 ==> r is None,
{
    num::cast::<i32, usize>(n)
}

/// `num::cast` from `usize` to `i32`: the same number where it is at most
/// `i32::MAX`, and nothing where it is larger.
#[verifier::external_body]
fn cast_to_i32(n: usize) -> (r: Option<i32>)
    ensures
        n <= i32::MAX ==> r == Some(n as i32),
        n > i32::MAX ==> r is None,
{
    num::cast::<usize, i32>(n)
}

/// The linear index of a cell that is known to lie in the grid.
pub fn cell_index(x: usize, y: usize, z: usize, by: usize) -> (i: usize)
    requires
        in_cube(x as int, y as int, z as int, by as int),
        cube(by as int) <= usize::MAX,
    ensures
        i == to_index(x as int, y as int, z as int, by as int),
        i < cube(by as int),
{
    proof {
        lemma_index_shape(x as int, y as int, z as int, by as int);
        assert(z * by <= z * by * by) by (nonlinear_arith)
            requires
                0 <= z,
                1 <= by,
        ;
    }
    z * by * by + y * by + x
}

/// The cell of an index that is known to lie in the array.
pub fn index_cell(i: usize, by: usize) -> (c: (usize, usize, usize))
    requires
        i < cube(by as int),
    ensures
        (c.0 as int, c.1 as int, c.2 as int) == from_index(i as int, by as int),
        in_cube(c.0 as int, c.1 as int, c.2 as int, by as int),
{
    proof {
        lemma_index_round_trip(i as int, by as int);
        lemma_div_denominator(i as int, by as int, by as int);
    }
    let q = i / by;
    (i % by, q % by, q / by)
}

/// The linear index of the cell `c` in a grid of edge `by`.
///
/// Returns `InvalidCoordinate` exactly when a component of `c` lies outside
/// `[0, by)`.
pub fn pos_to_index(c: (i32, i32, i32), by: usize) -> (r: Result<usize, IndexError>)
    requires
        cube(by as int) <= usize::MAX,
    ensures
        in_cube(c.0 as int, c.1 as int, c.2 as int, by as int) ==> r == Ok::<usize, IndexError>(
            to_index(c.0 as int, c.1 as int, c.2 as int, by as int) as usize,
        ),
        !in_cube(c.0 as int, c.1 as int, c.2 as int, by as int) ==> r == Err::<usize, IndexError>(
            IndexError::InvalidCoordinate,
        ),
{
    let x = match cast_to_usize(c.0) {
        Some(x) => x,
        None => { return Err(IndexError::InvalidCoordinate); },
    };
    let y = match cast_to_usize(c.1) {
        Some(y) => y,
        None => { return Err(IndexError::InvalidCoordinate); },
    };
    let z = match cast_to_usize(c.2) {
        Some(z) => z,
        None => { return Err(IndexError::InvalidCoordinate); },
    };
    if x >= by || y >= by || z >= by {
        return Err(IndexError::InvalidCoordinate);
    }
    Ok(cell_index(x, y, z, by))
}

/// The cell that the linear index `c` names in a grid of edge `by`.
///
/// Returns `InvalidIndex` exactly when `c` lies outside `[0, by * by * by)`.
/// The edge is at most `2^31`, so that every coordinate fits an `i32`.
pub fn index_to_pos(c: usize, by: usize) -> (r: Result<(i32, i32, i32), IndexError>)
    requires
        by <= 0x8000_0000,
    ensures
        c < cube(by as int) ==> r == Ok::<(i32, i32, i32), IndexError>(
            (
                from_index(c as int, by as int).0 as i32,
                from_index(c as int, by as int).1 as i32,
                from_index(c as int, by as int).2 as i32,
            ),
        ),
        c >= cube(by as int) ==> r == Err::<(i32, i32, i32), IndexError>(IndexError::InvalidIndex),
        r matches Ok(p) ==> (p.0 as int, p.1 as int, p.2 as int) == from_index(c as int, by as int),
{
    if by == 0 {
        return Err(IndexError::InvalidIndex);
    }
    let q = c / by;
    let z = q / by;
    proof {
        lemma_div_denominator(c as int, by as int, by as int);
        lemma_mod_bound(c as int, by as int);
        lemma_mod_bound(q as int, by as int);
        lemma_fundamental_div_mod(c as int, by as int);
        lemma_fundamental_div_mod(q as int, by as int);
        assert(z < by <==> c < by * by * by) by (nonlinear_arith)
            requires
                by > 0,
                c == by * q + (c % by),
                q == by * z + (q % by),
                0 <= c % by < by,
                0 <= q % by < by,
                0 <= z,
        ;
    }
    if z >= by {
        return Err(IndexError::InvalidIndex);
    }
    match (cast_to_i32(c % by), cast_to_i32(q % by), cast_to_i32(z)) {
        (Some(x), Some(y), Some(z)) => Ok((x, y, z)),
        _ => Err(IndexError::InvalidIndex),
    }
}

} // verus!
