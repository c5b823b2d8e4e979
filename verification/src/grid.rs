//! Grid geometry: flat indices, coordinates, wrap-around and face neighbours.
use vstd::prelude::*;
use vstd::arithmetic::div_mod::{
    lemma_fundamental_div_mod, lemma_fundamental_div_mod_converse_div,
    lemma_fundamental_div_mod_converse_mod, lemma_mod_pos_bound,
};

verus! {

/// Number of cells of an `nx` by `ny` by `nz` grid.
pub open spec fn cell_count(nx: int, ny: int, nz: int) -> int {
    nx * ny * nz
}

/// Flat index of the cell at `(x, y, z)`; `x` varies fastest.
pub open spec fn flat(nx: int, ny: int, x: int, y: int, z: int) -> int {
    x + nx * (y + ny * z)
}

/// The `x` coordinate of the cell at flat index `i`.
pub open spec fn coord_x(nx: int, i: int) -> int {
    i % nx
}

/// The `y` coordinate of the cell at flat index `i`.
pub open spec fn coord_y(nx: int, ny: int, i: int) -> int {
    (i / nx) % ny
}

/// The `z` coordinate of the cell at flat index `i`.
pub open spec fn coord_z(nx: int, ny: int, i: int) -> int {
    (i / nx) / ny
}

/// The coordinate before `x` on a cyclic axis of length `n`.
pub open spec fn wrap_dec(x: int, n: int) -> int {
    if x == 0 {
        n - 1
    } else {
        x - 1
    }
}

/// The coordinate after `x` on a cyclic axis of length `n`.
pub open spec fn wrap_inc(x: int, n: int) -> int {
    if x + 1 == n {
        0
    } else {
        x + 1
    }
}

/// Cell `j` shares a face with cell `i`: a step of one along `x` or `y`,
/// wrapping around at the edges, or a step of one along `z`, which stops at
/// the bottom and top layers.
pub open spec fn is_neighbor(nx: int, ny: int, nz: int, i: int, j: int) -> bool {
    let x = coord_x(nx, i);
    let y = coord_y(nx, ny, i);
    let z = coord_z(nx, ny, i);
    &&& 0 <= i < cell_count(nx, ny, nz)
    &&& 0 <= j < cell_count(nx, ny, nz)
    &&& {
        ||| j == flat(nx, ny, wrap_dec(x, nx), y, z)
        ||| j == flat(nx, ny, wrap_inc(x, nx), y, z)
        ||| j == flat(nx, ny, x, wrap_dec(y, ny), z)
        ||| j == flat(nx, ny, x, wrap_inc(y, ny), z)
        ||| (z > 0 && j == flat(nx, ny, x, y, z - 1))
        ||| (z + 1 < nz && j == flat(nx, ny, x, y, z + 1))
    }
}

/// Bounds on the parts of a flat index, enough to compute it without overflow.
pub proof fn lemma_flat_bounds(nx: int, ny: int, nz: int, x: int, y: int, z: int)
    requires
        0 <= x < nx,
        0 <= y < ny,
        0 <= z < nz,
    ensures
        0 <= ny * z <= ny * nz,
        0 <= y + ny * z < ny * nz,
        ny * nz <= cell_count(nx, ny, nz),
        0 <= nx * (y + ny * z) <= cell_count(nx, ny, nz),
        0 <= flat(nx, ny, x, y, z) < cell_count(nx, ny, nz),
{
    assert(0 <= ny * z <= ny * nz) by (nonlinear_arith)
        requires
            0 <= z < nz,
            0 < ny,
    ;
    assert(y + ny * z < ny * nz) by (nonlinear_arith)
        requires
            0 <= y < ny,
            0 <= z < nz,
    ;
    assert(ny * nz <= nx * ny * nz) by (nonlinear_arith)
        requires
            0 < nx,
            0 < ny,
            0 < nz,
    ;
    let q = y + ny * z;
    assert(0 <= nx * q && nx * q + x < nx * ny * nz) by (nonlinear_arith)
        requires
            0 <= x < nx,
            0 <= q < ny * nz,
    ;
}

/// The coordinates of the cell at `(x, y, z)` are `x`, `y` and `z`.
pub proof fn lemma_flat_coords(nx: int, ny: int, nz: int, x: int, y: int, z: int)
    requires
        0 <= x < nx,
        0 <= y < ny,
        0 <= z < nz,
    ensures
        0 <= flat(nx, ny, x, y, z) < cell_count(nx, ny, nz),
        coord_x(nx, flat(nx, ny, x, y, z)) == x,
        coord_y(nx, ny, flat(nx, ny, x, y, z)) == y,
        coord_z(nx, ny, flat(nx, ny, x, y, z)) == z,
{
    lemma_flat_bounds(nx, ny, nz, x, y, z);
    let q = y + ny * z;
    let i = flat(nx, ny, x, y, z);
    assert(i == q * nx + x) by (nonlinear_arith)
        requires
            i == x + nx * q,
    ;
    lemma_fundamental_div_mod_converse_div(i, nx, q, x);
    lemma_fundamental_div_mod_converse_mod(i, nx, q, x);
    assert(q == z * ny + y) by (nonlinear_arith)
        requires
            q == y + ny * z,
    ;
    lemma_fundamental_div_mod_converse_div(q, ny, z, y);
    lemma_fundamental_div_mod_converse_mod(q, ny, z, y);
}

/// Every cell of the grid is the cell at its own coordinates, and those
/// coordinates lie inside the grid.
pub proof fn lemma_index_coords(nx: int, ny: int, nz: int, i: int)
    requires
        0 <= nx,
        0 <= ny,
        0 <= nz,
        0 <= i < cell_count(nx, ny, nz),
    ensures
        0 <= coord_x(nx, i) < nx,
        0 <= coord_y(nx, ny, i) < ny,
        0 <= coord_z(nx, ny, i) < nz,
        flat(nx, ny, coord_x(nx, i), coord_y(nx, ny, i), coord_z(nx, ny, i)) == i,
{
    assert(0 < nx && 0 < ny && 0 < nz) by (nonlinear_arith)
        requires
            0 <= nx,
            0 <= ny,
            0 <= nz,
            0 < nx * ny * nz,
    ;
    let q = i / nx;
    lemma_fundamental_div_mod(i, nx);
    lemma_mod_pos_bound(i, nx);
    lemma_fundamental_div_mod(q, ny);
    lemma_mod_pos_bound(q, ny);
    let x = i % nx;
    let y = q % ny;
    let z = q / ny;
    assert(0 <= q < ny * nz) by (nonlinear_arith)
        requires
            i == nx * q + x,
            0 <= x < nx,
            0 <= i < nx * ny * nz,
    ;
    assert(0 <= z < nz) by (nonlinear_arith)
        requires
            q == ny * z + y,
            0 <= y < ny,
            0 <= q < ny * nz,
    ;
}

/// Wrapping forward undoes wrapping backward, and the other way round.
pub proof fn lemma_wrap_inverse(x: int, n: int)
    requires
        0 <= x < n,
    ensures
        0 <= wrap_dec(x, n) < n,
        0 <= wrap_inc(x, n) < n,
        wrap_inc(wrap_dec(x, n), n) == x,
        wrap_dec(wrap_inc(x, n), n) == x,
{
}

/// Euclidean remainder of one step on either side of an in-range coordinate.
pub proof fn lemma_wrap_mod(x: int, n: int)
    requires
        0 <= x < n,
    ensures
        (x - 1) % n == wrap_dec(x, n),
        (x + 1) % n == wrap_inc(x, n),
{
    if x == 0 {
        lemma_fundamental_div_mod_converse_mod(x - 1, n, -1, n - 1);
    } else {
        lemma_fundamental_div_mod_converse_mod(x - 1, n, 0, x - 1);
    }
    if x + 1 == n {
        lemma_fundamental_div_mod_converse_mod(x + 1, n, 1, 0);
    } else {
        lemma_fundamental_div_mod_converse_mod(x + 1, n, 0, x + 1);
    }
}

/// Sharing a face is symmetric.
pub proof fn lemma_neighbor_symmetric(nx: int, ny: int, nz: int, i: int, j: int)
    requires
        0 <= nx,
        0 <= ny,
        0 <= nz,
        is_neighbor(nx, ny, nz, i, j),
    ensures
        is_neighbor(nx, ny, nz, j, i),
{
    lemma_index_coords(nx, ny, nz, i);
    let x = coord_x(nx, i);
    let y = coord_y(nx, ny, i);
    let z = coord_z(nx, ny, i);
    lemma_wrap_inverse(x, nx);
    lemma_wrap_inverse(y, ny);
    if j == flat(nx, ny, wrap_dec(x, nx), y, z) {
        lemma_flat_coords(nx, ny, nz, wrap_dec(x, nx), y, z);
    } else if j == flat(nx, ny, wrap_inc(x, nx), y, z) {
        lemma_flat_coords(nx, ny, nz, wrap_inc(x, nx), y, z);
    } else if j == flat(nx, ny, x, wrap_dec(y, ny), z) {
        lemma_flat_coords(nx, ny, nz, x, wrap_dec(y, ny), z);
    } else if j == flat(nx, ny, x, wrap_inc(y, ny), z) {
        lemma_flat_coords(nx, ny, nz, x, wrap_inc(y, ny), z);
    } else if z > 0 && j == flat(nx, ny, x, y, z - 1) {
        lemma_flat_coords(nx, ny, nz, x, y, z - 1);
    } else {
        lemma_flat_coords(nx, ny, nz, x, y, z + 1);
    }
}

/// Maps any integer into `[0, n)` by Euclidean remainder, so that `-1` becomes
/// `n - 1` and `n` becomes `0`.
pub fn cyclic(i: isize, n: usize) -> (r: usize)
    requires
        0 < n,
    ensures
        r as int == i as int % n as int,
        r < n,
{
    let wide: i128 = (i as i128).checked_rem_euclid(n as i128).unwrap();
    wide as usize
}

/// Flat index of the cell at `(x, y, z)` in an `nx` by `ny` by `nz` grid.
pub fn flat_index(x: usize, y: usize, z: usize, nx: usize, ny: usize, nz: usize) -> (i: usize)
    requires
        x < nx,
        y < ny,
        z < nz,
        cell_count(nx as int, ny as int, nz as int) <= usize::MAX,
    ensures
        i as int == flat(nx as int, ny as int, x as int, y as int, z as int),
        i < cell_count(nx as int, ny as int, nz as int),
{
    proof {
        lemma_flat_bounds(nx as int, ny as int, nz as int, x as int, y as int, z as int);
    }
    x + nx * (y + ny * z)
}

} // verus!
