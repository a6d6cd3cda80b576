//! The voxelizer's keys: a cell of a grid of `dims` cells packed into one
//! integer, x-major, so that sorting the keys sorts the cells, and the cell
//! read back out of a key.
use vstd::prelude::*;

verus! {

/// `c` held to `0..d`.
pub open spec fn clamp_cell(c: int, d: int) -> int {
    if c < 0 {
        0
    } else if c > d - 1 {
        d - 1
    } else {
        c
    }
}

/// A grid has at least one cell along each axis, and its cells can be
/// counted in an `i64`.
pub open spec fn dims_fit(dims: [i32; 3]) -> bool {
    &&& dims[0] >= 1
    &&& dims[1] >= 1
    &&& dims[2] >= 1
    &&& dims[0] * dims[1] * dims[2] <= i64::MAX
}

/// The key of cell `(x, y, z)`.
pub open spec fn key_of(x: int, y: int, z: int, dims: [i32; 3]) -> int {
    let (dy, dz) = (dims[1] as int, dims[2] as int);
    x * (dy * dz) + y * dz + z
}

/// The cell a key names.
pub open spec fn cell_of(key: int, dims: [i32; 3]) -> (int, int, int) {
    let (dy, dz) = (dims[1] as int, dims[2] as int);
    (key / (dy * dz), (key / dz) % dy, key % dz)
}

proof fn lemma_key_range(x: int, y: int, z: int, dims: [i32; 3])
    requires
        dims_fit(dims),
        0 <= x < dims[0],
        0 <= y < dims[1],
        0 <= z < dims[2],
    ensures
        0 <= key_of(x, y, z, dims) < dims[0] * dims[1] * dims[2],
{
    let (dx, dy, dz) = (dims[0] as int, dims[1] as int, dims[2] as int);
    assert(0 <= x * (dy * dz) + y * dz + z < dx * dy * dz) by (nonlinear_arith)
        requires
            0 <= x < dx,
            0 <= y < dy,
            0 <= z < dz,
    ;
}

/// Reading a key back gives the cell it was made from.
pub proof fn lemma_cell_of_key(x: int, y: int, z: int, dims: [i32; 3])
    requires
        dims_fit(dims),
        0 <= x < dims[0],
        0 <= y < dims[1],
        0 <= z < dims[2],
    ensures
        cell_of(key_of(x, y, z, dims), dims) == (x, y, z),
{
    let (dy, dz) = (dims[1] as int, dims[2] as int);
    let k = key_of(x, y, z, dims);
    assert(k == (x * dy + y) * dz + z) by (nonlinear_arith)
        requires
            k == x * (dy * dz) + y * dz + z,
    ;
    vstd::arithmetic::div_mod::lemma_fundamental_div_mod_converse(k, dz, x * dy + y, z);
    vstd::arithmetic::div_mod::lemma_fundamental_div_mod_converse(x * dy + y, dy, x, y);
    assert(k / (dy * dz) == x) by {
        vstd::arithmetic::div_mod::lemma_div_denominator(k, dz, dy);
        assert(dz * dy == dy * dz) by (nonlinear_arith);
    }
}

/// Cell `a` comes before cell `b`: x first, then y, then z.
pub open spec fn cell_before(a: (int, int, int), b: (int, int, int)) -> bool {
    a.0 < b.0 || (a.0 == b.0 && (a.1 < b.1 || (a.1 == b.1 && a.2 < b.2)))
}

proof fn lemma_key_below_next_x(x: int, y: int, z: int, dims: [i32; 3])
    requires
        dims_fit(dims),
        0 <= y < dims[1],
        0 <= z < dims[2],
    ensures
        x * (dims[1] * dims[2]) <= key_of(x, y, z, dims) < (x + 1) * (dims[1] * dims[2]),
{
    let (dy, dz) = (dims[1] as int, dims[2] as int);
    assert(0 <= y * dz + z < dy * dz) by (nonlinear_arith)
        requires
            0 <= y < dy,
            0 <= z < dz,
    ;
    assert((x + 1) * (dy * dz) == x * (dy * dz) + dy * dz) by (nonlinear_arith);
}

/// Keys sort as their cells do: one key is smaller than another exactly
/// where its cell comes first.
pub proof fn lemma_keys_sort_cells(a: (int, int, int), b: (int, int, int), dims: [i32; 3])
    requires
        dims_fit(dims),
        0 <= a.0 < dims[0],
        0 <= a.1 < dims[1],
        0 <= a.2 < dims[2],
        0 <= b.0 < dims[0],
        0 <= b.1 < dims[1],
        0 <= b.2 < dims[2],
    ensures
        key_of(a.0, a.1, a.2, dims) < key_of(b.0, b.1, b.2, dims) <==> cell_before(a, b),
{
    let (dy, dz) = (dims[1] as int, dims[2] as int);
    let ka = key_of(a.0, a.1, a.2, dims);
    let kb = key_of(b.0, b.1, b.2, dims);
    lemma_key_below_next_x(a.0, a.1, a.2, dims);
    lemma_key_below_next_x(b.0, b.1, b.2, dims);
    if a.0 < b.0 {
        assert((a.0 + 1) * (dy * dz) <= b.0 * (dy * dz)) by (nonlinear_arith)
            requires
                a.0 + 1 <= b.0,
                dy * dz >= 0,
        ;
    } else if b.0 < a.0 {
        assert((b.0 + 1) * (dy * dz) <= a.0 * (dy * dz)) by (nonlinear_arith)
            requires
                b.0 + 1 <= a.0,
                dy * dz >= 0,
        ;
    } else {
        assert(ka - kb == (a.1 - b.1) * dz + (a.2 - b.2)) by (nonlinear_arith)
            requires
                ka == a.0 * (dy * dz) + a.1 * dz + a.2,
                kb == b.0 * (dy * dz) + b.1 * dz + b.2,
                a.0 == b.0,
        ;
        if a.1 < b.1 {
            assert((a.1 - b.1) * dz <= -dz) by (nonlinear_arith)
                requires
                    a.1 - b.1 <= -1,
                    dz >= 1,
            ;
        } else if b.1 < a.1 {
            assert((a.1 - b.1) * dz >= dz) by (nonlinear_arith)
                requires
                    a.1 - b.1 >= 1,
                    dz >= 1,
            ;
        }
    }
}

/// The key of a cell, each coordinate first held inside the grid: the
/// integer half of placing a point in the grid.
pub fn cell_key(cell: [i32; 3], dims: [i32; 3]) -> (res: i64)
    requires
        dims_fit(dims),
    ensures
        res == key_of(
            clamp_cell(cell[0] as int, dims[0] as int),
            clamp_cell(cell[1] as int, dims[1] as int),
            clamp_cell(cell[2] as int, dims[2] as int),
            dims,
        ),
        0 <= res < dims[0] * dims[1] * dims[2],
{
    let x = if cell[0] < 0 {
        0
    } else if cell[0] > dims[0] - 1 {
        dims[0] - 1
    } else {
        cell[0]
    };
    let y = if cell[1] < 0 {
        0
    } else if cell[1] > dims[1] - 1 {
        dims[1] - 1
    } else {
        cell[1]
    };
    let z = if cell[2] < 0 {
        0
    } else if cell[2] > dims[2] - 1 {
        dims[2] - 1
    } else {
        cell[2]
    };
    let (dy, dz) = (dims[1] as i64, dims[2] as i64);
    proof {
        lemma_key_range(x as int, y as int, z as int, dims);
        let (dx, dyy, dzz) = (dims[0] as int, dims[1] as int, dims[2] as int);
        assert(dyy * dzz <= dx * dyy * dzz) by (nonlinear_arith)
            requires
                dx >= 1,
                dyy >= 1,
                dzz >= 1,
        ;
        assert(x * (dyy * dzz) <= x * (dyy * dzz) + y * dzz + z) by (nonlinear_arith)
            requires
                x >= 0,
                y >= 0,
                z >= 0,
                dzz >= 1,
        ;
        assert(y * dzz <= y * dzz + z);
    }
    (x as i64) * (dy * dz) + (y as i64) * dz + (z as i64)
}

/// The cell key `key` names.
pub fn key_cell(key: i64, dims: [i32; 3]) -> (res: [i32; 3])
    requires
        dims_fit(dims),
        0 <= key < dims[0] * dims[1] * dims[2],
    ensures
        (res[0] as int, res[1] as int, res[2] as int) == cell_of(key as int, dims),
{
    let (dy, dz) = (dims[1] as i64, dims[2] as i64);
    proof {
        let (dx, dyy, dzz) = (dims[0] as int, dims[1] as int, dims[2] as int);
        assert(dyy * dzz <= dx * dyy * dzz) by (nonlinear_arith)
            requires
                dx >= 1,
                dyy >= 1,
                dzz >= 1,
        ;
        assert((dyy * dzz) * dx == dx * dyy * dzz) by (nonlinear_arith);
        assert(dyy * dzz >= 1) by (nonlinear_arith)
            requires
                dyy >= 1,
                dzz >= 1,
        ;
        vstd::arithmetic::div_mod::lemma_multiply_divide_lt(key as int, dyy * dzz, dx);
        vstd::arithmetic::div_mod::lemma_div_pos_is_pos(key as int, dyy * dzz);
        vstd::arithmetic::div_mod::lemma_mod_pos_bound(key as int / dzz, dyy);
        vstd::arithmetic::div_mod::lemma_mod_pos_bound(key as int, dzz);
    }
    [(key / (dy * dz)) as i32, ((key / dz) % dy) as i32, (key % dz) as i32]
}

} // verus!
