//! Conversions used at the boundary with array libraries: array layouts and
//! the signed-integer encoding of labels (`-1` for a clear cell).
use vstd::prelude::*;
use crate::grid::{cell_count, coord_x, coord_y, coord_z, flat, flat_index, lemma_flat_bounds, lemma_flat_coords};
use crate::labeler::{gen_labels, is_patch_labelling};
use crate::sizes::{count_label, label_sizes, lemma_max_label, max_label, size_count};

verus! {

/// Signed encoding of a label: `-1` for a clear cell, the label itself
/// (truncated to 32 bits) for a cloud cell.
pub open spec fn encode_label(l: Option<usize>) -> i32 {
    match l {
        None => -1i32,
        Some(v) => v as i32,
    }
}

/// Reading of a signed label: negative values mark clear cells.
pub open spec fn decode_label(v: i32) -> Option<usize> {
    if v >= 0 {
        Some(v as usize)
    } else {
        None
    }
}

/// Signed labels read as optional labels.
pub open spec fn decode_labels(vs: Seq<i32>) -> Seq<Option<usize>> {
    vs.map_values(|v: i32| decode_label(v))
}

/// Encodes labels as signed integers, `-1` standing for a clear cell.
pub fn labels_to_i32(labels: &[Option<usize>]) -> (out: Vec<i32>)
    ensures
        out@.len() == labels@.len(),
        forall|i: int| 0 <= i < labels@.len() ==> #[trigger] out@[i] == encode_label(labels@[i]),
        forall|i: int| 0 <= i < labels@.len() && #[trigger] labels@[i] is None ==> out@[i] == -1,
        forall|i: int|
            0 <= i < labels@.len() && #[trigger] labels@[i] is Some && labels@[i]->0 <= i32::MAX
                ==> out@[i] as int == labels@[i]->0 as int,
{
    let mut out: Vec<i32> = Vec::new();
    for i in 0..labels.len()
        invariant
            out@.len() == i,
            forall|k: int| 0 <= k < i ==> #[trigger] out@[k] == encode_label(labels@[k]),
    {
        let v: i32 = match labels[i] {
            None => -1i32,
            Some(l) => l as i32,
        };
        out.push(v);
    }
    out
}

/// Number of entries of `vs` equal to `v`.
pub open spec fn count_value(vs: Seq<i32>, v: int) -> nat
    decreases vs.len(),
{
    if vs.len() == 0 {
        0
    } else {
        count_value(vs.drop_last(), v) + if vs.last() as int == v {
            1nat
        } else {
            0nat
        }
    }
}

/// Read as optional labels, signed labels hold label `l` exactly where they
/// hold the value `l`.
pub proof fn lemma_decoded_count(vs: Seq<i32>, l: int)
    requires
        0 <= l <= usize::MAX,
    ensures
        count_label(decode_labels(vs), l as usize) == count_value(vs, l),
    decreases vs.len(),
{
    if vs.len() > 0 {
        lemma_decoded_count(vs.drop_last(), l);
        assert(decode_labels(vs).drop_last() =~= decode_labels(vs.drop_last()));
        assert(decode_labels(vs).last() == decode_label(vs.last()));
    }
}

/// Counts how many cells each label covers, for labels encoded as signed
/// integers: entry `l` is the number of cells holding `l`, negative entries
/// are clear cells, and the result runs up to the largest label present.
pub fn label_sizes_i32(labels: &[i32]) -> (counts: Vec<usize>)
    ensures
        counts@.len() == size_count(decode_labels(labels@)),
        forall|l: int|
            0 <= l < counts@.len() ==> counts@[l] == count_label(decode_labels(labels@), l as usize),
        forall|l: int| 0 <= l < counts@.len() ==> #[trigger] counts@[l] == count_value(labels@, l),
        forall|i: int| 0 <= i < labels@.len() && #[trigger] labels@[i] >= 0 ==> labels@[i] < counts@.len(),
        counts@.len() > 0 ==> exists|i: int|
            0 <= i < labels@.len() && #[trigger] labels@[i] as int == counts@.len() - 1,
{
    let mut decoded: Vec<Option<usize>> = Vec::new();
    for i in 0..labels.len()
        invariant
            decoded@.len() == i,
            forall|k: int| 0 <= k < i ==> #[trigger] decoded@[k] == decode_label(labels@[k]),
    {
        let v = labels[i];
        if v >= 0 {
            decoded.push(Some(v as usize));
        } else {
            decoded.push(None);
        }
    }
    assert(decoded@ =~= decode_labels(labels@));
    let counts = label_sizes(decoded.as_slice());
    proof {
        let d = decode_labels(labels@);
        lemma_max_label(d);
        assert forall|l: int| 0 <= l < counts@.len() implies #[trigger] counts@[l] == count_value(
            labels@,
            l,
        ) by {
            lemma_decoded_count(labels@, l);
        }
        assert forall|i: int| 0 <= i < labels@.len() && #[trigger] labels@[i] >= 0 implies labels@[i]
            < counts@.len() by {
            assert(d[i] == Some(labels@[i] as usize));
        }
        if counts@.len() > 0 {
            let i = choose|i: int| 0 <= i < d.len() && #[trigger] d[i] == max_label(d);
            assert(d[i] == decode_label(labels@[i]));
            assert(labels@[i] as int == counts@.len() - 1);
        }
    }
    counts
}

/// The field `c`, stored in C order (`x` slowest), read in the flat order of
/// this library (`x` fastest).
pub open spec fn flat_from_c_order(c: Seq<bool>, nx: int, ny: int, nz: int) -> Seq<bool> {
    Seq::new(
        c.len(),
        |q: int| c[flat(nz, ny, coord_z(nx, ny, q), coord_y(nx, ny, q), coord_x(nx, q))],
    )
}

/// Rearranges a field stored in C order (`x` slowest: `z + nz * (y + ny * x)`)
/// into the flat order of this library (`x` fastest).
pub fn c_order_to_flat(c: &[bool], nx: usize, ny: usize, nz: usize) -> (out: Vec<bool>)
    requires
        c@.len() == cell_count(nx as int, ny as int, nz as int),
    ensures
        out@ == flat_from_c_order(c@, nx as int, ny as int, nz as int),
        forall|x: int, y: int, z: int|
            0 <= x < nx && 0 <= y < ny && 0 <= z < nz ==> #[trigger] out@[flat(
                nx as int,
                ny as int,
                x,
                y,
                z,
            )] == c@[flat(nz as int, ny as int, z, y, x)],
{
    let ghost gx = nx as int;
    let ghost gy = ny as int;
    let ghost gz = nz as int;
    proof {
        assert(gz * gy * gx == gx * gy * gz) by (nonlinear_arith);
        assert(gx * gy * 0 == 0) by (nonlinear_arith);
    }
    let total = c.len();
    let mut v: Vec<bool> = Vec::with_capacity(total);
    for k in 0..nz
        invariant
            c@.len() == cell_count(gx, gy, gz),
            cell_count(gz, gy, gx) == cell_count(gx, gy, gz),
            total == c@.len(),
            gx == nx,
            gy == ny,
            gz == nz,
            v@.len() == gx * gy * k,
            forall|q: int|
                0 <= q < v@.len() ==> #[trigger] v@[q] == c@[flat(
                    gz,
                    gy,
                    coord_z(gx, gy, q),
                    coord_y(gx, gy, q),
                    coord_x(gx, q),
                )],
    {
        proof {
            assert(gx * (0 + gy * k) == gx * gy * k) by (nonlinear_arith);
        }
        for j in 0..ny
            invariant
                c@.len() == cell_count(gx, gy, gz),
                cell_count(gz, gy, gx) == cell_count(gx, gy, gz),
                total == c@.len(),
                gx == nx,
                gy == ny,
                gz == nz,
                k < nz,
                v@.len() == gx * (j + gy * k),
                forall|q: int|
                    0 <= q < v@.len() ==> #[trigger] v@[q] == c@[flat(
                        gz,
                        gy,
                        coord_z(gx, gy, q),
                        coord_y(gx, gy, q),
                        coord_x(gx, q),
                    )],
        {
            for i in 0..nx
                invariant
                    c@.len() == cell_count(gx, gy, gz),
                    cell_count(gz, gy, gx) == cell_count(gx, gy, gz),
                    total == c@.len(),
                    gx == nx,
                    gy == ny,
                    gz == nz,
                    j < ny,
                    k < nz,
                    v@.len() == i + gx * (j + gy * k),
                    forall|q: int|
                        0 <= q < v@.len() ==> #[trigger] v@[q] == c@[flat(
                            gz,
                            gy,
                            coord_z(gx, gy, q),
                            coord_y(gx, gy, q),
                            coord_x(gx, q),
                        )],
            {
                proof {
                    lemma_flat_coords(gx, gy, gz, i as int, j as int, k as int);
                    lemma_flat_bounds(gz, gy, gx, k as int, j as int, i as int);
                }
                let src = flat_index(k, j, i, nz, ny, nx);
                v.push(c[src]);
            }
            proof {
                assert(gx + gx * (j + gy * k) == gx * ((j + 1) + gy * k)) by (nonlinear_arith);
            }
        }
        proof {
            assert(gx * (gy + gy * k) == gx * gy * (k + 1)) by (nonlinear_arith);
        }
    }
    proof {
        assert forall|x: int, y: int, z: int|
            0 <= x < nx && 0 <= y < ny && 0 <= z < nz implies #[trigger] v@[flat(
                gx,
                gy,
                x,
                y,
                z,
            )] == c@[flat(gz, gy, z, y, x)] by {
            lemma_flat_coords(gx, gy, gz, x, y, z);
        }
        assert(v@ =~= flat_from_c_order(c@, gx, gy, gz));
    }
    v
}

/// Labels the cloud patches of a field stored in C order (`x` slowest). The
/// result holds one signed label per cell in the flat order of this library
/// (`x` fastest): `-1` for a clear cell, the patch number for a cloud cell.
pub fn gen_labels_i32(c: &[bool], nx: usize, ny: usize, nz: usize) -> (out: Vec<i32>)
    requires
        c@.len() == cell_count(nx as int, ny as int, nz as int),
        c@.len() <= isize::MAX,
    ensures
        exists|labels: Seq<Option<usize>>|
            is_patch_labelling(flat_from_c_order(c@, nx as int, ny as int, nz as int), nx as int, ny as int, nz as int, labels)
                && out@ == labels.map_values(|l: Option<usize>| encode_label(l))
                && out@.len() == labels.len()
                && (forall|i: int| 0 <= i < labels.len() && #[trigger] labels[i] is None ==> out@[i] == -1)
                && (forall|i: int|
                0 <= i < labels.len() && #[trigger] labels[i] is Some && labels[i]->0 <= i32::MAX
                    ==> out@[i] as int == labels[i]->0 as int),
{
    let f = c_order_to_flat(c, nx, ny, nz);
    let labels = gen_labels(f.as_slice(), nx, ny, nz);
    let out = labels_to_i32(labels.as_slice());
    assert(out@ =~= labels@.map_values(|l: Option<usize>| encode_label(l)));
    out
}

} // verus!
