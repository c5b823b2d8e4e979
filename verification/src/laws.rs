//! Properties of the library as a whole, stated over the contracts of its
//! functions.
use vstd::prelude::*;
use vstd::multiset::Multiset;
use crate::interop::{decode_label, decode_labels, encode_label};
use crate::labeler::{filled, fillable, is_patch_labelling, labels_in_scan_order, respects_faces};
use crate::paths::{
    connected, is_cloud_path, lemma_connected_ends, lemma_connected_refl, path_step,
};
use crate::sizes::{count_label, lemma_max_label, max_label, size_count};

verus! {

/// Along a path of cloud cells, a labelling that respects faces is constant.
proof fn lemma_path_constant_label(
    cld: Seq<bool>,
    nx: int,
    ny: int,
    nz: int,
    labels: Seq<Option<usize>>,
    p: Seq<int>,
    k: int,
)
    requires
        respects_faces(cld, nx, ny, nz, labels),
        is_cloud_path(cld, nx, ny, nz, p),
        0 <= k < p.len(),
    ensures
        labels[p[k]] == labels[p[0]],
    decreases k,
{
    if k > 0 {
        lemma_path_constant_label(cld, nx, ny, nz, labels, p, k - 1);
        assert(path_step(nx, ny, nz, p, k - 1));
        assert(cld[p[k - 1]] && cld[p[k]]);
    }
}

/// Two cloud cells carry the same label exactly when they lie in the same
/// cloud patch.
pub proof fn lemma_same_label_iff_connected(
    cld: Seq<bool>,
    nx: int,
    ny: int,
    nz: int,
    labels: Seq<Option<usize>>,
    i: int,
    j: int,
)
    requires
        is_patch_labelling(cld, nx, ny, nz, labels),
        0 <= i < cld.len(),
        0 <= j < cld.len(),
        cld[i],
        cld[j],
    ensures
        labels[i] == labels[j] <==> connected(cld, nx, ny, nz, i, j),
{
    assert(labels[i] is Some);
    if connected(cld, nx, ny, nz, i, j) {
        let p = choose|p: Seq<int>|
            #[trigger] is_cloud_path(cld, nx, ny, nz, p) && p[0] == i && p.last() == j;
        lemma_path_constant_label(cld, nx, ny, nz, labels, p, p.len() - 1);
    }
}

/// In scan order, a cell labelled `m` is preceded (or matched) by a cell of
/// every label `l <= m`.
proof fn lemma_scan_reaches(labels: Seq<Option<usize>>, j: int, l: int)
    requires
        labels_in_scan_order(labels),
        0 <= j < labels.len(),
        labels[j] is Some,
        0 <= l <= labels[j]->0,
    ensures
        exists|k: int| 0 <= k <= j && #[trigger] labels[k] == Some(l as usize),
    decreases labels[j]->0 - l,
{
    let m = labels[j]->0 as int;
    if l == m {
        assert(labels[j] == Some(l as usize));
    } else {
        let k = choose|k: int| 0 <= k < j && #[trigger] labels[k] == Some((m - 1) as usize);
        lemma_scan_reaches(labels, k, l);
    }
}

/// In scan order a cell's label is at most its flat index, so every label is
/// smaller than the number of cells.
pub proof fn lemma_label_at_most_index(labels: Seq<Option<usize>>, i: int)
    requires
        labels_in_scan_order(labels),
        0 <= i < labels.len(),
        labels[i] is Some,
    ensures
        labels[i]->0 <= i,
    decreases labels[i]->0,
{
    let l = labels[i]->0 as int;
    if l > 0 {
        let j = choose|j: int| 0 <= j < i && #[trigger] labels[j] == Some((l - 1) as usize);
        lemma_label_at_most_index(labels, j);
    }
}

/// A label held by some cell is counted at least once.
proof fn lemma_count_label_positive(labels: Seq<Option<usize>>, i: int, l: usize)
    requires
        0 <= i < labels.len(),
        labels[i] == Some(l),
    ensures
        count_label(labels, l) > 0,
    decreases labels.len(),
{
    if i < labels.len() - 1 {
        lemma_count_label_positive(labels.drop_last(), i, l);
    }
}

/// Labels in scan order leave no gap: every label up to the largest one
/// covers at least one cell, so no patch size is zero.
pub proof fn lemma_scan_order_sizes_positive(labels: Seq<Option<usize>>, l: int)
    requires
        labels_in_scan_order(labels),
        0 <= l < size_count(labels),
    ensures
        exists|i: int| 0 <= i < labels.len() && #[trigger] labels[i] == Some(l as usize),
        count_label(labels, l as usize) > 0,
{
    lemma_max_label(labels);
    let i0 = choose|i: int| 0 <= i < labels.len() && #[trigger] labels[i] == max_label(labels);
    lemma_scan_reaches(labels, i0, l);
    let k = choose|k: int| 0 <= k <= i0 && #[trigger] labels[k] == Some(l as usize);
    lemma_count_label_positive(labels, k, l as usize);
}

/// Number of labelled cells.
pub open spec fn count_labelled(labels: Seq<Option<usize>>) -> nat
    decreases labels.len(),
{
    if labels.len() == 0 {
        0
    } else {
        count_labelled(labels.drop_last()) + if labels.last() is Some {
            1nat
        } else {
            0nat
        }
    }
}

/// Sum of the sizes of labels `0` to `k - 1`.
pub open spec fn total_size(labels: Seq<Option<usize>>, k: int) -> nat
    decreases k,
{
    if k <= 0 {
        0
    } else {
        total_size(labels, k - 1) + count_label(labels, (k - 1) as usize)
    }
}

proof fn lemma_total_size_split(labels: Seq<Option<usize>>, k: int)
    requires
        labels.len() > 0,
        0 <= k <= usize::MAX + 1,
    ensures
        total_size(labels, k) == total_size(labels.drop_last(), k) + if labels.last() is Some
            && labels.last()->0 < k {
            1nat
        } else {
            0nat
        },
    decreases k,
{
    if k > 0 {
        lemma_total_size_split(labels, k - 1);
    }
}

proof fn lemma_total_size_all(labels: Seq<Option<usize>>, k: int)
    requires
        0 <= k <= usize::MAX + 1,
        forall|i: int| 0 <= i < labels.len() && #[trigger] labels[i] is Some ==> labels[i]->0 < k,
    ensures
        total_size(labels, k) == count_labelled(labels),
    decreases labels.len(),
{
    if labels.len() == 0 {
        assert(total_size(labels, k) == 0) by {
            lemma_total_size_empty(labels, k);
        }
    } else {
        let init = labels.drop_last();
        assert forall|i: int| 0 <= i < init.len() && #[trigger] init[i] is Some implies init[i]->0
            < k by {
            assert(labels[i] == init[i]);
        }
        lemma_total_size_all(init, k);
        lemma_total_size_split(labels, k);
        assert(labels[labels.len() - 1] == labels.last());
    }
}

proof fn lemma_total_size_empty(labels: Seq<Option<usize>>, k: int)
    requires
        labels.len() == 0,
    ensures
        total_size(labels, k) == 0,
    decreases k,
{
    if k > 0 {
        lemma_total_size_empty(labels, k - 1);
    }
}

/// The sizes of all labels add up to the number of labelled cells.
pub proof fn lemma_sizes_add_up(labels: Seq<Option<usize>>)
    ensures
        total_size(labels, size_count(labels)) == count_labelled(labels),
{
    lemma_max_label(labels);
    lemma_total_size_all(labels, size_count(labels));
}

/// A clear cell is encoded as `-1`, and every label that fits in an `i32` is
/// encoded as itself, a non-negative value.
pub proof fn lemma_encoding_values(l: Option<usize>)
    ensures
        l is None ==> encode_label(l) == -1,
        l is Some && l->0 <= i32::MAX ==> encode_label(l) as int == l->0 as int,
        l is Some && l->0 <= i32::MAX ==> encode_label(l) >= 0,
{
}

/// A non-negative signed label `v` reads as label `v`, a negative one as a
/// clear cell.
pub proof fn lemma_decoding_values(v: i32)
    ensures
        v >= 0 ==> decode_label(v) == Some(v as usize),
        v >= 0 ==> decode_label(v)->0 as int == v as int,
        v < 0 ==> decode_label(v) is None,
{
}

/// Decoding the signed encoding of labels that fit in an `i32` gives the
/// labels back.
pub proof fn lemma_encoding_roundtrip(labels: Seq<Option<usize>>)
    requires
        forall|i: int|
            0 <= i < labels.len() && #[trigger] labels[i] is Some ==> labels[i]->0 <= i32::MAX,
    ensures
        decode_labels(labels.map_values(|l: Option<usize>| encode_label(l))) == labels,
{
    let enc = labels.map_values(|l: Option<usize>| encode_label(l));
    assert forall|i: int| 0 <= i < labels.len() implies #[trigger] decode_labels(enc)[i]
        == labels[i] by {
        assert(enc[i] == encode_label(labels[i]));
    }
    assert(decode_labels(enc) =~= labels);
}

/// A cloud field has exactly one patch labelling: any two labellings that
/// meet `is_patch_labelling` agree on every cell.
pub proof fn lemma_patch_labelling_unique(
    cld: Seq<bool>,
    nx: int,
    ny: int,
    nz: int,
    a: Seq<Option<usize>>,
    b: Seq<Option<usize>>,
)
    requires
        is_patch_labelling(cld, nx, ny, nz, a),
        is_patch_labelling(cld, nx, ny, nz, b),
    ensures
        a == b,
{
    assert forall|i: int| 0 <= i < a.len() implies a[i] == b[i] by {
        lemma_unique_at(cld, nx, ny, nz, a, b, i);
    }
    assert(a =~= b);
}

proof fn lemma_unique_at(
    cld: Seq<bool>,
    nx: int,
    ny: int,
    nz: int,
    a: Seq<Option<usize>>,
    b: Seq<Option<usize>>,
    i: int,
)
    requires
        is_patch_labelling(cld, nx, ny, nz, a),
        is_patch_labelling(cld, nx, ny, nz, b),
        0 <= i < cld.len(),
    ensures
        a[i] == b[i],
    decreases i,
{
    assert(a[i] is Some <==> cld[i]);
    assert(b[i] is Some <==> cld[i]);
    if cld[i] {
        assert forall|j: int| 0 <= j < i implies a[j] == b[j] by {
            lemma_unique_at(cld, nx, ny, nz, a, b, j);
        }
        if exists|j: int| 0 <= j < i && #[trigger] a[j] == a[i] {
            let j = choose|j: int| 0 <= j < i && #[trigger] a[j] == a[i];
            assert(a[j] == b[j]);
            assert(cld[j]);
            lemma_same_label_iff_connected(cld, nx, ny, nz, a, i, j);
            lemma_same_label_iff_connected(cld, nx, ny, nz, b, i, j);
        } else if exists|j: int| 0 <= j < i && #[trigger] b[j] == b[i] {
            let j = choose|j: int| 0 <= j < i && #[trigger] b[j] == b[i];
            assert(a[j] == b[j]);
            assert(cld[j]);
            lemma_same_label_iff_connected(cld, nx, ny, nz, a, i, j);
            lemma_same_label_iff_connected(cld, nx, ny, nz, b, i, j);
        } else {
            lemma_first_cell_label(a, i);
            lemma_first_cell_label(b, i);
            let la = a[i]->0 as int;
            let lb = b[i]->0 as int;
            if la < lb {
                let j = choose|j: int| 0 <= j < i && #[trigger] b[j] == Some((lb - 1) as usize);
                assert(a[j] == b[j]);
            } else if lb < la {
                let j = choose|j: int| 0 <= j < i && #[trigger] a[j] == Some((la - 1) as usize);
                assert(a[j] == b[j]);
            }
        }
    }
}

/// The first cell of a label, in scan order, comes after cells of smaller
/// labels only.
proof fn lemma_first_cell_label(labels: Seq<Option<usize>>, i: int)
    requires
        labels_in_scan_order(labels),
        0 <= i < labels.len(),
        labels[i] is Some,
        forall|j: int| 0 <= j < i ==> #[trigger] labels[j] != labels[i],
    ensures
        forall|j: int| 0 <= j < i && #[trigger] labels[j] is Some ==> labels[j]->0 < labels[i]->0,
        labels[i]->0 > 0 ==> exists|j: int|
            0 <= j < i && #[trigger] labels[j] == Some((labels[i]->0 - 1) as usize),
{
    let l = labels[i]->0 as int;
    assert forall|j: int| 0 <= j < i && #[trigger] labels[j] is Some implies labels[j]->0 < l by {
        if labels[j]->0 >= l {
            lemma_scan_reaches(labels, j, l);
            let k = choose|k: int| 0 <= k <= j && #[trigger] labels[k] == Some(l as usize);
            assert(labels[k] == labels[i]);
        }
    }
}

/// Filling twice from the same seed with the same label changes nothing the
/// second time.
pub proof fn lemma_fill_idempotent(
    cld: Seq<bool>,
    nx: int,
    ny: int,
    nz: int,
    labels: Seq<Option<usize>>,
    s: int,
    lval: usize,
)
    requires
        labels.len() == cld.len(),
    ensures
        filled(cld, nx, ny, nz, filled(cld, nx, ny, nz, labels, s, lval), s, lval) == filled(
            cld,
            nx,
            ny,
            nz,
            labels,
            s,
            lval,
        ),
{
    let once = filled(cld, nx, ny, nz, labels, s, lval);
    let free = fillable(cld, labels);
    let free2 = fillable(cld, once);
    assert forall|i: int| 0 <= i < once.len() implies !connected(free2, nx, ny, nz, s, i) by {
        if connected(free2, nx, ny, nz, s, i) {
            lemma_connected_ends(free2, nx, ny, nz, s, i);
            if !connected(free, nx, ny, nz, s, s) {
                assert(free[s]);
                lemma_connected_refl(free, nx, ny, nz, s);
            }
        }
    }
    assert(filled(cld, nx, ny, nz, once, s, lval) =~= once);
}

/// The number of cells with label `l` is the multiplicity of `Some(l)` in the
/// labels.
proof fn lemma_count_label_multiset(labels: Seq<Option<usize>>, l: usize)
    ensures
        count_label(labels, l) == labels.to_multiset().count(Some(l)),
    decreases labels.len(),
{
    broadcast use vstd::seq_lib::group_to_multiset_ensures;
    if labels.len() == 0 {
        assert(labels.to_multiset() =~= Multiset::empty());
    } else {
        let init = labels.drop_last();
        lemma_count_label_multiset(init, l);
        assert(labels =~= init.push(labels.last()));
    }
}

/// When two label sequences hold the same entries, a largest label of one is
/// held by the other, so its largest label is at least as large.
proof fn lemma_max_label_le(s: Seq<Option<usize>>, t: Seq<Option<usize>>)
    requires
        s.to_multiset() == t.to_multiset(),
        max_label(t) is Some,
    ensures
        max_label(s) is Some,
        max_label(t)->0 <= max_label(s)->0,
{
    broadcast use vstd::seq_lib::group_to_multiset_ensures;
    lemma_max_label(s);
    lemma_max_label(t);
    let m = max_label(t);
    let j = choose|j: int| 0 <= j < t.len() && #[trigger] t[j] == m;
    assert(t.contains(m));
    assert(s.to_multiset().count(m) > 0);
    assert(s.contains(m));
    let i = choose|i: int| 0 <= i < s.len() && s[i] == m;
    assert(s[i] is Some);
}

/// Patch sizes do not depend on the order of the cells: label sequences that
/// hold the same entries, in any order, have the same sizes.
pub proof fn lemma_sizes_ignore_order(s: Seq<Option<usize>>, t: Seq<Option<usize>>)
    requires
        s.to_multiset() == t.to_multiset(),
    ensures
        size_count(s) == size_count(t),
        forall|l: usize| #[trigger] count_label(s, l) == count_label(t, l),
{
    if max_label(t) is Some {
        lemma_max_label_le(s, t);
        lemma_max_label_le(t, s);
    } else if max_label(s) is Some {
        lemma_max_label_le(t, s);
    }
    assert forall|l: usize| #[trigger] count_label(s, l) == count_label(t, l) by {
        lemma_count_label_multiset(s, l);
        lemma_count_label_multiset(t, l);
    }
}

/// Cell `i` is the first cell of its patch: a cloud cell connected to no
/// earlier cell.
pub open spec fn is_patch_start(cld: Seq<bool>, nx: int, ny: int, nz: int, i: int) -> bool {
    &&& 0 <= i < cld.len()
    &&& cld[i]
    &&& forall|j: int| 0 <= j < i ==> !#[trigger] connected(cld, nx, ny, nz, j, i)
}

/// Number of patches whose first cell lies before flat index `k`.
pub open spec fn patch_count_below(cld: Seq<bool>, nx: int, ny: int, nz: int, k: int) -> nat
    decreases k,
{
    if k <= 0 {
        0
    } else {
        patch_count_below(cld, nx, ny, nz, k - 1) + if is_patch_start(cld, nx, ny, nz, k - 1) {
            1nat
        } else {
            0nat
        }
    }
}

/// Number of cloud patches of the field, counted by their first cells.
pub open spec fn patch_count(cld: Seq<bool>, nx: int, ny: int, nz: int) -> nat {
    patch_count_below(cld, nx, ny, nz, cld.len() as int)
}

/// A patch labelling has as many labels as the field has patches, so the
/// sizes of a labelling list one entry per patch.
pub proof fn lemma_size_count_is_patch_count(
    cld: Seq<bool>,
    nx: int,
    ny: int,
    nz: int,
    labels: Seq<Option<usize>>,
)
    requires
        is_patch_labelling(cld, nx, ny, nz, labels),
    ensures
        size_count(labels) == patch_count(cld, nx, ny, nz),
{
    lemma_size_count_prefix(cld, nx, ny, nz, labels, labels.len() as int);
    assert(labels.take(labels.len() as int) =~= labels);
}

proof fn lemma_size_count_prefix(
    cld: Seq<bool>,
    nx: int,
    ny: int,
    nz: int,
    labels: Seq<Option<usize>>,
    k: int,
)
    requires
        is_patch_labelling(cld, nx, ny, nz, labels),
        0 <= k <= labels.len(),
    ensures
        size_count(labels.take(k)) == patch_count_below(cld, nx, ny, nz, k),
    decreases k,
{
    if k == 0 {
        assert(labels.take(0).len() == 0);
    } else {
        let i = k - 1;
        lemma_size_count_prefix(cld, nx, ny, nz, labels, i);
        let pre = labels.take(i);
        let cur = labels.take(k);
        assert(cur.drop_last() =~= pre);
        assert(cur.last() == labels[i]);
        lemma_max_label(pre);
        assert(labels[i] is Some <==> cld[i]);
        if cld[i] {
            let l = labels[i]->0 as int;
            if is_patch_start(cld, nx, ny, nz, i) {
                assert forall|j: int| 0 <= j < i implies #[trigger] labels[j] != labels[i] by {
                    if labels[j] == labels[i] {
                        assert(cld[j]);
                        lemma_same_label_iff_connected(cld, nx, ny, nz, labels, j, i);
                        assert(!connected(cld, nx, ny, nz, j, i));
                    }
                }
                lemma_first_cell_label(labels, i);
                if max_label(pre) is Some {
                    let j0 = choose|j: int| 0 <= j < pre.len() && #[trigger] pre[j] == max_label(pre);
                    assert(pre[j0] == labels[j0]);
                    assert(labels[j0] is Some);
                    if l > 0 {
                        let j1 = choose|j: int|
                            0 <= j < i && #[trigger] labels[j] == Some((l - 1) as usize);
                        assert(pre[j1] == labels[j1]);
                        assert(pre[j1] is Some);
                    }
                } else if l > 0 {
                    let j1 = choose|j: int| 0 <= j < i && #[trigger] labels[j] == Some((l - 1) as usize);
                    assert(pre[j1] == labels[j1]);
                    assert(pre[j1] is Some);
                }
            } else {
                let j = choose|j: int| 0 <= j < i && #[trigger] connected(cld, nx, ny, nz, j, i);
                lemma_connected_ends(cld, nx, ny, nz, j, i);
                lemma_same_label_iff_connected(cld, nx, ny, nz, labels, j, i);
                assert(pre[j] == labels[j]);
                assert(pre[j] is Some);
            }
        }
    }
}

} // verus!
