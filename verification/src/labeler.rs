//! Labelling of cloud patches by iterative flood fill.
use vstd::prelude::*;
use crate::grid::{
    cell_count, cyclic, flat, flat_index, is_neighbor, lemma_flat_bounds, lemma_flat_coords,
    lemma_neighbor_symmetric, lemma_wrap_inverse, lemma_wrap_mod,
};
use crate::paths::{
    connected, lemma_closed_set_contains_connected, lemma_connected_ends,
    lemma_connected_extend, lemma_connected_refl, lemma_connected_subset,
    lemma_connected_symmetric, lemma_connected_transitive,
};

verus! {

/// A cell holds a label exactly when it is a cloud cell.
pub open spec fn marks_cloud(cld: Seq<bool>, labels: Seq<Option<usize>>) -> bool {
    &&& labels.len() == cld.len()
    &&& forall|i: int| 0 <= i < labels.len() ==> (#[trigger] labels[i] is Some <==> cld[i])
}

/// Cloud cells that share a face carry the same label.
pub open spec fn respects_faces(
    cld: Seq<bool>,
    nx: int,
    ny: int,
    nz: int,
    labels: Seq<Option<usize>>,
) -> bool {
    forall|i: int, j: int|
        #[trigger] is_neighbor(nx, ny, nz, i, j) && cld[i] && cld[j] ==> labels[i] == labels[j]
}

/// Cells that carry the same label lie in the same cloud patch.
pub open spec fn same_label_connected(
    cld: Seq<bool>,
    nx: int,
    ny: int,
    nz: int,
    labels: Seq<Option<usize>>,
) -> bool {
    forall|i: int, j: int|
        0 <= i < labels.len() && 0 <= j < labels.len() && #[trigger] labels[i] is Some
            && labels[i] == #[trigger] labels[j] ==> connected(cld, nx, ny, nz, i, j)
}

/// Labels start at 0 and are handed out in scan order: a cell labelled
/// `l > 0` comes after some cell labelled `l - 1`.
pub open spec fn labels_in_scan_order(labels: Seq<Option<usize>>) -> bool {
    forall|i: int|
        0 <= i < labels.len() && #[trigger] labels[i] is Some && labels[i]->0 > 0 ==> exists|j: int|
            0 <= j < i && #[trigger] labels[j] == Some((labels[i]->0 - 1) as usize)
}

/// `labels` labels the cloud patches of `cld`: one label per patch, the
/// patches numbered from 0 in the order of their first cell.
pub open spec fn is_patch_labelling(
    cld: Seq<bool>,
    nx: int,
    ny: int,
    nz: int,
    labels: Seq<Option<usize>>,
) -> bool {
    &&& marks_cloud(cld, labels)
    &&& respects_faces(cld, nx, ny, nz, labels)
    &&& same_label_connected(cld, nx, ny, nz, labels)
    &&& labels_in_scan_order(labels)
}

/// Every labelled cell is a cloud cell.
pub open spec fn labelled_cloud(cld: Seq<bool>, labels: Seq<Option<usize>>) -> bool {
    forall|i: int| 0 <= i < labels.len() && #[trigger] labels[i] is Some ==> i < cld.len() && cld[i]
}

/// The cloud neighbours of a labelled cell carry its label.
pub open spec fn labels_closed(
    cld: Seq<bool>,
    nx: int,
    ny: int,
    nz: int,
    labels: Seq<Option<usize>>,
) -> bool {
    forall|i: int, j: int|
        #[trigger] is_neighbor(nx, ny, nz, i, j) && labels[i] is Some && cld[j] ==> labels[j]
            == labels[i]
}

/// The cells a fill may take: cloud cells that hold no label.
pub open spec fn fillable(cld: Seq<bool>, labels: Seq<Option<usize>>) -> Seq<bool> {
    Seq::new(cld.len(), |i: int| cld[i] && labels[i] is None)
}

/// `labels` after filling from cell `s` with `lval`: the fillable cells
/// reached from `s` through fillable cells take `lval`, every other cell keeps
/// its entry. Nothing changes when `s` itself is not fillable.
pub open spec fn filled(
    cld: Seq<bool>,
    nx: int,
    ny: int,
    nz: int,
    labels: Seq<Option<usize>>,
    s: int,
    lval: usize,
) -> Seq<Option<usize>> {
    Seq::new(
        labels.len(),
        |i: int|
            if connected(fillable(cld, labels), nx, ny, nz, s, i) {
                Some(lval)
            } else {
                labels[i]
            },
    )
}

/// The fillable neighbours of a cell that took `lval` took it too, or wait on
/// the stack.
spec fn frontier_pending(
    free: Seq<bool>,
    nx: int,
    ny: int,
    nz: int,
    labels: Seq<Option<usize>>,
    lval: usize,
    pend: Seq<int>,
) -> bool {
    forall|c: int, j: int|
        #[trigger] is_neighbor(nx, ny, nz, c, j) && free[c] && labels[c] == Some(lval) && free[j]
            ==> labels[j] == Some(lval) || pend.contains(j)
}

/// `pend` lists the flat indices of the stacked coordinates, all in the grid.
spec fn stack_matches(stack: Seq<(usize, usize, usize)>, pend: Seq<int>, nx: usize, ny: usize, nz: usize) -> bool {
    &&& pend.len() == stack.len()
    &&& forall|k: int|
        0 <= k < stack.len() ==> #[trigger] stack[k].0 < nx && stack[k].1 < ny && stack[k].2 < nz
            && pend[k] == flat(nx as int, ny as int, stack[k].0 as int, stack[k].1 as int, stack[k].2 as int)
}

/// Number of unlabelled cells.
spec fn count_none(s: Seq<Option<usize>>) -> nat
    decreases s.len(),
{
    if s.len() == 0 {
        0
    } else {
        count_none(s.drop_last()) + if s.last() is None {
            1nat
        } else {
            0nat
        }
    }
}

proof fn lemma_count_none_update(s: Seq<Option<usize>>, i: int, v: usize)
    requires
        0 <= i < s.len(),
        s[i] is None,
    ensures
        count_none(s.update(i, Some(v))) + 1 == count_none(s),
    decreases s.len(),
{
    let t = s.update(i, Some(v));
    if i == s.len() - 1 {
        assert(t.drop_last() =~= s.drop_last());
    } else {
        lemma_count_none_update(s.drop_last(), i, v);
        assert(t.drop_last() =~= s.drop_last().update(i, Some(v)));
    }
}

/// The six candidate neighbours pushed for the cell at `(x, y, z)` are its
/// face neighbours, and lie in the grid.
proof fn lemma_pushed_neighbors(
    nx: int,
    ny: int,
    nz: int,
    x: int,
    y: int,
    z: int,
    xm: int,
    xp: int,
    ym: int,
    yp: int,
)
    requires
        0 <= x < nx,
        0 <= y < ny,
        0 <= z < nz,
        xm == (x - 1) % nx,
        xp == (x + 1) % nx,
        ym == (y - 1) % ny,
        yp == (y + 1) % ny,
    ensures
        0 <= xm < nx,
        0 <= xp < nx,
        0 <= ym < ny,
        0 <= yp < ny,
        forall|j: int|
            is_neighbor(nx, ny, nz, flat(nx, ny, x, y, z), j) <==> {
                ||| j == flat(nx, ny, xm, y, z)
                ||| j == flat(nx, ny, xp, y, z)
                ||| j == flat(nx, ny, x, ym, z)
                ||| j == flat(nx, ny, x, yp, z)
                ||| (z > 0 && j == flat(nx, ny, x, y, z - 1))
                ||| (z + 1 < nz && j == flat(nx, ny, x, y, z + 1))
            },
{
    lemma_wrap_mod(x, nx);
    lemma_wrap_mod(y, ny);
    lemma_wrap_inverse(x, nx);
    lemma_wrap_inverse(y, ny);
    lemma_flat_coords(nx, ny, nz, x, y, z);
    lemma_flat_bounds(nx, ny, nz, xm, y, z);
    lemma_flat_bounds(nx, ny, nz, xp, y, z);
    lemma_flat_bounds(nx, ny, nz, x, ym, z);
    lemma_flat_bounds(nx, ny, nz, x, yp, z);
    if z > 0 {
        lemma_flat_bounds(nx, ny, nz, x, y, z - 1);
    }
    if z + 1 < nz {
        lemma_flat_bounds(nx, ny, nz, x, y, z + 1);
    }
}

/// Labels with `lval` every unlabelled cloud cell reached from the seed
/// `(x0, y0, z0)` through unlabelled cloud cells, by iterative depth-first
/// search over an explicit stack; every other entry stays as it was. A seed
/// that is clear or already labelled leaves the labels unchanged.
fn flood_fill(
    x0: usize,
    y0: usize,
    z0: usize,
    nx: usize,
    ny: usize,
    nz: usize,
    cld: &[bool],
    label: &mut Vec<Option<usize>>,
    lval: usize,
)
    requires
        cld@.len() == cell_count(nx as int, ny as int, nz as int),
        cld@.len() <= isize::MAX,
        old(label)@.len() == cld@.len(),
        x0 < nx,
        y0 < ny,
        z0 < nz,
    ensures
        final(label)@ == filled(
            cld@,
            nx as int,
            ny as int,
            nz as int,
            old(label)@,
            flat(nx as int, ny as int, x0 as int, y0 as int, z0 as int),
            lval,
        ),
{
    let ghost gx = nx as int;
    let ghost gy = ny as int;
    let ghost gz = nz as int;
    let ghost n = cld@.len() as int;
    let ghost s = flat(gx, gy, x0 as int, y0 as int, z0 as int);
    let ghost free = fillable(cld@, old(label)@);
    proof {
        lemma_flat_coords(gx, gy, gz, x0 as int, y0 as int, z0 as int);
        assert(gx <= n && gy <= n) by (nonlinear_arith)
            requires
                0 <= x0 < gx,
                0 <= y0 < gy,
                0 <= z0 < gz,
                n == gx * gy * gz,
        ;
    }
    let mut stack: Vec<(usize, usize, usize)> = Vec::new();
    stack.push((x0, y0, z0));
    // `pend` holds the flat index of each stacked cell, `par` the cell whose
    // visit pushed it.
    let ghost mut pend: Seq<int> = seq![s];
    let ghost mut par: Seq<int> = seq![s];

    while stack.len() > 0
        invariant
            cld@.len() == n,
            n == cell_count(gx, gy, gz),
            n <= isize::MAX,
            gx == nx,
            gy == ny,
            gz == nz,
            gx <= n,
            gy <= n,
            0 <= s < n,
            free == fillable(cld@, old(label)@),
            label@.len() == n,
            old(label)@.len() == n,
            stack_matches(stack@, pend, nx, ny, nz),
            par.len() == stack@.len(),
            forall|i: int|
                0 <= i < n ==> #[trigger] label@[i] == old(label)@[i] || (free[i] && label@[i]
                    == Some(lval)),
            frontier_pending(free, gx, gy, gz, label@, lval, pend),
            forall|i: int|
                0 <= i < n && free[i] && #[trigger] label@[i] == Some(lval) ==> connected(
                    free,
                    gx,
                    gy,
                    gz,
                    s,
                    i,
                ),
            forall|k: int|
                0 <= k < pend.len() ==> #[trigger] pend[k] == s || (0 <= par[k] < n && free[par[k]]
                    && label@[par[k]] == Some(lval) && is_neighbor(gx, gy, gz, par[k], pend[k])),
            free[s] ==> label@[s] == Some(lval) || (pend.len() == 1 && pend[0] == s),
        decreases 7 * count_none(label@) + stack@.len(),
    {
        let ghost label0 = label@;
        let ghost pend0 = pend;
        let ghost par0 = par;
        let ghost len0: int = stack@.len() as int;
        let ghost mut kdown: int = 0;
        let ghost mut kup: int = 0;
        let (x, y, z) = stack.pop().unwrap();
        let i = flat_index(x, y, z, nx, ny, nz);
        proof {
            assert(pend0[len0 - 1] == i);
            pend = pend.drop_last();
            par = par.drop_last();
            assert(stack_matches(stack@, pend, nx, ny, nz));
            lemma_flat_coords(gx, gy, gz, x as int, y as int, z as int);
        }
        if cld[i] && label[i].is_none() {
            label[i] = Some(lval);
            proof {
                assert(label0[i as int] == old(label)@[i as int]);
                assert(free[i as int]);
                lemma_count_none_update(label0, i as int, lval);
                assert(label@ == label0.update(i as int, Some(lval)));
                if i as int == s {
                    lemma_connected_refl(free, gx, gy, gz, s);
                } else {
                    let p = par0[len0 - 1];
                    lemma_connected_extend(free, gx, gy, gz, s, p, i as int);
                }
            }
            let xm = cyclic(x as isize - 1, nx);
            stack.push((xm, y, z));
            proof {
                pend = pend.push(flat(gx, gy, xm as int, y as int, z as int));
                par = par.push(i as int);
                assert(stack_matches(stack@, pend, nx, ny, nz));
            }
            let xp = cyclic(x as isize + 1, nx);
            stack.push((xp, y, z));
            proof {
                pend = pend.push(flat(gx, gy, xp as int, y as int, z as int));
                par = par.push(i as int);
                assert(stack_matches(stack@, pend, nx, ny, nz));
            }
            let ym = cyclic(y as isize - 1, ny);
            stack.push((x, ym, z));
            proof {
                pend = pend.push(flat(gx, gy, x as int, ym as int, z as int));
                par = par.push(i as int);
                assert(stack_matches(stack@, pend, nx, ny, nz));
            }
            let yp = cyclic(y as isize + 1, ny);
            stack.push((x, yp, z));
            proof {
                pend = pend.push(flat(gx, gy, x as int, yp as int, z as int));
                par = par.push(i as int);
                assert(stack_matches(stack@, pend, nx, ny, nz));
            }
            if z > 0 {
                stack.push((x, y, z - 1));
                proof {
                    kdown = pend.len() as int;
                    pend = pend.push(flat(gx, gy, x as int, y as int, z - 1));
                    par = par.push(i as int);
                    assert(stack_matches(stack@, pend, nx, ny, nz));
                }
            }
            if z + 1 < nz {
                stack.push((x, y, z + 1));
                proof {
                    kup = pend.len() as int;
                    pend = pend.push(flat(gx, gy, x as int, y as int, z + 1));
                    par = par.push(i as int);
                    assert(stack_matches(stack@, pend, nx, ny, nz));
                }
            }
            proof {
                lemma_pushed_neighbors(
                    gx,
                    gy,
                    gz,
                    x as int,
                    y as int,
                    z as int,
                    xm as int,
                    xp as int,
                    ym as int,
                    yp as int,
                );
                assert(pend[len0 - 1] == flat(gx, gy, xm as int, y as int, z as int));
                assert(pend[len0 as int] == flat(gx, gy, xp as int, y as int, z as int));
                assert(pend[len0 + 1] == flat(gx, gy, x as int, ym as int, z as int));
                assert(pend[len0 + 2] == flat(gx, gy, x as int, yp as int, z as int));
                assert(z > 0 ==> pend[kdown] == flat(gx, gy, x as int, y as int, z - 1) && 0 <= kdown
                    < pend.len());
                assert(z + 1 < nz ==> pend[kup] == flat(gx, gy, x as int, y as int, z + 1) && 0
                    <= kup < pend.len());
                assert forall|c: int, j: int|
                    #[trigger] is_neighbor(gx, gy, gz, c, j) && free[c] && label@[c] == Some(lval)
                        && free[j] implies label@[j] == Some(lval) || pend.contains(j) by {
                    if c == i as int {
                        if j == flat(gx, gy, xm as int, y as int, z as int) {
                            assert(pend[len0 - 1] == j);
                        } else if j == flat(gx, gy, xp as int, y as int, z as int) {
                            assert(pend[len0 as int] == j);
                        } else if j == flat(gx, gy, x as int, ym as int, z as int) {
                            assert(pend[len0 + 1] == j);
                        } else if j == flat(gx, gy, x as int, yp as int, z as int) {
                            assert(pend[len0 + 2] == j);
                        } else if z > 0 && j == flat(gx, gy, x as int, y as int, z - 1) {
                            assert(pend[kdown] == j);
                        } else {
                            assert(pend[kup] == j);
                        }
                    } else {
                        assert(label0[c] == Some(lval));
                        if label0[j] != Some(lval) {
                            assert(pend0.contains(j));
                            let k = choose|k: int| 0 <= k < pend0.len() && pend0[k] == j;
                            if k < len0 - 1 {
                                assert(pend[k] == j);
                            }
                        }
                    }
                }
            }
        } else {
            proof {
                assert(label@ == label0);
                assert forall|c: int, j: int|
                    #[trigger] is_neighbor(gx, gy, gz, c, j) && free[c] && label@[c] == Some(lval)
                        && free[j] implies label@[j] == Some(lval) || pend.contains(j) by {
                    if label0[j] != Some(lval) {
                        assert(pend0.contains(j));
                        let k = choose|k: int| 0 <= k < pend0.len() && pend0[k] == j;
                        if k < len0 - 1 {
                            assert(pend[k] == j);
                        } else {
                            assert(j == i as int);
                            assert(label@[j] == old(label)@[j] || label@[j] == Some(lval));
                        }
                    }
                }
                if free[s] && label@[s] != Some(lval) {
                    assert(i as int == s);
                    assert(label@[s] == old(label)@[s]);
                }
            }
        }
    }
    proof {
        let lab = label@;
        let done = |c: int| free[c] && lab[c] == Some(lval);
        assert forall|c: int, j: int|
            #[trigger] is_neighbor(gx, gy, gz, c, j) && done(c) && 0 <= j < free.len() && free[j]
                implies done(j) by {
            assert(!pend.contains(j));
        }
        assert forall|i: int| 0 <= i < n implies #[trigger] lab[i] == filled(
            cld@,
            gx,
            gy,
            gz,
            old(label)@,
            s,
            lval,
        )[i] by {
            if connected(free, gx, gy, gz, s, i) {
                lemma_connected_ends(free, gx, gy, gz, s, i);
                lemma_closed_set_contains_connected(free, gx, gy, gz, done, s, i);
            }
        }
        assert(lab =~= filled(cld@, gx, gy, gz, old(label)@, s, lval));
    }
}

/// On the states the scan produces (labels closed, on cloud cells, all below
/// `lval`, seed an unlabelled cloud cell), a fill keeps every label, labels
/// the seed, keeps the labels closed and on cloud cells, and gives `lval` only
/// to cells connected to the seed.
proof fn lemma_fill_in_scan(
    cld: Seq<bool>,
    nx: int,
    ny: int,
    nz: int,
    labels: Seq<Option<usize>>,
    s: int,
    lval: usize,
)
    requires
        0 <= nx,
        0 <= ny,
        0 <= nz,
        cld.len() == cell_count(nx, ny, nz),
        labels.len() == cld.len(),
        0 <= s < cld.len(),
        cld[s],
        labels[s] is None,
        labelled_cloud(cld, labels),
        labels_closed(cld, nx, ny, nz, labels),
        forall|i: int| 0 <= i < labels.len() && #[trigger] labels[i] is Some ==> labels[i]->0 < lval,
    ensures
        ({
            let after = filled(cld, nx, ny, nz, labels, s, lval);
            &&& after.len() == labels.len()
            &&& forall|i: int|
                0 <= i < labels.len() && #[trigger] labels[i] is Some ==> after[i] == labels[i]
            &&& forall|i: int|
                0 <= i < labels.len() && #[trigger] labels[i] is None ==> after[i] is None
                    || after[i] == Some(lval)
            &&& after[s] == Some(lval)
            &&& labelled_cloud(cld, after)
            &&& labels_closed(cld, nx, ny, nz, after)
            &&& forall|i: int|
                0 <= i < after.len() && #[trigger] after[i] == Some(lval) ==> connected(
                    cld,
                    nx,
                    ny,
                    nz,
                    s,
                    i,
                )
        }),
{
    let free = fillable(cld, labels);
    let after = filled(cld, nx, ny, nz, labels, s, lval);
    assert forall|i: int| 0 <= i < labels.len() && #[trigger] labels[i] is Some implies after[i]
        == labels[i] by {
        if connected(free, nx, ny, nz, s, i) {
            lemma_connected_ends(free, nx, ny, nz, s, i);
        }
    }
    lemma_connected_refl(free, nx, ny, nz, s);
    assert forall|i: int| 0 <= i < after.len() && #[trigger] after[i] is Some implies i < cld.len()
        && cld[i] by {
        if connected(free, nx, ny, nz, s, i) {
            lemma_connected_ends(free, nx, ny, nz, s, i);
        }
    }
    assert forall|i: int| 0 <= i < after.len() && #[trigger] after[i] == Some(lval) implies connected(
        cld,
        nx,
        ny,
        nz,
        s,
        i,
    ) by {
        if connected(free, nx, ny, nz, s, i) {
            lemma_connected_subset(free, cld, nx, ny, nz, s, i);
        } else {
            assert(labels[i] == Some(lval));
        }
    }
    assert forall|i: int, j: int|
        #[trigger] is_neighbor(nx, ny, nz, i, j) && after[i] is Some && cld[j] implies after[j]
        == after[i] by {
        if connected(free, nx, ny, nz, s, i) {
            lemma_connected_ends(free, nx, ny, nz, s, i);
            if labels[j] is None {
                lemma_connected_extend(free, nx, ny, nz, s, i, j);
            } else {
                lemma_neighbor_symmetric(nx, ny, nz, i, j);
                assert(cld[i]);
                assert(is_neighbor(nx, ny, nz, j, i));
            }
        } else {
            assert(labels[i] is Some);
            assert(labels[j] == labels[i]);
            if connected(free, nx, ny, nz, s, j) {
                lemma_connected_ends(free, nx, ny, nz, s, j);
            }
        }
    }
}

/// State of the scan after every cell before flat index `p` has been visited:
/// the labels so far are closed, every cloud cell before `p` is labelled, and
/// label `l` was started at cell `seeds[l]`, from which all its cells are
/// reached.
spec fn scan_state(
    cld: Seq<bool>,
    nx: int,
    ny: int,
    nz: int,
    labels: Seq<Option<usize>>,
    next: int,
    seeds: Seq<int>,
    p: int,
) -> bool {
    &&& labels.len() == cld.len()
    &&& 0 <= next <= p <= cld.len()
    &&& labelled_cloud(cld, labels)
    &&& labels_closed(cld, nx, ny, nz, labels)
    &&& forall|i: int| 0 <= i < p && cld[i] ==> #[trigger] labels[i] is Some
    &&& seeds.len() == next
    &&& forall|l: int|
        0 <= l < next ==> 0 <= #[trigger] seeds[l] < p && labels[seeds[l]] == Some(l as usize)
    &&& forall|l1: int, l2: int| 0 <= l1 < l2 < next ==> #[trigger] seeds[l1] < #[trigger] seeds[l2]
    &&& forall|i: int|
        0 <= i < labels.len() && #[trigger] labels[i] is Some ==> {
            let l = labels[i]->0 as int;
            &&& l < next
            &&& seeds[l] <= i
            &&& connected(cld, nx, ny, nz, seeds[l], i)
        }
}

/// Visits the cell at `(x, y, z)`, the `p`-th in scan order, and starts a new
/// label there when it is an unlabelled cloud cell.
fn visit_cell(
    x: usize,
    y: usize,
    z: usize,
    nx: usize,
    ny: usize,
    nz: usize,
    cld: &[bool],
    label: &mut Vec<Option<usize>>,
    next_label: &mut usize,
    Ghost(seeds): Ghost<Seq<int>>,
) -> (new_seeds: Ghost<Seq<int>>)
    requires
        cld@.len() == cell_count(nx as int, ny as int, nz as int),
        cld@.len() <= isize::MAX,
        x < nx,
        y < ny,
        z < nz,
        scan_state(
            cld@,
            nx as int,
            ny as int,
            nz as int,
            old(label)@,
            *old(next_label) as int,
            seeds,
            flat(nx as int, ny as int, x as int, y as int, z as int),
        ),
    ensures
        scan_state(
            cld@,
            nx as int,
            ny as int,
            nz as int,
            final(label)@,
            *final(next_label) as int,
            new_seeds@,
            flat(nx as int, ny as int, x as int, y as int, z as int) + 1,
        ),
{
    let ghost gx = nx as int;
    let ghost gy = ny as int;
    let ghost gz = nz as int;
    let i = flat_index(x, y, z, nx, ny, nz);
    if cld[i] && label[i].is_none() {
        let ghost label0 = label@;
        let ghost seeds0 = seeds;
        let ghost seeds = seeds0.push(i as int);
        let ghost p = i as int;
        let ghost lval = *next_label as int;
        flood_fill(x, y, z, nx, ny, nz, cld, label, *next_label);
        proof {
            lemma_fill_in_scan(cld@, gx, gy, gz, label0, p, lval as usize);
            assert forall|l: int| 0 <= l < lval + 1 implies 0 <= #[trigger] seeds[l] < p + 1
                && label@[seeds[l]] == Some(l as usize) by {
                if l < lval {
                    assert(seeds[l] == seeds0[l]);
                    assert(label0[seeds0[l]] is Some);
                }
            }
            assert forall|l1: int, l2: int| 0 <= l1 < l2 < lval + 1 implies #[trigger] seeds[l1]
                < #[trigger] seeds[l2] by {
                assert(seeds[l1] == seeds0[l1]);
                if l2 < lval {
                    assert(seeds[l2] == seeds0[l2]);
                    assert(seeds0[l1] < seeds0[l2]);
                } else {
                    assert(0 <= seeds0[l1] < p);
                }
            }
            assert forall|j: int| 0 <= j < p + 1 && cld@[j] implies #[trigger] label@[j] is Some by {
                if j < p {
                    assert(label0[j] is Some);
                }
            }
            assert forall|j: int| 0 <= j < label@.len() && #[trigger] label@[j] is Some implies {
                let l = label@[j]->0 as int;
                &&& l < lval + 1
                &&& seeds[l] <= j
                &&& connected(cld@, gx, gy, gz, seeds[l], j)
            } by {
                if label0[j] is Some {
                    let l = label0[j]->0 as int;
                    assert(seeds[l] == seeds0[l]);
                } else {
                    assert(label@[j] == Some(lval as usize));
                    assert(cld@[j]);
                    if j < p {
                        assert(label0[j] is Some);
                    }
                }
            }
        }
        *next_label = *next_label + 1;
        Ghost(seeds)
    } else {
        proof {
            assert forall|j: int| 0 <= j < i + 1 && cld@[j] implies #[trigger] label@[j] is Some by {
                if j < i {
                    assert(label@[j] is Some);
                }
            }
        }
        Ghost(seeds)
    }
}

/// Labels every connected cloud patch of the `nx` by `ny` by `nz` field `cld`,
/// stored flat as `x + nx * (y + ny * z)`.
///
/// The result has one entry per cell: `None` for a clear cell, `Some(l)` for a
/// cloud cell of patch `l`. Cells share a patch exactly when a path of cloud
/// cells, each sharing a face with the next, joins them; faces wrap around
/// along `x` and `y` but not along `z`. Patches are numbered from 0 in the
/// order of their first cell.
pub fn gen_labels(cld: &[bool], nx: usize, ny: usize, nz: usize) -> (labels: Vec<Option<usize>>)
    requires
        cld@.len() == cell_count(nx as int, ny as int, nz as int),
        cld@.len() <= isize::MAX,
    ensures
        is_patch_labelling(cld@, nx as int, ny as int, nz as int, labels@),
{
    let ghost gx = nx as int;
    let ghost gy = ny as int;
    let ghost gz = nz as int;
    let n = cld.len();
    let mut label: Vec<Option<usize>> = vec![None; n];
    let mut next_label: usize = 0;
    let ghost mut seeds: Seq<int> = Seq::empty();
    proof {
        assert(gx * gy * 0 == 0) by (nonlinear_arith);
    }
    for z in 0..nz
        invariant
            cld@.len() == cell_count(gx, gy, gz),
            cld@.len() <= isize::MAX,
            gx == nx,
            gy == ny,
            gz == nz,
            scan_state(cld@, gx, gy, gz, label@, next_label as int, seeds, gx * gy * z),
    {
        proof {
            assert(gx * (0 + gy * z) == gx * gy * z) by (nonlinear_arith);
        }
        for y in 0..ny
            invariant
                cld@.len() == cell_count(gx, gy, gz),
                cld@.len() <= isize::MAX,
                gx == nx,
                gy == ny,
                gz == nz,
                z < nz,
                scan_state(cld@, gx, gy, gz, label@, next_label as int, seeds, gx * (y + gy * z)),
        {
            for x in 0..nx
                invariant
                    cld@.len() == cell_count(gx, gy, gz),
                    cld@.len() <= isize::MAX,
                    gx == nx,
                    gy == ny,
                    gz == nz,
                    y < ny,
                    z < nz,
                    scan_state(
                        cld@,
                        gx,
                        gy,
                        gz,
                        label@,
                        next_label as int,
                        seeds,
                        x + gx * (y + gy * z),
                    ),
            {
                let Ghost(s) = visit_cell(
                    x,
                    y,
                    z,
                    nx,
                    ny,
                    nz,
                    cld,
                    &mut label,
                    &mut next_label,
                    Ghost(seeds),
                );
                proof {
                    seeds = s;
                }
            }
            proof {
                assert(gx + gx * (y + gy * z) == gx * ((y + 1) + gy * z)) by (nonlinear_arith);
            }
        }
        proof {
            assert(gx * (gy + gy * z) == gx * gy * (z + 1)) by (nonlinear_arith);
        }
    }
    proof {
        let labels = label@;
        assert(gx * gy * gz == cell_count(gx, gy, gz));
        assert forall|i: int, j: int|
            0 <= i < labels.len() && 0 <= j < labels.len() && #[trigger] labels[i] is Some
                && labels[i] == #[trigger] labels[j] implies connected(cld@, gx, gy, gz, i, j) by {
            let r = seeds[labels[i]->0 as int];
            assert(labels[j] is Some);
            lemma_connected_symmetric(cld@, gx, gy, gz, r, i);
            lemma_connected_transitive(cld@, gx, gy, gz, i, r, j);
        }
        assert forall|i: int|
            0 <= i < labels.len() && #[trigger] labels[i] is Some && labels[i]->0 > 0 implies exists|
                j: int,
            |
                0 <= j < i && #[trigger] labels[j] == Some((labels[i]->0 - 1) as usize) by {
            let l = labels[i]->0 as int;
            let j = seeds[l - 1];
            assert(seeds[l - 1] < seeds[l]);
            assert(labels[j] == Some((l - 1) as usize));
        }
        assert forall|i: int, j: int|
            #[trigger] is_neighbor(gx, gy, gz, i, j) && cld@[i] && cld@[j] implies labels[i]
                == labels[j] by {
            assert(labels[i] is Some);
        }
    }
    label
}

} // verus!
