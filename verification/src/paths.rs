//! Paths of cloud cells and the connectivity relation they define.
use vstd::prelude::*;
use crate::grid::{is_neighbor, lemma_neighbor_symmetric};

verus! {

/// The `k`-th and `k + 1`-th cells of `p` share a face.
pub open spec fn path_step(nx: int, ny: int, nz: int, p: Seq<int>, k: int) -> bool {
    is_neighbor(nx, ny, nz, p[k], p[k + 1])
}

/// `p` is a non-empty walk through cloud cells of `cld` in which each cell
/// shares a face with the next.
pub open spec fn is_cloud_path(cld: Seq<bool>, nx: int, ny: int, nz: int, p: Seq<int>) -> bool {
    &&& p.len() > 0
    &&& forall|k: int| 0 <= k < p.len() ==> 0 <= #[trigger] p[k] < cld.len() && cld[p[k]]
    &&& forall|k: int| 0 <= k < p.len() - 1 ==> #[trigger] path_step(nx, ny, nz, p, k)
}

/// Cells `a` and `b` lie in the same cloud patch: a path of cloud cells leads
/// from `a` to `b`.
pub open spec fn connected(cld: Seq<bool>, nx: int, ny: int, nz: int, a: int, b: int) -> bool {
    exists|p: Seq<int>| #[trigger] is_cloud_path(cld, nx, ny, nz, p) && p[0] == a && p.last() == b
}

/// A cloud cell is connected to itself.
pub proof fn lemma_connected_refl(cld: Seq<bool>, nx: int, ny: int, nz: int, a: int)
    requires
        0 <= a < cld.len(),
        cld[a],
    ensures
        connected(cld, nx, ny, nz, a, a),
{
    let p = seq![a];
    assert(is_cloud_path(cld, nx, ny, nz, p));
}

/// A path can be extended by one step to a neighbouring cloud cell.
pub proof fn lemma_connected_extend(cld: Seq<bool>, nx: int, ny: int, nz: int, a: int, b: int, c: int)
    requires
        connected(cld, nx, ny, nz, a, b),
        is_neighbor(nx, ny, nz, b, c),
        0 <= c < cld.len(),
        cld[c],
    ensures
        connected(cld, nx, ny, nz, a, c),
{
    let p = choose|p: Seq<int>| #[trigger] is_cloud_path(cld, nx, ny, nz, p) && p[0] == a && p.last() == b;
    let q = p.push(c);
    assert forall|k: int| 0 <= k < q.len() - 1 implies #[trigger] path_step(nx, ny, nz, q, k) by {
        if k < p.len() - 1 {
            assert(path_step(nx, ny, nz, p, k));
        }
    }
    assert(is_cloud_path(cld, nx, ny, nz, q));
}

/// Connectivity is symmetric.
pub proof fn lemma_connected_symmetric(cld: Seq<bool>, nx: int, ny: int, nz: int, a: int, b: int)
    requires
        0 <= nx,
        0 <= ny,
        0 <= nz,
        connected(cld, nx, ny, nz, a, b),
    ensures
        connected(cld, nx, ny, nz, b, a),
{
    let p = choose|p: Seq<int>| #[trigger] is_cloud_path(cld, nx, ny, nz, p) && p[0] == a && p.last() == b;
    let q = p.reverse();
    assert forall|k: int| 0 <= k < q.len() implies 0 <= #[trigger] q[k] < cld.len() && cld[q[k]] by {
        assert(q[k] == p[p.len() - 1 - k]);
    }
    assert forall|k: int| 0 <= k < q.len() - 1 implies #[trigger] path_step(nx, ny, nz, q, k) by {
        let m = p.len() - 2 - k;
        assert(path_step(nx, ny, nz, p, m));
        lemma_neighbor_symmetric(nx, ny, nz, p[m], p[m + 1]);
    }
    assert(is_cloud_path(cld, nx, ny, nz, q));
    assert(q[0] == b);
    assert(q.last() == a);
}

/// Connectivity is transitive.
pub proof fn lemma_connected_transitive(cld: Seq<bool>, nx: int, ny: int, nz: int, a: int, b: int, c: int)
    requires
        connected(cld, nx, ny, nz, a, b),
        connected(cld, nx, ny, nz, b, c),
    ensures
        connected(cld, nx, ny, nz, a, c),
{
    let p = choose|p: Seq<int>| #[trigger] is_cloud_path(cld, nx, ny, nz, p) && p[0] == a && p.last() == b;
    let r = choose|r: Seq<int>| #[trigger] is_cloud_path(cld, nx, ny, nz, r) && r[0] == b && r.last() == c;
    let q = p + r.drop_first();
    assert forall|k: int| 0 <= k < q.len() implies 0 <= #[trigger] q[k] < cld.len() && cld[q[k]] by {
        if k >= p.len() {
            assert(q[k] == r[k - p.len() + 1]);
        }
    }
    assert forall|k: int| 0 <= k < q.len() - 1 implies #[trigger] path_step(nx, ny, nz, q, k) by {
        if k < p.len() - 1 {
            assert(path_step(nx, ny, nz, p, k));
        } else {
            let m = k - p.len() + 1;
            assert(path_step(nx, ny, nz, r, m));
            assert(q[k] == r[m]);
            assert(q[k + 1] == r[m + 1]);
        }
    }
    assert(is_cloud_path(cld, nx, ny, nz, q));
    if r.len() == 1 {
        assert(q =~= p);
    }
}

/// Both ends of a path lie in the cells it may use.
pub proof fn lemma_connected_ends(cld: Seq<bool>, nx: int, ny: int, nz: int, a: int, b: int)
    requires
        connected(cld, nx, ny, nz, a, b),
    ensures
        0 <= a < cld.len(),
        cld[a],
        0 <= b < cld.len(),
        cld[b],
{
    let p = choose|p: Seq<int>| #[trigger] is_cloud_path(cld, nx, ny, nz, p) && p[0] == a && p.last() == b;
    assert(0 <= p[0] < cld.len() && cld[p[0]]);
    assert(0 <= p[p.len() - 1] < cld.len() && cld[p[p.len() - 1]]);
}

/// A path through the cells of `small` is also a path through any mask of
/// the same length that contains them.
pub proof fn lemma_connected_subset(
    small: Seq<bool>,
    large: Seq<bool>,
    nx: int,
    ny: int,
    nz: int,
    a: int,
    b: int,
)
    requires
        small.len() == large.len(),
        forall|i: int| 0 <= i < small.len() && #[trigger] small[i] ==> large[i],
        connected(small, nx, ny, nz, a, b),
    ensures
        connected(large, nx, ny, nz, a, b),
{
    let p = choose|p: Seq<int>| #[trigger] is_cloud_path(small, nx, ny, nz, p) && p[0] == a && p.last() == b;
    assert forall|k: int| 0 <= k < p.len() implies 0 <= #[trigger] p[k] < large.len() && large[p[k]] by {
        assert(small[p[k]]);
    }
    assert(is_cloud_path(large, nx, ny, nz, p));
}

/// A set of cells that contains `a` and is closed under stepping to a
/// neighbour in `cld` contains every cell connected to `a`.
pub proof fn lemma_closed_set_contains_connected(
    cld: Seq<bool>,
    nx: int,
    ny: int,
    nz: int,
    inside: spec_fn(int) -> bool,
    a: int,
    b: int,
)
    requires
        inside(a),
        forall|c: int, j: int|
            #[trigger] is_neighbor(nx, ny, nz, c, j) && inside(c) && 0 <= j < cld.len() && cld[j]
                ==> inside(j),
        connected(cld, nx, ny, nz, a, b),
    ensures
        inside(b),
{
    let p = choose|p: Seq<int>| #[trigger] is_cloud_path(cld, nx, ny, nz, p) && p[0] == a && p.last() == b;
    lemma_path_inside(cld, nx, ny, nz, inside, p, p.len() - 1);
}

proof fn lemma_path_inside(
    cld: Seq<bool>,
    nx: int,
    ny: int,
    nz: int,
    inside: spec_fn(int) -> bool,
    p: Seq<int>,
    k: int,
)
    requires
        is_cloud_path(cld, nx, ny, nz, p),
        inside(p[0]),
        forall|c: int, j: int|
            #[trigger] is_neighbor(nx, ny, nz, c, j) && inside(c) && 0 <= j < cld.len() && cld[j]
                ==> inside(j),
        0 <= k < p.len(),
    ensures
        inside(p[k]),
    decreases k,
{
    if k > 0 {
        lemma_path_inside(cld, nx, ny, nz, inside, p, k - 1);
        assert(path_step(nx, ny, nz, p, k - 1));
        assert(0 <= p[k] < cld.len() && cld[p[k]]);
    }
}

} // verus!
