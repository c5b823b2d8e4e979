//! Sizes of labelled patches.
use vstd::prelude::*;

verus! {

/// Number of cells labelled `l`.
pub open spec fn count_label(labels: Seq<Option<usize>>, l: usize) -> nat
    decreases labels.len(),
{
    if labels.len() == 0 {
        0
    } else {
        count_label(labels.drop_last(), l) + if labels.last() == Some(l) {
            1nat
        } else {
            0nat
        }
    }
}

/// The largest label present, or `None` when no cell is labelled.
pub open spec fn max_label(labels: Seq<Option<usize>>) -> Option<usize>
    decreases labels.len(),
{
    if labels.len() == 0 {
        None
    } else {
        let m = max_label(labels.drop_last());
        match labels.last() {
            None => m,
            Some(v) => match m {
                None => Some(v),
                Some(w) => Some(
                    if v > w {
                        v
                    } else {
                        w
                    },
                ),
            },
        }
    }
}

/// One more than the largest label, or 0 when no cell is labelled.
pub open spec fn size_count(labels: Seq<Option<usize>>) -> int {
    match max_label(labels) {
        None => 0,
        Some(m) => m + 1,
    }
}

/// Every label present is at most the largest one, and the largest one is
/// present.
pub proof fn lemma_max_label(labels: Seq<Option<usize>>)
    ensures
        forall|i: int|
            0 <= i < labels.len() && #[trigger] labels[i] is Some ==> max_label(labels) is Some
                && labels[i]->0 <= max_label(labels)->0,
        max_label(labels) is Some ==> exists|i: int|
            0 <= i < labels.len() && #[trigger] labels[i] == max_label(labels),
        max_label(labels) is None ==> forall|i: int|
            0 <= i < labels.len() ==> #[trigger] labels[i] is None,
    decreases labels.len(),
{
    if labels.len() > 0 {
        let init = labels.drop_last();
        lemma_max_label(init);
        assert forall|i: int|
            0 <= i < labels.len() && #[trigger] labels[i] is Some implies max_label(labels) is Some
                && labels[i]->0 <= max_label(labels)->0 by {
            if i < labels.len() - 1 {
                assert(init[i] == labels[i]);
            }
        }
        if max_label(labels) is Some {
            if max_label(labels) == labels.last() {
                assert(labels[labels.len() - 1] == max_label(labels));
            } else {
                let i = choose|i: int| 0 <= i < init.len() && #[trigger] init[i] == max_label(init);
                assert(labels[i] == init[i]);
            }
        }
        if max_label(labels) is None {
            assert forall|i: int| 0 <= i < labels.len() implies #[trigger] labels[i] is None by {
                if i < labels.len() - 1 {
                    assert(init[i] == labels[i]);
                }
            }
        }
    }
}

/// A label occurs at most once per cell.
pub proof fn lemma_count_label_bound(labels: Seq<Option<usize>>, l: usize)
    ensures
        count_label(labels, l) <= labels.len(),
    decreases labels.len(),
{
    if labels.len() > 0 {
        lemma_count_label_bound(labels.drop_last(), l);
    }
}

/// Counts how many cells each label covers: entry `l` of the result is the
/// number of cells labelled `l`, and the result runs up to the largest label
/// present (it is empty when no cell is labelled).
pub fn label_sizes(labels: &[Option<usize>]) -> (counts: Vec<usize>)
    requires
        forall|i: int|
            0 <= i < labels@.len() && #[trigger] labels@[i] is Some ==> labels@[i]->0 < usize::MAX,
    ensures
        counts@.len() == size_count(labels@),
        forall|l: int| 0 <= l < counts@.len() ==> counts@[l] == count_label(labels@, l as usize),
{
    let mut m: Option<usize> = None;
    for i in 0..labels.len()
        invariant
            m == max_label(labels@.take(i as int)),
    {
        assert(labels@.take(i + 1).drop_last() =~= labels@.take(i as int));
        match labels[i] {
            Some(v) => {
                m = match m {
                    None => Some(v),
                    Some(w) => Some(
                        if v > w {
                            v
                        } else {
                            w
                        },
                    ),
                };
            },
            None => {},
        }
    }
    assert(labels@.take(labels@.len() as int) =~= labels@);
    proof {
        lemma_max_label(labels@);
    }
    match m {
        None => Vec::new(),
        Some(mx) => {
            let mut counts = vec![0usize; mx + 1];
            for i in 0..labels.len()
                invariant
                    m == Some(mx),
                    mx == max_label(labels@)->0,
                    max_label(labels@) is Some,
                    forall|k: int|
                        0 <= k < labels@.len() && #[trigger] labels@[k] is Some ==> labels@[k]->0
                            <= mx,
                    counts@.len() == mx + 1,
                    forall|l: int|
                        0 <= l < counts@.len() ==> #[trigger] counts@[l] == count_label(
                            labels@.take(i as int),
                            l as usize,
                        ),
            {
                assert(labels@.take(i + 1).drop_last() =~= labels@.take(i as int));
                if let Some(l) = labels[i] {
                    proof {
                        lemma_count_label_bound(labels@.take(i as int), l);
                    }
                    counts[l] = counts[l] + 1;
                }
            }
            assert(labels@.take(labels@.len() as int) =~= labels@);
            counts
        },
    }
}

} // verus!
