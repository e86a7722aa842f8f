//! Building a CF-tree from a data set in one call.

use crate::cf_tree::{fresh_tree, point_inserted, CFTree};
use crate::cluster_feature::VII;
use crate::distance::CFDistance;
use crate::types::Float;
use vstd::prelude::*;

verus! {

/// `trees` starts from a fresh tree and inserts the rows of `data` one after
/// the other, in order.
pub open spec fn inserts_rows<F: Float, D: CFDistance<F, VII<F>>, A: CFDistance<F, VII<F>>>(
    trees: Seq<CFTree<F, VII<F>, D, A>>,
    data: Seq<&[F]>,
    dim: nat,
    capacity: nat,
    maxleaves: nat,
    threshold: F,
) -> bool {
    &&& trees.len() >= 1
    &&& fresh_tree(trees[0], dim, capacity, maxleaves, threshold)
    &&& forall|i: int|
        0 <= i < trees.len() - 1 ==> point_inserted(#[trigger] trees[i], trees[i + 1], data[i]@)
}

/// A CF-tree built over a whole data set.
pub struct Betula<F, CF, D, A> {
    pub cf_tree: CFTree<F, CF, D, A>,
}

impl<F: Float, D: CFDistance<F, VII<F>>, A: CFDistance<F, VII<F>>> Betula<F, VII<F>, D, A> {
    /// Builds a tree of `VII` features of dimensionality `dim` by inserting
    /// every row of `data` in turn; only the first `dim` values of a row are
    /// read.
    pub fn new(
        data: &[&[F]],
        dist_fun: D,
        abs_fun: A,
        cap: usize,
        dim: usize,
        maxleaves: usize,
        threshold: F,
    ) -> (r: Betula<F, VII<F>, D, A>)
        requires
            forall|i: int| 0 <= i < data@.len() ==> (#[trigger] data@[i])@.len() >= dim,
            2 * data@.len() <= usize::MAX,
        ensures
            r.cf_tree.wf(),
            r.cf_tree.total_size() == data@.len(),
            r.cf_tree.spec_entries().len() <= r.cf_tree.spec_maxleaves()
                || r.cf_tree.spec_rebuild_count() == usize::MAX,
            r.cf_tree.spec_entries().len() <= data@.len(),
            r.cf_tree.spec_dim() == dim,
            r.cf_tree.spec_capacity() == cap,
            r.cf_tree.spec_maxleaves() == maxleaves,
            r.cf_tree.spec_rebuild_count() == 0 ==> r.cf_tree.spec_threshold() == threshold,
            data@.len() <= maxleaves ==> r.cf_tree.spec_rebuild_count() == 0,
            r.cf_tree.entries_nonempty(),
            exists|trees: Seq<CFTree<F, VII<F>, D, A>>|
                #[trigger] inserts_rows(trees, data@, dim as nat, cap as nat, maxleaves as nat, threshold)
                    && trees.len() == data@.len() + 1 && trees.last() == r.cf_tree,
    {
        let mut cftree = CFTree::new(dist_fun, abs_fun, cap, dim, maxleaves, threshold);
        let ghost mut trees: Seq<CFTree<F, VII<F>, D, A>> = seq![cftree];
        let mut i: usize = 0;
        while i < data.len()
            invariant
                forall|k: int| 0 <= k < data@.len() ==> (#[trigger] data@[k])@.len() >= dim,
                2 * data@.len() <= usize::MAX,
                i <= data@.len(),
                cftree.wf(),
                cftree.total_size() == i,
                cftree.spec_entries().len() <= cftree.spec_maxleaves()
                    || cftree.spec_rebuild_count() == usize::MAX,
                cftree.spec_entries().len() <= i,
                cftree.spec_dim() == dim,
                cftree.spec_capacity() == cap,
                cftree.spec_maxleaves() == maxleaves,
                cftree.spec_rebuild_count() == 0 ==> cftree.spec_threshold() == threshold,
                i <= maxleaves ==> cftree.spec_rebuild_count() == 0,
                cftree.entries_nonempty(),
                inserts_rows(trees, data@, dim as nat, cap as nat, maxleaves as nat, threshold),
                trees.len() == i + 1,
                trees.last() == cftree,
            decreases data@.len() - i,
        {
            let ghost before = cftree;
            cftree.insert_unchecked(data[i]);
            proof {
                assert(point_inserted(before, cftree, data@[i as int]@));
                let next = trees.push(cftree);
                assert forall|k: int| 0 <= k < next.len() - 1 implies point_inserted(
                    #[trigger] next[k],
                    next[k + 1],
                    data@[k]@,
                ) by {
                    if k < trees.len() - 1 {
                        assert(next[k] == trees[k] && next[k + 1] == trees[k + 1]);
                    } else {
                        assert(next[k] == before && next[k + 1] == cftree);
                    }
                }
                trees = next;
            }
            i = i + 1;
        }
        Betula { cf_tree: cftree }
    }
}

} // verus!
