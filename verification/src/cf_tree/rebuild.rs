//! Rebuilding the tree with a larger absorption threshold, and estimating
//! that threshold from the leaves.

use super::insert::Input;
use super::seqs::{lemma_index_count, lemma_sum_permuted, sum_nat};
use super::{
    cleared_tree, feature_inserted, lemma_raised_step, lemma_raised_trans, nodes_after_insert, reinserts,
    threshold_raised, took_feature, CFNode, CFTree,
};
use crate::cluster_feature::merged_with;
use crate::cluster_feature::{ClusterFeature, ClusterSummary};
use crate::distance::CFDistance;
use crate::types::{lt_is_strict_order, spec_lt, spec_max, Float};
use vstd::prelude::*;

verus! {

/// The pair of positions `t`, `u` comes before the pair `(i, j)` in a scan
/// over the pairs `a < b`, row by row.
pub open spec fn pair_scanned(i: int, j: int, t: int, u: int) -> bool {
    let a = if t < u {
        t
    } else {
        u
    };
    let b = if t < u {
        u
    } else {
        t
    };
    a < i || (a == i && b < j)
}

/// Sizes of a sequence of cluster features.
pub open spec fn cf_sizes<F: Float, CF: ClusterFeature<F>>(cfs: Seq<CF>) -> Seq<nat> {
    cfs.map_values(|c: CF| c.spec_size())
}

impl<F: Float, CF: ClusterFeature<F>, D: CFDistance<F, CF>, A: CFDistance<F, CF>> CFTree<
    F,
    CF,
    D,
    A,
> {
    /// Routing distance between the leaf entries at positions `i` and `j`
    /// of `kids`.
    pub closed spec fn kid_dist(&self, kids: Seq<usize>, i: int, j: int) -> F {
        self.dist_function.spec_sq_dist_cf(
            self.leaf_entries@[kids[i] as int],
            self.leaf_entries@[kids[j] as int],
            self.dim as nat,
        )
    }

    /// Absorption distance between the leaf entries at positions `i` and
    /// `j` of `kids`.
    pub closed spec fn kid_abs_dist(&self, kids: Seq<usize>, i: int, j: int) -> F {
        self.abs_function.spec_sq_dist_cf(
            self.leaf_entries@[kids[i] as int],
            self.leaf_entries@[kids[j] as int],
            self.dim as nat,
        )
    }

    /// Nearest-neighbour search state (best distance and best position per
    /// entry) before the pair `(i, j)` of the scan over the pairs `i < j`
    /// of `kids`, row by row.
    pub closed spec fn nn_scan(&self, kids: Seq<usize>, i: int, j: int) -> (Seq<F>, Seq<usize>)
        decreases i, j,
    {
        let c = kids.len();
        if i < 0 || j <= i + 1 {
            if i <= 0 {
                (Seq::new(c, |t: int| F::spec_infinity()), Seq::new(c, |t: int| 0usize))
            } else {
                self.nn_scan(kids, i - 1, c as int)
            }
        } else {
            let st = self.nn_scan(kids, i, j - 1);
            let d = self.kid_dist(kids, i, j - 1);
            let st1 = if spec_lt(d, st.0[i]) {
                (st.0.update(i, d), st.1.update(i, (j - 1) as usize))
            } else {
                st
            };
            if spec_lt(d, st1.0[j - 1]) {
                (st1.0.update(j - 1, d), st1.1.update(j - 1, i as usize))
            } else {
                st1
            }
        }
    }

    /// Position in `kids` of the nearest neighbour of each entry under the
    /// routing distance; of two equally near, the first found.
    pub closed spec fn nearest(&self, kids: Seq<usize>) -> Seq<usize> {
        self.nn_scan(kids, kids.len() - 1, kids.len() as int).1
    }

    /// The routing distance between the entries at positions `t` and `u` of
    /// `kids`, measured from the earlier of the two.
    pub open spec fn entry_routing(&self, kids: Seq<usize>, t: int, u: int) -> F {
        if t < u {
            self.spec_routing().spec_sq_dist_cf(
                self.spec_entries()[kids[t] as int],
                self.spec_entries()[kids[u] as int],
                self.spec_dim(),
            )
        } else {
            self.spec_routing().spec_sq_dist_cf(
                self.spec_entries()[kids[u] as int],
                self.spec_entries()[kids[t] as int],
                self.spec_dim(),
            )
        }
    }

    /// The search state `st` before the pair `(i, j)`: each entry's best
    /// distance is not above the routing distance of any pair with it seen
    /// so far, and is either still infinity with neighbour `0`, or the
    /// distance to its recorded neighbour, another entry of a pair seen.
    spec fn nn_state_ok(&self, kids: Seq<usize>, st: (Seq<F>, Seq<usize>), i: int, j: int) -> bool {
        let c = kids.len() as int;
        &&& st.0.len() == c
        &&& st.1.len() == c
        &&& forall|t: int, u: int|
            0 <= t < c && 0 <= u < c && t != u && pair_scanned(i, j, t, u) ==> !spec_lt(
                #[trigger] self.entry_routing(kids, t, u),
                st.0[t],
            )
        &&& forall|t: int| 0 <= t < c ==> #[trigger] self.nn_entry_ok(kids, st, i, j, t)
    }

    /// Entry `t` in the search state `st` before the pair `(i, j)`: its best
    /// distance is still infinity with neighbour `0`, or the distance to its
    /// recorded neighbour, another entry of a pair seen.
    spec fn nn_entry_ok(&self, kids: Seq<usize>, st: (Seq<F>, Seq<usize>), i: int, j: int, t: int) -> bool {
        ||| st.0[t] == F::spec_infinity() && st.1[t] == 0
        ||| {
            &&& st.1[t] < kids.len()
            &&& st.1[t] != t
            &&& pair_scanned(i, j, t, st.1[t] as int)
            &&& st.0[t] == self.entry_routing(kids, t, st.1[t] as int)
        }
    }

    proof fn lemma_nn_state_at(&self, kids: Seq<usize>, st: (Seq<F>, Seq<usize>), i: int, j: int, t: int)
        requires
            self.nn_state_ok(kids, st, i, j),
            0 <= t < kids.len(),
        ensures
            self.nn_entry_ok(kids, st, i, j, t),
    {
    }

    proof fn lemma_nn_scan(&self, kids: Seq<usize>, i: int, j: int)
        requires
            lt_is_strict_order::<F>(),
            kids.len() <= usize::MAX,
            i < kids.len(),
            j <= kids.len(),
        ensures
            self.nn_state_ok(kids, self.nn_scan(kids, i, j), i, j),
        decreases i, j,
    {
        let c = kids.len() as int;
        if i < 0 || j <= i + 1 {
            if i <= 0 {
                let st = self.nn_scan(kids, i, j);
                assert forall|t: int, u: int|
                    0 <= t < c && 0 <= u < c && t != u implies !pair_scanned(i, j, t, u) by {}
                assert forall|t: int| 0 <= t < c implies #[trigger] self.nn_entry_ok(kids, st, i, j, t) by {}
            } else {
                self.lemma_nn_scan(kids, i - 1, c);
                let st = self.nn_scan(kids, i - 1, c);
                assert(self.nn_scan(kids, i, j) == st);
                assert forall|t: int, u: int|
                    0 <= t < c && 0 <= u < c && t != u && pair_scanned(i, j, t, u) implies !spec_lt(
                        #[trigger] self.entry_routing(kids, t, u),
                        st.0[t],
                    ) by {
                    assert(pair_scanned(i - 1, c, t, u));
                }
                assert forall|t: int| 0 <= t < c implies #[trigger] self.nn_entry_ok(kids, st, i, j, t) by {
                    self.lemma_nn_state_at(kids, st, i - 1, c, t);
                }
                assert(self.nn_state_ok(kids, st, i, j));
            }
        } else {
            self.lemma_nn_scan(kids, i, j - 1);
            let st = self.nn_scan(kids, i, j - 1);
            assert(self.nn_state_ok(kids, st, i, j - 1));
            let d = self.kid_dist(kids, i, j - 1);
            assert(d == self.entry_routing(kids, i, j - 1));
            assert(d == self.entry_routing(kids, j - 1, i));
            let st1 = if spec_lt(d, st.0[i]) {
                (st.0.update(i, d), st.1.update(i, (j - 1) as usize))
            } else {
                st
            };
            let st2 = if spec_lt(d, st1.0[j - 1]) {
                (st1.0.update(j - 1, d), st1.1.update(j - 1, i as usize))
            } else {
                st1
            };
            assert(self.nn_scan(kids, i, j) == st2);
            assert forall|t: int, u: int|
                0 <= t < c && 0 <= u < c && t != u && pair_scanned(i, j, t, u) implies !spec_lt(
                    #[trigger] self.entry_routing(kids, t, u),
                    st2.0[t],
                ) by {
                let e = self.entry_routing(kids, t, u);
                if pair_scanned(i, j - 1, t, u) {
                    assert(!spec_lt(e, st.0[t]));
                    if spec_lt(e, st2.0[t]) {
                        assert(spec_lt(st2.0[t], st.0[t]) || st2.0[t] == st.0[t]);
                    }
                } else {
                    assert((t == i && u == j - 1) || (t == j - 1 && u == i));
                    assert(e == d);
                }
            }
            assert forall|t: int| 0 <= t < c implies #[trigger] self.nn_entry_ok(kids, st2, i, j, t) by {
                self.lemma_nn_state_at(kids, st, i, j - 1, t);
            }
            assert(self.nn_state_ok(kids, st2, i, j));
        }
    }

    /// The threshold estimate of a leaf takes, entry by entry in order, the
    /// root of the absorption distance from the entry to its nearest
    /// neighbour.
    pub proof fn lemma_leaf_root_sum_step(&self, kids: Seq<usize>, sum: F, i: int)
        requires
            1 <= i,
        ensures
            self.leaf_root_sum(kids, sum, i) == self.leaf_root_sum(kids, sum, i - 1).spec_plus(
                self.spec_absorption().spec_sq_dist_cf(
                    self.spec_entries()[kids[i - 1] as int],
                    self.spec_entries()[kids[self.nearest(kids)[i - 1] as int] as int],
                    self.spec_dim(),
                ).spec_sqrt(),
            ),
            self.leaf_root_sum(kids, sum, 0) == sum,
    {
    }

    /// Every entry's nearest neighbour in a leaf is nearest under the routing
    /// distance: no other entry is at a smaller routing distance than the
    /// chosen one; when no routing distance from the entry is below infinity,
    /// the first entry stands as its neighbour.
    pub proof fn lemma_nearest_minimises_routing(&self, kids: Seq<usize>, t: int, u: int)
        requires
            lt_is_strict_order::<F>(),
            2 <= kids.len() <= usize::MAX,
            0 <= t < kids.len(),
            0 <= u < kids.len(),
            t != u,
        ensures
            0 <= self.nearest(kids)[t] < kids.len(),
            (self.nearest(kids)[t] != t && !spec_lt(
                self.entry_routing(kids, t, u),
                self.entry_routing(kids, t, self.nearest(kids)[t] as int),
            )) || (self.nearest(kids)[t] == 0 && !spec_lt(self.entry_routing(kids, t, u), F::spec_infinity())),
    {
        let c = kids.len() as int;
        self.lemma_nn_scan(kids, c - 1, c);
        let st = self.nn_scan(kids, c - 1, c);
        assert(pair_scanned(c - 1, c, t, u));
        assert(!spec_lt(self.entry_routing(kids, t, u), st.0[t]));
        self.lemma_nn_state_at(kids, st, c - 1, c, t);
    }

    /// `sum` plus the roots of the absorption distances of the first `i`
    /// entries of `kids` to their nearest neighbours, added in order.
    pub closed spec fn leaf_root_sum(&self, kids: Seq<usize>, sum: F, i: int) -> F
        decreases i,
    {
        if i <= 0 {
            sum
        } else {
            self.leaf_root_sum(kids, sum, i - 1).spec_plus(
                self.kid_abs_dist(kids, i - 1, self.nearest(kids)[i - 1] as int).spec_sqrt(),
            )
        }
    }

    /// Sum of the roots and number of entries taken over the first `n`
    /// nodes: the entries of the leaves with more than one entry.
    pub closed spec fn estimate_acc(&self, n: int) -> (F, nat)
        decreases n,
    {
        if n <= 0 {
            (F::spec_zero(), 0)
        } else {
            let acc = self.estimate_acc(n - 1);
            let node = self.nodes@[n - 1];
            let kids = node.children@;
            if node.is_leaf && kids.len() > 1 {
                (self.leaf_root_sum(kids, acc.0, kids.len() as int), acc.1 + kids.len())
            } else {
                acc
            }
        }
    }

    /// The threshold that `estimate_threshold` gives.
    pub closed spec fn spec_estimate_threshold(&self) -> F {
        let acc = self.estimate_acc(self.nodes@.len() as int);
        if acc.1 == 0 {
            F::spec_zero()
        } else {
            let mean = acc.0.spec_divided_by(F::spec_from_index(acc.1 as usize));
            mean.spec_times(mean).spec_times(
                F::spec_one().spec_plus(F::spec_from_index(4).spec_times(F::spec_epsilon())),
            )
        }
    }

    /// Estimates an absorption threshold from the leaves holding more than
    /// one entry: the square of the mean, over their entries, of the root of
    /// the absorption distance to the entry's nearest neighbour in the same
    /// leaf (nearest under the routing distance), slightly enlarged against
    /// rounding. Zero when no leaf holds two entries.
    pub fn estimate_threshold(&self) -> (r: F)
        requires
            self.wf(),
            2 * self.total_size() <= usize::MAX,
        ensures
            r == self.spec_estimate_threshold(),
    {
        let mut sum = F::zero();
        let mut count: usize = 0;
        let ghost mut seen: Seq<usize> = Seq::empty();
        proof {
            self.lemma_lens();
        }
        let mut n: usize = 0;
        while n < self.nodes.len()
            invariant
                self.wf(),
                2 * self.total_size() <= usize::MAX,
                n <= self.nodes@.len(),
                count == seen.len(),
                seen.no_duplicates(),
                forall|i: int|
                    0 <= i < seen.len() ==> (#[trigger] seen[i] as int) < self.leaf_entries@.len()
                        && self.owners@[seen[i] as int] < n,
                (sum, count as nat) == self.estimate_acc(n as int),
            decreases self.nodes@.len() - n,
        {
            let ghost nn = n as int;
            proof {
                assert(self.node_ok(nn, None));
            }
            let node = &self.nodes[n];
            let kids = node.children();
            if node.is_leaf() && kids.len() > 1 {
                let child_count = kids.len();
                proof {
                    assert forall|k: int| 0 <= k < kids@.len() implies {
                        &&& (#[trigger] kids@[k] as int) < self.leaf_entries@.len()
                        &&& self.owners@[kids@[k] as int] == nn
                        &&& self.leaf_entries@[kids@[k] as int].inv()
                        &&& self.leaf_entries@[kids@[k] as int].spec_dim() == self.dim
                    } by {
                        assert(self.kid_ok(nn, kids@[k]));
                        assert(self.entry_ok(kids@[k] as int));
                    }
                }
                let mut best_dist: Vec<F> = Vec::new();
                let mut best_idx: Vec<usize> = Vec::new();
                let mut i: usize = 0;
                while i < child_count
                    invariant
                        i <= child_count,
                        child_count > 1,
                        best_dist@.len() == i,
                        best_idx@.len() == i,
                        forall|t: int| 0 <= t < i ==> #[trigger] best_idx@[t] < child_count,
                        best_dist@ =~= Seq::new(i as nat, |t: int| F::spec_infinity()),
                        best_idx@ =~= Seq::new(i as nat, |t: int| 0usize),
                    decreases child_count - i,
                {
                    best_dist.push(F::infinity());
                    best_idx.push(0);
                    i = i + 1;
                }
                proof {
                    assert((best_dist@, best_idx@) == self.nn_scan(kids@, 0, 1));
                }
                // Nearest neighbour of every entry under the routing distance.
                let mut i: usize = 0;
                while i < child_count
                    invariant
                        self.wf(),
                        2 * self.total_size() <= usize::MAX,
                        child_count == kids@.len(),
                        kids@ == self.nodes@[nn].children@,
                        0 <= nn < self.nodes@.len(),
                        i <= child_count,
                        best_dist@.len() == child_count,
                        best_idx@.len() == child_count,
                        forall|t: int| 0 <= t < child_count ==> #[trigger] best_idx@[t] < child_count,
                        forall|k: int| 0 <= k < kids@.len() ==> {
                            &&& (#[trigger] kids@[k] as int) < self.leaf_entries@.len()
                            &&& self.leaf_entries@[kids@[k] as int].inv()
                            &&& self.leaf_entries@[kids@[k] as int].spec_dim() == self.dim
                        },
                        (best_dist@, best_idx@) == self.nn_scan(kids@, i as int, i + 1),
                    decreases child_count - i,
                {
                    let mut j: usize = i + 1;
                    while j < child_count
                        invariant
                            self.wf(),
                            2 * self.total_size() <= usize::MAX,
                            child_count == kids@.len(),
                            kids@ == self.nodes@[nn].children@,
                            0 <= nn < self.nodes@.len(),
                            i < child_count,
                            i + 1 <= j <= child_count,
                            best_dist@.len() == child_count,
                            best_idx@.len() == child_count,
                            forall|t: int| 0 <= t < child_count ==> #[trigger] best_idx@[t] < child_count,
                            forall|k: int| 0 <= k < kids@.len() ==> {
                                &&& (#[trigger] kids@[k] as int) < self.leaf_entries@.len()
                                &&& self.leaf_entries@[kids@[k] as int].inv()
                                &&& self.leaf_entries@[kids@[k] as int].spec_dim() == self.dim
                            },
                            (best_dist@, best_idx@) == self.nn_scan(kids@, i as int, j as int),
                        decreases child_count - j,
                    {
                        proof {
                            assert(self.node_ok(nn, None));
                            assert(kids@[i as int] != kids@[j as int]);
                            self.lemma_entry_pair(kids@[i as int] as int, kids@[j as int] as int);
                        }
                        let d = self.dist_function.sq_dist_cf(
                            &self.leaf_entries[kids[i]],
                            &self.leaf_entries[kids[j]],
                            self.dim,
                        );
                        if d.lt(&best_dist[i]) {
                            best_dist.set(i, d);
                            best_idx.set(i, j);
                        }
                        if d.lt(&best_dist[j]) {
                            best_dist.set(j, d);
                            best_idx.set(j, i);
                        }
                        proof {
                            assert(d == self.kid_dist(kids@, i as int, j as int));
                            assert((best_dist@, best_idx@) == self.nn_scan(kids@, i as int, j + 1));
                        }
                        j = j + 1;
                    }
                    proof {
                        assert(self.nn_scan(kids@, i + 1, i + 2) == self.nn_scan(kids@, i as int, child_count as int));
                    }
                    i = i + 1;
                }
                proof {
                    assert(best_idx@ == self.nearest(kids@));
                }
                // Accumulate the roots of the absorption distances.
                let ghost before = seen;
                let ghost sum0 = sum;
                let ghost count0 = count;
                let mut i: usize = 0;
                while i < child_count
                    invariant
                        self.wf(),
                        2 * self.total_size() <= usize::MAX,
                        child_count == kids@.len(),
                        kids@ == self.nodes@[nn].children@,
                        0 <= nn < self.nodes@.len(),
                        nn == n,
                        i <= child_count,
                        best_idx@.len() == child_count,
                        forall|t: int| 0 <= t < child_count ==> #[trigger] best_idx@[t] < child_count,
                        forall|k: int| 0 <= k < kids@.len() ==> {
                            &&& (#[trigger] kids@[k] as int) < self.leaf_entries@.len()
                            &&& self.owners@[kids@[k] as int] == nn
                            &&& self.leaf_entries@[kids@[k] as int].inv()
                            &&& self.leaf_entries@[kids@[k] as int].spec_dim() == self.dim
                        },
                        before.no_duplicates(),
                        forall|t: int|
                            0 <= t < before.len() ==> (#[trigger] before[t] as int) < self.leaf_entries@.len()
                                && self.owners@[before[t] as int] < n,
                        seen == before + kids@.subrange(0, i as int),
                        count == seen.len(),
                        best_idx@ == self.nearest(kids@),
                        sum == self.leaf_root_sum(kids@, sum0, i as int),
                        count == count0 + i,
                    decreases child_count - i,
                {
                    proof {
                        self.lemma_entry_pair(kids@[i as int] as int, kids@[best_idx@[i as int] as int] as int);
                    }
                    let threshold = self.abs_function.sq_dist_cf(
                        &self.leaf_entries[kids[i]],
                        &self.leaf_entries[kids[best_idx[i]]],
                        self.dim,
                    );
                    sum = sum.plus(threshold.sqrt());
                    proof {
                        assert(self.node_ok(nn, None));
                        let next = before + kids@.subrange(0, i + 1);
                        assert(next =~= seen.push(kids@[i as int]));
                        assert(next.no_duplicates()) by {
                            assert forall|a: int, b: int| 0 <= a < b < next.len() implies next[a] != next[b] by {
                                if b >= before.len() && a < before.len() {
                                    assert(self.owners@[next[b] as int] == nn);
                                    assert(self.owners@[before[a] as int] < n);
                                }
                            }
                        }
                        assert forall|t: int| 0 <= t < next.len() implies (#[trigger] next[t] as int)
                            < self.leaf_entries@.len() by {
                            if t >= before.len() {
                                assert(next[t] == kids@[t - before.len()]);
                            }
                        }
                        self.lemma_lens();
                        lemma_index_count(next, self.leaf_entries@.len());
                        seen = next;
                    }
                    count = count + 1;
                    i = i + 1;
                }
                proof {
                    assert(kids@.subrange(0, child_count as int) =~= kids@);
                    assert forall|t: int| 0 <= t < seen.len() implies (#[trigger] seen[t] as int)
                        < self.leaf_entries@.len() && self.owners@[seen[t] as int] < n + 1 by {
                        if t >= before.len() {
                            assert(seen[t] == kids@[t - before.len()]);
                        }
                    }
                }
            }
            n = n + 1;
        }
        if count == 0 {
            F::zero()
        } else {
            let mean = sum.divided_by(F::from_index(count));
            mean.times(mean).times(F::one().plus(F::from_index(4).times(F::epsilon())))
        }
    }

    /// Moves the leaf entries out of the tree, in depth-first order; the
    /// tree is left without leaf entries.
    fn take_leaf_entries_in_tree_order(&mut self) -> (r: Vec<CF>)
        requires
            old(self).wf(),
        ensures
            r@.len() == old(self).leaf_entries@.len(),
            forall|k: int|
                0 <= k < r@.len() ==> #[trigger] r@[k] == old(self).leaf_entries@[old(self).tree_order()[k] as int],
            final(self).leaf_entries@.len() == 0,
            final(self).dim == old(self).dim,
            final(self).capacity == old(self).capacity,
            final(self).maxleaves == old(self).maxleaves,
            final(self).threshold == old(self).threshold,
            final(self).rebuild_count == old(self).rebuild_count,
    {
        let ids = self.collect_leaf_entry_ids_in_tree_order();
        let ghost orig = self.leaf_entries@;
        let mut stored: Vec<CF> = Vec::new();
        core::mem::swap(&mut stored, &mut self.leaf_entries);
        let n = stored.len();
        let mut slots: Vec<Option<CF>> = Vec::new();
        while stored.len() > 0
            invariant
                n == orig.len(),
                slots@.len() + stored@.len() == n,
                stored@ == orig.subrange(0, stored@.len() as int),
                forall|j: int| 0 <= j < slots@.len() ==> #[trigger] slots@[j] == Some(orig[n - 1 - j]),
            decreases stored@.len(),
        {
            let c = stored.pop().unwrap();
            slots.push(Some(c));
            proof {
                assert(stored@ =~= orig.subrange(0, stored@.len() as int));
            }
        }
        let mut out: Vec<CF> = Vec::new();
        let mut k: usize = 0;
        while k < n
            invariant
                n == orig.len(),
                ids@.len() == n,
                ids@.no_duplicates(),
                forall|e: usize| #[trigger] ids@.contains(e) <==> (e as int) < n,
                slots@.len() == n,
                k <= n,
                out@.len() == k,
                forall|t: int| 0 <= t < k ==> #[trigger] out@[t] == orig[ids@[t] as int],
                forall|j: int|
                    0 <= j < n ==> #[trigger] slots@[j] == if ids@.subrange(0, k as int).contains(
                        (n - 1 - j) as usize,
                    ) {
                        None
                    } else {
                        Some(orig[n - 1 - j])
                    },
            decreases n - k,
        {
            let id = ids[k];
            proof {
                assert(ids@.contains(id));
                assert(!ids@.subrange(0, k as int).contains(id)) by {
                    if ids@.subrange(0, k as int).contains(id) {
                        let t = choose|t: int| 0 <= t < k && ids@.subrange(0, k as int)[t] == id;
                        assert(ids@[t] == ids@[k as int]);
                    }
                }
                assert(slots@[n - 1 - id] == Some(orig[id as int]));
            }
            let mut tmp: Option<CF> = None;
            slots.set_and_swap(n - 1 - id, &mut tmp);
            out.push(tmp.unwrap());
            proof {
                let before = ids@.subrange(0, k as int);
                let after = ids@.subrange(0, k + 1);
                assert(after =~= before.push(id));
                assert forall|j: int| 0 <= j < n implies #[trigger] slots@[j] == if after.contains(
                    (n - 1 - j) as usize,
                ) {
                    None
                } else {
                    Some(orig[n - 1 - j])
                } by {
                    if j != n - 1 - id {
                        assert(after.contains((n - 1 - j) as usize) <==> before.contains(
                            (n - 1 - j) as usize,
                        ));
                    } else {
                        assert(after[k as int] == id);
                    }
                }
            }
            k = k + 1;
        }
        out
    }

    /// Rebuilds the tree: raises the absorption threshold to the estimate of
    /// `estimate_threshold` (never lowering it) and reinserts every leaf
    /// entry, last in depth-first order first.
    pub fn rebuild_tree(&mut self)
        requires
            old(self).wf(),
            2 * old(self).total_size() <= usize::MAX,
            old(self).spec_rebuild_count() < usize::MAX,
        ensures
            final(self).wf(),
            final(self).total_size() == old(self).total_size(),
            final(self).spec_entries().len() <= old(self).spec_entries().len(),
            final(self).spec_entries().len() <= final(self).spec_maxleaves()
                || final(self).spec_rebuild_count() == usize::MAX,
            final(self).spec_rebuild_count() > old(self).spec_rebuild_count(),
            old(self).entries_nonempty() ==> final(self).entries_nonempty(),
            final(self).spec_rebuild_count() == old(self).spec_rebuild_count() + 1 ==> final(self).spec_threshold()
                == spec_max(old(self).spec_threshold(), old(self).spec_estimate_threshold()),
            threshold_raised(old(self).spec_threshold(), final(self).spec_threshold()),
            exists|trees: Seq<CFTree<F, CF, D, A>>|
                #[trigger] reinserts(trees, old(self).spec_entries(), old(self).tree_order()) && cleared_tree(
                    trees[0],
                    old(self).spec_dim(),
                    old(self).spec_capacity(),
                    old(self).spec_maxleaves(),
                    spec_max(old(self).spec_threshold(), old(self).spec_estimate_threshold()),
                    old(self).spec_rebuild_count() + 1,
                ) && trees.last() == *final(self),
            final(self).spec_dim() == old(self).spec_dim(),
            final(self).spec_capacity() == old(self).spec_capacity(),
            final(self).spec_maxleaves() == old(self).spec_maxleaves(),
        decreases usize::MAX - old(self).spec_rebuild_count(), 0nat,
    {
        let ghost s0 = *self;
        let threshold = self.estimate_threshold();
        let mut entries = self.take_leaf_entries_in_tree_order();
        self.rebuild_count = self.rebuild_count + 1;
        // Always raise the threshold, never lower it.
        if self.threshold.lt(&threshold) {
            self.threshold = threshold;
        }
        proof {
            lemma_raised_step(s0.threshold, self.threshold);
        }
        let n_entries = entries.len();
        self.root = 0;
        self.nodes.clear();
        self.nodes.push(CFNode::new(self.dim, self.capacity, true));
        proof {
            self.levels@ = seq![0nat];
            self.parents@ = seq![0nat];
            self.owners@ = Seq::empty();
            assert(self.node_ok(0, None));
            assert(self.size_ok(Seq::empty(), 0, None, 0)) by {
                assert(self.child_effs(Seq::empty(), 0, 0) =~= Seq::empty());
            }
            assert(self.entry_sizes() =~= Seq::empty());
            s0.lemma_tree_order();
            s0.lemma_lens();
            let order = s0.tree_order();
            assert(cf_sizes(entries@) =~= order.map_values(|i: usize| s0.entry_sizes()[i as int])) by {
                assert forall|k: int| 0 <= k < order.len() implies (order[k] as int) < s0.leaf_entries@.len() by {
                    assert(order.contains(order[k]));
                }
            }
            lemma_sum_permuted(order, s0.entry_sizes());
            assert forall|k: int| 0 <= k < entries@.len() implies (#[trigger] entries@[k]).inv()
                && entries@[k].spec_dim() == s0.dim && (s0.entries_nonempty() ==> entries@[k].spec_size() > 0) by {
                let e = order[k] as int;
                assert(order.contains(order[k]));
                assert(s0.entry_ok(e));
                if s0.entries_nonempty() {
                    assert(s0.spec_entries()[e].spec_size() > 0);
                }
            }
        }
        // Reinsert, last in depth-first order first.
        let ghost r0 = entries@;
        let ghost order = s0.tree_order();
        let ghost t1 = *self;
        let ghost mut trees: Seq<CFTree<F, CF, D, A>> = seq![t1];
        proof {
            assert(cleared_tree(
                t1,
                s0.dim as nat,
                s0.capacity as nat,
                s0.maxleaves as nat,
                spec_max(s0.threshold, s0.spec_estimate_threshold()),
                (s0.rebuild_count + 1) as nat,
            ));
        }
        while entries.len() > 0
            invariant
                r0.len() == n_entries,
                order == s0.tree_order(),
                order.len() == n_entries,
                forall|k: int| 0 <= k < r0.len() ==> #[trigger] r0[k] == s0.leaf_entries@[order[k] as int],
                entries@ == r0.subrange(0, entries@.len() as int),
                trees.len() == n_entries - entries@.len() + 1,
                trees[0] == t1,
                trees.last() == *self,
                forall|k: int|
                    0 <= k < trees.len() - 1 ==> feature_inserted(
                        #[trigger] trees[k],
                        trees[k + 1],
                        s0.leaf_entries@[order[n_entries - 1 - k] as int],
                    ),
                s0 == *old(self),
                self.wf(),
                self.total_size() + sum_nat(cf_sizes(entries@)) == s0.total_size(),
                2 * s0.total_size() <= usize::MAX,
                self.rebuild_count > s0.rebuild_count,
                self.rebuild_count == s0.rebuild_count + 1 ==> self.threshold == spec_max(
                    s0.threshold,
                    s0.spec_estimate_threshold(),
                ),
                threshold_raised(s0.threshold, self.threshold),
                self.leaf_entries@.len() + entries@.len() <= n_entries,
                n_entries == s0.leaf_entries@.len(),
                self.leaf_entries@.len() <= self.maxleaves || self.rebuild_count == usize::MAX,
                forall|k: int| 0 <= k < entries@.len() ==> (#[trigger] entries@[k]).inv()
                    && entries@[k].spec_dim() == s0.dim,
                s0.entries_nonempty() ==> self.entries_nonempty() && forall|k: int|
                    0 <= k < entries@.len() ==> (#[trigger] entries@[k]).spec_size() > 0,
                self.dim == s0.dim,
                self.capacity == s0.capacity,
                self.maxleaves == s0.maxleaves,
            decreases entries@.len(),
        {
            let ghost before = entries@;
            let leaf = entries.pop().unwrap();
            proof {
                assert(entries@ =~= r0.subrange(0, entries@.len() as int));
                assert(before.drop_last() =~= entries@);
                assert(cf_sizes(before).drop_last() =~= cf_sizes(entries@));
                assert(before[before.len() - 1] == leaf);
            }
            let ghost thr = self.threshold;
            let ghost t_before = *self;
            let ghost item = Input::Feature(&leaf);
            proof {
                assert(self.input_route(item) =~= (|c: CF| self.dist_function.spec_sq_dist_cf(c, leaf, self.dim as nat)));
                assert(self.input_absorb(item) =~= (|c: CF| self.abs_function.spec_sq_dist_cf(c, leaf, self.dim as nat)));
                assert(self.input_took(item) =~= (|n: CF, o: CF| merged_with(n, o, leaf)));
            }
            self.insert_item(&Input::Feature(&leaf));
            proof {
                lemma_raised_trans(s0.threshold, thr, self.threshold);
                if self.rebuild_count == t_before.rebuild_count {
                    let (m, t) = choose|m: Set<usize>, t: Set<usize>|
                        nodes_after_insert(
                            t_before,
                            *self,
                            m,
                            t,
                            t_before.target_path(t_before.input_route(item)),
                            t_before.input_took(item),
                        );
                    assert(nodes_after_insert(t_before, *self, m, t, t_before.feature_path(leaf), took_feature(leaf)));
                }
                assert(feature_inserted(t_before, *self, leaf));
                let k = trees.len() - 1;
                assert(entries@.len() == n_entries - 1 - k);
                assert(leaf == r0[n_entries - 1 - k]);
                let next = trees.push(*self);
                assert forall|j: int| 0 <= j < next.len() - 1 implies feature_inserted(
                    #[trigger] next[j],
                    next[j + 1],
                    s0.leaf_entries@[order[n_entries - 1 - j] as int],
                ) by {
                    if j < trees.len() - 1 {
                        assert(next[j] == trees[j] && next[j + 1] == trees[j + 1]);
                    } else {
                        assert(next[j] == t_before && next[j + 1] == *self);
                    }
                }
                trees = next;
            }
        }
        proof {
            assert(cf_sizes(entries@) =~= Seq::<nat>::empty());
            assert(reinserts(trees, s0.leaf_entries@, order));
        }
    }
}

} // verus!
