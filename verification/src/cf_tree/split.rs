//! Splitting an overfull node in two.

use super::seqs::{lemma_select_prefix, lemma_select_sum, lemma_sum_ge_two, lemma_sum_prefix_le, lemma_sum_prefix_step, select, sum_nat};
use super::{merge_chain, merge_of, CFNode, CFTree};
use crate::cluster_feature::{merged_with, ClusterFeature, ClusterSummary};
use crate::distance::CFDistance;
use super::rebuild::pair_scanned;
use crate::types::{lt_is_strict_order, spec_lt, Comparison, Float};
use vstd::prelude::*;

verus! {

/// The comparison of `b` with `a`, given that of `a` with `b`.
pub open spec fn spec_reversed(c: Comparison) -> Comparison {
    match c {
        Comparison::Less => Comparison::Greater,
        Comparison::Greater => Comparison::Less,
        Comparison::Equal => Comparison::Equal,
        Comparison::Unordered => Comparison::Unordered,
    }
}

/// The comparison of `b` with `a`, given that of `a` with `b`.
fn reversed(c: Comparison) -> (r: Comparison)
    ensures
        r == spec_reversed(c),
{
    match c {
        Comparison::Less => Comparison::Greater,
        Comparison::Greater => Comparison::Less,
        Comparison::Equal => Comparison::Equal,
        Comparison::Unordered => Comparison::Unordered,
    }
}

/// The cluster features behind a list of references.
pub open spec fn deref_all<CF>(cfs: Seq<&CF>) -> Seq<CF> {
    cfs.map_values(|c: &CF| *c)
}

/// Sizes of the cluster features behind a list of references.
pub open spec fn ref_sizes<F: Float, CF: ClusterFeature<F>>(cfs: Seq<&CF>) -> Seq<nat> {
    cfs.map_values(|c: &CF| c.spec_size())
}

impl<F: Float, CF: ClusterFeature<F>, D: CFDistance<F, CF>, A: CFDistance<F, CF>> CFTree<
    F,
    CF,
    D,
    A,
> {
    /// Size of child `id` of a leaf (`is_leaf`) or of an inner node.
    pub(crate) open spec fn item_size(&self, is_leaf: bool, id: usize) -> nat {
        if is_leaf {
            self.leaf_entries@[id as int].spec_size()
        } else {
            self.nodes@[id as int].cf.spec_size()
        }
    }

    /// Cluster feature of child `id` of a leaf (`is_leaf`) or of an inner
    /// node.
    pub(crate) open spec fn item_cf(&self, is_leaf: bool, id: usize) -> CF {
        if is_leaf {
            self.leaf_entries@[id as int]
        } else {
            self.nodes@[id as int].cf
        }
    }

    pub(crate) open spec fn item_cfs(&self, is_leaf: bool, ids: Seq<usize>) -> Seq<CF> {
        ids.map_values(|id: usize| self.item_cf(is_leaf, id))
    }

    pub(crate) open spec fn item_sizes(&self, is_leaf: bool, ids: Seq<usize>) -> Seq<nat> {
        ids.map_values(|id: usize| self.item_size(is_leaf, id))
    }

    /// Routing distance between the features at positions `a` and `b` of
    /// `cfs`, measured from the earlier one.
    pub closed spec fn pair_dist(&self, cfs: Seq<CF>, a: int, b: int) -> F {
        if a < b {
            self.dist_function.spec_sq_dist_cf(cfs[a], cfs[b], self.dim as nat)
        } else {
            self.dist_function.spec_sq_dist_cf(cfs[b], cfs[a], self.dim as nat)
        }
    }

    /// Search for the seeds (largest distance so far and its pair) before
    /// the pair `(i, j)` of the scan over the pairs `i < j`, row by row; a
    /// pair replaces the best only when strictly farther.
    pub closed spec fn seed_scan(&self, cfs: Seq<CF>, i: int, j: int) -> (F, usize, usize)
        decreases i, j,
    {
        if i < 0 || j <= i + 1 {
            if i <= 0 {
                (F::spec_zero(), 0usize, 1usize)
            } else {
                self.seed_scan(cfs, i - 1, cfs.len() as int)
            }
        } else {
            let st = self.seed_scan(cfs, i, j - 1);
            let d = self.pair_dist(cfs, i, j - 1);
            if spec_lt(st.0, d) {
                (d, i as usize, (j - 1) as usize)
            } else {
                st
            }
        }
    }

    /// The routing distance between the features at positions `a` and `b`
    /// of `cfs`, measured from the earlier of the two.
    pub open spec fn feature_routing(&self, cfs: Seq<CF>, a: int, b: int) -> F {
        if a < b {
            self.spec_routing().spec_sq_dist_cf(cfs[a], cfs[b], self.spec_dim())
        } else {
            self.spec_routing().spec_sq_dist_cf(cfs[b], cfs[a], self.spec_dim())
        }
    }

    /// The seed search state `st` before the pair `(i, j)`: the best
    /// distance is not below that of any pair seen so far, and is either
    /// still zero with the first two features, or the distance of the pair
    /// recorded, a pair seen.
    spec fn seed_state_ok(&self, cfs: Seq<CF>, st: (F, usize, usize), i: int, j: int) -> bool {
        &&& forall|a: int, b: int|
            0 <= a < b < cfs.len() && pair_scanned(i, j, a, b) ==> !spec_lt(
                st.0,
                #[trigger] self.feature_routing(cfs, a, b),
            )
        &&& {
            ||| st.0 == F::spec_zero() && st.1 == 0 && st.2 == 1
            ||| {
                &&& st.1 < st.2
                &&& st.2 < cfs.len()
                &&& pair_scanned(i, j, st.1 as int, st.2 as int)
                &&& st.0 == self.feature_routing(cfs, st.1 as int, st.2 as int)
            }
        }
    }

    proof fn lemma_seed_scan(&self, cfs: Seq<CF>, i: int, j: int)
        requires
            lt_is_strict_order::<F>(),
            cfs.len() <= usize::MAX,
            i < cfs.len(),
            j <= cfs.len(),
        ensures
            self.seed_state_ok(cfs, self.seed_scan(cfs, i, j), i, j),
        decreases i, j,
    {
        let c = cfs.len() as int;
        if i < 0 || j <= i + 1 {
            if i <= 0 {
                let st = self.seed_scan(cfs, i, j);
                assert forall|a: int, b: int| 0 <= a < b < c implies !pair_scanned(i, j, a, b) by {}
                assert(self.seed_state_ok(cfs, st, i, j));
            } else {
                self.lemma_seed_scan(cfs, i - 1, c);
                let st = self.seed_scan(cfs, i - 1, c);
                assert(self.seed_scan(cfs, i, j) == st);
                assert forall|a: int, b: int|
                    0 <= a < b < c && pair_scanned(i, j, a, b) implies !spec_lt(
                        st.0,
                        #[trigger] self.feature_routing(cfs, a, b),
                    ) by {
                    assert(pair_scanned(i - 1, c, a, b));
                }
                if !(st.0 == F::spec_zero() && st.1 == 0 && st.2 == 1) {
                    assert(pair_scanned(i - 1, c, st.1 as int, st.2 as int));
                }
                assert(self.seed_state_ok(cfs, st, i, j));
            }
        } else {
            self.lemma_seed_scan(cfs, i, j - 1);
            let st = self.seed_scan(cfs, i, j - 1);
            let d = self.pair_dist(cfs, i, j - 1);
            assert(d == self.feature_routing(cfs, i, j - 1));
            let st2 = if spec_lt(st.0, d) {
                (d, i as usize, (j - 1) as usize)
            } else {
                st
            };
            assert(self.seed_scan(cfs, i, j) == st2);
            assert forall|a: int, b: int|
                0 <= a < b < c && pair_scanned(i, j, a, b) implies !spec_lt(
                    st2.0,
                    #[trigger] self.feature_routing(cfs, a, b),
                ) by {
                let e = self.feature_routing(cfs, a, b);
                if pair_scanned(i, j - 1, a, b) {
                    assert(!spec_lt(st.0, e));
                } else {
                    assert(a == i && b == j - 1);
                }
            }
            assert(self.seed_state_ok(cfs, st2, i, j));
        }
    }

    /// The seeds of a split are a farthest pair under the routing distance:
    /// no two of the features are farther apart than the seeds; when no
    /// routing distance exceeds zero, the seeds are the first two features.
    pub proof fn lemma_seeds_farthest(&self, cfs: Seq<CF>, a: int, b: int)
        requires
            lt_is_strict_order::<F>(),
            2 <= cfs.len() <= usize::MAX,
            0 <= a < b < cfs.len(),
        ensures
            self.split_seeds(cfs).0 < self.split_seeds(cfs).1 < cfs.len(),
            !spec_lt(
                self.feature_routing(cfs, self.split_seeds(cfs).0 as int, self.split_seeds(cfs).1 as int),
                self.feature_routing(cfs, a, b),
            ) || (self.split_seeds(cfs) == (0usize, 1usize) && !spec_lt(
                F::spec_zero(),
                self.feature_routing(cfs, a, b),
            )),
    {
        let c = cfs.len() as int;
        self.lemma_seed_scan(cfs, c - 1, c);
        assert(pair_scanned(c - 1, c, a, b));
    }

    /// The two seeds of a split: the first pair at the largest distance, or
    /// the first two features when no distance exceeds zero.
    pub closed spec fn split_seeds(&self, cfs: Seq<CF>) -> (usize, usize) {
        let st = self.seed_scan(cfs, cfs.len() - 1, cfs.len() as int);
        (st.1, st.2)
    }

    /// How feature `k` compares between the two seeds: its distance to the
    /// first against its distance to the second (a seed is at zero from
    /// itself).
    pub closed spec fn seed_comparison(&self, cfs: Seq<CF>, k: int) -> Comparison {
        let (s1, s2) = self.split_seeds(cfs);
        let seeds_order = F::spec_zero().spec_compare(self.pair_dist(cfs, s1 as int, s2 as int));
        if k == s1 {
            seeds_order
        } else if k == s2 {
            spec_reversed(seeds_order)
        } else {
            self.pair_dist(cfs, k, s1 as int).spec_compare(self.pair_dist(cfs, k, s2 as int))
        }
    }

    /// The assignment of the first `k` features, with the sizes of the two
    /// groups: closer to the first seed goes to the first group (`true`),
    /// closer to the second to the second, a tie or an unordered pair to
    /// the group with fewer members so far (the first on a draw).
    pub closed spec fn split_scan(&self, cfs: Seq<CF>, k: int) -> (Seq<bool>, nat, nat)
        decreases k,
    {
        if k <= 0 {
            (Seq::empty(), 0, 0)
        } else {
            let (m, ones, twos) = self.split_scan(cfs, k - 1);
            let one = match self.seed_comparison(cfs, k - 1) {
                Comparison::Less => true,
                Comparison::Greater => false,
                _ => ones <= twos,
            };
            (m.push(one), if one {
                ones + 1
            } else {
                ones
            }, if one {
                twos
            } else {
                twos + 1
            })
        }
    }

    /// The split of `cfs` that `split_cfs` computes.
    pub closed spec fn split_mask(&self, cfs: Seq<CF>) -> Seq<bool> {
        if cfs.len() <= 1 {
            Seq::new(cfs.len(), |i: int| true)
        } else {
            self.split_scan(cfs, cfs.len() as int).0
        }
    }

    /// Splits a group of cluster features in two around the two farthest
    /// apart (under the routing distance): each goes with the closer of the
    /// two, ties going to the group that has fewer so far. `true` marks the
    /// first group.
    pub(crate) fn split_cfs(&self, cfs: &[&CF]) -> (r: Vec<bool>)
        requires
            forall|i: int| 0 <= i < cfs@.len() ==> (#[trigger] cfs@[i]).inv() && cfs@[i].spec_dim()
                == self.dim,
            forall|i: int, j: int|
                0 <= i < cfs@.len() && 0 <= j < cfs@.len() && i != j ==> (#[trigger] cfs@[i]).spec_size()
                    + (#[trigger] cfs@[j]).spec_size() <= usize::MAX,
        ensures
            r@.len() == cfs@.len(),
            cfs@.len() <= 1 ==> forall|i: int| 0 <= i < r@.len() ==> r@[i],
            cfs@.len() >= 2 ==> r@.contains(true) && r@.contains(false),
            r@ == self.split_mask(deref_all(cfs@)),
    {
        let ghost cs = deref_all(cfs@);
        let num_cfs = cfs.len();
        if num_cfs <= 1 {
            let mut r: Vec<bool> = Vec::new();
            while r.len() < num_cfs
                invariant
                    r@.len() <= num_cfs,
                    forall|t: int| 0 <= t < r@.len() ==> #[trigger] r@[t],
                decreases num_cfs - r@.len(),
            {
                r.push(true);
            }
            proof {
                assert(r@ =~= Seq::new(num_cfs as nat, |i: int| true));
            }
            return r;
        }
        // Distances of all pairs (i, j), i < j: row i holds j = i + 1 .. n.
        let mut tri_dist: Vec<Vec<F>> = Vec::new();
        let mut max_dist = F::zero();
        let mut seed1: usize = 0;
        let mut seed2: usize = 1;
        let mut i: usize = 0;
        while i < num_cfs
            invariant
                num_cfs == cfs@.len(),
                num_cfs >= 2,
                i <= num_cfs,
                tri_dist@.len() == i,
                forall|r: int| 0 <= r < i ==> (#[trigger] tri_dist@[r])@.len() == num_cfs - r - 1,
                forall|r: int, t: int|
                    0 <= r < i && 0 <= t < num_cfs - r - 1 ==> (#[trigger] tri_dist@[r]@[t]) == self.pair_dist(
                        cs,
                        r,
                        r + 1 + t,
                    ),
                cs == deref_all(cfs@),
                (max_dist, seed1, seed2) == self.seed_scan(cs, i as int, i + 1),
                seed1 < seed2 < num_cfs,
                forall|i: int| 0 <= i < cfs@.len() ==> (#[trigger] cfs@[i]).inv() && cfs@[i].spec_dim()
                    == self.dim,
                forall|i: int, j: int|
                    0 <= i < cfs@.len() && 0 <= j < cfs@.len() && i != j ==> (#[trigger] cfs@[i]).spec_size()
                        + (#[trigger] cfs@[j]).spec_size() <= usize::MAX,
            decreases num_cfs - i,
        {
            let mut row: Vec<F> = Vec::new();
            let mut j: usize = i + 1;
            while j < num_cfs
                invariant
                    num_cfs == cfs@.len(),
                    i < num_cfs,
                    i + 1 <= j <= num_cfs,
                    row@.len() == j - i - 1,
                    forall|t: int| 0 <= t < j - i - 1 ==> (#[trigger] row@[t]) == self.pair_dist(cs, i as int, i + 1 + t),
                    cs == deref_all(cfs@),
                    (max_dist, seed1, seed2) == self.seed_scan(cs, i as int, j as int),
                    seed1 < seed2 < num_cfs,
                    forall|i: int| 0 <= i < cfs@.len() ==> (#[trigger] cfs@[i]).inv()
                        && cfs@[i].spec_dim() == self.dim,
                    forall|i: int, j: int|
                        0 <= i < cfs@.len() && 0 <= j < cfs@.len() && i != j ==> (#[trigger] cfs@[i]).spec_size()
                            + (#[trigger] cfs@[j]).spec_size() <= usize::MAX,
                decreases num_cfs - j,
            {
                let dist = self.dist_function.sq_dist_cf(cfs[i], cfs[j], self.dim);
                row.push(dist);
                if max_dist.lt(&dist) {
                    max_dist = dist;
                    seed1 = i;
                    seed2 = j;
                }
                proof {
                    assert(dist == self.pair_dist(cs, i as int, j as int));
                    assert((max_dist, seed1, seed2) == self.seed_scan(cs, i as int, j + 1));
                }
                j = j + 1;
            }
            proof {
                assert(self.seed_scan(cs, i + 1, i + 2) == self.seed_scan(cs, i as int, num_cfs as int));
            }
            tri_dist.push(row);
            i = i + 1;
        }
        proof {
            assert(self.seed_scan(cs, num_cfs as int, num_cfs + 1) == self.seed_scan(cs, num_cfs - 1, num_cfs as int));
            assert((seed1, seed2) == self.split_seeds(cs));
        }
        // The seeds see each other at the same distance, and each sees
        // itself at zero: one comparison decides both.
        let seeds_order = F::zero().compare(&tri_dist[seed1][seed2 - seed1 - 1]);
        let mut si: usize = 0;
        let mut sj: usize = 0;
        let mut assignment: Vec<bool> = Vec::new();
        let mut k: usize = 0;
        while k < num_cfs
            invariant
                num_cfs == cfs@.len(),
                num_cfs >= 2,
                k <= num_cfs,
                tri_dist@.len() == num_cfs,
                forall|r: int| 0 <= r < num_cfs ==> (#[trigger] tri_dist@[r])@.len() == num_cfs - r - 1,
                forall|r: int, t: int|
                    0 <= r < num_cfs && 0 <= t < num_cfs - r - 1 ==> (#[trigger] tri_dist@[r]@[t]) == self.pair_dist(
                        cs,
                        r,
                        r + 1 + t,
                    ),
                (seed1, seed2) == self.split_seeds(cs),
                seeds_order == F::spec_zero().spec_compare(self.pair_dist(cs, seed1 as int, seed2 as int)),
                (assignment@, si as nat, sj as nat) == self.split_scan(cs, k as int),
                seed1 < seed2 < num_cfs,
                assignment@.len() == k,
                si + sj == k,
                si > 0 ==> assignment@.contains(true),
                sj > 0 ==> assignment@.contains(false),
                k > seed1 ==> (seeds_order == Comparison::Less ==> assignment@[seed1 as int]),
                k > seed1 ==> (seeds_order == Comparison::Greater ==> !assignment@[seed1 as int]),
                k > seed2 ==> assignment@.contains(true) && assignment@.contains(false),
            decreases num_cfs - k,
        {
            let c = if k == seed1 {
                seeds_order
            } else if k == seed2 {
                reversed(seeds_order)
            } else {
                let d1 = if k < seed1 {
                    tri_dist[k][seed1 - k - 1]
                } else {
                    tri_dist[seed1][k - seed1 - 1]
                };
                let d2 = if k < seed2 {
                    tri_dist[k][seed2 - k - 1]
                } else {
                    tri_dist[seed2][k - seed2 - 1]
                };
                proof {
                    assert(d1 == self.pair_dist(cs, k as int, seed1 as int));
                    assert(d2 == self.pair_dist(cs, k as int, seed2 as int));
                }
                d1.compare(&d2)
            };
            proof {
                assert(c == self.seed_comparison(cs, k as int));
            }
            let assign_to_one = match c {
                Comparison::Less => true,
                Comparison::Greater => false,
                _ => si <= sj,
            };
            let ghost before = assignment@;
            if assign_to_one {
                si = si + 1;
            } else {
                sj = sj + 1;
            }
            assignment.push(assign_to_one);
            proof {
                assert(assignment@[k as int] == assign_to_one);
                assert forall|b: bool| before.contains(b) implies assignment@.contains(b) by {
                    let w = choose|w: int| 0 <= w < before.len() && before[w] == b;
                    assert(assignment@[w] == b);
                }
                if k == seed2 {
                    if seeds_order == Comparison::Less {
                        assert(assignment@[seed1 as int]);
                        assert(assignment@.contains(true));
                    } else if seeds_order == Comparison::Greater {
                        assert(!assignment@[seed1 as int]);
                        assert(assignment@.contains(false));
                    }
                    assert(assignment@.contains(assign_to_one));
                }
            }
            proof {
                assert((assignment@, si as nat, sj as nat) == self.split_scan(cs, k + 1));
            }
            k = k + 1;
        }
        assignment
    }

    /// Splits the children `child_ids` (leaf entries when `is_leaf`, nodes
    /// otherwise) into two new nodes whose cluster features summarize their
    /// children.
    pub(crate) fn split_node(&self, child_ids: &[usize], is_leaf: bool) -> (r: (
        CFNode<F, CF>,
        CFNode<F, CF>,
        Ghost<Seq<bool>>,
    ))
        requires
            CF::dim_supported(self.dim as nat),
            forall|k: int|
                0 <= k < child_ids@.len() ==> if is_leaf {
                    &&& (#[trigger] child_ids@[k]) < self.leaf_entries@.len()
                    &&& self.leaf_entries@[child_ids@[k] as int].inv()
                    &&& self.leaf_entries@[child_ids@[k] as int].spec_dim() == self.dim
                } else {
                    &&& (#[trigger] child_ids@[k]) < self.nodes@.len()
                    &&& self.nodes@[child_ids@[k] as int].cf.inv()
                    &&& self.nodes@[child_ids@[k] as int].cf.spec_dim() == self.dim
                },
            sum_nat(self.item_sizes(is_leaf, child_ids@)) <= usize::MAX,
        ensures
            r.2@.len() == child_ids@.len(),
            r.2@ == self.split_mask(self.item_cfs(is_leaf, child_ids@)),
            r.0.children@ == select(child_ids@, r.2@, true),
            r.1.children@ == select(child_ids@, r.2@, false),
            child_ids@.len() >= 2 ==> r.2@.contains(true) && r.2@.contains(false),
            r.0.is_leaf == is_leaf,
            r.1.is_leaf == is_leaf,
            r.0.cf.inv(),
            r.1.cf.inv(),
            r.0.cf.spec_dim() == self.dim,
            r.1.cf.spec_dim() == self.dim,
            r.0.cf.spec_size() == sum_nat(select(self.item_sizes(is_leaf, child_ids@), r.2@, true)),
            r.1.cf.spec_size() == sum_nat(select(self.item_sizes(is_leaf, child_ids@), r.2@, false)),            merge_of(r.0.cf, select(self.item_cfs(is_leaf, child_ids@), r.2@, true), self.dim as nat),
            merge_of(r.1.cf, select(self.item_cfs(is_leaf, child_ids@), r.2@, false), self.dim as nat),
    {
        let ghost sizes = self.item_sizes(is_leaf, child_ids@);
        let mut childs: Vec<&CF> = Vec::new();
        let mut k: usize = 0;
        while k < child_ids.len()
            invariant
                k <= child_ids@.len(),
                childs@.len() == k,
                forall|k: int|
                    0 <= k < child_ids@.len() ==> if is_leaf {
                        &&& (#[trigger] child_ids@[k]) < self.leaf_entries@.len()
                        &&& self.leaf_entries@[child_ids@[k] as int].inv()
                        &&& self.leaf_entries@[child_ids@[k] as int].spec_dim() == self.dim
                    } else {
                        &&& (#[trigger] child_ids@[k]) < self.nodes@.len()
                        &&& self.nodes@[child_ids@[k] as int].cf.inv()
                        &&& self.nodes@[child_ids@[k] as int].cf.spec_dim() == self.dim
                    },
                forall|j: int|
                    0 <= j < k ==> *(#[trigger] childs@[j]) == if is_leaf {
                        self.leaf_entries@[child_ids@[j] as int]
                    } else {
                        self.nodes@[child_ids@[j] as int].cf
                    },
            decreases child_ids@.len() - k,
        {
            let id = child_ids[k];
            if is_leaf {
                childs.push(&self.leaf_entries[id]);
            } else {
                childs.push(self.nodes[id].as_cf());
            }
            k = k + 1;
        }
        proof {
            assert(deref_all(childs@) =~= self.item_cfs(is_leaf, child_ids@));
            assert(ref_sizes(childs@) =~= sizes);
            assert forall|i: int, j: int|
                0 <= i < childs@.len() && 0 <= j < childs@.len() && i != j implies (
                #[trigger] childs@[i]).spec_size() + (#[trigger] childs@[j]).spec_size()
                    <= usize::MAX by {
                lemma_sum_ge_two(sizes, i, j);
                assert(sizes[i] == childs@[i].spec_size());
            }
        }
        let assignment = self.split_cfs(childs.as_slice());
        let ghost mask = assignment@;
        let mut new_node_one: CFNode<F, CF> = CFNode::new(self.dim, self.capacity, is_leaf);
        let mut new_node_two: CFNode<F, CF> = CFNode::new(self.dim, self.capacity, is_leaf);
        let ghost cfs = self.item_cfs(is_leaf, child_ids@);
        let ghost mut chain1: Seq<CF> = seq![new_node_one.cf];
        let ghost mut chain2: Seq<CF> = seq![new_node_two.cf];
        proof {
            assert(select(cfs.subrange(0, 0), mask.subrange(0, 0), true) =~= Seq::<CF>::empty());
            assert(select(cfs.subrange(0, 0), mask.subrange(0, 0), false) =~= Seq::<CF>::empty());
        }
        let mut k: usize = 0;
        while k < child_ids.len()
            invariant
                k <= child_ids@.len(),
                childs@.len() == child_ids@.len(),
                mask.len() == child_ids@.len(),
                assignment@ == mask,
                sizes == self.item_sizes(is_leaf, child_ids@),
                sum_nat(sizes) <= usize::MAX,
                forall|j: int|
                    0 <= j < childs@.len() ==> (#[trigger] childs@[j]).inv() && childs@[j].spec_dim()
                        == self.dim && childs@[j].spec_size() == sizes[j],
                new_node_one.children@ == select(child_ids@.subrange(0, k as int), mask.subrange(0, k as int), true),
                new_node_two.children@ == select(child_ids@.subrange(0, k as int), mask.subrange(0, k as int), false),
                new_node_one.cf.spec_size() == sum_nat(select(sizes.subrange(0, k as int), mask.subrange(0, k as int), true)),
                new_node_two.cf.spec_size() == sum_nat(select(sizes.subrange(0, k as int), mask.subrange(0, k as int), false)),
                new_node_one.is_leaf == is_leaf,
                new_node_two.is_leaf == is_leaf,
                new_node_one.cf.inv(),
                new_node_two.cf.inv(),
                new_node_one.cf.spec_dim() == self.dim,
                new_node_two.cf.spec_dim() == self.dim,
                cfs == self.item_cfs(is_leaf, child_ids@),
                forall|j: int| 0 <= j < childs@.len() ==> *(#[trigger] childs@[j]) == cfs[j],
                merge_chain(chain1, select(cfs.subrange(0, k as int), mask.subrange(0, k as int), true), self.dim as nat),
                merge_chain(chain2, select(cfs.subrange(0, k as int), mask.subrange(0, k as int), false), self.dim as nat),
                chain1.last() == new_node_one.cf,
                chain2.last() == new_node_two.cf,
            decreases child_ids@.len() - k,
        {
            let ghost kk = k as int;
            proof {
                lemma_select_prefix(child_ids@, mask, true, kk);
                lemma_select_prefix(child_ids@, mask, false, kk);
                lemma_select_prefix(sizes, mask, true, kk);
                lemma_select_prefix(sizes, mask, false, kk);
                lemma_select_sum(sizes.subrange(0, kk), mask.subrange(0, kk));
                lemma_sum_prefix_step(sizes, kk);
                lemma_sum_prefix_le(sizes, kk + 1);
                super::seqs::lemma_sum_push(select(sizes.subrange(0, kk), mask.subrange(0, kk), true), sizes[kk]);
                super::seqs::lemma_sum_push(select(sizes.subrange(0, kk), mask.subrange(0, kk), false), sizes[kk]);
            }
            proof {
                lemma_select_prefix(cfs, mask, true, kk);
                lemma_select_prefix(cfs, mask, false, kk);
            }
            if assignment[k] {
                new_node_one.add_child(child_ids[k]);
                new_node_one.cf.add_cf(childs[k]);
                proof {
                    let parts = select(cfs.subrange(0, kk), mask.subrange(0, kk), true);
                    let next = chain1.push(new_node_one.cf);
                    assert forall|j: int| 0 <= j < parts.len() + 1 implies merged_with(
                        next[j + 1],
                        #[trigger] next[j],
                        parts.push(cfs[kk])[j],
                    ) by {
                        if j < parts.len() {
                            assert(next[j] == chain1[j] && next[j + 1] == chain1[j + 1]);
                        }
                    }
                    assert(merge_chain(next, parts.push(cfs[kk]), self.dim as nat));
                    chain1 = next;
                }
            } else {
                new_node_two.add_child(child_ids[k]);
                new_node_two.cf.add_cf(childs[k]);
                proof {
                    let parts = select(cfs.subrange(0, kk), mask.subrange(0, kk), false);
                    let next = chain2.push(new_node_two.cf);
                    assert forall|j: int| 0 <= j < parts.len() + 1 implies merged_with(
                        next[j + 1],
                        #[trigger] next[j],
                        parts.push(cfs[kk])[j],
                    ) by {
                        if j < parts.len() {
                            assert(next[j] == chain2[j] && next[j + 1] == chain2[j + 1]);
                        }
                    }
                    assert(merge_chain(next, parts.push(cfs[kk]), self.dim as nat));
                    chain2 = next;
                }
            }
            k = k + 1;
        }
        proof {
            assert(child_ids@.subrange(0, child_ids@.len() as int) =~= child_ids@);
            assert(mask.subrange(0, child_ids@.len() as int) =~= mask);
            assert(sizes.subrange(0, child_ids@.len() as int) =~= sizes);
            assert(cfs.subrange(0, child_ids@.len() as int) =~= cfs);
            assert(merge_chain(chain1, select(cfs, mask, true), self.dim as nat));
            assert(merge_chain(chain2, select(cfs, mask, false), self.dim as nat));
        }
        (new_node_one, new_node_two, Ghost(mask))
    }

    /// The rule a split of two or more features follows. The seeds `s1 <
    /// s2` are the pair it found farthest apart; every feature goes to the
    /// group (`true` for the first) of the seed it is nearer to under the
    /// routing distance (a seed is at zero from itself), and a tie or an
    /// unordered comparison to the group with fewer members so far, the
    /// first on a draw.
    pub proof fn lemma_split_rule(&self, cfs: Seq<CF>, k: int)
        requires
            cfs.len() >= 2,
            0 <= k < cfs.len(),
        ensures
            ({
                let (s1, s2) = self.split_seeds(cfs);
                let dist = |a: int, b: int|
                    if a < b {
                        self.spec_routing().spec_sq_dist_cf(cfs[a], cfs[b], self.spec_dim())
                    } else {
                        self.spec_routing().spec_sq_dist_cf(cfs[b], cfs[a], self.spec_dim())
                    };
                let mask = self.split_mask(cfs);
                let c = if k == s1 {
                    F::spec_zero().spec_compare(dist(s1 as int, s2 as int))
                } else if k == s2 {
                    spec_reversed(F::spec_zero().spec_compare(dist(s1 as int, s2 as int)))
                } else {
                    dist(k, s1 as int).spec_compare(dist(k, s2 as int))
                };
                let before = mask.subrange(0, k);
                let ones = before.filter(|b: bool| b).len();
                let twos = before.filter(|b: bool| !b).len();
                &&& mask.len() == cfs.len()
                &&& mask[k] == match c {
                    Comparison::Less => true,
                    Comparison::Greater => false,
                    _ => ones <= twos,
                }
            }),
    {
        self.lemma_split_scan(cfs, cfs.len() as int);
        self.lemma_split_scan(cfs, k);
        let mask = self.split_mask(cfs);
        assert(mask == self.split_scan(cfs, cfs.len() as int).0);
        let st = self.split_scan(cfs, k);
        assert(self.split_scan(cfs, k + 1).0 == mask.subrange(0, k + 1));
        assert(st.0 == mask.subrange(0, k));
        assert(mask.subrange(0, k + 1)[k] == mask[k]);
        let (s1, s2) = self.split_seeds(cfs);
        let dist = |a: int, b: int|
            if a < b {
                self.spec_routing().spec_sq_dist_cf(cfs[a], cfs[b], self.spec_dim())
            } else {
                self.spec_routing().spec_sq_dist_cf(cfs[b], cfs[a], self.spec_dim())
            };
        assert forall|a: int, b: int| self.pair_dist(cfs, a, b) == dist(a, b) by {}
        assert(self.split_scan(cfs, k + 1).0[k] == match self.seed_comparison(cfs, k) {
            Comparison::Less => true,
            Comparison::Greater => false,
            _ => st.1 <= st.2,
        });
    }

    /// The scan of the first `k` features: its groups' sizes count its
    /// assignment, and it is a prefix of the scan of more.
    proof fn lemma_split_scan(&self, cfs: Seq<CF>, k: int)
        requires
            0 <= k <= cfs.len(),
        ensures
            self.split_scan(cfs, k).0.len() == k,
            self.split_scan(cfs, k).1 == self.split_scan(cfs, k).0.filter(|b: bool| b).len(),
            self.split_scan(cfs, k).2 == self.split_scan(cfs, k).0.filter(|b: bool| !b).len(),
            forall|j: int| 0 <= j <= k ==> #[trigger] self.split_scan(cfs, j).0 == self.split_scan(cfs, k).0.subrange(0, j),
        decreases k,
    {
        let m = self.split_scan(cfs, k).0;
        if k > 0 {
            self.lemma_split_scan(cfs, k - 1);
            let p = self.split_scan(cfs, k - 1).0;
            assert(m.drop_last() =~= p);
            assert(m =~= p.push(m.last()));
            p.lemma_filter_push(m.last(), |b: bool| b);
            p.lemma_filter_push(m.last(), |b: bool| !b);
            assert forall|j: int| 0 <= j <= k implies #[trigger] self.split_scan(cfs, j).0 == m.subrange(0, j) by {
                if j < k {
                    assert(p.subrange(0, j) =~= m.subrange(0, j));
                } else {
                    assert(m.subrange(0, k) =~= m);
                }
            }
        } else {
            assert(m =~= Seq::<bool>::empty());
            assert(m.filter(|b: bool| b) =~= Seq::<bool>::empty());
            assert(m.filter(|b: bool| !b) =~= Seq::<bool>::empty());
        }
    }
}

} // verus!
