//! Facts about consistent and partly updated trees.

use super::seqs::{lemma_sum_ge_elem, lemma_sum_ge_two, sum_nat};
use super::{max_children, merge_of, CFTree};
use crate::cluster_feature::{ClusterFeature, ClusterSummary};
use crate::distance::CFDistance;
use crate::types::Float;
use vstd::prelude::*;

verus! {

impl<F: Float, CF: ClusterFeature<F>, D: CFDistance<F, CF>, A: CFDistance<F, CF>> CFTree<
    F,
    CF,
    D,
    A,
> {
    /// The stored vectors have lengths that fit in `usize`.
    pub(crate) proof fn lemma_lens(&self)
        ensures
            self.nodes@.len() <= usize::MAX,
            self.leaf_entries@.len() <= usize::MAX,
    {
        assert(self.nodes.len() == self.nodes@.len());
        assert(self.leaf_entries.len() == self.leaf_entries@.len());
    }

    /// The pending orphan is not on the pending path.
    pub(crate) proof fn lemma_orphan_not_on_path(&self, p: Seq<usize>, delta: nat, o: usize)
        requires
            self.pending(p, delta, Some(o)),
        ensures
            !p.contains(o),
    {
        if p.contains(o) {
            let k = choose|k: int| 0 <= k < p.len() && p[k] == o;
            assert(p[k] < self.nodes@.len());
            assert(p[p.len() - 1] < self.nodes@.len());
        }
    }

    /// A child's size counts towards its parent's.
    pub(crate) proof fn lemma_child_le(
        &self,
        p: Seq<usize>,
        delta: nat,
        orphan: Option<usize>,
        n: int,
        k: int,
    )
        requires
            self.pending(p, delta, orphan),
            0 <= n < self.nodes@.len(),
            0 <= k < self.nodes@[n].children@.len(),
        ensures
            self.child_eff(p, delta, n, self.nodes@[n].children@[k]) <= self.eff(p, delta, n),
    {
        assert(self.size_ok(p, delta, orphan, n));
        let s = self.child_effs(p, delta, n);
        lemma_sum_ge_elem(s, k);
    }

    /// No node holds more points than the tree.
    pub(crate) proof fn lemma_eff_le_total(
        &self,
        p: Seq<usize>,
        delta: nat,
        orphan: Option<usize>,
        n: int,
    )
        requires
            self.pending(p, delta, orphan),
            0 <= n < self.nodes@.len(),
        ensures
            self.eff(p, delta, n) <= self.total_size(),
        decreases self.spec_level(self.spec_root() as int) - self.spec_level(n), if orphan == Some(
            n as usize,
        ) {
            1int
        } else {
            0int
        },
    {
        self.lemma_lens();
        assert(self.node_ok(n, orphan));
        if n == self.root {
        } else if orphan == Some(n as usize) {
            let o = n as usize;
            self.lemma_orphan_not_on_path(p, delta, o);
            if p.len() > 0 {
                let q = p.last();
                assert(p[p.len() - 1] < self.nodes@.len());
                assert(self.levels@[p[p.len() - 1] as int] + (p.len() - 1) == self.levels@[self.root as int]);
                assert(self.levels@[o as int] + 1 == self.levels@[q as int]);
                assert(self.levels@[self.root as int] - self.levels@[q as int] < self.levels@[self.root as int] - self.levels@[n]);
                assert(self.size_ok(p, delta, orphan, q as int));
                self.lemma_eff_le_total(p, delta, orphan, q as int);
            }
        } else {
            assert(self.linked(n));
            let par = self.parents@[n] as int;
            let kids = self.nodes@[par].children@;
            let k = choose|k: int| 0 <= k < kids.len() && kids[k] == n as usize;
            assert(self.node_ok(par, orphan));
            assert(!self.nodes@[par].is_leaf);
            self.lemma_child_le(p, delta, orphan, par, k);
            self.lemma_eff_le_total(p, delta, orphan, par);
        }
    }

    /// No leaf entry holds more points than the tree.
    pub(crate) proof fn lemma_entry_le_total(
        &self,
        p: Seq<usize>,
        delta: nat,
        orphan: Option<usize>,
        e: int,
    )
        requires
            self.pending(p, delta, orphan),
            0 <= e < self.leaf_entries@.len(),
        ensures
            self.leaf_entries@[e].spec_size() <= self.total_size(),
    {
        self.lemma_lens();
        assert(self.entry_ok(e));
        let o = self.owners@[e] as int;
        let kids = self.nodes@[o].children@;
        let k = choose|k: int| 0 <= k < kids.len() && kids[k] == e as usize;
        assert(self.node_ok(o, orphan));
        self.lemma_child_le(p, delta, orphan, o, k);
        assert(self.child_eff(p, delta, o, kids[k]) == self.leaf_entries@[e].spec_size());
        self.lemma_eff_le_total(p, delta, orphan, o);
    }
}

} // verus!

verus! {

impl<F: Float, CF: ClusterFeature<F>, D: CFDistance<F, CF>, A: CFDistance<F, CF>> CFTree<
    F,
    CF,
    D,
    A,
> {
    /// The nodes of a path down from the root are distinct.
    pub(crate) proof fn lemma_chain_no_dup(&self, p: Seq<usize>)
        requires
            self.chain(p),
        ensures
            p.no_duplicates(),
    {
        assert forall|i: int, j: int| 0 <= i < j < p.len() implies p[i] != p[j] by {
            assert(p[i] < self.nodes@.len());
            assert(p[j] < self.nodes@.len());
        }
    }

    /// A child of a non-leaf node `n` is on the path `p` exactly when `n` is
    /// on it and is not its last node; it is then the next node of the path.
    pub(crate) proof fn lemma_kid_on_path(
        &self,
        orphan: Option<usize>,
        p: Seq<usize>,
        n: int,
        c: usize,
    )
        requires
            self.shape_ok(orphan),
            self.chain(p),
            0 <= n < self.nodes@.len(),
            !self.nodes@[n].is_leaf,
            self.nodes@[n].children@.contains(c),
        ensures
            p.contains(c) <==> exists|k: int|
                #![trigger p[k]]
                0 <= k < p.len() - 1 && p[k] == n && p[k + 1] == c,
    {
        self.lemma_lens();
        assert(self.node_ok(n, orphan));
        let kids = self.nodes@[n].children@;
        let i = choose|i: int| 0 <= i < kids.len() && kids[i] == c;
        assert(self.kid_ok(n, kids[i]));
        if p.contains(c) {
            let m = choose|m: int| 0 <= m < p.len() && p[m] == c;
            assert(p[m] < self.nodes@.len());
            assert(self.node_ok(c as int, orphan));
            if m == 0 {
                assert(p[0] == self.root);
                assert(self.levels@[n] <= self.levels@[self.root as int]);
            } else {
                assert(self.parents@[p[m - 1 + 1] as int] == p[m - 1]);
                assert(0 <= m - 1 < p.len() - 1 && p[m - 1] == n && p[m - 1 + 1] == c);
            }
        }
        if exists|k: int| #![trigger p[k]] 0 <= k < p.len() - 1 && p[k] == n && p[k + 1] == c {
            let k = choose|k: int| #![trigger p[k]] 0 <= k < p.len() - 1 && p[k] == n && p[k + 1] == c;
            assert(p[k + 1] == c);
        }
    }

    /// Counting the pending points of the path `p` adds them to a non-leaf
    /// node's children exactly when the node is on the path but not last.
    pub(crate) proof fn lemma_path_effs(&self, orphan: Option<usize>, p: Seq<usize>, delta: nat, n: int)
        requires
            self.shape_ok(orphan),
            self.chain(p),
            0 <= n < self.nodes@.len(),
            !self.nodes@[n].is_leaf,
        ensures
            sum_nat(self.child_effs(p, delta, n)) == sum_nat(self.child_effs(Seq::empty(), 0, n)) + (
            if p.contains(n as usize) && n != p.last() {
                delta
            } else {
                0
            }),
    {
        self.lemma_lens();
        self.lemma_chain_no_dup(p);
        assert(self.node_ok(n, orphan));
        let kids = self.nodes@[n].children@;
        let s0 = self.child_effs(Seq::empty(), 0, n);
        let s1 = self.child_effs(p, delta, n);
        if p.contains(n as usize) && n != p.last() {
            let k = choose|k: int| 0 <= k < p.len() && p[k] == n as usize;
            assert(k < p.len() - 1);
            let c = p[k + 1];
            assert(kids.contains(c));
            let j = choose|j: int| 0 <= j < kids.len() && kids[j] == c;
            self.lemma_kid_on_path(orphan, p, n, c);
            assert forall|i: int| 0 <= i < kids.len() && i != j implies !p.contains(kids[i]) by {
                assert(kids.contains(kids[i]));
                self.lemma_kid_on_path(orphan, p, n, kids[i]);
                if p.contains(kids[i]) {
                    let k2 = choose|k2: int| #![trigger p[k2]] 0 <= k2 < p.len() - 1 && p[k2] == n && p[k2 + 1] == kids[i];
                    assert(k2 == k);
                }
            }
            assert(s1 =~= s0.update(j, s0[j] + delta));
            super::seqs::lemma_sum_update(s0, j, s0[j] + delta);
        } else {
            assert forall|i: int| 0 <= i < kids.len() implies !p.contains(kids[i]) by {
                assert(kids.contains(kids[i]));
                self.lemma_kid_on_path(orphan, p, n, kids[i]);
                if p.contains(kids[i]) {
                    let k2 = choose|k2: int| #![trigger p[k2]] 0 <= k2 < p.len() - 1 && p[k2] == n && p[k2 + 1] == kids[i];
                    assert(p.contains(n as usize));
                    assert(p[k2] != p[p.len() - 1]);
                }
            }
            assert(s1 =~= s0);
        }
    }

    /// Two leaf entries together hold at most twice the points of the tree,
    /// and at most its points when they are distinct.
    pub(crate) proof fn lemma_entry_pair(&self, a: int, b: int)
        requires
            0 <= a < self.leaf_entries@.len(),
            0 <= b < self.leaf_entries@.len(),
        ensures
            self.leaf_entries@[a].spec_size() + self.leaf_entries@[b].spec_size() <= 2 * self.total_size(),
            a != b ==> self.leaf_entries@[a].spec_size() + self.leaf_entries@[b].spec_size()
                <= self.total_size(),
    {
        let s = self.entry_sizes();
        lemma_sum_ge_elem(s, a);
        lemma_sum_ge_elem(s, b);
        if a != b {
            lemma_sum_ge_two(s, a, b);
        }
    }

    /// Every node holds as many points as its children together: its leaf
    /// entries for a leaf, its child nodes otherwise.
    pub proof fn lemma_node_size(&self, n: int)
        requires
            self.wf(),
            0 <= n < self.spec_nodes().len(),
        ensures
            self.kid_sizes(n).len() == self.spec_nodes()[n].spec_kids().len(),
            forall|k: int|
                0 <= k < self.kid_sizes(n).len() ==> #[trigger] self.kid_sizes(n)[k] == if self.spec_nodes()[n].spec_is_leaf() {
                    self.spec_entries()[self.spec_nodes()[n].spec_kids()[k] as int].spec_size()
                } else {
                    self.spec_nodes()[self.spec_nodes()[n].spec_kids()[k] as int].spec_cf().spec_size()
                },
            self.spec_nodes()[n].spec_cf().spec_size() == sum_nat(self.kid_sizes(n)),
    {
        assert(self.size_ok(Seq::empty(), 0, None, n));
    }

    /// The root holds every point of the tree.
    pub proof fn lemma_root_size(&self)
        requires
            self.wf(),
        ensures
            self.spec_root() < self.spec_nodes().len(),
            self.spec_nodes()[self.spec_root() as int].spec_cf().spec_size() == self.total_size(),
    {
    }

    /// Every leaf entry is listed by exactly one node, and that node is a
    /// leaf.
    pub proof fn lemma_entry_owner(&self, e: int)
        requires
            self.wf(),
            0 <= e < self.spec_entries().len(),
        ensures
            exists|l: int|
                0 <= l < self.spec_nodes().len() && self.spec_nodes()[l].spec_is_leaf()
                    && #[trigger] self.spec_nodes()[l].spec_kids().contains(e as usize),
            forall|a: int, b: int|
                0 <= a < self.spec_nodes().len() && 0 <= b < self.spec_nodes().len()
                    && #[trigger] self.spec_nodes()[a].spec_kids().contains(e as usize)
                    && #[trigger] self.spec_nodes()[b].spec_kids().contains(e as usize)
                    && self.spec_nodes()[a].spec_is_leaf() && self.spec_nodes()[b].spec_is_leaf() ==> a == b,
    {
        assert(self.entry_ok(e));
        let o = self.owners@[e] as int;
        assert(self.spec_nodes()[o].spec_kids().contains(e as usize));
        assert forall|a: int, b: int|
            0 <= a < self.spec_nodes().len() && 0 <= b < self.spec_nodes().len()
                && #[trigger] self.spec_nodes()[a].spec_kids().contains(e as usize)
                && #[trigger] self.spec_nodes()[b].spec_kids().contains(e as usize)
                && self.spec_nodes()[a].spec_is_leaf() && self.spec_nodes()[b].spec_is_leaf() implies a == b by {
            assert(self.node_ok(a, None));
            assert(self.node_ok(b, None));
            let ka = self.nodes@[a].children@;
            let kb = self.nodes@[b].children@;
            let i = choose|i: int| 0 <= i < ka.len() && ka[i] == e as usize;
            let j = choose|j: int| 0 <= j < kb.len() && kb[j] == e as usize;
            assert(self.kid_ok(a, ka[i]));
            assert(self.kid_ok(b, kb[j]));
        }
    }

    /// Every leaf entry is a consistent feature of the tree's
    /// dimensionality.
    pub proof fn lemma_entries_valid(&self)
        requires
            self.wf(),
        ensures
            forall|e: int|
                0 <= e < self.spec_entries().len() ==> (#[trigger] self.spec_entries()[e]).inv()
                    && self.spec_entries()[e].spec_dim() == self.spec_dim(),
    {
        assert forall|e: int| 0 <= e < self.spec_entries().len() implies (
        #[trigger] self.spec_entries()[e]).inv() && self.spec_entries()[e].spec_dim()
            == self.spec_dim() by {
            assert(self.entry_ok(e));
        }
    }

    /// `entry_sizes` lists the sizes of the leaf entries, which sum to
    /// `total_size`.
    pub proof fn lemma_entry_sizes(&self)
        ensures
            self.total_size() == sum_nat(self.entry_sizes()),
            self.entry_sizes().len() == self.spec_entries().len(),
            forall|e: int|
                0 <= e < self.spec_entries().len() ==> #[trigger] self.entry_sizes()[e]
                    == self.spec_entries()[e].spec_size(),
    {
    }

    /// No node has more children than the capacity allows (two at least).
    pub proof fn lemma_fanout(&self, n: int)
        requires
            self.wf(),
            0 <= n < self.spec_nodes().len(),
        ensures
            self.spec_nodes()[n].spec_kids().len() <= max_children(self.spec_capacity()),
    {
        assert(self.node_ok(n, None));
    }

    /// Height of node `n` above the leaves.
    pub closed spec fn spec_level(&self, n: int) -> nat {
        self.levels@[n]
    }

    /// The tree is balanced: leaves stand at height zero, the children of
    /// an inner node one level below it, and no node above the root.
    pub proof fn lemma_levels(&self, n: int)
        requires
            self.wf(),
            0 <= n < self.spec_nodes().len(),
        ensures
            self.spec_nodes()[n].spec_is_leaf() <==> self.spec_level(n) == 0,
            self.spec_level(n) <= self.spec_level(self.spec_root() as int),
            !self.spec_nodes()[n].spec_is_leaf() ==> forall|k: int|
                0 <= k < self.spec_nodes()[n].spec_kids().len() ==> {
                    let c = #[trigger] self.spec_nodes()[n].spec_kids()[k];
                    &&& c < self.spec_nodes().len()
                    &&& self.spec_level(c as int) + 1 == self.spec_level(n)
                },
    {
        assert(self.node_ok(n, None));
        let kids = self.nodes@[n].children@;
        assert forall|k: int| 0 <= k < kids.len() && !self.nodes@[n].is_leaf implies {
            let c = #[trigger] kids[k];
            &&& c < self.nodes@.len()
            &&& self.levels@[c as int] + 1 == self.levels@[n]
        } by {
            assert(self.kid_ok(n, kids[k]));
        }
    }

    /// The nearest of the first `i` features is one of them.
    pub(crate) proof fn lemma_nearest_scan_range(&self, cfs: Seq<CF>, dist: spec_fn(CF) -> F, i: int)
        requires
            1 <= i,
        ensures
            0 <= self.nearest_scan(cfs, dist, i).1 < i,
        decreases i,
    {
        if i > 1 {
            self.lemma_nearest_scan_range(cfs, dist, i - 1);
        }
    }

    /// Going down from node `n` to the nearest child, level by level, ends
    /// at a leaf.
    pub(crate) proof fn lemma_descend_leaf(&self, route: spec_fn(CF) -> F, n: int)
        requires
            self.wf(),
            0 <= n < self.nodes@.len(),
        ensures
            0 <= self.descend(route, n, self.levels@[n]) < self.nodes@.len(),
            self.nodes@[self.descend(route, n, self.levels@[n])].is_leaf,
        decreases self.levels@[n],
    {
        assert(self.node_ok(n, None));
        if !self.nodes@[n].is_leaf {
            let kids = self.nodes@[n].children@;
            let cfs = self.node_cfs(kids);
            self.lemma_nearest_scan_range(cfs, route, cfs.len() as int);
            let p = self.nearest_pos(cfs, route);
            assert(self.kid_ok(n, kids[p]));
            self.lemma_descend_leaf(route, kids[p] as int);
        }
    }

    /// In a tree without leaf entries nothing is absorbed: an insertion
    /// makes a new entry.
    pub proof fn lemma_no_entries_no_absorber(&self, route: spec_fn(CF) -> F, absorb: spec_fn(CF) -> F)
        requires
            self.wf(),
            self.spec_entries().len() == 0,
        ensures
            self.absorber_by(route, absorb) is None,
    {
        self.lemma_descend_leaf(route, self.root as int);
        let t = self.target_leaf(route);
        assert(self.node_ok(t, None));
        let kids = self.nodes@[t].children@;
        if kids.len() > 0 {
            let cfs = self.entry_cfs(kids);
            self.lemma_nearest_scan_range(cfs, route, cfs.len() as int);
            let p = self.nearest_pos(cfs, route);
            assert(self.kid_ok(t, kids[p]));
        }
    }

    /// A tree without leaf entries absorbs no point.
    pub proof fn lemma_no_entries_point(&self, x: Seq<F>)
        requires
            self.wf(),
            self.spec_entries().len() == 0,
        ensures
            self.point_absorber(x) is None,
    {
        self.lemma_no_entries_no_absorber(
            |c: CF| self.dist_function.spec_sq_dist(c, x, self.dim as nat),
            |c: CF| self.abs_function.spec_sq_dist(c, x, self.dim as nat),
        );
    }

    /// `p` runs from the root down to a node, each step to a child.
    pub open spec fn is_path(&self, p: Seq<usize>) -> bool {
        &&& p.len() > 0
        &&& p[0] == self.spec_root()
        &&& forall|k: int|
            0 <= k < p.len() - 1 ==> self.spec_nodes()[p[k] as int].spec_kids().contains(
                #[trigger] p[k + 1],
            )
    }

    /// Every node's feature is consistent and of the tree's dimensionality,
    /// an inner node has a child, and the children of a leaf are leaf
    /// entries.
    pub proof fn lemma_node_structure(&self, n: int)
        requires
            self.wf(),
            0 <= n < self.spec_nodes().len(),
        ensures
            self.spec_nodes()[n].spec_cf().inv(),
            self.spec_nodes()[n].spec_cf().spec_dim() == self.spec_dim(),
            !self.spec_nodes()[n].spec_is_leaf() ==> self.spec_nodes()[n].spec_kids().len() > 0,
            self.spec_nodes()[n].spec_is_leaf() ==> forall|k: int|
                0 <= k < self.spec_nodes()[n].spec_kids().len() ==> (
                #[trigger] self.spec_nodes()[n].spec_kids()[k]) < self.spec_entries().len(),
    {
        assert(self.node_ok(n, None));
        let kids = self.nodes@[n].children@;
        assert forall|k: int| 0 <= k < kids.len() && self.nodes@[n].is_leaf implies (
        #[trigger] kids[k]) < self.leaf_entries@.len() by {
            assert(self.kid_ok(n, kids[k]));
        }
    }

    /// Every node can be reached from the root.
    pub proof fn lemma_reachable(&self, n: int)
        requires
            self.wf(),
            0 <= n < self.spec_nodes().len(),
        ensures
            exists|p: Seq<usize>| #[trigger] self.is_path(p) && p.last() == n,
        decreases self.spec_level(self.spec_root() as int) - self.spec_level(n),
    {
        if n == self.root {
            let p = seq![self.root];
            assert(self.is_path(p));
        } else {
            self.lemma_lens();
            assert(self.node_ok(n, None));
            assert(self.linked(n));
            let par = self.parents@[n] as int;
            assert(self.node_ok(par, None));
            self.lemma_reachable(par);
            let p = choose|p: Seq<usize>| #[trigger] self.is_path(p) && p.last() == par;
            let q = p.push(n as usize);
            assert forall|k: int| 0 <= k < q.len() - 1 implies self.spec_nodes()[q[k] as int].spec_kids().contains(
                #[trigger] q[k + 1],
            ) by {
                if k < p.len() - 1 {
                    assert(q[k] == p[k] && q[k + 1] == p[k + 1]);
                } else {
                    assert(q[k] == par && q[k + 1] == n as usize);
                }
            }
            assert(q[0] == self.spec_root());
            assert(q.last() == n);
            assert(self.is_path(q));
        }
    }

    /// The features of a node's children: its leaf entries for a leaf, the
    /// features of its child nodes otherwise.
    pub proof fn lemma_child_cfs(&self, n: int)
        ensures
            self.child_cfs(n) == if self.spec_nodes()[n].spec_is_leaf() {
                self.spec_nodes()[n].spec_kids().map_values(|c: usize| self.spec_entries()[c as int])
            } else {
                self.spec_nodes()[n].spec_kids().map_values(|c: usize| self.spec_nodes()[c as int].spec_cf())
            },
    {
        let kids = self.nodes@[n].children@;
        if self.nodes@[n].is_leaf {
            assert(self.entry_cfs(kids) =~= kids.map_values(|c: usize| self.spec_entries()[c as int]));
        } else {
            assert(self.node_cfs(kids) =~= kids.map_values(|c: usize| self.spec_nodes()[c as int].spec_cf()));
        }
    }

    /// In a consistent tree every leaf entry and every node feature holds
    /// one centroid coordinate per dimension of the tree.
    pub proof fn lemma_centroid_lens(&self)
        requires
            self.wf(),
        ensures
            forall|e: int|
                0 <= e < self.spec_entries().len() ==> (#[trigger] self.spec_entries()[e]).spec_centroid().len()
                    == self.spec_dim(),
            forall|n: int|
                0 <= n < self.spec_nodes().len() ==> (#[trigger] self.spec_nodes()[n]).spec_cf().spec_centroid().len()
                    == self.spec_dim(),
    {
        assert forall|e: int| 0 <= e < self.spec_entries().len() implies (#[trigger] self.spec_entries()[e]).spec_centroid().len()
            == self.spec_dim() by {
            assert(self.entry_ok(e));
            self.leaf_entries@[e].lemma_inv();
        }
        assert forall|n: int| 0 <= n < self.spec_nodes().len() implies (#[trigger] self.spec_nodes()[n]).spec_cf().spec_centroid().len()
            == self.spec_dim() by {
            assert(self.node_ok(n, None));
            self.nodes@[n].cf.lemma_inv();
        }
    }

    /// Made nodes keep being the merge of their children when only the
    /// nodes in `changed` change (none of them made or a child of a made
    /// node) and nodes are only appended.
    pub(crate) proof fn lemma_made_kept(a: Self, b: Self, made: Set<usize>, changed: Set<usize>)
        requires
            forall|m: usize|
                #[trigger] made.contains(m) ==> m < a.nodes@.len() && merge_of(
                    a.nodes@[m as int].cf,
                    a.child_cfs(m as int),
                    a.dim as nat,
                ),
            forall|m: usize|
                #[trigger] made.contains(m) ==> !changed.contains(m) && (!a.nodes@[m as int].is_leaf ==> forall|k: int|
                    0 <= k < a.nodes@[m as int].children@.len() ==> !changed.contains(
                        #[trigger] a.nodes@[m as int].children@[k],
                    ) && a.nodes@[m as int].children@[k] < a.nodes@.len()),
            b.nodes@.len() >= a.nodes@.len(),
            b.leaf_entries == a.leaf_entries,
            b.dim == a.dim,
            forall|n: int| 0 <= n < a.nodes@.len() && !changed.contains(n as usize) ==> b.nodes@[n] == a.nodes@[n],
        ensures
            forall|m: usize|
                #[trigger] made.contains(m) ==> m < b.nodes@.len() && merge_of(
                    b.nodes@[m as int].cf,
                    b.child_cfs(m as int),
                    b.dim as nat,
                ),
    {
        assert forall|m: usize| #[trigger] made.contains(m) implies m < b.nodes@.len() && merge_of(
            b.nodes@[m as int].cf,
            b.child_cfs(m as int),
            b.dim as nat,
        ) by {
            assert(b.nodes@[m as int] == a.nodes@[m as int]);
            let kids = a.nodes@[m as int].children@;
            if !a.nodes@[m as int].is_leaf {
                assert forall|k: int| 0 <= k < kids.len() implies b.nodes@[kids[k] as int] == a.nodes@[kids[k] as int] by {
                    assert(!changed.contains(kids[k]));
                }
                assert(b.child_cfs(m as int) =~= a.child_cfs(m as int));
            } else {
                assert(b.child_cfs(m as int) =~= a.child_cfs(m as int));
            }
        }
    }

    /// While a split travels up the path `p`, the node `id` at its end is
    /// neither a node made by an earlier split nor a child of one: those
    /// stand lower in the tree.
    pub(crate) proof fn lemma_made_children(&self, made: Set<usize>, id: int, p: Seq<usize>, orphan: usize)
        requires
            self.shape_ok(Some(orphan)),
            self.chain(p),
            p.len() > 0,
            id == p.last(),
            forall|m: usize| #[trigger] made.contains(m) ==> m < self.nodes@.len(),
            forall|k: int| 0 <= k < p.len() ==> !made.contains(#[trigger] p[k]),
            forall|m: usize, k: int|
                #[trigger] made.contains(m) && 0 <= k < p.len() ==> self.levels@[m as int]
                    < self.levels@[#[trigger] p[k] as int],
        ensures
            forall|m: usize|
                #[trigger] made.contains(m) ==> !set![id as usize].contains(m) && (!self.nodes@[m as int].is_leaf
                    ==> forall|k: int|
                    0 <= k < self.nodes@[m as int].children@.len() ==> !set![id as usize].contains(
                        #[trigger] self.nodes@[m as int].children@[k],
                    ) && self.nodes@[m as int].children@[k] < self.nodes@.len()),
    {
        assert forall|m: usize| #[trigger] made.contains(m) implies !set![id as usize].contains(m) && (
        !self.nodes@[m as int].is_leaf ==> forall|k: int|
            0 <= k < self.nodes@[m as int].children@.len() ==> !set![id as usize].contains(
                #[trigger] self.nodes@[m as int].children@[k],
            ) && self.nodes@[m as int].children@[k] < self.nodes@.len()) by {
            assert(self.levels@[m as int] < self.levels@[p[p.len() - 1] as int]);
            assert(self.node_ok(m as int, Some(orphan)));
            let kids = self.nodes@[m as int].children@;
            assert forall|k: int| 0 <= k < kids.len() && !self.nodes@[m as int].is_leaf implies !set![
                id as usize,
            ].contains(#[trigger] kids[k]) && kids[k] < self.nodes@.len() by {
                assert(self.kid_ok(m as int, kids[k]));
            }
        }
    }

    /// A child of the node `id` being split, or the node `orphan` joining
    /// it, is another node.
    pub(crate) proof fn lemma_split_child(&self, made: Set<usize>, id: int, p: Seq<usize>, orphan: usize, c: usize)
        requires
            self.shape_ok(Some(orphan)),
            self.chain(p),
            p.len() > 0,
            id == p.last(),
            !self.nodes@[id].is_leaf,
            made.contains(orphan),
            forall|m: usize| #[trigger] made.contains(m) ==> m < self.nodes@.len(),
            forall|k: int| 0 <= k < p.len() ==> !made.contains(#[trigger] p[k]),
            self.nodes@[id].children@.push(orphan).contains(c),
        ensures
            c != id,
            c < self.nodes@.len(),
    {
        assert(p[p.len() - 1] == id);
        assert(self.node_ok(id, Some(orphan)));
        let kids = self.nodes@[id].children@;
        if c != orphan {
            let k = choose|k: int| 0 <= k < kids.push(orphan).len() && kids.push(orphan)[k] == c;
            assert(kids[k] == c);
            assert(self.kid_ok(id, kids[k]));
        }
    }

    /// Nodes made below every node of the path `p` are neither on `p` nor
    /// have a child on it.
    pub(crate) proof fn lemma_made_off_path(&self, made: Set<usize>, p: Seq<usize>)
        requires
            self.shape_ok(None),
            self.chain(p),
            forall|m: usize| #[trigger] made.contains(m) ==> m < self.nodes@.len(),
            forall|k: int| 0 <= k < p.len() ==> !made.contains(#[trigger] p[k]),
            forall|m: usize, k: int|
                #[trigger] made.contains(m) && 0 <= k < p.len() ==> self.levels@[m as int]
                    < self.levels@[#[trigger] p[k] as int],
        ensures
            forall|m: usize|
                #[trigger] made.contains(m) ==> !p.to_set().contains(m) && (!self.nodes@[m as int].is_leaf
                    ==> forall|k: int|
                    0 <= k < self.nodes@[m as int].children@.len() ==> !p.to_set().contains(
                        #[trigger] self.nodes@[m as int].children@[k],
                    ) && self.nodes@[m as int].children@[k] < self.nodes@.len()),
    {
        assert forall|m: usize| #[trigger] made.contains(m) implies !p.to_set().contains(m) && (
        !self.nodes@[m as int].is_leaf ==> forall|k: int|
            0 <= k < self.nodes@[m as int].children@.len() ==> !p.to_set().contains(
                #[trigger] self.nodes@[m as int].children@[k],
            ) && self.nodes@[m as int].children@[k] < self.nodes@.len()) by {
            assert(self.node_ok(m as int, None));
            if p.contains(m) {
                let j = choose|j: int| 0 <= j < p.len() && p[j] == m;
                assert(!made.contains(p[j]));
            }
            let kids = self.nodes@[m as int].children@;
            assert forall|k: int| 0 <= k < kids.len() && !self.nodes@[m as int].is_leaf implies !p.to_set().contains(
                #[trigger] kids[k],
            ) && kids[k] < self.nodes@.len() by {
                assert(self.kid_ok(m as int, kids[k]));
                if p.contains(kids[k]) {
                    let j = choose|j: int| 0 <= j < p.len() && p[j] == kids[k];
                    assert(self.levels@[m as int] < self.levels@[p[j] as int]);
                }
            }
        }
    }

    /// The children of an inner node are nodes of the tree.
    pub(crate) proof fn lemma_made_kids_in_range(&self, made: Set<usize>, orphan: Option<usize>)
        requires
            self.shape_ok(orphan),
            forall|m: usize| #[trigger] made.contains(m) ==> m < self.nodes@.len(),
        ensures
            forall|m: usize|
                #[trigger] made.contains(m) ==> !Set::<usize>::empty().contains(m) && (!self.nodes@[m as int].is_leaf
                    ==> forall|k: int|
                    0 <= k < self.nodes@[m as int].children@.len() ==> !Set::<usize>::empty().contains(
                        #[trigger] self.nodes@[m as int].children@[k],
                    ) && self.nodes@[m as int].children@[k] < self.nodes@.len()),
    {
        assert forall|m: usize| #[trigger] made.contains(m) implies !Set::<usize>::empty().contains(m) && (
        !self.nodes@[m as int].is_leaf ==> forall|k: int|
            0 <= k < self.nodes@[m as int].children@.len() ==> !Set::<usize>::empty().contains(
                #[trigger] self.nodes@[m as int].children@[k],
            ) && self.nodes@[m as int].children@[k] < self.nodes@.len()) by {
            assert(self.node_ok(m as int, orphan));
            let kids = self.nodes@[m as int].children@;
            assert forall|k: int| 0 <= k < kids.len() && !self.nodes@[m as int].is_leaf implies (#[trigger] kids[k])
                < self.nodes@.len() by {
                assert(self.kid_ok(m as int, kids[k]));
            }
        }
    }
}

} // verus!
