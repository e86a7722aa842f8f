//! The order in which a depth-first walk meets the leaf entries: leaf by
//! leaf, children from first to last.

use super::seqs::lemma_index_count;
use super::CFTree;
use crate::cluster_feature::{ClusterFeature, ClusterSummary};
use crate::distance::CFDistance;
use crate::types::Float;
use vstd::prelude::*;

verus! {

/// Two sequences without repetitions that share nothing concatenate to one
/// without repetitions.
proof fn lemma_concat_no_dup<T>(a: Seq<T>, b: Seq<T>)
    requires
        a.no_duplicates(),
        b.no_duplicates(),
        forall|x: T| a.contains(x) ==> !b.contains(x),
    ensures
        (a + b).no_duplicates(),
        forall|x: T| #[trigger] (a + b).contains(x) <==> a.contains(x) || b.contains(x),
{
    let c = a + b;
    assert forall|i: int, j: int| 0 <= i < j < c.len() implies c[i] != c[j] by {
        if i < a.len() && j >= a.len() {
            assert(a.contains(c[i]));
            assert(b[j - a.len()] == c[j]);
        }
    }
    assert forall|x: T| #[trigger] c.contains(x) <==> a.contains(x) || b.contains(x) by {
        if c.contains(x) {
            let k = choose|k: int| 0 <= k < c.len() && c[k] == x;
            if k >= a.len() {
                assert(b[k - a.len()] == x);
            }
        }
        if a.contains(x) {
            let k = choose|k: int| 0 <= k < a.len() && a[k] == x;
            assert(c[k] == x);
        }
        if b.contains(x) {
            let k = choose|k: int| 0 <= k < b.len() && b[k] == x;
            assert(c[k + a.len()] == x);
        }
    }
}

impl<F: Float, CF: ClusterFeature<F>, D: CFDistance<F, CF>, A: CFDistance<F, CF>> CFTree<
    F,
    CF,
    D,
    A,
> {
    /// Leaf entries below node `n`, in depth-first order.
    pub(crate) closed spec fn subtree_ids(&self, n: int) -> Seq<usize>
        decreases self.levels@[n], 1nat, 0nat,
    {
        if self.nodes@[n].is_leaf {
            self.nodes@[n].children@
        } else {
            self.ids_upto(n, self.nodes@[n].children@.len())
        }
    }

    /// Leaf entries below the first `k` children of the inner node `n`.
    pub(crate) closed spec fn ids_upto(&self, n: int, k: nat) -> Seq<usize>
        decreases self.levels@[n], 0nat, k,
    {
        if k == 0 {
            Seq::empty()
        } else {
            let c = self.nodes@[n].children@[k - 1];
            let rest = self.ids_upto(n, (k - 1) as nat);
            if self.levels@[c as int] < self.levels@[n] {
                rest + self.subtree_ids(c as int)
            } else {
                rest
            }
        }
    }

    /// All leaf entries, in depth-first order from the root.
    pub closed spec fn tree_order(&self) -> Seq<usize> {
        self.subtree_ids(self.root as int)
    }

    /// The node reached from `m` by `k` steps up.
    pub(crate) closed spec fn up(&self, m: int, k: nat) -> int
        decreases k,
    {
        if k == 0 {
            m
        } else {
            self.up(self.parents@[m] as int, (k - 1) as nat)
        }
    }

    proof fn lemma_up_step(&self, m: int, k: nat)
        ensures
            self.up(m, k + 1) == self.parents@[self.up(m, k)] as int,
        decreases k,
    {
        if k > 0 {
            self.lemma_up_step(self.parents@[m] as int, (k - 1) as nat);
        } else {
            assert(self.up(self.parents@[m] as int, 0) == self.parents@[m] as int);
        }
    }

    proof fn lemma_up_level(&self, m: int, k: nat)
        requires
            self.wf(),
            0 <= m < self.nodes@.len(),
            self.levels@[m] + k <= self.levels@[self.root as int],
        ensures
            0 <= self.up(m, k) < self.nodes@.len(),
            self.levels@[self.up(m, k)] == self.levels@[m] + k,
        decreases k,
    {
        if k > 0 {
            assert(self.node_ok(m, None));
            assert(m != self.root);
            assert(self.linked(m));
            self.lemma_up_level(self.parents@[m] as int, (k - 1) as nat);
        }
    }

    /// The entries below a node are those whose leaf lies below it, each
    /// met once.
    proof fn lemma_subtree(&self, n: int)
        requires
            self.wf(),
            0 <= n < self.nodes@.len(),
        ensures
            self.subtree_ids(n).no_duplicates(),
            forall|e: usize|
                #[trigger] self.subtree_ids(n).contains(e) <==> (e as int) < self.leaf_entries@.len()
                    && self.up(self.owners@[e as int] as int, self.levels@[n]) == n,
        decreases self.levels@[n], 1nat, 0nat,
    {
        self.lemma_lens();
        assert(self.node_ok(n, None));
        let kids = self.nodes@[n].children@;
        if self.nodes@[n].is_leaf {
            assert forall|e: usize|
                #[trigger] self.subtree_ids(n).contains(e) <==> (e as int) < self.leaf_entries@.len()
                    && self.up(self.owners@[e as int] as int, self.levels@[n]) == n by {
                if kids.contains(e) {
                    let k = choose|k: int| 0 <= k < kids.len() && kids[k] == e;
                    assert(self.kid_ok(n, kids[k]));
                }
                if (e as int) < self.leaf_entries@.len() && self.up(
                    self.owners@[e as int] as int,
                    self.levels@[n],
                ) == n {
                    assert(self.entry_ok(e as int));
                }
            }
        } else {
            self.lemma_upto(n, kids.len());
            assert forall|e: usize|
                #[trigger] self.subtree_ids(n).contains(e) <==> (e as int) < self.leaf_entries@.len()
                    && self.up(self.owners@[e as int] as int, self.levels@[n]) == n by {
                if (e as int) < self.leaf_entries@.len() {
                    let o = self.owners@[e as int] as int;
                    let l = (self.levels@[n] - 1) as nat;
                    assert(self.entry_ok(e as int));
                    assert(self.node_ok(o, None));
                    self.lemma_up_level(o, l);
                    self.lemma_up_step(o, l);
                    let c = self.up(o, l);
                    if exists|j: int| 0 <= j < kids.len() && c == kids[j] as int {
                        let j = choose|j: int| 0 <= j < kids.len() && c == kids[j] as int;
                        assert(self.kid_ok(n, kids[j]));
                    }
                    if self.up(o, self.levels@[n]) == n {
                        assert(self.node_ok(c, None));
                        assert(c != self.root);
                        assert(self.linked(c));
                        let j = choose|j: int| 0 <= j < kids.len() && kids[j] == c as usize;
                        assert(c == kids[j] as int);
                    }
                }
            }
        }
    }

    /// The entries below the first `k` children of an inner node are those
    /// whose leaf lies below one of them, each met once.
    proof fn lemma_upto(&self, n: int, k: nat)
        requires
            self.wf(),
            0 <= n < self.nodes@.len(),
            !self.nodes@[n].is_leaf,
            k <= self.nodes@[n].children@.len(),
        ensures
            self.ids_upto(n, k).no_duplicates(),
            forall|e: usize|
                #[trigger] self.ids_upto(n, k).contains(e) <==> (e as int) < self.leaf_entries@.len()
                    && exists|j: int|
                    0 <= j < k && self.up(self.owners@[e as int] as int, (self.levels@[n] - 1) as nat)
                        == self.nodes@[n].children@[j] as int,
        decreases self.levels@[n], 0nat, k,
    {
        self.lemma_lens();
        assert(self.node_ok(n, None));
        let kids = self.nodes@[n].children@;
        let l = (self.levels@[n] - 1) as nat;
        if k == 0 {
            assert(self.ids_upto(n, k) =~= Seq::<usize>::empty());
        } else {
            let c = kids[k - 1];
            assert(self.kid_ok(n, c));
            let rest = self.ids_upto(n, (k - 1) as nat);
            let sub = self.subtree_ids(c as int);
            self.lemma_upto(n, (k - 1) as nat);
            self.lemma_subtree(c as int);
            assert forall|x: usize| rest.contains(x) implies !sub.contains(x) by {
                let o = self.owners@[x as int] as int;
                let j = choose|j: int| 0 <= j < k - 1 && self.up(o, l) == kids[j] as int;
                assert(kids[j] != kids[k - 1]);
            }
            lemma_concat_no_dup(rest, sub);
            assert(self.ids_upto(n, k) == rest + sub);
            assert forall|e: usize|
                #[trigger] self.ids_upto(n, k).contains(e) <==> (e as int) < self.leaf_entries@.len()
                    && exists|j: int|
                    0 <= j < k && self.up(self.owners@[e as int] as int, l) == kids[j] as int by {
                let o = self.owners@[e as int] as int;
                if (e as int) < self.leaf_entries@.len() && exists|j: int|
                    0 <= j < k && self.up(o, l) == kids[j] as int {
                    let j = choose|j: int| 0 <= j < k && self.up(o, l) == kids[j] as int;
                    if j < k - 1 {
                        assert(rest.contains(e));
                    } else {
                        assert(sub.contains(e));
                    }
                }
                if sub.contains(e) {
                    assert(self.up(o, l) == kids[k - 1] as int);
                }
            }
        }
    }

    /// A depth-first walk from the root meets every leaf entry exactly once.
    pub(crate) proof fn lemma_tree_order(&self)
        requires
            self.wf(),
        ensures
            self.tree_order().no_duplicates(),
            forall|e: usize|
                #[trigger] self.tree_order().contains(e) <==> (e as int) < self.leaf_entries@.len(),
            self.tree_order().len() == self.leaf_entries@.len(),
    {
        self.lemma_lens();
        let r = self.root as int;
        self.lemma_subtree(r);
        assert forall|e: usize|
            #[trigger] self.tree_order().contains(e) <==> (e as int) < self.leaf_entries@.len() by {
            if (e as int) < self.leaf_entries@.len() {
                let o = self.owners@[e as int] as int;
                assert(self.entry_ok(e as int));
                assert(self.node_ok(o, None));
                self.lemma_up_level(o, self.levels@[r]);
                let c = self.up(o, self.levels@[r]);
                assert(self.node_ok(c, None));
                if c != r {
                    assert(self.linked(c));
                    assert(self.node_ok(self.parents@[c] as int, None));
                }
            }
        }
        let t = self.tree_order();
        assert forall|i: int| 0 <= i < t.len() implies (t[i] as int) < self.leaf_entries@.len() by {
            assert(t.contains(t[i]));
        }
        lemma_index_count(t, self.leaf_entries@.len());
    }

    /// Appends the leaf entries below `node_id` to `out`, in depth-first
    /// order.
    fn collect_leaf_entry_ids_from_node(&self, node_id: usize, out: &mut Vec<usize>)
        requires
            self.wf(),
            node_id < self.nodes@.len(),
        ensures
            final(out)@ == old(out)@ + self.subtree_ids(node_id as int),
        decreases self.levels@[node_id as int],
    {
        let ghost n = node_id as int;
        let ghost start = out@;
        proof {
            assert(self.node_ok(n, None));
        }
        let node = &self.nodes[node_id];
        let kids = node.children();
        if node.is_leaf() {
            let mut i: usize = 0;
            while i < kids.len()
                invariant
                    kids@ == self.nodes@[n].children@,
                    i <= kids@.len(),
                    out@ == start + kids@.subrange(0, i as int),
                decreases kids@.len() - i,
            {
                out.push(kids[i]);
                proof {
                    assert(kids@.subrange(0, i + 1) =~= kids@.subrange(0, i as int).push(kids@[i as int]));
                }
                i = i + 1;
            }
            proof {
                assert(kids@.subrange(0, kids@.len() as int) =~= kids@);
            }
            return;
        }
        let mut i: usize = 0;
        while i < kids.len()
            invariant
                self.wf(),
                n == node_id as int,
                0 <= n < self.nodes@.len(),
                !self.nodes@[n].is_leaf,
                kids@ == self.nodes@[n].children@,
                i <= kids@.len(),
                out@ == start + self.ids_upto(n, i as nat),
            decreases kids@.len() - i,
        {
            let child_id = kids[i];
            proof {
                assert(self.node_ok(n, None));
                assert(self.kid_ok(n, kids@[i as int]));
            }
            self.collect_leaf_entry_ids_from_node(child_id, out);
            proof {
                assert(self.ids_upto(n, (i + 1) as nat) == self.ids_upto(n, i as nat)
                    + self.subtree_ids(child_id as int));
                assert(start + self.ids_upto(n, (i + 1) as nat) =~= start + self.ids_upto(n, i as nat)
                    + self.subtree_ids(child_id as int));
            }
            i = i + 1;
        }
    }

    /// Indices of the leaf entries in the order a depth-first walk from the
    /// root meets them: a permutation of the storage indices.
    pub fn collect_leaf_entry_ids_in_tree_order(&self) -> (r: Vec<usize>)
        requires
            self.wf(),
        ensures
            r@ == self.tree_order(),
            r@.len() == self.spec_entries().len(),
            r@.no_duplicates(),
            forall|e: usize| #[trigger] r@.contains(e) <==> (e as int) < self.spec_entries().len(),
    {
        let mut ids: Vec<usize> = Vec::with_capacity(self.leaf_entries.len());
        self.collect_leaf_entry_ids_from_node(self.root, &mut ids);
        proof {
            assert(ids@ =~= self.tree_order());
            self.lemma_tree_order();
        }
        ids
    }
}

} // verus!
