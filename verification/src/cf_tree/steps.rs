//! How each step of an insertion carries the pending-state invariant over.

use super::seqs::{lemma_select_contains, lemma_select_len, lemma_select_map, lemma_select_no_dup, lemma_select_sum, lemma_sum_push, lemma_sum_update, select, sum_nat};
use super::{CFNode, CFTree};
use crate::cluster_feature::{ClusterFeature, ClusterSummary};
use crate::distance::CFDistance;
use crate::types::Float;
use vstd::prelude::*;

verus! {

/// Every element of a sequence without duplicates is selected on exactly
/// one side.
pub proof fn lemma_select_sides<T>(s: Seq<T>, mask: Seq<bool>, x: T)
    requires
        mask.len() == s.len(),
        s.no_duplicates(),
    ensures
        s.contains(x) ==> (select(s, mask, true).contains(x) || select(s, mask, false).contains(x)),
        !(select(s, mask, true).contains(x) && select(s, mask, false).contains(x)),
        select(s, mask, true).contains(x) ==> s.contains(x),
        select(s, mask, false).contains(x) ==> s.contains(x),
{
    lemma_select_contains(s, mask, true, x);
    lemma_select_contains(s, mask, false, x);
    if s.contains(x) {
        let k = choose|k: int| 0 <= k < s.len() && s[k] == x;
        if mask[k] {
            assert(exists|k: int| 0 <= k < s.len() && s[k] == x && mask[k] == true);
        } else {
            assert(exists|k: int| 0 <= k < s.len() && s[k] == x && mask[k] == false);
        }
    }
    if select(s, mask, true).contains(x) && select(s, mask, false).contains(x) {
        let k1 = choose|k: int| 0 <= k < s.len() && s[k] == x && mask[k] == true;
        let k2 = choose|k: int| 0 <= k < s.len() && s[k] == x && mask[k] == false;
        assert(k1 != k2);
    }
    if select(s, mask, true).contains(x) {
        let k1 = choose|k: int| 0 <= k < s.len() && s[k] == x && mask[k] == true;
        assert(s[k1] == x);
    }
    if select(s, mask, false).contains(x) {
        let k1 = choose|k: int| 0 <= k < s.len() && s[k] == x && mask[k] == false;
        assert(s[k1] == x);
    }
}

impl<F: Float, CF: ClusterFeature<F>, D: CFDistance<F, CF>, A: CFDistance<F, CF>> CFTree<
    F,
    CF,
    D,
    A,
> {
    /// Two states with the same shape data and node sizes.
    pub(crate) open spec fn same_frame(old: Self, new: Self) -> bool {
        &&& new.root == old.root
        &&& new.dim == old.dim
        &&& new.capacity == old.capacity
        &&& new.levels == old.levels
        &&& new.parents == old.parents
        &&& new.owners == old.owners
        &&& new.leaf_entries == old.leaf_entries
        &&& new.nodes@.len() == old.nodes@.len()
    }

    /// The last node of the pending path receives the pending points.
    pub(crate) proof fn lemma_settle_last(old: Self, new: Self, p: Seq<usize>, delta: nat)
        requires
            old.pending(p, delta, None),
            p.len() > 0,
            Self::same_frame(old, new),
            forall|n: int|
                0 <= n < old.nodes@.len() && n != p.last() ==> new.nodes@[n] == old.nodes@[n],
            new.nodes@[p.last() as int].children == old.nodes@[p.last() as int].children,
            new.nodes@[p.last() as int].is_leaf == old.nodes@[p.last() as int].is_leaf,
            new.nodes@[p.last() as int].cf.inv(),
            new.nodes@[p.last() as int].cf.spec_dim() == old.dim,
            new.nodes@[p.last() as int].cf.spec_size() == old.nodes@[p.last() as int].cf.spec_size()
                + delta,
        ensures
            new.pending(p.drop_last(), delta, None),
    {
        old.lemma_lens();
        old.lemma_chain_no_dup(p);
        let q = p.last() as int;
        let p2 = p.drop_last();
        assert(p[p.len() - 1] < old.nodes@.len());
        assert forall|n: int| 0 <= n < old.nodes@.len() implies new.eff(p2, delta, n) == old.eff(
            p,
            delta,
            n,
        ) by {
            if n == q {
                assert(!p2.contains(q as usize));
                assert(p.contains(q as usize));
            } else {
                if p.contains(n as usize) {
                    let k = choose|k: int| 0 <= k < p.len() && p[k] == n as usize;
                    assert(p2[k] == n as usize);
                }
                if p2.contains(n as usize) {
                    let k = choose|k: int| 0 <= k < p2.len() && p2[k] == n as usize;
                    assert(p[k] == n as usize);
                }
            }
        }
        assert forall|n: int| 0 <= n < old.nodes@.len() implies #[trigger] new.node_ok(n, None) by {
            assert(old.node_ok(n, None));
            let kids = new.nodes@[n].children@;
            assert forall|k: int| 0 <= k < kids.len() implies new.kid_ok(n, #[trigger] kids[k]) by {
                assert(old.kid_ok(n, kids[k]));
            }
            if n != new.root {
                assert(old.linked(n));
            }
        }
        assert forall|e: int| 0 <= e < new.leaf_entries@.len() implies #[trigger] new.entry_ok(e) by {
            assert(old.entry_ok(e));
        }
        assert forall|n: int| 0 <= n < old.nodes@.len() implies #[trigger] new.size_ok(
            p2,
            delta,
            None,
            n,
        ) by {
            assert(old.size_ok(p, delta, None, n));
            assert(old.node_ok(n, None));
            let kids = old.nodes@[n].children@;
            assert forall|k: int| 0 <= k < kids.len() implies new.child_eff(p2, delta, n, kids[k])
                == old.child_eff(p, delta, n, kids[k]) by {
                assert(old.kid_ok(n, kids[k]));
            }
            assert(new.child_effs(p2, delta, n) =~= old.child_effs(p, delta, n));
        }
        assert(new.entry_sizes() =~= old.entry_sizes());
        assert(new.chain(p2));
    }

    /// The pending orphan is listed as a child of the last node of the path.
    pub(crate) proof fn lemma_attach_orphan(old: Self, new: Self, p: Seq<usize>, delta: nat, o: usize)
        requires
            old.pending(p, delta, Some(o)),
            p.len() > 0,
            Self::same_frame(old, new),
            forall|n: int|
                0 <= n < old.nodes@.len() && n != p.last() ==> new.nodes@[n] == old.nodes@[n],
            new.nodes@[p.last() as int].cf == old.nodes@[p.last() as int].cf,
            new.nodes@[p.last() as int].is_leaf == old.nodes@[p.last() as int].is_leaf,
            new.nodes@[p.last() as int].children@ == old.nodes@[p.last() as int].children@.push(o),
            old.nodes@[p.last() as int].children@.len() < old.capacity,
        ensures
            new.pending(p, delta, None),
    {
        old.lemma_lens();
        old.lemma_orphan_not_on_path(p, delta, o);
        let q = p.last() as int;
        assert(p[p.len() - 1] < old.nodes@.len());
        assert(old.node_ok(q, Some(o)));
        assert(old.node_ok(o as int, Some(o)));
        assert forall|n: int| 0 <= n < old.nodes@.len() implies #[trigger] new.node_ok(n, None) by {
            assert(old.node_ok(n, Some(o)));
            let kids = new.nodes@[n].children@;
            assert forall|k: int| 0 <= k < kids.len() implies new.kid_ok(n, #[trigger] kids[k]) by {
                if n == q && k == kids.len() - 1 {
                } else {
                    assert(old.kid_ok(n, kids[k]));
                }
            }
            if n == q {
                let ok = old.nodes@[q].children@;
                assert forall|i: int, j: int| 0 <= i < j < kids.len() implies kids[i] != kids[j] by {
                    if j == kids.len() - 1 {
                        assert(ok.contains(ok[i]));
                    }
                }
            }
            if n != new.root {
                if n == o as int {
                    assert(new.nodes@[q].children@[new.nodes@[q].children@.len() - 1] == o);
                } else {
                    assert(old.linked(n));
                    let m = old.parents@[n] as int;
                    if m == q {
                        let ok = old.nodes@[q].children@;
                        let i = choose|i: int| 0 <= i < ok.len() && ok[i] == n as usize;
                        assert(new.nodes@[q].children@[i] == n as usize);
                    }
                }
            }
        }
        assert forall|e: int| 0 <= e < new.leaf_entries@.len() implies #[trigger] new.entry_ok(e) by {
            assert(old.entry_ok(e));
            let m = old.owners@[e] as int;
            if m == q {
                assert(old.node_ok(m, Some(o)));
            }
        }
        assert forall|n: int| 0 <= n < old.nodes@.len() implies #[trigger] new.size_ok(
            p,
            delta,
            None,
            n,
        ) by {
            assert(old.size_ok(p, delta, Some(o), n));
            assert(old.node_ok(n, Some(o)));
            if n == q {
                assert(new.child_effs(p, delta, n) =~= old.child_effs(p, delta, n).push(
                    old.eff(p, delta, o as int),
                ));
                lemma_sum_push(old.child_effs(p, delta, n), old.eff(p, delta, o as int));
            } else {
                assert(new.child_effs(p, delta, n) =~= old.child_effs(p, delta, n));
            }
        }
        assert(new.entry_sizes() =~= old.entry_sizes());
    }

    /// Nodes of the remaining path receive the pending points one by one.
    pub(crate) proof fn lemma_update_step(old: Self, new: Self, p: Seq<usize>, i: int, delta: nat)
        requires
            old.shape_ok(None),
            old.sizes_ok(p.subrange(i, p.len() as int), delta, None),
            p.no_duplicates(),
            0 <= i < p.len(),
            p[i] < old.nodes@.len(),
            Self::same_frame(old, new),
            forall|n: int| 0 <= n < old.nodes@.len() && n != p[i] ==> new.nodes@[n] == old.nodes@[n],
            new.nodes@[p[i] as int].children == old.nodes@[p[i] as int].children,
            new.nodes@[p[i] as int].is_leaf == old.nodes@[p[i] as int].is_leaf,
            new.nodes@[p[i] as int].cf.inv(),
            new.nodes@[p[i] as int].cf.spec_dim() == old.dim,
            new.nodes@[p[i] as int].cf.spec_size() == old.nodes@[p[i] as int].cf.spec_size() + delta,
        ensures
            new.shape_ok(None),
            new.sizes_ok(p.subrange(i + 1, p.len() as int), delta, None),
    {
        old.lemma_lens();
        let s1 = p.subrange(i, p.len() as int);
        let s2 = p.subrange(i + 1, p.len() as int);
        let q = p[i] as int;
        assert forall|n: int| 0 <= n < old.nodes@.len() implies new.eff(s2, delta, n) == old.eff(
            s1,
            delta,
            n,
        ) by {
            if n == q {
                assert(s1[0] == q as usize);
                if s2.contains(q as usize) {
                    let k = choose|k: int| 0 <= k < s2.len() && s2[k] == q as usize;
                    assert(p[i + 1 + k] == p[i]);
                }
            } else {
                if s1.contains(n as usize) {
                    let k = choose|k: int| 0 <= k < s1.len() && s1[k] == n as usize;
                    assert(k != 0);
                    assert(s2[k - 1] == n as usize);
                }
                if s2.contains(n as usize) {
                    let k = choose|k: int| 0 <= k < s2.len() && s2[k] == n as usize;
                    assert(s1[k + 1] == n as usize);
                }
            }
        }
        assert forall|n: int| 0 <= n < old.nodes@.len() implies #[trigger] new.node_ok(n, None) by {
            assert(old.node_ok(n, None));
            let kids = new.nodes@[n].children@;
            assert forall|k: int| 0 <= k < kids.len() implies new.kid_ok(n, #[trigger] kids[k]) by {
                assert(old.kid_ok(n, kids[k]));
            }
            if n != new.root {
                assert(old.linked(n));
            }
        }
        assert forall|e: int| 0 <= e < new.leaf_entries@.len() implies #[trigger] new.entry_ok(e) by {
            assert(old.entry_ok(e));
        }
        assert forall|n: int| 0 <= n < old.nodes@.len() implies #[trigger] new.size_ok(
            s2,
            delta,
            None,
            n,
        ) by {
            assert(old.size_ok(s1, delta, None, n));
            assert(old.node_ok(n, None));
            let kids = old.nodes@[n].children@;
            assert forall|k: int| 0 <= k < kids.len() implies new.child_eff(s2, delta, n, kids[k])
                == old.child_eff(s1, delta, n, kids[k]) by {
                assert(old.kid_ok(n, kids[k]));
            }
            assert(new.child_effs(s2, delta, n) =~= old.child_effs(s1, delta, n));
        }
        assert(new.entry_sizes() =~= old.entry_sizes());
    }

    /// With nothing left pending, the pending amount no longer matters.
    pub(crate) proof fn lemma_nothing_pending(&self, delta: nat, other: nat)
        requires
            self.pending(Seq::empty(), delta, None),
        ensures
            self.pending(Seq::empty(), other, None),
    {
        assert forall|n: int| 0 <= n < self.nodes@.len() implies #[trigger] self.size_ok(
            Seq::empty(),
            other,
            None,
            n,
        ) by {
            assert(self.size_ok(Seq::empty(), delta, None, n));
            assert(self.child_effs(Seq::empty(), other, n) =~= self.child_effs(Seq::empty(), delta, n));
        }
    }

    /// The children of the last node of the path, with the orphan split off
    /// below it, hold no more points than the whole tree.
    pub(crate) proof fn lemma_full_node_sizes(&self, p: Seq<usize>, delta: nat, o: usize)
        requires
            self.pending(p, delta, Some(o)),
            p.len() > 0,
        ensures
            !self.nodes@[p.last() as int].is_leaf,
            sum_nat(self.item_sizes(false, self.nodes@[p.last() as int].children@.push(o)))
                <= self.total_size(),
            forall|k: int|
                0 <= k < self.nodes@[p.last() as int].children@.len() + 1 ==> {
                    let c = #[trigger] self.nodes@[p.last() as int].children@.push(o)[k];
                    &&& c < self.nodes@.len()
                    &&& self.nodes@[c as int].cf.inv()
                    &&& self.nodes@[c as int].cf.spec_dim() == self.dim
                },
    {
        self.lemma_lens();
        self.lemma_chain_no_dup(p);
        let q = p.last() as int;
        assert(p[p.len() - 1] < self.nodes@.len());
        assert(self.node_ok(q, Some(o)));
        assert(self.node_ok(o as int, Some(o)));
        assert(!self.nodes@[q].is_leaf);
        let kids = self.nodes@[q].children@;
        let childs = kids.push(o);
        assert forall|k: int| 0 <= k < kids.len() implies self.child_eff(p, delta, q, kids[k])
            == self.nodes@[kids[k] as int].cf.spec_size() by {
            assert(kids.contains(kids[k]));
            self.lemma_kid_on_path(Some(o), p, q, kids[k]);
            if p.contains(kids[k]) {
                let j = choose|j: int| #![trigger p[j]] 0 <= j < p.len() - 1 && p[j] == q && p[j + 1] == kids[k];
                assert(p[j] == p[p.len() - 1]);
            }
        }
        assert(self.item_sizes(false, childs) =~= self.child_effs(p, delta, q).push(
            self.nodes@[o as int].cf.spec_size(),
        ));
        lemma_sum_push(self.child_effs(p, delta, q), self.nodes@[o as int].cf.spec_size());
        assert(self.size_ok(p, delta, Some(o), q));
        self.lemma_eff_le_total(p, delta, Some(o), q);
        assert forall|k: int| 0 <= k < kids.len() + 1 implies {
            let c = #[trigger] childs[k];
            &&& c < self.nodes@.len()
            &&& self.nodes@[c as int].cf.inv()
            &&& self.nodes@[c as int].cf.spec_dim() == self.dim
        } by {
            if k < kids.len() {
                assert(self.kid_ok(q, kids[k]));
                assert(self.node_ok(kids[k] as int, Some(o)));
            }
        }
    }

    /// A new root above the old root and the orphan split off it.
    pub(crate) proof fn lemma_new_root(old: Self, new: Self, delta: nat, o: usize)
        requires
            old.pending(Seq::empty(), delta, Some(o)),
            new.dim == old.dim,
            new.capacity == old.capacity,
            new.owners == old.owners,
            new.leaf_entries == old.leaf_entries,
            new.nodes@.len() == old.nodes@.len() + 1,
            forall|n: int| 0 <= n < old.nodes@.len() ==> new.nodes@[n] == old.nodes@[n],
            new.root == old.nodes@.len(),
            new.nodes@[new.root as int].children@ == seq![old.root, o],
            !new.nodes@[new.root as int].is_leaf,
            new.nodes@[new.root as int].cf.inv(),
            new.nodes@[new.root as int].cf.spec_dim() == old.dim,
            new.nodes@[new.root as int].cf.spec_size() == old.nodes@[old.root as int].cf.spec_size()
                + old.nodes@[o as int].cf.spec_size(),
            new.levels@ == old.levels@.push(old.levels@[old.root as int] + 1),
            new.parents@ == old.parents@.update(old.root as int, new.root as nat).update(
                o as int,
                new.root as nat,
            ).push(0),
        ensures
            new.pending(Seq::empty(), 0, None),
    {
        old.lemma_lens();
        let r = new.root as int;
        let r0 = old.root as int;
        let N = old.nodes@.len();
        assert(old.node_ok(r0, Some(o)));
        assert(old.node_ok(o as int, Some(o)));
        // Neither the old root nor the orphan is anyone's child.
        assert forall|n: int, k: int|
            0 <= n < N && 0 <= k < old.nodes@[n].children@.len() && !old.nodes@[n].is_leaf implies
            old.nodes@[n].children@[k] != r0 as usize && old.nodes@[n].children@[k] != o by {
            assert(old.node_ok(n, Some(o)));
            assert(old.kid_ok(n, old.nodes@[n].children@[k]));
        }
        assert forall|n: int| 0 <= n < new.nodes@.len() implies #[trigger] new.node_ok(n, None) by {
            if n == r {
                let kids = new.nodes@[r].children@;
                assert forall|k: int| 0 <= k < kids.len() implies new.kid_ok(n, #[trigger] kids[k]) by {
                }
            } else {
                assert(old.node_ok(n, Some(o)));
                let kids = new.nodes@[n].children@;
                assert forall|k: int| 0 <= k < kids.len() implies new.kid_ok(n, #[trigger] kids[k]) by {
                    assert(old.kid_ok(n, kids[k]));
                }
                if n == r0 || n == o as int {
                    assert(new.nodes@[r].children@[0] == r0 as usize);
                    assert(new.nodes@[r].children@[1] == o);
                } else {
                    assert(old.linked(n));
                }
            }
        }
        assert forall|e: int| 0 <= e < new.leaf_entries@.len() implies #[trigger] new.entry_ok(e) by {
            assert(old.entry_ok(e));
        }
        assert forall|n: int| 0 <= n < new.nodes@.len() implies #[trigger] new.size_ok(
            Seq::empty(),
            0,
            None,
            n,
        ) by {
            if n == r {
                assert(new.child_effs(Seq::empty(), 0, n) =~= seq![
                    old.nodes@[r0].cf.spec_size(),
                    old.nodes@[o as int].cf.spec_size(),
                ]);
                let a = old.nodes@[r0].cf.spec_size();
                let b = old.nodes@[o as int].cf.spec_size();
                assert(seq![a, b].drop_last() =~= seq![a]);
                assert(seq![a].drop_last() =~= Seq::<nat>::empty());
                assert(sum_nat(Seq::<nat>::empty()) == 0);
                assert(sum_nat(seq![a]) == a);
                assert(sum_nat(seq![a, b]) == a + b);
            } else {
                assert(old.size_ok(Seq::empty(), delta, Some(o), n));
                assert(old.node_ok(n, Some(o)));
                let kids = old.nodes@[n].children@;
                assert forall|k: int| 0 <= k < kids.len() implies new.child_eff(Seq::empty(), 0, n, kids[k])
                    == old.child_eff(Seq::empty(), delta, n, kids[k]) by {
                    assert(old.kid_ok(n, kids[k]));
                }
                assert(new.child_effs(Seq::empty(), 0, n) =~= old.child_effs(Seq::empty(), delta, n));
            }
        }
        assert(new.entry_sizes() =~= old.entry_sizes());
    }

    /// A full leaf at the end of the path, with a new entry appended, is
    /// split in two: the first half stays in place, the second becomes the
    /// orphan.
    pub(crate) proof fn lemma_leaf_split(
        old: Self,
        new: Self,
        path: Seq<usize>,
        delta: nat,
        mask: Seq<bool>,
    )
        requires
            old.wf(),
            old.chain(path),
            path.len() == old.levels@[old.root as int] + 1,
            old.nodes@[path.last() as int].is_leaf,
            old.nodes@[path.last() as int].children@.len() > 0,
            new.root == old.root,
            new.dim == old.dim,
            new.capacity == old.capacity,
            mask.contains(true),
            mask.contains(false),
            new.leaf_entries@.len() == old.leaf_entries@.len() + 1,
            forall|e: int| 0 <= e < old.leaf_entries@.len() ==> new.leaf_entries@[e] == old.leaf_entries@[e],
            new.leaf_entries@[old.leaf_entries@.len() as int].inv(),
            new.leaf_entries@[old.leaf_entries@.len() as int].spec_dim() == old.dim,
            new.leaf_entries@[old.leaf_entries@.len() as int].spec_size() == delta,
            mask.len() == old.nodes@[path.last() as int].children@.len() + 1,
            new.nodes@.len() == old.nodes@.len() + 1,
            forall|n: int|
                0 <= n < old.nodes@.len() && n != path.last() ==> new.nodes@[n] == old.nodes@[n],
            ({
                let leaf = path.last() as int;
                let o = old.nodes@.len() as int;
                let childs = old.nodes@[leaf].children@.push(old.leaf_entries@.len() as usize);
                let sizes = childs.map_values(|id: usize| new.leaf_entries@[id as int].spec_size());
                &&& new.nodes@[leaf].children@ == select(childs, mask, true)
                &&& new.nodes@[o].children@ == select(childs, mask, false)
                &&& new.nodes@[leaf].is_leaf
                &&& new.nodes@[o].is_leaf
                &&& new.nodes@[leaf].cf.inv()
                &&& new.nodes@[o].cf.inv()
                &&& new.nodes@[leaf].cf.spec_dim() == old.dim
                &&& new.nodes@[o].cf.spec_dim() == old.dim
                &&& new.nodes@[leaf].cf.spec_size() == sum_nat(select(sizes, mask, true))
                &&& new.nodes@[o].cf.spec_size() == sum_nat(select(sizes, mask, false))
                &&& new.owners@.len() == old.owners@.len() + 1
                &&& forall|x: int|
                    0 <= x <= old.leaf_entries@.len() ==> #[trigger] new.owners@[x] == if select(
                        childs,
                        mask,
                        false,
                    ).contains(x as usize) {
                        o as nat
                    } else if childs.contains(x as usize) {
                        leaf as nat
                    } else {
                        old.owners@[x]
                    }
            }),
            new.levels@ == old.levels@.push(0),
            new.parents@ == old.parents@.push(
                if path.len() > 1 {
                    path[path.len() - 2] as nat
                } else {
                    0
                },
            ),
        ensures
            new.pending(path.drop_last(), delta, Some(old.nodes@.len() as usize)),
            new.total_size() == old.total_size() + delta,
    {
        old.lemma_lens();
        new.lemma_lens();
        old.lemma_chain_no_dup(path);
        let leaf = path.last() as int;
        let o = old.nodes@.len() as int;
        let ou = o as usize;
        let N = old.nodes@.len();
        let E0 = old.leaf_entries@.len();
        let p2 = path.drop_last();
        let ok = old.nodes@[leaf].children@;
        let childs = ok.push(E0 as usize);
        let f = |id: usize| new.leaf_entries@[id as int].spec_size();
        let sizes = childs.map_values(f);
        let k1 = select(childs, mask, true);
        let k2 = select(childs, mask, false);
        assert(path[path.len() - 1] < N);
        assert(old.node_ok(leaf, None));
        assert(old.size_ok(Seq::empty(), 0, None, leaf));
        // The children of the old leaf, and the new entry, are distinct.
        assert forall|k: int| 0 <= k < ok.len() implies (ok[k] as int) < E0 && old.owners@[ok[k] as int]
            == leaf by {
            assert(old.kid_ok(leaf, ok[k]));
        }
        assert(childs.no_duplicates()) by {
            assert forall|i: int, j: int| 0 <= i < j < childs.len() implies childs[i] != childs[j] by {
                if j == childs.len() - 1 {
                    assert((ok[i] as int) < E0);
                }
            }
        }
        lemma_select_no_dup(childs, mask, true);
        lemma_select_no_dup(childs, mask, false);
        assert forall|x: usize| #[trigger] childs.contains(x) implies (k1.contains(x) || k2.contains(x))
            && !(k1.contains(x) && k2.contains(x)) by {
            lemma_select_sides(childs, mask, x);
        }
        assert forall|x: usize| k1.contains(x) || k2.contains(x) implies #[trigger] childs.contains(x) by {
            lemma_select_sides(childs, mask, x);
        }
        // Sizes of the old leaf's children.
        assert(sizes =~= old.child_effs(Seq::empty(), 0, leaf).push(delta)) by {
            assert forall|k: int| 0 <= k < ok.len() implies sizes[k] == old.child_effs(Seq::empty(), 0, leaf)[k] by {
                assert((ok[k] as int) < E0);
            }
        }
        lemma_sum_push(old.child_effs(Seq::empty(), 0, leaf), delta);
        lemma_select_sum(sizes, mask);
        lemma_select_map(childs, mask, true, f);
        lemma_select_map(childs, mask, false, f);
        // Both halves are smaller than what was split.
        lemma_select_len(childs, mask);
        let w1 = choose|w: int| 0 <= w < mask.len() && mask[w] == true;
        let w2 = choose|w: int| 0 <= w < mask.len() && mask[w] == false;
        lemma_select_contains(childs, mask, true, childs[w1]);
        lemma_select_contains(childs, mask, false, childs[w2]);
        assert(k1.len() > 0 && k2.len() > 0) by {
            assert(k1.contains(childs[w1]));
            assert(k2.contains(childs[w2]));
        }
        // Shape.
        assert forall|n: int| 0 <= n < new.nodes@.len() implies #[trigger] new.node_ok(n, Some(ou)) by {
            let kids = new.nodes@[n].children@;
            if n == leaf || n == o {
                assert forall|k: int| 0 <= k < kids.len() implies new.kid_ok(n, #[trigger] kids[k]) by {
                    assert(kids.contains(kids[k]));
                    assert(childs.contains(kids[k]));
                    let x = kids[k] as int;
                    assert(new.owners@[x] == new.owners@[x]);
                }
                if n == leaf && n != new.root {
                    assert(old.linked(n));
                    let m = old.parents@[n] as int;
                    assert(old.node_ok(m, None));
                    assert(m != leaf);
                }
            } else {
                assert(old.node_ok(n, None));
                assert forall|k: int| 0 <= k < kids.len() implies new.kid_ok(n, #[trigger] kids[k]) by {
                    assert(old.kid_ok(n, kids[k]));
                    if old.nodes@[n].is_leaf {
                        let x = kids[k];
                        if childs.contains(x) {
                            if x == E0 as usize {
                            } else {
                                let i = choose|i: int| 0 <= i < childs.len() && childs[i] == x;
                                assert(old.kid_ok(leaf, ok[i]));
                            }
                        }
                    }
                }
                if n != new.root {
                    assert(old.linked(n));
                    let m = old.parents@[n] as int;
                    if m == leaf {
                        assert(old.node_ok(m, None));
                    }
                }
            }
        }
        assert forall|e: int| 0 <= e < new.leaf_entries@.len() implies #[trigger] new.entry_ok(e) by {
            let x = e as usize;
            if e < E0 {
                assert(old.entry_ok(e));
            }
            if k2.contains(x) {
            } else if childs.contains(x) {
                assert(k1.contains(x));
            } else {
                assert(e != E0) by {
                    assert(childs[childs.len() - 1] == E0 as usize);
                }
                let m = old.owners@[e] as int;
                if m == leaf {
                    let i = choose|i: int| 0 <= i < ok.len() && ok[i] == x;
                    assert(childs[i] == x);
                }
            }
        }
        assert(new.shape_ok(Some(ou)));
        // Orphan and path.
        if path.len() > 1 {
            let q = path[path.len() - 2];
            assert(p2.last() == q);
            assert(q < N);
            assert(old.node_ok(q as int, None));
            assert(!new.nodes@[q as int].children@.contains(ou)) by {
                if new.nodes@[q as int].children@.contains(ou) {
                    let i = choose|i: int| 0 <= i < new.nodes@[q as int].children@.len() && new.nodes@[q as int].children@[i] == ou;
                    assert(old.kid_ok(q as int, old.nodes@[q as int].children@[i]));
                }
            }
            assert(old.levels@[q as int] + (path.len() - 2) == old.levels@[old.root as int]);
        }
        assert(new.orphan_ok(p2, Some(ou)));
        assert(new.chain(p2)) by {
            assert forall|k: int| 0 <= k < p2.len() implies (#[trigger] p2[k]) != leaf as usize by {
                assert(path[k] < N);
            }
        }
        // Sizes.
        assert(new.entry_sizes() =~= old.entry_sizes().push(delta));
        lemma_sum_push(old.entry_sizes(), delta);
        assert forall|n: int| 0 <= n < new.nodes@.len() implies #[trigger] new.size_ok(
            p2,
            delta,
            Some(ou),
            n,
        ) by {
            if n == leaf || n == o {
                assert(!p2.contains(n as usize)) by {
                    if p2.contains(n as usize) {
                        let k = choose|k: int| 0 <= k < p2.len() && p2[k] == n as usize;
                        assert(path[k] < N);
                    }
                }
                if n == leaf {
                    assert(new.child_effs(p2, delta, n) =~= k1.map_values(f));
                } else {
                    assert(new.child_effs(p2, delta, n) =~= k2.map_values(f));
                }
                if p2.len() > 0 {
                    assert(p2.last() != n as usize);
                }
            } else {
                assert(old.node_ok(n, None));
                assert(old.size_ok(Seq::empty(), 0, None, n));
                if old.nodes@[n].is_leaf {
                    let kids = old.nodes@[n].children@;
                    assert forall|k: int| 0 <= k < kids.len() implies new.child_eff(p2, delta, n, kids[k])
                        == old.child_eff(Seq::empty(), 0, n, kids[k]) by {
                        assert(old.kid_ok(n, kids[k]));
                    }
                    assert(new.child_effs(p2, delta, n) =~= old.child_effs(Seq::empty(), 0, n));
                    if p2.contains(n as usize) {
                        let k = choose|k: int| 0 <= k < p2.len() && p2[k] == n as usize;
                        assert(path[k] < N);
                        assert(old.levels@[path[k] as int] + k == old.levels@[old.root as int]);
                    }
                } else {
                    new.lemma_path_effs(Some(ou), p2, delta, n);
                    let kids = old.nodes@[n].children@;
                    let is_parent = kids.contains(leaf as usize);
                    if is_parent {
                        let j = choose|j: int| 0 <= j < kids.len() && kids[j] == leaf as usize;
                        assert(old.kid_ok(n, kids[j]));
                        assert(leaf != old.root);
                        assert(path.len() > 1);
                        assert(old.parents@[path[path.len() - 2 + 1] as int] == path[path.len() - 2]);
                        assert(n == p2.last());
                        assert forall|k: int| 0 <= k < kids.len() && k != j implies new.child_eff(
                            Seq::empty(),
                            0,
                            n,
                            kids[k],
                        ) == old.child_eff(Seq::empty(), 0, n, kids[k]) by {
                            assert(old.kid_ok(n, kids[k]));
                        }
                        assert(new.child_effs(Seq::empty(), 0, n) =~= old.child_effs(Seq::empty(), 0, n).update(
                            j,
                            new.nodes@[leaf].cf.spec_size(),
                        ));
                        lemma_sum_update(
                            old.child_effs(Seq::empty(), 0, n),
                            j,
                            new.nodes@[leaf].cf.spec_size(),
                        );
                        assert(p2.contains(n as usize));
                    } else {
                        assert forall|k: int| 0 <= k < kids.len() implies new.child_eff(
                            Seq::empty(),
                            0,
                            n,
                            kids[k],
                        ) == old.child_eff(Seq::empty(), 0, n, kids[k]) by {
                            assert(old.kid_ok(n, kids[k]));
                        }
                        assert(new.child_effs(Seq::empty(), 0, n) =~= old.child_effs(Seq::empty(), 0, n));
                        if p2.len() > 0 && n == p2.last() {
                            assert(old.nodes@[path[path.len() - 2] as int].children@.contains(path[path.len() - 2 + 1]));
                        }
                    }
                }
            }
        }
        if path.len() > 1 {
            assert(p2[0] == new.root);
            assert(p2.contains(new.root));
        }
    }

    /// A full inner node at the end of the path, with the orphan appended to
    /// its children, is split in two: the first half stays in place, the
    /// second becomes the new orphan.
    pub(crate) proof fn lemma_node_split(
        old: Self,
        new: Self,
        path: Seq<usize>,
        delta: nat,
        o: usize,
        mask: Seq<bool>,
    )
        requires
            old.pending(path, delta, Some(o)),
            path.len() > 0,
            new.root == old.root,
            new.dim == old.dim,
            new.capacity == old.capacity,
            new.leaf_entries == old.leaf_entries,
            new.owners == old.owners,
            mask.len() == old.nodes@[path.last() as int].children@.len() + 1,
            new.nodes@.len() == old.nodes@.len() + 1,
            forall|n: int|
                0 <= n < old.nodes@.len() && n != path.last() ==> new.nodes@[n] == old.nodes@[n],
            ({
                let q = path.last() as int;
                let o2 = old.nodes@.len() as int;
                let childs = old.nodes@[q].children@.push(o);
                let sizes = childs.map_values(|id: usize| old.nodes@[id as int].cf.spec_size());
                &&& new.nodes@[q].children@ == select(childs, mask, true)
                &&& new.nodes@[o2].children@ == select(childs, mask, false)
                &&& mask.contains(true)
                &&& mask.contains(false)
                &&& !new.nodes@[q].is_leaf
                &&& !new.nodes@[o2].is_leaf
                &&& new.nodes@[q].cf.inv()
                &&& new.nodes@[o2].cf.inv()
                &&& new.nodes@[q].cf.spec_dim() == old.dim
                &&& new.nodes@[o2].cf.spec_dim() == old.dim
                &&& new.nodes@[q].cf.spec_size() == sum_nat(select(sizes, mask, true))
                &&& new.nodes@[o2].cf.spec_size() == sum_nat(select(sizes, mask, false))
                &&& new.parents@.len() == old.parents@.len() + 1
                &&& forall|x: int|
                    0 <= x < old.nodes@.len() ==> #[trigger] new.parents@[x] == if select(
                        childs,
                        mask,
                        false,
                    ).contains(x as usize) {
                        o2 as nat
                    } else {
                        old.parents@[x]
                    }
                &&& new.parents@[o2] == if path.len() > 1 {
                    path[path.len() - 2] as nat
                } else {
                    0
                }
            }),
            new.levels@ == old.levels@.push(old.levels@[path.last() as int]),
        ensures
            new.pending(path.drop_last(), delta, Some(old.nodes@.len() as usize)),
            new.total_size() == old.total_size(),
    {
        old.lemma_lens();
        new.lemma_lens();
        old.lemma_chain_no_dup(path);
        old.lemma_orphan_not_on_path(path, delta, o);
        let q = path.last() as int;
        let o2 = old.nodes@.len() as int;
        let o2u = o2 as usize;
        let N = old.nodes@.len();
        let p2 = path.drop_last();
        let ok = old.nodes@[q].children@;
        let childs = ok.push(o);
        let f = |id: usize| old.nodes@[id as int].cf.spec_size();
        let sizes = childs.map_values(f);
        let k1 = select(childs, mask, true);
        let k2 = select(childs, mask, false);
        assert(path[path.len() - 1] < N);
        assert(old.node_ok(q, Some(o)));
        assert(old.node_ok(o as int, Some(o)));
        assert(old.size_ok(path, delta, Some(o), q));
        assert(old.levels@[q] >= 1);
        assert(!old.nodes@[q].is_leaf);
        assert forall|k: int| 0 <= k < ok.len() implies (ok[k] as int) < N && old.parents@[ok[k] as int]
            == q && old.levels@[ok[k] as int] + 1 == old.levels@[q] by {
            assert(old.kid_ok(q, ok[k]));
        }
        assert(childs.no_duplicates()) by {
            assert forall|i: int, j: int| 0 <= i < j < childs.len() implies childs[i] != childs[j] by {
                if j == childs.len() - 1 {
                    assert(ok.contains(ok[i]));
                }
            }
        }
        lemma_select_no_dup(childs, mask, true);
        lemma_select_no_dup(childs, mask, false);
        assert forall|x: usize| #[trigger] childs.contains(x) implies (k1.contains(x) || k2.contains(x))
            && !(k1.contains(x) && k2.contains(x)) by {
            lemma_select_sides(childs, mask, x);
        }
        assert forall|x: usize| k1.contains(x) || k2.contains(x) implies #[trigger] childs.contains(x) by {
            lemma_select_sides(childs, mask, x);
        }
        // No child of the split node, and not the orphan, is on the path.
        assert forall|x: usize| #[trigger] childs.contains(x) implies !path.contains(x) && (x as int) < N
            && old.levels@[x as int] + 1 == old.levels@[q] by {
            if x != o {
                let i = choose|i: int| 0 <= i < childs.len() && childs[i] == x;
                assert(ok[i] == x);
            }
            if path.contains(x) {
                let k = choose|k: int| 0 <= k < path.len() && path[k] == x;
                assert(path[k] < N);
            }
        }
        // Sizes of the split children.
        assert(sizes =~= old.child_effs(path, delta, q).push(old.nodes@[o as int].cf.spec_size())) by {
            assert forall|k: int| 0 <= k < ok.len() implies sizes[k] == old.child_effs(path, delta, q)[k] by {
                assert(childs[k] == ok[k]);
                assert(childs.contains(ok[k]));
            }
        }
        lemma_sum_push(old.child_effs(path, delta, q), old.nodes@[o as int].cf.spec_size());
        lemma_select_sum(sizes, mask);
        lemma_select_map(childs, mask, true, f);
        lemma_select_map(childs, mask, false, f);
        // Both halves are smaller than what was split.
        lemma_select_len(childs, mask);
        let w1 = choose|w: int| 0 <= w < mask.len() && mask[w] == true;
        let w2 = choose|w: int| 0 <= w < mask.len() && mask[w] == false;
        lemma_select_contains(childs, mask, true, childs[w1]);
        lemma_select_contains(childs, mask, false, childs[w2]);
        assert(k1.len() > 0 && k2.len() > 0) by {
            assert(k1.contains(childs[w1]));
            assert(k2.contains(childs[w2]));
        }
        // Shape.
        assert forall|n: int| 0 <= n < new.nodes@.len() implies #[trigger] new.node_ok(n, Some(o2u)) by {
            let kids = new.nodes@[n].children@;
            if n == q || n == o2 {
                if n == q {
                    let w = choose|w: int| 0 <= w < mask.len() && mask[w] == true;
                    lemma_select_contains(childs, mask, true, childs[w]);
                    assert(k1.contains(childs[w]));
                    assert(kids.len() > 0);
                } else {
                    let w = choose|w: int| 0 <= w < mask.len() && mask[w] == false;
                    lemma_select_contains(childs, mask, false, childs[w]);
                    assert(k2.contains(childs[w]));
                    assert(kids.len() > 0);
                }
                assert forall|k: int| 0 <= k < kids.len() implies new.kid_ok(n, #[trigger] kids[k]) by {
                    assert(kids.contains(kids[k]));
                    assert(childs.contains(kids[k]));
                    let x = kids[k] as int;
                    assert(new.parents@[x] == new.parents@[x]);
                    if kids[k] == o {
                    } else {
                        let i = choose|i: int| 0 <= i < childs.len() && childs[i] == kids[k];
                        assert(ok[i] == kids[k]);
                    }
                }
                if n == q && n != new.root {
                    assert(old.linked(n));
                    let m = old.parents@[n] as int;
                    assert(old.node_ok(m, Some(o)));
                    assert(m != q);
                    assert(!k2.contains(q as usize)) by {
                        if k2.contains(q as usize) {
                            assert(childs.contains(q as usize));
                        }
                    }
                }
            } else {
                assert(old.node_ok(n, Some(o)));
                assert forall|k: int| 0 <= k < kids.len() implies new.kid_ok(n, #[trigger] kids[k]) by {
                    assert(old.kid_ok(n, kids[k]));
                    if !old.nodes@[n].is_leaf {
                        let x = kids[k];
                        if childs.contains(x) {
                            if x == o {
                                assert(old.nodes@[n].children@.contains(o));
                                assert(old.nodes@[q].children@.contains(o) || n != q);
                            } else {
                                let i = choose|i: int| 0 <= i < childs.len() && childs[i] == x;
                                assert(ok[i] == x);
                            }
                        }
                    }
                }
                if n != new.root {
                    if n == o as int {
                        assert(childs.contains(o)) by {
                            assert(childs[childs.len() - 1] == o);
                        }
                        if k2.contains(o) {
                            assert(new.nodes@[o2].children@.contains(o));
                        } else {
                            assert(k1.contains(o));
                        }
                    } else {
                        assert(old.linked(n));
                        let m = old.parents@[n] as int;
                        if k2.contains(n as usize) {
                            assert(childs.contains(n as usize));
                            assert(new.nodes@[o2].children@.contains(n as usize));
                        } else if m == q {
                            let i = choose|i: int| 0 <= i < ok.len() && ok[i] == n as usize;
                            assert(childs[i] == n as usize);
                            assert(childs.contains(n as usize));
                            assert(k1.contains(n as usize));
                        }
                    }
                }
            }
        }
        assert forall|e: int| 0 <= e < new.leaf_entries@.len() implies #[trigger] new.entry_ok(e) by {
            assert(old.entry_ok(e));
            let m = old.owners@[e] as int;
            assert(old.node_ok(m, Some(o)));
            assert(m != q);
        }
        assert(new.shape_ok(Some(o2u)));
        // Orphan and path.
        if path.len() > 1 {
            let r = path[path.len() - 2];
            assert(p2.last() == r);
            assert(r < N);
            assert(old.node_ok(r as int, Some(o)));
            assert(!new.nodes@[r as int].children@.contains(o2u)) by {
                if new.nodes@[r as int].children@.contains(o2u) {
                    let i = choose|i: int| 0 <= i < new.nodes@[r as int].children@.len() && new.nodes@[r as int].children@[i] == o2u;
                    assert(old.kid_ok(r as int, old.nodes@[r as int].children@[i]));
                }
            }
            assert(old.levels@[r as int] + (path.len() - 2) == old.levels@[old.root as int]);
            assert(old.parents@[path[path.len() - 2 + 1] as int] == path[path.len() - 2]);
        }
        assert(new.orphan_ok(p2, Some(o2u)));
        assert(new.chain(p2)) by {
            assert forall|k: int| 0 <= k < p2.len() implies (#[trigger] p2[k]) != q as usize && !k2.contains(p2[k]) by {
                assert(path[k] < N);
                if k2.contains(p2[k]) {
                    assert(childs.contains(p2[k]));
                    assert(path.contains(p2[k]));
                }
            }
        }
        // Sizes.
        assert(new.entry_sizes() =~= old.entry_sizes());
        assert forall|n: int| 0 <= n < new.nodes@.len() implies #[trigger] new.size_ok(
            p2,
            delta,
            Some(o2u),
            n,
        ) by {
            if n == q || n == o2 {
                assert(!p2.contains(n as usize)) by {
                    if p2.contains(n as usize) {
                        let k = choose|k: int| 0 <= k < p2.len() && p2[k] == n as usize;
                        assert(path[k] < N);
                    }
                }
                let kn = if n == q { k1 } else { k2 };
                assert forall|k: int| 0 <= k < kn.len() implies new.child_eff(p2, delta, n, kn[k]) == f(kn[k]) by {
                    assert(kn.contains(kn[k]));
                    assert(childs.contains(kn[k]));
                    assert(!path.contains(kn[k]));
                    if p2.contains(kn[k]) {
                        let j = choose|j: int| 0 <= j < p2.len() && p2[j] == kn[k];
                        assert(path[j] == kn[k]);
                    }
                    assert(kn[k] != q as usize);
                }
                assert(new.child_effs(p2, delta, n) =~= kn.map_values(f));
                if p2.len() > 0 {
                    assert(p2.last() != n as usize);
                }
            } else {
                assert(old.node_ok(n, Some(o)));
                assert(old.size_ok(path, delta, Some(o), n));
                let kids = old.nodes@[n].children@;
                assert(new.eff(p2, delta, n) == old.eff(path, delta, n)) by {
                    if path.contains(n as usize) {
                        let k = choose|k: int| 0 <= k < path.len() && path[k] == n as usize;
                        assert(k < path.len() - 1);
                        assert(p2[k] == n as usize);
                    }
                    if p2.contains(n as usize) {
                        let k = choose|k: int| 0 <= k < p2.len() && p2[k] == n as usize;
                        assert(path[k] == n as usize);
                    }
                }
                let is_parent = !old.nodes@[n].is_leaf && kids.contains(q as usize);
                assert forall|k: int| 0 <= k < kids.len() && kids[k] != q as usize implies new.child_eff(
                    p2,
                    delta,
                    n,
                    kids[k],
                ) == old.child_eff(path, delta, n, kids[k]) by {
                    assert(old.kid_ok(n, kids[k]));
                    if !old.nodes@[n].is_leaf {
                        let c = kids[k];
                        if path.contains(c) {
                            let j = choose|j: int| 0 <= j < path.len() && path[j] == c;
                            assert(path[j] != q as usize);
                            assert(j < path.len() - 1);
                            assert(p2[j] == c);
                        }
                        if p2.contains(c) {
                            let j = choose|j: int| 0 <= j < p2.len() && p2[j] == c;
                            assert(path[j] == c);
                        }
                    }
                }
                if is_parent {
                    let j = choose|j: int| 0 <= j < kids.len() && kids[j] == q as usize;
                    assert(old.kid_ok(n, kids[j]));
                    assert(q != old.root);
                    assert(path.len() > 1) by {
                        if path.len() == 1 {
                            assert(path[0] == old.root);
                        }
                    }
                    assert(old.parents@[path[path.len() - 2 + 1] as int] == path[path.len() - 2]);
                    assert(n == p2.last());
                    assert(new.child_effs(p2, delta, n) =~= old.child_effs(path, delta, n).update(
                        j,
                        new.nodes@[q].cf.spec_size(),
                    )) by {
                        assert(!p2.contains(q as usize)) by {
                            if p2.contains(q as usize) {
                                let k = choose|k: int| 0 <= k < p2.len() && p2[k] == q as usize;
                                assert(path[k] < N);
                            }
                        }
                    }
                    lemma_sum_update(old.child_effs(path, delta, n), j, new.nodes@[q].cf.spec_size());
                    assert(path.contains(q as usize)) by {
                        assert(path[path.len() - 1] == q as usize);
                    }
                    assert(old.child_effs(path, delta, n)[j] == old.eff(path, delta, q));
                } else {
                    assert(new.child_effs(p2, delta, n) =~= old.child_effs(path, delta, n));
                    if p2.len() > 0 && n == p2.last() {
                        assert(old.nodes@[path[path.len() - 2] as int].children@.contains(path[path.len() - 2 + 1]));
                    }
                }
            }
        }
        if path.len() > 1 {
            assert(p2[0] == new.root);
            assert(new.root != q as usize);
            assert(path.contains(new.root) && p2.contains(new.root));
        } else {
            assert(path[0] == old.root);
        }
    }
}

} // verus!
