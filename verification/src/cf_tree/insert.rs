//! Insertion of points and of whole cluster features into the CF-tree.
//!
//! One procedure serves both: it descends to the closest leaf, lets the
//! closest leaf entry absorb the input or adds a new entry, splits full nodes
//! on the way back up and finally adds the input to the nodes above.

use super::seqs::{lemma_select_map, lemma_sum_push, lemma_sum_update, select, sum_nat};
use super::{
    entries_after_absorb, entries_after_insert, entries_took, lemma_raised_refl, max_children, nodes_took,
    threshold_raised, merge_chain, merge_of, nodes_after_insert, CFNode, CFTree,
};
use crate::cluster_feature::{merged_with, ClusterFeature, ClusterSummary};
use crate::distance::CFDistance;
use crate::types::Float;
use vstd::prelude::*;

verus! {

/// What is inserted: one point, or all the points a cluster feature
/// summarizes.
pub(crate) enum Input<'a, F, CF> {
    Point(&'a [F]),
    Feature(&'a CF),
}

/// Number of points the input brings.
pub(crate) open spec fn input_delta<'a, F: Float, CF: ClusterFeature<F>>(item: Input<'a, F, CF>) -> nat {
    match item {
        Input::Point(_) => 1,
        Input::Feature(c) => c.spec_size(),
    }
}

/// The input fits a tree of dimensionality `dim`.
pub(crate) open spec fn input_ok<'a, F: Float, CF: ClusterFeature<F>>(
    item: Input<'a, F, CF>,
    dim: nat,
) -> bool {
    match item {
        Input::Point(x) => x@.len() >= dim,
        Input::Feature(c) => c.inv() && c.spec_dim() == dim,
    }
}

/// Centroid of the input, as a feature of dimensionality `dim` holding only
/// the input has it.
pub(crate) open spec fn input_centroid<'a, F: Float, CF: ClusterFeature<F>>(
    item: Input<'a, F, CF>,
    dim: nat,
) -> Seq<F> {
    match item {
        Input::Point(x) => x@.subrange(0, dim as int),
        Input::Feature(c) => c.spec_centroid(),
    }
}

/// Distance from `cf` to the input under `m`, over `dim` components.
pub(crate) open spec fn input_spec_dist<'a, F: Float, CF: ClusterFeature<F>, M: CFDistance<F, CF>>(
    m: M,
    cf: CF,
    item: Input<'a, F, CF>,
    dim: nat,
) -> F {
    match item {
        Input::Point(x) => m.spec_sq_dist(cf, x@, dim),
        Input::Feature(c) => m.spec_sq_dist_cf(cf, *c, dim),
    }
}

/// Distance from a cluster feature to the input.
fn input_dist<'a, F: Float, CF: ClusterFeature<F>, M: CFDistance<F, CF>>(
    dist: &M,
    cf: &CF,
    item: &Input<'a, F, CF>,
    dim: usize,
) -> (r: F)
    requires
        cf.inv(),
        cf.spec_dim() == dim,
        input_ok(*item, dim as nat),
        cf.spec_size() + input_delta(*item) <= usize::MAX,
    ensures
        r == input_spec_dist(*dist, *cf, *item, dim as nat),
{
    match item {
        Input::Point(x) => dist.sq_dist(cf, x, dim),
        Input::Feature(c) => dist.sq_dist_cf(cf, c, dim),
    }
}

/// `new` is `old` after the input was added to it.
pub(crate) open spec fn input_added<'a, F: Float, CF: ClusterFeature<F>>(
    new: CF,
    old: CF,
    item: Input<'a, F, CF>,
) -> bool {
    match item {
        Input::Point(x) => new.spec_added(old, x@),
        Input::Feature(c) => merged_with(new, old, *c),
    }
}

/// Adds the input to a cluster feature.
fn input_add<'a, F: Float, CF: ClusterFeature<F>>(target: &mut CF, item: &Input<'a, F, CF>)
    requires
        old(target).inv(),
        input_ok(*item, old(target).spec_dim()),
        old(target).spec_size() + input_delta(*item) <= usize::MAX,
    ensures
        final(target).inv(),
        final(target).spec_size() == old(target).spec_size() + input_delta(*item),
        final(target).spec_dim() == old(target).spec_dim(),
        old(target).spec_size() == 0 ==> final(target).spec_centroid() == input_centroid(
            *item,
            old(target).spec_dim(),
        ),
        input_added(*final(target), *old(target), *item),
{
    match item {
        Input::Point(x) => target.add(x),
        Input::Feature(c) => target.add_cf(*c),
    }
}

impl<F: Float, CF: ClusterFeature<F>, D: CFDistance<F, CF>, A: CFDistance<F, CF>> CFTree<
    F,
    CF,
    D,
    A,
> {
    /// The routing distance of each cluster feature to the input.
    pub(crate) open spec fn input_route<'a>(&self, item: Input<'a, F, CF>) -> spec_fn(CF) -> F {
        |c: CF| input_spec_dist(self.dist_function, c, item, self.dim as nat)
    }

    /// The absorption distance of each cluster feature to the input.
    pub(crate) open spec fn input_absorb<'a>(&self, item: Input<'a, F, CF>) -> spec_fn(CF) -> F {
        |c: CF| input_spec_dist(self.abs_function, c, item, self.dim as nat)
    }

    /// How an entry or node takes the input in.
    pub(crate) open spec fn input_took<'a>(&self, item: Input<'a, F, CF>) -> spec_fn(CF, CF) -> bool {
        |n: CF, o: CF| input_added(n, o, item)
    }

    /// The leaf entry that would absorb the input, if any.
    pub(crate) open spec fn input_absorber<'a>(&self, item: Input<'a, F, CF>) -> Option<usize> {
        self.absorber_by(self.input_route(item), self.input_absorb(item))
    }

    /// The state after the leaf at the end of `path` absorbed the input into
    /// one of its entries or took a new entry for it: the path's nodes still
    /// lack the input.
    pub(crate) proof fn lemma_leaf_grew(old: Self, new: Self, path: Seq<usize>, delta: nat)
        requires
            old.wf(),
            old.chain(path),
            path.len() == old.levels@[old.root as int] + 1,
            old.nodes@[path.last() as int].is_leaf,
            new.root == old.root,
            new.dim == old.dim,
            new.capacity == old.capacity,
            new.levels == old.levels,
            new.parents == old.parents,
            new.nodes@.len() == old.nodes@.len(),
            new.nodes@[path.last() as int].children@.len() <= max_children(new.capacity as nat),
            forall|n: int|
                0 <= n < old.nodes@.len() && n != path.last() ==> new.nodes@[n] == old.nodes@[n],
            new.nodes@[path.last() as int].cf == old.nodes@[path.last() as int].cf,
            new.nodes@[path.last() as int].is_leaf,
            ({
                let leaf = path.last();
                let ok = old.nodes@[leaf as int].children@;
                let nk = new.nodes@[leaf as int].children@;
                ||| nk == ok && new.owners == old.owners && new.leaf_entries@.len()
                    == old.leaf_entries@.len()
                ||| nk == ok.push(old.leaf_entries@.len() as usize) && new.owners@ == old.owners@.push(
                    leaf as nat,
                ) && new.leaf_entries@.len() == old.leaf_entries@.len() + 1
            }),
            forall|e: int|
                0 <= e < old.leaf_entries@.len() && !old.nodes@[path.last() as int].children@.contains(
                    e as usize,
                ) ==> new.leaf_entries@[e] == old.leaf_entries@[e],
            forall|e: int|
                0 <= e < new.leaf_entries@.len() ==> (#[trigger] new.leaf_entries@[e]).inv()
                    && new.leaf_entries@[e].spec_dim() == new.dim,
            sum_nat(new.child_effs(Seq::empty(), 0, path.last() as int)) == sum_nat(
                old.child_effs(Seq::empty(), 0, path.last() as int),
            ) + delta,
            new.total_size() == old.total_size() + delta,
        ensures
            new.pending(path, delta, None),
    {
        old.lemma_lens();
        new.lemma_lens();
        old.lemma_chain_no_dup(path);
        let leaf = path.last() as int;
        let N = old.nodes@.len();
        let oldE = old.leaf_entries@.len();
        assert(path[path.len() - 1] < N);
        assert(old.node_ok(leaf, None));
        // Shape.
        assert forall|n: int| 0 <= n < N implies #[trigger] new.node_ok(n, None) by {
            assert(old.node_ok(n, None));
            let kids = new.nodes@[n].children@;
            if n == leaf {
                let ok = old.nodes@[leaf].children@;
                assert forall|k: int| 0 <= k < kids.len() implies new.kid_ok(n, #[trigger] kids[k]) by {
                    if k < ok.len() {
                        assert(old.kid_ok(n, ok[k]));
                    }
                }
                if kids != ok {
                    assert forall|i: int, j: int| 0 <= i < j < kids.len() implies kids[i]
                        != kids[j] by {
                        if j == kids.len() - 1 {
                            assert(old.kid_ok(n, ok[i]));
                        }
                    }
                }
            } else {
                assert forall|k: int| 0 <= k < kids.len() implies new.kid_ok(n, #[trigger] kids[k]) by {
                    assert(old.kid_ok(n, kids[k]));
                }
            }
            if n != new.root {
                assert(old.linked(n));
                let p = old.parents@[n] as int;
                if p == leaf {
                    assert(old.node_ok(p, None));
                } else {
                    assert(new.nodes@[p] == old.nodes@[p]);
                }
            }
        }
        assert forall|e: int| 0 <= e < new.leaf_entries@.len() implies #[trigger] new.entry_ok(e) by {
            if e < oldE {
                assert(old.entry_ok(e));
                let o = old.owners@[e] as int;
                if o == leaf {
                    let ok = old.nodes@[leaf].children@;
                    let i = choose|i: int| 0 <= i < ok.len() && ok[i] == e as usize;
                    assert(new.nodes@[leaf].children@[i] == e as usize);
                } else {
                    assert(new.nodes@[o] == old.nodes@[o]);
                }
            } else {
                let nk = new.nodes@[leaf].children@;
                assert(nk[nk.len() - 1] == e as usize);
            }
        }
        assert(new.shape_ok(None));
        // Sizes.
        assert forall|n: int| 0 <= n < N implies #[trigger] new.size_ok(path, delta, None, n) by {
            assert(old.size_ok(Seq::empty(), 0, None, n));
            assert(old.node_ok(n, None));
            if n == leaf {
                assert(new.child_effs(path, delta, n) =~= new.child_effs(Seq::empty(), 0, n));
                assert(path[path.len() - 1] == leaf as usize);
                assert(path.contains(leaf as usize));
            } else if old.nodes@[n].is_leaf {
                let kids = old.nodes@[n].children@;
                assert forall|k: int| 0 <= k < kids.len() implies !old.nodes@[leaf].children@.contains(
                    #[trigger] kids[k],
                ) by {
                    assert(old.kid_ok(n, kids[k]));
                    if old.nodes@[leaf].children@.contains(kids[k]) {
                        let ok = old.nodes@[leaf].children@;
                        let i = choose|i: int| 0 <= i < ok.len() && ok[i] == kids[k];
                        assert(old.kid_ok(leaf, ok[i]));
                    }
                }
                assert(new.child_effs(path, delta, n) =~= old.child_effs(Seq::empty(), 0, n));
                if path.contains(n as usize) {
                    let k = choose|k: int| 0 <= k < path.len() && path[k] == n as usize;
                    assert(path[k] < N);
                }
            } else {
                new.lemma_path_effs(None, path, delta, n);
                assert(new.child_effs(Seq::empty(), 0, n) =~= old.child_effs(Seq::empty(), 0, n)) by {
                    let kids = old.nodes@[n].children@;
                    assert forall|k: int| 0 <= k < kids.len() implies new.nodes@[kids[k] as int].cf
                        == old.nodes@[kids[k] as int].cf by {
                        assert(old.kid_ok(n, kids[k]));
                    }
                }
            }
        }
        assert(path[0] == new.root);
        assert(path.contains(new.root));
        assert(new.sizes_ok(path, delta, None));
    }

    /// Descends from the root to a leaf, at each node following the child
    /// closest to the input under the routing distance.
    pub(crate) fn find_leaf_path<'a>(&self, item: &Input<'a, F, CF>) -> (r: (Vec<usize>, usize))
        requires
            self.wf(),
            input_ok(*item, self.dim as nat),
            self.total_size() + input_delta(*item) <= usize::MAX,
        ensures
            self.chain(r.0@),
            r.0@.len() == self.levels@[self.root as int] + 1,
            r.0@.last() == r.1,
            r.1 < self.nodes@.len(),
            self.nodes@[r.1 as int].is_leaf,
            r.1 == self.target_leaf(self.input_route(*item)),
            r.0@ == self.target_path(self.input_route(*item)),
    {
        let ghost route = self.input_route(*item);
        let mut path: Vec<usize> = Vec::with_capacity(8);
        let mut current = self.root;
        proof {
            assert(path@.push(current) =~= seq![current]);
        }
        loop
            invariant
                self.wf(),
                input_ok(*item, self.dim as nat),
                self.total_size() + input_delta(*item) <= usize::MAX,
                self.chain(path@.push(current)),
                route == self.input_route(*item),
                self.descend(route, current as int, self.levels@[current as int]) == self.target_leaf(route),
                path@ + self.descend_path(route, current as int, self.levels@[current as int])
                    == self.target_path(route),
            decreases self.levels@[current as int],
        {
            proof {
                let q = path@.push(current);
                assert(q[q.len() - 1] < self.nodes@.len());
            }
            let ghost before = path@;
            path.push(current);
            let ghost cur = current as int;
            proof {
                assert(self.node_ok(cur, None));
            }
            if !self.nodes[current].is_leaf() {
                let child_ids = self.nodes[current].children();
                let mut best_id = child_ids[0];
                let ghost mut bp: int = 0;
                proof {
                    assert(self.kid_ok(cur, child_ids@[0]));
                    assert(self.node_ok(best_id as int, None));
                    self.lemma_eff_le_total(Seq::empty(), 0, None, best_id as int);
                }
                let mut best_dist = input_dist(
                    &self.dist_function,
                    self.nodes[best_id].as_cf(),
                    item,
                    self.dim,
                );
                let mut i: usize = 1;
                while i < child_ids.len()
                    invariant
                        self.wf(),
                        input_ok(*item, self.dim as nat),
                        self.total_size() + input_delta(*item) <= usize::MAX,
                        0 <= cur < self.nodes@.len(),
                        !self.nodes@[cur].is_leaf,
                        child_ids@ == self.nodes@[cur].children@,
                        1 <= i <= child_ids@.len(),
                        child_ids@.contains(best_id),
                        0 <= bp < child_ids@.len(),
                        child_ids@[bp] == best_id,
                        route == self.input_route(*item),
                        (best_dist, bp) == self.nearest_scan(self.node_cfs(child_ids@), route, i as int),
                    decreases child_ids@.len() - i,
                {
                    let id = child_ids[i];
                    proof {
                        assert(self.node_ok(cur, None));
                        assert(self.kid_ok(cur, child_ids@[i as int]));
                        assert(self.node_ok(id as int, None));
                        self.lemma_eff_le_total(Seq::empty(), 0, None, id as int);
                    }
                    let d = input_dist(&self.dist_function, self.nodes[id].as_cf(), item, self.dim);
                    proof {
                        assert(d == route(self.node_cfs(child_ids@)[i as int]));
                    }
                    if d.lt(&best_dist) {
                        best_dist = d;
                        best_id = id;
                        proof {
                            bp = i as int;
                        }
                    }
                    i = i + 1;
                }
                proof {
                    assert(bp == self.nearest_pos(self.node_cfs(child_ids@), route));
                    assert(self.levels@[cur] > 0);
                    let rest = self.descend_path(route, best_id as int, (self.levels@[cur] - 1) as nat);
                    assert(self.descend_path(route, cur, self.levels@[cur]) == seq![current] + rest);
                    assert(before + (seq![current] + rest) =~= path@ + rest);
                    let k = bp;
                    assert(self.kid_ok(cur, child_ids@[k]));
                    let q = path@.push(best_id);
                    assert forall|j: int| 0 <= j < q.len() implies (#[trigger] q[j])
                        < self.nodes@.len() && self.levels@[q[j] as int] + j == self.levels@[self.root as int] by {
                        if j < q.len() - 1 {
                            assert(q[j] == path@[j]);
                        }
                    }
                    assert forall|j: int| 0 <= j < q.len() - 1 implies self.parents@[(#[trigger] q[j + 1]) as int]
                        == q[j] && self.nodes@[q[j] as int].children@.contains(q[j + 1]) by {
                        if j < q.len() - 2 {
                            assert(q[j] == path@[j] && q[j + 1] == path@[j + 1]);
                        }
                    }
                }
                current = best_id;
            } else {
                proof {
                    assert(self.descend_path(route, cur, self.levels@[cur]) == seq![current]);
                    assert(before + seq![current] =~= path@);
                    assert(path@ =~= (path@.subrange(0, path@.len() - 1)).push(current));
                    let j = path@.len() - 1;
                    assert(path@[j] < self.nodes@.len());
                }
                return (path, current);
            }
        }
    }

    /// Places the input in the leaf `leaf_idx` at the end of `path`: the
    /// closest entry absorbs it when the absorption distance is within the
    /// threshold, otherwise it becomes a new entry. When the leaf is full the
    /// new entry is handed back instead.
    pub(crate) fn insert_into_leaf<'a>(
        &mut self,
        leaf_idx: usize,
        item: &Input<'a, F, CF>,
        Ghost(path): Ghost<Seq<usize>>,
    ) -> (r: Option<CF>)
        requires
            old(self).wf(),
            input_ok(*item, old(self).dim as nat),
            old(self).total_size() + input_delta(*item) <= usize::MAX,
            old(self).chain(path),
            path.len() == old(self).levels@[old(self).root as int] + 1,
            path.last() == leaf_idx,
            leaf_idx < old(self).nodes@.len(),
            old(self).nodes@[leaf_idx as int].is_leaf,
        ensures
            final(self).root == old(self).root,
            final(self).dim == old(self).dim,
            final(self).capacity == old(self).capacity,
            final(self).maxleaves == old(self).maxleaves,
            final(self).threshold == old(self).threshold,
            final(self).rebuild_count == old(self).rebuild_count,
            final(self).levels == old(self).levels,
            final(self).parents == old(self).parents,
            final(self).nodes@.len() == old(self).nodes@.len(),
            final(self).leaf_entries@.len() <= old(self).leaf_entries@.len() + 1,
            match old(self).leaf_absorber(
                leaf_idx as int,
                old(self).input_route(*item),
                old(self).input_absorb(*item),
            ) {
                Some(b) => r is None && entries_after_absorb(
                    old(self).leaf_entries@,
                    final(self).leaf_entries@,
                    Some(b),
                    input_delta(*item),
                    input_centroid(*item, old(self).dim as nat),
                ) && entries_took(
                    old(self).leaf_entries@,
                    final(self).leaf_entries@,
                    Some(b),
                    old(self).input_took(*item),
                    old(self).dim as nat,
                ),
                None => r is None ==> entries_after_absorb(
                    old(self).leaf_entries@,
                    final(self).leaf_entries@,
                    None,
                    input_delta(*item),
                    input_centroid(*item, old(self).dim as nat),
                ) && entries_took(
                    old(self).leaf_entries@,
                    final(self).leaf_entries@,
                    None,
                    old(self).input_took(*item),
                    old(self).dim as nat,
                ),
            },
            forall|n: int| 0 <= n < old(self).nodes@.len() ==> (#[trigger] final(self).nodes@[n]).cf == old(self).nodes@[n].cf,
            r is Some <==> old(self).leaf_absorber(
                leaf_idx as int,
                old(self).input_route(*item),
                old(self).input_absorb(*item),
            ) is None && old(self).nodes@[leaf_idx as int].children@.len() > 0
                && old(self).nodes@[leaf_idx as int].children@.len() >= old(self).capacity,
            match r {
                None => {
                    &&& final(self).pending(path, input_delta(*item), None)
                    &&& final(self).total_size() == old(self).total_size() + input_delta(*item)
                    &&& entries_after_insert(
                        old(self).leaf_entries@,
                        final(self).leaf_entries@,
                        input_delta(*item),
                        input_centroid(*item, old(self).dim as nat),
                    )
                },
                Some(c) => {
                    &&& *final(self) == *old(self)
                    &&& old(self).nodes@[leaf_idx as int].children@.len() > 0
                    &&& old(self).nodes@[leaf_idx as int].children@.len() >= old(self).capacity
                    &&& c.inv()
                    &&& c.spec_dim() == old(self).dim
                    &&& c.spec_size() == input_delta(*item)
                    &&& c.spec_centroid() == input_centroid(*item, old(self).dim as nat)
                    &&& exists|f: CF| #[trigger] f.spec_fresh(old(self).dim as nat) && input_added(c, f, *item)
                },
            },
    {
        let ghost old_self = *self;
        let ghost leaf = leaf_idx as int;
        let ghost delta = input_delta(*item);
        proof {
            self.lemma_lens();
            assert(self.node_ok(leaf, None));
            assert(self.size_ok(Seq::empty(), 0, None, leaf));
            self.lemma_eff_le_total(Seq::empty(), 0, None, leaf);
        }
        if self.nodes[leaf_idx].children.len() == 0 {
            let mut new_leaf_entry = CF::new(self.dim);
            let ghost f0 = new_leaf_entry;
            input_add(&mut new_leaf_entry, item);
            proof {
                assert(f0.spec_fresh(self.dim as nat) && input_added(new_leaf_entry, f0, *item));
            }
            let e = self.leaf_entries.len();
            self.nodes[leaf_idx].add_child(e);
            self.leaf_entries.push(new_leaf_entry);
            proof {
                self.owners@ = self.owners@.push(leaf_idx as nat);
                assert(old_self.child_effs(Seq::empty(), 0, leaf) =~= Seq::<nat>::empty());
                assert(self.child_effs(Seq::empty(), 0, leaf) =~= seq![delta]);
                assert(seq![delta] =~= Seq::<nat>::empty().push(delta));
                lemma_sum_push(Seq::<nat>::empty(), delta);
                assert(self.entry_sizes() =~= old_self.entry_sizes().push(delta));
                lemma_sum_push(old_self.entry_sizes(), delta);
                assert forall|e: int| 0 <= e < self.leaf_entries@.len() implies (
                #[trigger] self.leaf_entries@[e]).inv() && self.leaf_entries@[e].spec_dim()
                    == self.dim by {
                    if e < old_self.leaf_entries@.len() {
                        assert(old_self.entry_ok(e));
                    }
                }
                assert(self.leaf_entries@.drop_last() =~= old_self.leaf_entries@);
                Self::lemma_leaf_grew(old_self, *self, path, delta);
            }
            return None;
        }
        let ghost kids = self.nodes@[leaf].children@;
        let mut best_id = self.nodes[leaf_idx].children[0];
        let mut best_pos: usize = 0;
        proof {
            assert(self.kid_ok(leaf, kids[0]));
            self.lemma_entry_le_total(Seq::empty(), 0, None, best_id as int);
            assert(self.entry_ok(best_id as int));
        }
        let mut best_dist = input_dist(
            &self.dist_function,
            &self.leaf_entries[best_id],
            item,
            self.dim,
        );
        let mut i: usize = 1;
        while i < self.nodes[leaf_idx].children.len()
            invariant
                *self == old_self,
                self.wf(),
                input_ok(*item, self.dim as nat),
                self.total_size() + input_delta(*item) <= usize::MAX,
                0 <= leaf < self.nodes@.len(),
                leaf == leaf_idx,
                kids == self.nodes@[leaf].children@,
                self.nodes@[leaf].is_leaf,
                1 <= i <= kids.len(),
                best_pos < kids.len(),
                kids[best_pos as int] == best_id,
                (best_dist, best_pos as int) == self.nearest_scan(
                    self.entry_cfs(kids),
                    self.input_route(*item),
                    i as int,
                ),
            decreases kids.len() - i,
        {
            let id = self.nodes[leaf_idx].children[i];
            proof {
                assert(self.node_ok(leaf, None));
                assert(self.kid_ok(leaf, kids[i as int]));
                self.lemma_entry_le_total(Seq::empty(), 0, None, id as int);
                assert(self.entry_ok(id as int));
            }
            let d = input_dist(&self.dist_function, &self.leaf_entries[id], item, self.dim);
            proof {
                assert(d == self.input_route(*item)(self.entry_cfs(kids)[i as int]));
            }
            if d.lt(&best_dist) {
                best_dist = d;
                best_id = id;
                best_pos = i;
            }
            i = i + 1;
        }
        proof {
            assert(self.kid_ok(leaf, kids[best_pos as int]));
            assert(self.entry_ok(best_id as int));
            assert(self.child_effs(Seq::empty(), 0, leaf)[best_pos as int] == self.leaf_entries@[best_id as int].spec_size());
            self.lemma_child_le(Seq::empty(), 0, None, leaf, best_pos as int);
            self.lemma_eff_le_total(Seq::empty(), 0, None, leaf);
        }
        let absorb = input_dist(&self.abs_function, &self.leaf_entries[best_id], item, self.dim);
        proof {
            assert(best_pos == self.nearest_pos(self.entry_cfs(kids), self.input_route(*item)));
            assert(absorb == self.input_absorb(*item)(self.leaf_entries@[best_id as int]));
        }
        if absorb.le(&self.threshold) {
            input_add(&mut self.leaf_entries[best_id], item);
            proof {
                let b = best_id as int;
                let old_size = old_self.leaf_entries@[b].spec_size();
                assert(self.child_effs(Seq::empty(), 0, leaf) =~= old_self.child_effs(
                    Seq::empty(),
                    0,
                    leaf,
                ).update(best_pos as int, old_size + delta)) by {
                    assert forall|k: int| 0 <= k < kids.len() && k != best_pos implies kids[k]
                        != best_id by {
                        assert(kids.no_duplicates());
                    }
                }
                lemma_sum_update(
                    old_self.child_effs(Seq::empty(), 0, leaf),
                    best_pos as int,
                    old_size + delta,
                );
                assert(self.entry_sizes() =~= old_self.entry_sizes().update(b, old_size + delta));
                lemma_sum_update(old_self.entry_sizes(), b, old_size + delta);
                assert(self.leaf_entries@ =~= old_self.leaf_entries@.update(b, self.leaf_entries@[b]));
                assert forall|e: int|
                    0 <= e < old_self.leaf_entries@.len() && !kids.contains(e as usize) implies
                    self.leaf_entries@[e] == old_self.leaf_entries@[e] by {
                    if e == b {
                        assert(kids[best_pos as int] == e as usize);
                    }
                }
                assert forall|e: int| 0 <= e < self.leaf_entries@.len() implies (
                #[trigger] self.leaf_entries@[e]).inv() && self.leaf_entries@[e].spec_dim()
                    == self.dim by {
                    if e != b {
                        assert(old_self.entry_ok(e));
                    }
                }
                Self::lemma_leaf_grew(old_self, *self, path, delta);
            }
            return None;
        }
        let mut new_leaf_entry = CF::new(self.dim);
        let ghost f0 = new_leaf_entry;
        input_add(&mut new_leaf_entry, item);
        proof {
            assert(f0.spec_fresh(self.dim as nat) && input_added(new_leaf_entry, f0, *item));
        }
        if self.nodes[leaf_idx].children.len() < self.capacity {
            let e = self.leaf_entries.len();
            self.nodes[leaf_idx].add_child(e);
            self.leaf_entries.push(new_leaf_entry);
            proof {
                self.owners@ = self.owners@.push(leaf_idx as nat);
                let oe = old_self.child_effs(Seq::empty(), 0, leaf);
                assert(self.child_effs(Seq::empty(), 0, leaf) =~= oe.push(delta)) by {
                    assert forall|k: int| 0 <= k < kids.len() implies (kids[k] as int) < old_self.leaf_entries@.len() by {
                        assert(old_self.kid_ok(leaf, kids[k]));
                    }
                }
                lemma_sum_push(oe, delta);
                assert(self.entry_sizes() =~= old_self.entry_sizes().push(delta));
                lemma_sum_push(old_self.entry_sizes(), delta);
                assert forall|e: int| 0 <= e < self.leaf_entries@.len() implies (
                #[trigger] self.leaf_entries@[e]).inv() && self.leaf_entries@[e].spec_dim()
                    == self.dim by {
                    if e < old_self.leaf_entries@.len() {
                        assert(old_self.entry_ok(e));
                    }
                }
                assert(self.leaf_entries@.drop_last() =~= old_self.leaf_entries@);
                Self::lemma_leaf_grew(old_self, *self, path, delta);
            }
            None
        } else {
            Some(new_leaf_entry)
        }
    }

    /// The input did not fit into the full leaf at the end of `path`. Its
    /// new entry `new_cf` joins the leaf's entries and the leaf is split in
    /// two; the half split off is attached to the parent, which is split in
    /// turn while it is full, and a split root gets a new root above it.
    /// `path` is left holding the nodes above the last change, which still
    /// lack the input. Returns, as ghost sets, the nodes made by the splits
    /// (each the merge of its children) and the node that took the input in
    /// when the half split off found room.
    #[verifier::rlimit(40)]
    pub(crate) fn handle_overflow<'a>(
        &mut self,
        new_cf: CF,
        path: &mut Vec<usize>,
        item: &Input<'a, F, CF>,
    ) -> (r: Ghost<(Set<usize>, Set<usize>)>)
        requires
            old(self).wf(),
            input_ok(*item, old(self).dim as nat),
            old(self).total_size() + input_delta(*item) <= usize::MAX,
            old(self).chain(old(path)@),
            old(path)@.len() == old(self).levels@[old(self).root as int] + 1,
            old(self).nodes@[old(path)@.last() as int].is_leaf,
            old(self).nodes@[old(path)@.last() as int].children@.len() > 0,
            old(self).nodes@[old(path)@.last() as int].children@.len() >= old(self).capacity,
            new_cf.inv(),
            new_cf.spec_dim() == old(self).dim,
            new_cf.spec_size() == input_delta(*item),
        ensures
            final(self).pending(final(path)@, input_delta(*item), None),
            final(self).total_size() == old(self).total_size() + input_delta(*item),
            final(self).leaf_entries@ == old(self).leaf_entries@.push(new_cf),
            final(self).dim == old(self).dim,
            final(self).capacity == old(self).capacity,
            final(self).maxleaves == old(self).maxleaves,
            final(self).threshold == old(self).threshold,
            final(self).rebuild_count == old(self).rebuild_count,
            final(path)@.len() < old(path)@.len(),
            final(path)@ == old(path)@.subrange(0, final(path)@.len() as int),
            final(self).nodes@.len() >= old(self).nodes@.len(),
            forall|m: usize|
                #[trigger] r@.0.contains(m) ==> m < final(self).nodes@.len() && merge_of(
                    final(self).nodes@[m as int].cf,
                    final(self).child_cfs(m as int),
                    final(self).dim as nat,
                ),
            forall|n: usize|
                #[trigger] r@.1.contains(n) ==> old(path)@.contains(n) && n < old(self).nodes@.len()
                    && !r@.0.contains(n) && input_added(
                    final(self).nodes@[n as int].cf,
                    old(self).nodes@[n as int].cf,
                    *item,
                ),
            forall|n: int|
                0 <= n < final(self).nodes@.len() && !r@.0.contains(n as usize) && !r@.1.contains(n as usize)
                    ==> n < old(self).nodes@.len() && (#[trigger] final(self).nodes@[n]).cf == old(self).nodes@[n].cf,
            forall|k: int|
                0 <= k < final(path)@.len() ==> !r@.0.contains(#[trigger] final(path)@[k]) && !r@.1.contains(
                    final(path)@[k],
                ),
            forall|m: usize, k: int|
                #[trigger] r@.0.contains(m) && 0 <= k < final(path)@.len() ==> final(self).levels@[m as int]
                    < final(self).levels@[#[trigger] final(path)@[k] as int],
            forall|k: int|
                final(path)@.len() <= k < old(path)@.len() ==> r@.0.contains(#[trigger] old(path)@[k])
                    || r@.1.contains(old(path)@[k]),
    {
        let ghost s0 = *self;
        let ghost p0 = path@;
        let ghost delta = input_delta(*item);
        let leaf = match path.pop() {
            Some(id) => id,
            None => vstd::pervasive::unreached(),
        };
        let ghost lf = leaf as int;
        let ghost E0 = s0.leaf_entries@.len();
        proof {
            s0.lemma_lens();
            assert(p0[p0.len() - 1] < s0.nodes@.len());
            assert(s0.node_ok(lf, None));
            assert(s0.size_ok(Seq::empty(), 0, None, lf));
            s0.lemma_eff_le_total(Seq::empty(), 0, None, lf);
        }
        // The new entry joins the leaf's entries, which are split in two.
        let e = self.leaf_entries.len();
        self.leaf_entries.push(new_cf);
        let mut childs: Vec<usize> = self.nodes[leaf].children.clone();
        proof {
            assert(childs@ =~= s0.nodes@[lf].children@);
        }
        childs.push(e);
        proof {
            let kids = s0.nodes@[lf].children@;
            assert forall|k: int| 0 <= k < kids.len() implies (kids[k] as int) < E0 by {
                assert(s0.kid_ok(lf, kids[k]));
            }
            assert(self.item_sizes(true, childs@) =~= s0.child_effs(Seq::empty(), 0, lf).push(delta));
            lemma_sum_push(s0.child_effs(Seq::empty(), 0, lf), delta);
            assert forall|k: int| 0 <= k < childs@.len() implies {
                &&& (#[trigger] childs@[k]) < self.leaf_entries@.len()
                &&& self.leaf_entries@[childs@[k] as int].inv()
                &&& self.leaf_entries@[childs@[k] as int].spec_dim() == self.dim
            } by {
                if k < kids.len() {
                    assert(s0.entry_ok(kids[k] as int));
                }
            }
        }
        let ghost s_split = *self;
        let (node1, node2, Ghost(mask)) = self.split_node(childs.as_slice(), true);
        self.nodes.set(leaf, node1);
        let mut orphan = self.nodes.len();
        self.nodes.push(node2);
        proof {
            let k2 = select(childs@, mask, false);
            let o = orphan as nat;
            self.owners@ = Seq::new(
                (E0 + 1) as nat,
                |x: int|
                    if k2.contains(x as usize) {
                        o
                    } else if childs@.contains(x as usize) {
                        lf as nat
                    } else {
                        s0.owners@[x]
                    },
            );
            self.levels@ = s0.levels@.push(0);
            self.parents@ = s0.parents@.push(
                if p0.len() > 1 {
                    p0[p0.len() - 2] as nat
                } else {
                    0
                },
            );
            assert(s_split.item_sizes(true, childs@) =~= childs@.map_values(
                |id: usize| self.leaf_entries@[id as int].spec_size(),
            ));
            Self::lemma_leaf_split(s0, *self, p0, delta, mask);
        }
        let ghost mut made: Set<usize> = set![leaf, orphan];
        proof {
            s0.lemma_chain_no_dup(p0);
            let cur = *self;
            let kids1 = select(childs@, mask, true);
            let kids2 = select(childs@, mask, false);
            let g = |id: usize| s_split.item_cf(true, id);
            lemma_select_map(childs@, mask, true, g);
            lemma_select_map(childs@, mask, false, g);
            assert(s_split.item_cfs(true, childs@) =~= childs@.map_values(g));
            assert(cur.child_cfs(lf) =~= kids1.map_values(g));
            assert(cur.child_cfs(orphan as int) =~= kids2.map_values(g));
            assert forall|k: int| 0 <= k < path@.len() implies !made.contains(#[trigger] path@[k]) by {
                assert(path@[k] == p0[k]);
                assert(p0[k] < s0.nodes@.len());
                assert(p0[k] != p0[p0.len() - 1]);
            }
            assert forall|n: int| 0 <= n < cur.nodes@.len() && !made.contains(n as usize) implies n < s0.nodes@.len()
                && (#[trigger] cur.nodes@[n]).cf == s0.nodes@[n].cf by {
                assert(cur.nodes@[n] == s0.nodes@[n]);
            }
            assert forall|m: usize, k: int|
                #[trigger] made.contains(m) && 0 <= k < path@.len() implies cur.levels@[m as int]
                    < cur.levels@[#[trigger] path@[k] as int] by {
                assert(path@[k] == p0[k]);
                assert(s0.levels@[p0[k] as int] + k == s0.levels@[s0.root as int]);
                assert(s0.node_ok(lf, None));
            }
        }
        // The half split off goes up the path until a node has room for it.
        loop
            invariant
                forall|m: usize|
                    #[trigger] made.contains(m) ==> m < self.nodes@.len() && merge_of(
                        self.nodes@[m as int].cf,
                        self.child_cfs(m as int),
                        self.dim as nat,
                    ),
                forall|n: int|
                    0 <= n < self.nodes@.len() && !made.contains(n as usize) ==> n < s0.nodes@.len() && (
                    #[trigger] self.nodes@[n]).cf == s0.nodes@[n].cf,
                forall|k: int| 0 <= k < path@.len() ==> !made.contains(#[trigger] path@[k]),
                made.contains(orphan),
                self.nodes@.len() >= s0.nodes@.len(),
                path@ == p0.subrange(0, path@.len() as int),
                path@.len() < p0.len(),
                forall|m: usize, k: int|
                    #[trigger] made.contains(m) && 0 <= k < path@.len() ==> self.levels@[m as int]
                        < self.levels@[#[trigger] path@[k] as int],
                s0 == *old(self),
                p0 == old(path)@,
                s0.chain(p0),
                forall|k: int| path@.len() <= k < p0.len() ==> made.contains(#[trigger] p0[k]),
                self.pending(path@, delta, Some(orphan)),
                self.total_size() == s0.total_size() + delta,
                self.leaf_entries@ == s0.leaf_entries@.push(new_cf),
                s0.total_size() + delta <= usize::MAX,
                CF::dim_supported(self.dim as nat),
                input_ok(*item, self.dim as nat),
                delta == input_delta(*item),
                self.dim == s0.dim,
                self.capacity == s0.capacity,
                self.maxleaves == s0.maxleaves,
                self.threshold == s0.threshold,
                self.rebuild_count == s0.rebuild_count,
            decreases path@.len(),
        {
            let ghost s1 = *self;
            let ghost p1 = path@;
            proof {
                s1.lemma_lens();
            }
            match path.pop() {
                Some(id) => {
                    proof {
                        assert(p1[p1.len() - 1] < s1.nodes@.len());
                    }
                    if self.nodes[id].num_childs() < self.capacity {
                        self.nodes[id].add_child(orphan);
                        proof {
                            Self::lemma_attach_orphan(s1, *self, p1, delta, orphan);
                        }
                        let ghost s2 = *self;
                        proof {
                            s2.lemma_eff_le_total(p1, delta, None, id as int);
                            assert(s2.node_ok(id as int, None));
                        }
                        input_add(&mut self.nodes[id].cf, item);
                        proof {
                            Self::lemma_settle_last(s2, *self, p1, delta);
                            assert(self.entry_sizes() =~= s1.entry_sizes());
                            assert(s1.chain(p1));
                            assert(s1.shape_ok(Some(orphan)));
                            s1.lemma_made_children(made, id as int, p1, orphan);
                            Self::lemma_made_kept(s1, *self, made, set![id]);
                            s0.lemma_chain_no_dup(p0);
                            assert(p1 == p0.subrange(0, p1.len() as int));
                            assert(p0[p1.len() - 1] == id);
                            assert(path@ =~= p0.subrange(0, path@.len() as int));
                            assert(old(path)@.contains(id));
                            assert forall|k: int| 0 <= k < path@.len() implies !made.contains(#[trigger] path@[k])
                                && !set![id].contains(path@[k]) by {
                                assert(path@[k] == p1[k]);
                                assert(p0[k] != p0[p1.len() - 1]);
                            }
                            assert forall|n: int|
                                0 <= n < self.nodes@.len() && !made.contains(n as usize) && !set![id].contains(
                                    n as usize,
                                ) implies n < s0.nodes@.len() && (#[trigger] self.nodes@[n]).cf == s0.nodes@[n].cf by {
                                assert(self.nodes@[n] == s1.nodes@[n]);
                            }
                        }
                        return Ghost((made, set![id]));
                    } else {
                        proof {
                            s1.lemma_full_node_sizes(p1, delta, orphan);
                            assert(s1.node_ok(id as int, Some(orphan)));
                        }
                        let mut childs: Vec<usize> = self.nodes[id].children.clone();
                        proof {
                            assert(childs@ =~= s1.nodes@[id as int].children@);
                        }
                        childs.push(orphan);
                        let (node1, node2, Ghost(mask)) = self.split_node(childs.as_slice(), false);
                        self.nodes.set(id, node1);
                        let new_orphan = self.nodes.len();
                        self.nodes.push(node2);
                        proof {
                            let k2 = select(childs@, mask, false);
                            let N = s1.nodes@.len();
                            self.levels@ = s1.levels@.push(s1.levels@[id as int]);
                            self.parents@ = Seq::new(
                                (N + 1) as nat,
                                |x: int|
                                    if x == N {
                                        if p1.len() > 1 {
                                            p1[p1.len() - 2] as nat
                                        } else {
                                            0
                                        }
                                    } else if k2.contains(x as usize) {
                                        N as nat
                                    } else {
                                        s1.parents@[x]
                                    },
                            );
                            assert(s1.item_sizes(false, childs@) =~= childs@.map_values(
                                |c: usize| s1.nodes@[c as int].cf.spec_size(),
                            ));
                            let cs = s1.nodes@[p1.last() as int].children@.push(orphan);
                            assert(cs == childs@);
                            Self::lemma_node_split(s1, *self, p1, delta, orphan, mask);
                        }
                        proof {
                            assert(s1.chain(p1));
                            assert(s1.shape_ok(Some(orphan)));
                            s1.lemma_made_children(made, id as int, p1, orphan);
                            Self::lemma_made_kept(s1, *self, made, set![id]);
                            let cur = *self;
                            let g = |c: usize| s1.item_cf(false, c);
                            let g2 = |c: usize| cur.nodes@[c as int].cf;
                            assert forall|k: int| 0 <= k < childs@.len() implies s1.nodes@[childs@[k] as int].cf
                                == cur.nodes@[childs@[k] as int].cf by {
                                assert(childs@.contains(childs@[k]));
                                s1.lemma_split_child(made, id as int, p1, orphan, childs@[k]);
                            }
                            assert(s1.item_cfs(false, childs@) =~= childs@.map_values(g2));
                            lemma_select_map(childs@, mask, true, g2);
                            lemma_select_map(childs@, mask, false, g2);
                            assert(cur.child_cfs(id as int) =~= select(childs@, mask, true).map_values(g2));
                            assert(cur.child_cfs(new_orphan as int) =~= select(childs@, mask, false).map_values(g2));
                            s0.lemma_chain_no_dup(p0);
                            let nm = made.insert(id).insert(new_orphan);
                            assert forall|m: usize| #[trigger] nm.contains(m) implies m < cur.nodes@.len() && merge_of(
                                cur.nodes@[m as int].cf,
                                cur.child_cfs(m as int),
                                cur.dim as nat,
                            ) by {
                                if made.contains(m) {
                                }
                            }
                            assert(p1 == p0.subrange(0, p1.len() as int));
                            assert(path@ =~= p0.subrange(0, path@.len() as int));
                            assert forall|k: int| 0 <= k < path@.len() implies !nm.contains(#[trigger] path@[k]) by {
                                assert(path@[k] == p1[k]);
                                assert(p0[k] != p0[p1.len() - 1]);
                                assert(p0[k] < s0.nodes@.len());
                            }
                            assert forall|n: int|
                                0 <= n < cur.nodes@.len() && !nm.contains(n as usize) implies n < s0.nodes@.len() && (
                                #[trigger] cur.nodes@[n]).cf == s0.nodes@[n].cf by {
                                assert(cur.nodes@[n] == s1.nodes@[n]);
                            }
                            assert forall|m: usize, k: int|
                                #[trigger] nm.contains(m) && 0 <= k < path@.len() implies cur.levels@[m as int]
                                    < cur.levels@[#[trigger] path@[k] as int] by {
                                assert(path@[k] == p1[k]);
                                assert(s1.levels@[p1[k] as int] + k == s1.levels@[s1.root as int]);
                                assert(s1.levels@[id as int] + (p1.len() - 1) == s1.levels@[s1.root as int]);
                            }
                            made = nm;
                        }
                        orphan = new_orphan;
                    }
                },
                None => {
                    // The root itself was split: a new root goes above it.
                    proof {
                        assert(p1 =~= Seq::<usize>::empty());
                        assert(s1.node_ok(s1.root as int, Some(orphan)));
                        assert(s1.node_ok(orphan as int, Some(orphan)));
                    }
                    let mut new_root: CFNode<F, CF> = CFNode::new(self.dim, self.capacity, false);
                    new_root.add_child(self.root);
                    new_root.add_child(orphan);
                    let ghost c0 = new_root.cf;
                    new_root.cf.add_cf(self.nodes[self.root].as_cf());
                    let ghost c1 = new_root.cf;
                    new_root.cf.add_cf(self.nodes[orphan].as_cf());
                    let old_root = self.root;
                    self.root = self.nodes.len();
                    self.nodes.push(new_root);
                    proof {
                        self.levels@ = s1.levels@.push(s1.levels@[old_root as int] + 1);
                        self.parents@ = s1.parents@.update(old_root as int, self.root as nat).update(
                            orphan as int,
                            self.root as nat,
                        ).push(0);
                        assert(new_root.children@ =~= seq![old_root, orphan]);
                        Self::lemma_new_root(s1, *self, delta, orphan);
                        self.lemma_nothing_pending(0, delta);
                        assert(self.entry_sizes() =~= s1.entry_sizes());
                        assert(self.dim == s1.dim);
                    }
                    proof {
                        s1.lemma_made_kids_in_range(made, Some(orphan));
                        Self::lemma_made_kept(s1, *self, made, Set::empty());
                        let cur = *self;
                        let r = self.root;
                        let parts = seq![s1.nodes@[old_root as int].cf, s1.nodes@[orphan as int].cf];
                        let chain = seq![c0, c1, new_root.cf];
                        assert(merge_chain(chain, parts, self.dim as nat));
                        assert(cur.child_cfs(r as int) =~= parts);
                        let nm = made.insert(r);
                        assert forall|m: usize| #[trigger] nm.contains(m) implies m < cur.nodes@.len() && merge_of(
                            cur.nodes@[m as int].cf,
                            cur.child_cfs(m as int),
                            cur.dim as nat,
                        ) by {
                            if m == r {
                                assert(merge_chain(chain, cur.child_cfs(r as int), cur.dim as nat));
                            }
                        }
                        assert(path@ =~= p0.subrange(0, 0));
                        assert forall|n: int|
                            0 <= n < cur.nodes@.len() && !nm.contains(n as usize) && !Set::<usize>::empty().contains(
                                n as usize,
                            ) implies n < s0.nodes@.len() && (#[trigger] cur.nodes@[n]).cf == s0.nodes@[n].cf by {
                            assert(cur.nodes@[n] == s1.nodes@[n]);
                        }
                        made = nm;
                    }
                    return Ghost((made, Set::empty()));
                },
            }
        }
    }

    /// Adds the input to the nodes of `path`, which lacked it.
    pub(crate) fn update_path<'a>(&mut self, path: &Vec<usize>, item: &Input<'a, F, CF>)
        requires
            old(self).pending(path@, input_delta(*item), None),
            CF::dim_supported(old(self).dim as nat),
            input_ok(*item, old(self).dim as nat),
            old(self).total_size() <= usize::MAX,
        ensures
            final(self).wf(),
            final(self).total_size() == old(self).total_size(),
            final(self).dim == old(self).dim,
            final(self).capacity == old(self).capacity,
            final(self).maxleaves == old(self).maxleaves,
            final(self).threshold == old(self).threshold,
            final(self).rebuild_count == old(self).rebuild_count,
            final(self).leaf_entries == old(self).leaf_entries,
            nodes_took(old(self).nodes@, final(self).nodes@, path@, old(self).input_took(*item)),
            forall|n: int|
                0 <= n < old(self).nodes@.len() && !path@.contains(n as usize) ==> #[trigger] final(self).nodes@[n]
                    == old(self).nodes@[n],
            forall|n: int|
                0 <= n < old(self).nodes@.len() ==> (#[trigger] final(self).nodes@[n]).children
                    == old(self).nodes@[n].children && final(self).nodes@[n].is_leaf == old(self).nodes@[n].is_leaf,
    {
        let ghost s0 = *self;
        let ghost p = path@;
        let ghost delta = input_delta(*item);
        proof {
            s0.lemma_lens();
            s0.lemma_chain_no_dup(p);
            assert(p.subrange(0, p.len() as int) =~= p);
            assert forall|k: int| 0 <= k < p.len() implies (#[trigger] p[k]) < s0.nodes@.len() && s0.nodes@[p[k] as int].cf.spec_size() + delta <= usize::MAX by {
                assert(p[k] < s0.nodes@.len());
                s0.lemma_eff_le_total(p, delta, None, p[k] as int);
                assert(p.contains(p[k]));
            }
        }
        let mut i: usize = 0;
        while i < path.len()
            invariant
                p == path@,
                p.no_duplicates(),
                i <= p.len(),
                self.shape_ok(None),
                self.sizes_ok(p.subrange(i as int, p.len() as int), delta, None),
                forall|k: int| 0 <= k < p.len() ==> (#[trigger] p[k]) < s0.nodes@.len(),
                forall|k: int| i <= k < p.len() ==> self.nodes@[(#[trigger] p[k]) as int].cf.spec_size() + delta <= usize::MAX,
                delta == input_delta(*item),
                input_ok(*item, self.dim as nat),
                Self::same_frame(s0, *self),
                self.capacity == s0.capacity,
                self.maxleaves == s0.maxleaves,
                self.threshold == s0.threshold,
                self.rebuild_count == s0.rebuild_count,
                self.nodes@.len() == s0.nodes@.len(),
                forall|k: int|
                    0 <= k < i ==> input_added(
                        self.nodes@[#[trigger] p[k] as int].cf,
                        s0.nodes@[p[k] as int].cf,
                        *item,
                    ),
                forall|n: int|
                    0 <= n < s0.nodes@.len() && !p.subrange(0, i as int).contains(n as usize) ==> #[trigger] self.nodes@[n]
                        == s0.nodes@[n],
                forall|n: int|
                    0 <= n < s0.nodes@.len() ==> (#[trigger] self.nodes@[n]).children == s0.nodes@[n].children
                        && self.nodes@[n].is_leaf == s0.nodes@[n].is_leaf,
            decreases p.len() - i,
        {
            let index = path[i];
            let ghost s1 = *self;
            proof {
                s1.lemma_lens();
                assert(s1.node_ok(index as int, None));
            }
            input_add(&mut self.nodes[index].cf, item);
            proof {
                assert(!p.subrange(0, i as int).contains(index)) by {
                    if p.subrange(0, i as int).contains(index) {
                        let t = choose|t: int| 0 <= t < i && p.subrange(0, i as int)[t] == index;
                        assert(p[t] == p[i as int]);
                    }
                }
                assert forall|k: int| 0 <= k < i + 1 implies input_added(
                    self.nodes@[#[trigger] p[k] as int].cf,
                    s0.nodes@[p[k] as int].cf,
                    *item,
                ) by {
                    if k < i {
                        assert(p[k] != p[i as int]);
                    }
                }
                assert forall|n: int|
                    0 <= n < s0.nodes@.len() && !p.subrange(0, i + 1).contains(n as usize) implies #[trigger] self.nodes@[n]
                        == s0.nodes@[n] by {
                    assert(p.subrange(0, i + 1)[i as int] == index);
                    assert forall|t: int| 0 <= t < i implies p.subrange(0, i as int)[t] == p.subrange(0, i + 1)[t] by {}
                    if p.subrange(0, i as int).contains(n as usize) {
                        let t = choose|t: int| 0 <= t < i && p.subrange(0, i as int)[t] == n as usize;
                        assert(p.subrange(0, i + 1)[t] == n as usize);
                    }
                }
                Self::lemma_update_step(s1, *self, p, i as int, delta);
                assert forall|k: int| i + 1 <= k < p.len() implies self.nodes@[(#[trigger] p[k]) as int].cf.spec_size() + delta <= usize::MAX by {
                    assert(p[k] != p[i as int]);
                }
            }
            i = i + 1;
        }
        proof {
            assert(p.subrange(0, p.len() as int) =~= p);
            assert(p.subrange(p.len() as int, p.len() as int) =~= Seq::<usize>::empty());
            assert(self.chain(Seq::empty()));
            self.lemma_nothing_pending(delta, 0);
            assert(self.entry_sizes() =~= s0.entry_sizes());
        }
    }

    /// Inserts the input: descends to the closest leaf, places the input
    /// there, splits what overflows, adds the input to the nodes above, and
    /// rebuilds the tree when it holds more leaf entries than allowed.
    pub(crate) fn insert_item<'a>(&mut self, item: &Input<'a, F, CF>)
        requires
            old(self).wf(),
            input_ok(*item, old(self).dim as nat),
            2 * (old(self).total_size() + input_delta(*item)) <= usize::MAX,
        ensures
            final(self).wf(),
            final(self).total_size() == old(self).total_size() + input_delta(*item),
            final(self).leaf_entries@.len() <= old(self).leaf_entries@.len() + 1,
            final(self).leaf_entries@.len() <= final(self).maxleaves || final(self).rebuild_count
                == usize::MAX,
            final(self).rebuild_count >= old(self).rebuild_count,
            old(self).leaf_entries@.len() < old(self).maxleaves ==> final(self).rebuild_count
                == old(self).rebuild_count,
            old(self).leaf_entries@.len() + (if old(self).input_absorber(*item) is None {
                1int
            } else {
                0int
            }) <= old(self).maxleaves ==> final(self).rebuild_count == old(self).rebuild_count,
            old(self).leaf_entries@.len() + (if old(self).input_absorber(*item) is None {
                1int
            } else {
                0int
            }) > old(self).maxleaves && old(self).rebuild_count < usize::MAX ==> final(self).rebuild_count
                > old(self).rebuild_count,
            old(self).entries_nonempty() && input_delta(*item) > 0 ==> final(self).entries_nonempty(),
            final(self).rebuild_count == old(self).rebuild_count ==> final(self).threshold == old(self).threshold,
            threshold_raised(old(self).threshold, final(self).threshold),
            final(self).rebuild_count == old(self).rebuild_count ==> entries_after_insert(
                old(self).leaf_entries@,
                final(self).leaf_entries@,
                input_delta(*item),
                input_centroid(*item, old(self).dim as nat),
            ),
            final(self).rebuild_count == old(self).rebuild_count ==> entries_after_absorb(
                old(self).leaf_entries@,
                final(self).leaf_entries@,
                old(self).input_absorber(*item),
                input_delta(*item),
                input_centroid(*item, old(self).dim as nat),
            ),
            final(self).rebuild_count == old(self).rebuild_count ==> entries_took(
                old(self).leaf_entries@,
                final(self).leaf_entries@,
                old(self).input_absorber(*item),
                old(self).input_took(*item),
                old(self).dim as nat,
            ),
            final(self).rebuild_count == old(self).rebuild_count && !old(self).splits_by(
                old(self).input_route(*item),
                old(self).input_absorb(*item),
            ) ==> nodes_took(
                old(self).nodes@,
                final(self).nodes@,
                old(self).target_path(old(self).input_route(*item)),
                old(self).input_took(*item),
            ),
            final(self).rebuild_count == old(self).rebuild_count ==> exists|made: Set<usize>, took: Set<usize>|
                #[trigger] nodes_after_insert(
                    *old(self),
                    *final(self),
                    made,
                    took,
                    old(self).target_path(old(self).input_route(*item)),
                    old(self).input_took(*item),
                ),
            final(self).dim == old(self).dim,
            final(self).capacity == old(self).capacity,
            final(self).maxleaves == old(self).maxleaves,
        decreases usize::MAX - old(self).spec_rebuild_count(), 1nat,
    {
        let ghost s0 = *self;
        let (mut path, leaf_idx) = self.find_leaf_path(item);
        let ghost p0 = path@;
        let overflow = self.insert_into_leaf(leaf_idx, item, Ghost(path@));
        let ghost entries_before = self.leaf_entries@;
        let ghost s1 = *self;
        proof {
            assert(s1.input_took(*item) =~= s0.input_took(*item));
        }
        let ghost mut made: Set<usize> = Set::empty();
        let ghost mut took: Set<usize> = Set::empty();
        let ghost split = overflow is Some;
        match overflow {
            Some(cf) => {
                let Ghost(parts) = self.handle_overflow(cf, &mut path, item);
                proof {
                    made = parts.0;
                    took = parts.1;
                    assert(self.leaf_entries@.drop_last() =~= entries_before);
                    assert(path@ =~= p0.subrange(0, path@.len() as int));
                }
            },
            None => {},
        }
        let ghost s2 = *self;
        let ghost p2 = path@;
        self.update_path(&path, item);
        proof {
            s0.lemma_chain_no_dup(p0);
            if split {
                self.lemma_lens();
                s2.lemma_made_off_path(made, p2);
                Self::lemma_made_kept(s2, *self, made, p2.to_set());
                let all = took.union(p2.to_set());
                assert forall|k: int| 0 <= k < p2.len() implies p0[k] == #[trigger] p2[k] by {}
                assert forall|n: usize| #[trigger] all.contains(n) implies p0.contains(n) && n < s0.nodes@.len()
                    && !made.contains(n) && input_added(self.nodes@[n as int].cf, s0.nodes@[n as int].cf, *item) by {
                    if took.contains(n) {
                        if p2.contains(n) {
                            let j = choose|j: int| 0 <= j < p2.len() && p2[j] == n;
                            assert(!took.contains(p2[j]));
                        }
                        assert(self.nodes@[n as int] == s2.nodes@[n as int]);
                    } else {
                        let j = choose|j: int| 0 <= j < p2.len() && p2[j] == n;
                        assert(p0[j] == n);
                        assert(!made.contains(p2[j]) && !took.contains(p2[j]));
                        assert(s2.nodes@[n as int].cf == s1.nodes@[n as int].cf);
                    }
                }
                assert forall|k: int| 0 <= k < p0.len() implies made.contains(#[trigger] p0[k]) || all.contains(
                    p0[k],
                ) by {
                    if k < p2.len() {
                        assert(p2[k] == p0[k]);
                        assert(p2.to_set().contains(p2[k]));
                    }
                }
                assert forall|n: int|
                    s0.spec_nodes().len() <= n < self.spec_nodes().len() implies #[trigger] made.contains(n as usize) by {
                    if !made.contains(n as usize) {
                        assert(!took.contains(n as usize));
                        assert(s2.nodes@[n].cf == s1.nodes@[n].cf);
                        assert(s1.nodes@.len() == s0.nodes@.len());
                    }
                }
                assert forall|n: int|
                    0 <= n < s0.spec_nodes().len() && !made.contains(n as usize) && !all.contains(n as usize) implies (
                    #[trigger] self.spec_nodes()[n]).spec_cf() == s0.spec_nodes()[n].spec_cf() by {
                    assert(!p2.to_set().contains(n as usize));
                    assert(self.nodes@[n] == s2.nodes@[n]);
                    assert(s2.nodes@[n].cf == s1.nodes@[n].cf);
                }
                assert(nodes_after_insert(s0, *self, made, all, p0, s0.input_took(*item)));
            }
            if overflow is None {
                assert(path@ == s0.target_path(s0.input_route(*item)));
                assert(nodes_took(s0.nodes@, self.nodes@, path@, s0.input_took(*item))) by {
                    assert forall|n: int|
                        0 <= n < s0.nodes@.len() && !path@.contains(n as usize) implies (
                        #[trigger] self.nodes@[n]).spec_cf() == s0.nodes@[n].spec_cf() by {
                        assert(s1.nodes@[n].cf == s0.nodes@[n].cf);
                    }
                    assert forall|k: int| 0 <= k < path@.len() implies (s0.input_took(*item))(
                        self.nodes@[#[trigger] path@[k] as int].spec_cf(),
                        s0.nodes@[path@[k] as int].spec_cf(),
                    ) by {
                        assert(s1.nodes@[path@[k] as int].cf == s0.nodes@[path@[k] as int].cf);
                    }
                }
                let all = p0.to_set();
                assert forall|n: usize| #[trigger] all.contains(n) implies p0.contains(n) && n < s0.nodes@.len()
                    && !made.contains(n) && input_added(self.nodes@[n as int].cf, s0.nodes@[n as int].cf, *item) by {
                    let j = choose|j: int| 0 <= j < p0.len() && p0[j] == n;
                    assert(s1.nodes@[n as int].cf == s0.nodes@[n as int].cf);
                }
                assert forall|k: int| 0 <= k < p0.len() implies made.contains(#[trigger] p0[k]) || all.contains(
                    p0[k],
                ) by {}
                assert(nodes_after_insert(s0, *self, made, all, p0, s0.input_took(*item)));
            }
        }
        proof {
            if old(self).entries_nonempty() && input_delta(*item) > 0 {
                assert forall|e: int| 0 <= e < self.spec_entries().len() implies #[trigger] self.spec_entries()[e].spec_size()
                    > 0 by {
                    if e < old(self).spec_entries().len() {
                        assert(old(self).spec_entries()[e].spec_size() > 0);
                    }
                }
            }
        }
        proof {
            lemma_raised_refl(self.threshold);
        }
        if self.leaf_entries.len() > self.maxleaves && self.rebuild_count < usize::MAX {
            self.rebuild_tree();
        }
    }
}

} // verus!
