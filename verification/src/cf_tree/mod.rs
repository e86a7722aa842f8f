//! The CF-tree: a height-balanced tree of cluster features. Leaves hold the
//! indices of leaf entries, inner nodes the indices of their child nodes, and
//! every node carries the cluster feature of everything below it.

mod insert;
mod lemmas;
mod order;
mod rebuild;
pub mod seqs;
mod split;
mod steps;

use crate::cluster_feature::{is_empty_summary, merged_with, ClusterFeature, ClusterSummary};
use crate::distance::CFDistance;
use crate::types::{spec_le, spec_lt, Float};
use core::marker::PhantomData;
use seqs::sum_nat;
use vstd::prelude::*;

verus! {

/// Most children a node can have: the capacity, but two at least, as a
/// split root gets two children whatever the capacity.
pub open spec fn max_children(capacity: nat) -> nat {
    if capacity < 2 {
        2
    } else {
        capacity
    }
}

/// `new` holds the leaf entries of `old` after an insertion of `delta`
/// points centred at `centroid`: either one entry took them in, the others
/// staying as they were, or they became a new last entry.
pub open spec fn entries_after_insert<F: Float, CF: ClusterFeature<F>>(
    old: Seq<CF>,
    new: Seq<CF>,
    delta: nat,
    centroid: Seq<F>,
) -> bool {
    ||| exists|i: int|
        #![trigger new[i]]
        0 <= i < old.len() && new == old.update(i, new[i]) && new[i].spec_size() == old[i].spec_size()
            + delta
    ||| {
        &&& new.len() == old.len() + 1
        &&& new.drop_last() == old
        &&& new.last().spec_size() == delta
        &&& new.last().spec_centroid() == centroid
    }
}

/// `new` holds the leaf entries of `old` after an insertion of `delta`
/// points centred at `centroid` that the entry `absorber` took in, or that
/// became a new last entry when `absorber` is `None`.
pub open spec fn entries_after_absorb<F: Float, CF: ClusterFeature<F>>(
    old: Seq<CF>,
    new: Seq<CF>,
    absorber: Option<usize>,
    delta: nat,
    centroid: Seq<F>,
) -> bool {
    match absorber {
        Some(b) => {
            &&& b < old.len()
            &&& new == old.update(b as int, new[b as int])
            &&& new[b as int].spec_size() == old[b as int].spec_size() + delta
        },
        None => {
            &&& new.len() == old.len() + 1
            &&& new.drop_last() == old
            &&& new.last().spec_size() == delta
            &&& new.last().spec_centroid() == centroid
        },
    }
}

/// `new` holds the leaf entries `old` after an insertion: the entry
/// `absorber` took it in (`took(new entry, old entry)`), or, when `absorber`
/// is `None`, it was taken into an empty feature of dimensionality `dim` that
/// became the new last entry.
pub open spec fn entries_took<F: Float, CF: ClusterFeature<F>>(
    old: Seq<CF>,
    new: Seq<CF>,
    absorber: Option<usize>,
    took: spec_fn(CF, CF) -> bool,
    dim: nat,
) -> bool {
    match absorber {
        Some(b) => {
            &&& b < old.len()
            &&& new == old.update(b as int, new[b as int])
            &&& took(new[b as int], old[b as int])
        },
        None => {
            &&& new.len() == old.len() + 1
            &&& new.drop_last() == old
            &&& exists|f: CF| #[trigger] f.spec_fresh(dim) && took(new.last(), f)
        },
    }
}

/// The nodes `new` are the nodes `old` with the features of the nodes on
/// `path` having taken an insertion (`took(new feature, old feature)`) and
/// the other features unchanged.
pub open spec fn nodes_took<F: Float, CF: ClusterFeature<F>>(
    old: Seq<CFNode<F, CF>>,
    new: Seq<CFNode<F, CF>>,
    path: Seq<usize>,
    took: spec_fn(CF, CF) -> bool,
) -> bool {
    &&& new.len() == old.len()
    &&& forall|k: int|
        0 <= k < path.len() ==> took(
            new[#[trigger] path[k] as int].spec_cf(),
            old[path[k] as int].spec_cf(),
        )
    &&& forall|n: int|
        0 <= n < old.len() && !path.contains(n as usize) ==> (#[trigger] new[n]).spec_cf()
            == old[n].spec_cf()
}

/// `chain` merges `parts` one after the other into an empty feature of
/// dimensionality `dim`: `chain[k + 1]` is `chain[k]` with `parts[k]`
/// merged in.
pub open spec fn merge_chain<F: Float, CF: ClusterFeature<F>>(chain: Seq<CF>, parts: Seq<CF>, dim: nat) -> bool {
    &&& chain.len() == parts.len() + 1
    &&& chain[0].spec_fresh(dim)
    &&& forall|k: int| 0 <= k < parts.len() ==> merged_with(chain[k + 1], #[trigger] chain[k], parts[k])
}

/// `result` is what merging `parts` one after the other into an empty
/// feature of dimensionality `dim` gives.
pub open spec fn merge_of<F: Float, CF: ClusterFeature<F>>(result: CF, parts: Seq<CF>, dim: nat) -> bool {
    exists|chain: Seq<CF>| #[trigger] merge_chain(chain, parts, dim) && chain.last() == result
}

/// A node or entry took the point `x` in: `took_point(x)(new, old)`.
pub open spec fn took_point<F: Float, CF: ClusterFeature<F>>(x: Seq<F>) -> spec_fn(CF, CF) -> bool {
    |n: CF, o: CF| n.spec_added(o, x)
}

/// A node or entry took the feature `f` in: `took_feature(f)(new, old)`.
pub open spec fn took_feature<F: Float, CF: ClusterFeature<F>>(f: CF) -> spec_fn(CF, CF) -> bool {
    |n: CF, o: CF| merged_with(n, o, f)
}

/// The node features of `new`, after an insertion into `old` that went
/// down `path`: each node in `made` was made by a split and holds the merge
/// of its children's features; each node in `took` lies on `path` and took
/// the insertion in (`took_fn(new feature, old feature)`); every node of
/// `path` is one or the other, and so is every node added; every other node
/// kept its feature.
pub open spec fn nodes_after_insert<F: Float, CF: ClusterFeature<F>, D: CFDistance<F, CF>, A: CFDistance<
    F,
    CF,
>>(
    old: CFTree<F, CF, D, A>,
    new: CFTree<F, CF, D, A>,
    made: Set<usize>,
    took: Set<usize>,
    path: Seq<usize>,
    took_fn: spec_fn(CF, CF) -> bool,
) -> bool {
    &&& new.spec_nodes().len() >= old.spec_nodes().len()
    &&& forall|m: usize|
        #[trigger] made.contains(m) ==> m < new.spec_nodes().len() && merge_of(
            new.spec_nodes()[m as int].spec_cf(),
            new.child_cfs(m as int),
            new.spec_dim(),
        )
    &&& forall|n: usize|
        #[trigger] took.contains(n) ==> path.contains(n) && n < old.spec_nodes().len() && !made.contains(n)
            && took_fn(new.spec_nodes()[n as int].spec_cf(), old.spec_nodes()[n as int].spec_cf())
    &&& forall|k: int| 0 <= k < path.len() ==> made.contains(#[trigger] path[k]) || took.contains(path[k])
    &&& forall|n: int| old.spec_nodes().len() <= n < new.spec_nodes().len() ==> #[trigger] made.contains(n as usize)
    &&& forall|n: int|
        0 <= n < old.spec_nodes().len() && !made.contains(n as usize) && !took.contains(n as usize) ==> (
        #[trigger] new.spec_nodes()[n]).spec_cf() == old.spec_nodes()[n].spec_cf()
}

/// `trees` inserts the points `xs` one after the other.
pub open spec fn point_chain<F: Float, CF: ClusterFeature<F>, D: CFDistance<F, CF>, A: CFDistance<F, CF>>(
    trees: Seq<CFTree<F, CF, D, A>>,
    xs: Seq<Seq<F>>,
) -> bool {
    &&& trees.len() == xs.len() + 1
    &&& forall|k: int| 0 <= k < xs.len() ==> point_inserted(#[trigger] trees[k], trees[k + 1], xs[k])
}

/// Over any run of point insertions into a fresh tree: the tree stays
/// consistent with its parameters, the root summarizes every point
/// inserted, no entry is empty, there are no more entries than points, the
/// rebuild count never decreases and stays zero while the points fit in
/// `maxleaves`, and the threshold is never lowered.
pub proof fn lemma_point_chain<F: Float, CF: ClusterFeature<F>, D: CFDistance<F, CF>, A: CFDistance<F, CF>>(
    trees: Seq<CFTree<F, CF, D, A>>,
    xs: Seq<Seq<F>>,
    dim: nat,
    capacity: nat,
    maxleaves: nat,
    threshold: F,
)
    requires
        trees.len() >= 1,
        fresh_tree(trees[0], dim, capacity, maxleaves, threshold),
        point_chain(trees, xs),
    ensures
        forall|k: int|
            0 <= k < trees.len() ==> (#[trigger] trees[k]).wf() && trees[k].spec_dim() == dim
                && trees[k].spec_capacity() == capacity && trees[k].spec_maxleaves() == maxleaves,
        trees.last().total_size() == xs.len(),
        trees.last().spec_root() < trees.last().spec_nodes().len(),
        trees.last().spec_nodes()[trees.last().spec_root() as int].spec_cf().spec_size() == xs.len(),
        trees.last().entries_nonempty(),
        trees.last().spec_entries().len() <= xs.len(),
        xs.len() <= maxleaves ==> trees.last().spec_rebuild_count() == 0,
        forall|i: int, j: int|
            0 <= i <= j < trees.len() ==> (#[trigger] trees[i]).spec_rebuild_count()
                <= (#[trigger] trees[j]).spec_rebuild_count(),
        threshold_raised(threshold, trees.last().spec_threshold()),
    decreases xs.len(),
{
    if xs.len() == 0 {
        lemma_raised_refl(threshold);
        trees[0].lemma_root_size();
    } else {
        let t = trees.drop_last();
        let ys = xs.drop_last();
        assert forall|k: int| 0 <= k < ys.len() implies point_inserted(#[trigger] t[k], t[k + 1], ys[k]) by {
            assert(point_inserted(trees[k], trees[k + 1], xs[k]));
        }
        lemma_point_chain(t, ys, dim, capacity, maxleaves, threshold);
        let n = xs.len() - 1;
        assert(point_inserted(trees[n], trees[n + 1], xs[n]));
        assert(t.last() == trees[n]);
        lemma_raised_trans(threshold, trees[n].spec_threshold(), trees.last().spec_threshold());
        trees.last().lemma_root_size();
        assert forall|k: int| 0 <= k < trees.len() implies (#[trigger] trees[k]).wf() && trees[k].spec_dim() == dim
            && trees[k].spec_capacity() == capacity && trees[k].spec_maxleaves() == maxleaves by {
            if k < t.len() {
                assert(trees[k] == t[k]);
            }
        }
        assert forall|i: int, j: int|
            0 <= i <= j < trees.len() implies (#[trigger] trees[i]).spec_rebuild_count()
                <= (#[trigger] trees[j]).spec_rebuild_count() by {
            if j < t.len() {
                assert(trees[i] == t[i] && trees[j] == t[j]);
            } else if i < t.len() {
                assert(trees[i] == t[i] && t[n] == trees[n]);
                assert(t[i].spec_rebuild_count() <= t[n].spec_rebuild_count());
            }
        }
        if xs.len() <= maxleaves {
            assert(trees[n].spec_entries().len() <= n);
            assert(trees[n].spec_rebuild_count() == 0);
        }
    }
}

/// `b` is `a` or compares above it.
pub open spec fn raised_or_kept<F: Float>(a: F, b: F) -> bool {
    b == a || spec_lt(a, b)
}

/// `s` leads from `a` to `b`, each step keeping the value or replacing it
/// by one that compares above it.
pub open spec fn raise_chain<F: Float>(s: Seq<F>, a: F, b: F) -> bool {
    &&& s.len() >= 1
    &&& s[0] == a
    &&& s.last() == b
    &&& forall|k: int| 0 <= k < s.len() - 1 ==> raised_or_kept(#[trigger] s[k], s[k + 1])
}

/// The threshold went from `a` to `b` without ever being lowered: through
/// steps each of which kept it or raised it.
pub open spec fn threshold_raised<F: Float>(a: F, b: F) -> bool {
    exists|s: Seq<F>| #[trigger] raise_chain(s, a, b)
}

/// A threshold that was kept was not lowered.
pub proof fn lemma_raised_refl<F: Float>(a: F)
    ensures
        threshold_raised(a, a),
{
    assert(raise_chain(seq![a], a, a));
}

/// One step that keeps or raises the threshold does not lower it.
pub proof fn lemma_raised_step<F: Float>(a: F, b: F)
    requires
        raised_or_kept(a, b),
    ensures
        threshold_raised(a, b),
{
    let s = seq![a, b];
    assert(raise_chain(s, a, b));
}

/// Never lowered, then never lowered: never lowered.
pub proof fn lemma_raised_trans<F: Float>(a: F, b: F, c: F)
    requires
        threshold_raised(a, b),
        threshold_raised(b, c),
    ensures
        threshold_raised(a, c),
{
    let s1 = choose|s: Seq<F>| #[trigger] raise_chain(s, a, b);
    let s2 = choose|s: Seq<F>| #[trigger] raise_chain(s, b, c);
    let s = s1 + s2.drop_first();
    assert forall|k: int| 0 <= k < s.len() - 1 implies raised_or_kept(#[trigger] s[k], s[k + 1]) by {
        if k < s1.len() - 1 {
            assert(s[k] == s1[k] && s[k + 1] == s1[k + 1]);
        } else if k == s1.len() - 1 {
            assert(s[k] == b && s[k + 1] == s2[1]);
            assert(s2[0] == b);
        } else {
            let j = k - s1.len() + 1;
            assert(s[k] == s2[j] && s[k + 1] == s2[j + 1]);
        }
    }
    if s2.len() == 1 {
        assert(s.last() == s1.last());
    } else {
        assert(s.last() == s2.last());
    }
    assert(raise_chain(s, a, c));
}

/// `t` is a consistent tree without points, as `CFTree::new` makes it.
pub open spec fn fresh_tree<F: Float, CF: ClusterFeature<F>, D: CFDistance<F, CF>, A: CFDistance<F, CF>>(
    t: CFTree<F, CF, D, A>,
    dim: nat,
    capacity: nat,
    maxleaves: nat,
    threshold: F,
) -> bool {
    &&& t.wf()
    &&& t.spec_entries().len() == 0
    &&& t.total_size() == 0
    &&& t.spec_dim() == dim
    &&& t.spec_capacity() == capacity
    &&& t.spec_maxleaves() == maxleaves
    &&& t.spec_threshold() == threshold
    &&& t.spec_rebuild_count() == 0
}

/// `new` is what `CFTree::insert` may make of `old` with the point `x`.
pub open spec fn point_inserted<F: Float, CF: ClusterFeature<F>, D: CFDistance<F, CF>, A: CFDistance<
    F,
    CF,
>>(old: CFTree<F, CF, D, A>, new: CFTree<F, CF, D, A>, x: Seq<F>) -> bool {
    &&& new.wf()
    &&& new.total_size() == old.total_size() + 1
    &&& new.spec_entries().len() <= old.spec_entries().len() + 1
    &&& new.spec_rebuild_count() >= old.spec_rebuild_count()
    &&& (old.entries_nonempty() ==> new.entries_nonempty())
    &&& (old.spec_entries().len() + (if old.point_absorber(x) is None {
        1int
    } else {
        0int
    }) <= old.spec_maxleaves() ==> new.spec_rebuild_count() == old.spec_rebuild_count())
    &&& (old.spec_entries().len() + (if old.point_absorber(x) is None {
        1int
    } else {
        0int
    }) > old.spec_maxleaves() && old.spec_rebuild_count() < usize::MAX ==> new.spec_rebuild_count()
        > old.spec_rebuild_count())
    &&& (new.spec_rebuild_count() == old.spec_rebuild_count() ==> new.spec_threshold()
        == old.spec_threshold())
    &&& threshold_raised(old.spec_threshold(), new.spec_threshold())
    &&& (new.spec_rebuild_count() == old.spec_rebuild_count() ==> entries_after_absorb(
        old.spec_entries(),
        new.spec_entries(),
        old.point_absorber(x),
        1,
        x.subrange(0, old.spec_dim() as int),
    ))
    &&& (new.spec_rebuild_count() == old.spec_rebuild_count() ==> entries_took(
        old.spec_entries(),
        new.spec_entries(),
        old.point_absorber(x),
        |n: CF, o: CF| n.spec_added(o, x),
        old.spec_dim(),
    ))
    &&& (new.spec_rebuild_count() == old.spec_rebuild_count() && !old.point_splits(x) ==> nodes_took(
        old.spec_nodes(),
        new.spec_nodes(),
        old.point_path(x),
        |n: CF, o: CF| n.spec_added(o, x),
    ))
    &&& (new.spec_rebuild_count() == old.spec_rebuild_count() ==> exists|made: Set<usize>, took: Set<usize>|
        #[trigger] nodes_after_insert(old, new, made, took, old.point_path(x), took_point(x)))
    &&& new.spec_dim() == old.spec_dim()
    &&& new.spec_capacity() == old.spec_capacity()
    &&& new.spec_maxleaves() == old.spec_maxleaves()
}

/// `new` is what `CFTree::insert_unchecked_cf` may make of `old` with the
/// feature `f`.
pub open spec fn feature_inserted<F: Float, CF: ClusterFeature<F>, D: CFDistance<F, CF>, A: CFDistance<
    F,
    CF,
>>(old: CFTree<F, CF, D, A>, new: CFTree<F, CF, D, A>, f: CF) -> bool {
    &&& new.wf()
    &&& new.total_size() == old.total_size() + f.spec_size()
    &&& new.spec_entries().len() <= old.spec_entries().len() + 1
    &&& new.spec_rebuild_count() >= old.spec_rebuild_count()
    &&& (old.spec_entries().len() + (if old.feature_absorber(f) is None {
        1int
    } else {
        0int
    }) <= old.spec_maxleaves() ==> new.spec_rebuild_count() == old.spec_rebuild_count())
    &&& (old.spec_entries().len() + (if old.feature_absorber(f) is None {
        1int
    } else {
        0int
    }) > old.spec_maxleaves() && old.spec_rebuild_count() < usize::MAX ==> new.spec_rebuild_count()
        > old.spec_rebuild_count())
    &&& (new.spec_rebuild_count() == old.spec_rebuild_count() ==> new.spec_threshold()
        == old.spec_threshold())
    &&& threshold_raised(old.spec_threshold(), new.spec_threshold())
    &&& (new.spec_rebuild_count() == old.spec_rebuild_count() ==> entries_took(
        old.spec_entries(),
        new.spec_entries(),
        old.feature_absorber(f),
        |n: CF, o: CF| merged_with(n, o, f),
        old.spec_dim(),
    ))
    &&& (new.spec_rebuild_count() == old.spec_rebuild_count() && !old.feature_splits(f) ==> nodes_took(
        old.spec_nodes(),
        new.spec_nodes(),
        old.feature_path(f),
        |n: CF, o: CF| merged_with(n, o, f),
    ))
    &&& (new.spec_rebuild_count() == old.spec_rebuild_count() ==> exists|made: Set<usize>, took: Set<usize>|
        #[trigger] nodes_after_insert(old, new, made, took, old.feature_path(f), took_feature(f)))
    &&& new.spec_dim() == old.spec_dim()
    &&& new.spec_capacity() == old.spec_capacity()
    &&& new.spec_maxleaves() == old.spec_maxleaves()
}

/// `trees` reinserts the entries `entries` one after the other, last in
/// `order` first, each as a whole feature.
pub open spec fn reinserts<F: Float, CF: ClusterFeature<F>, D: CFDistance<F, CF>, A: CFDistance<F, CF>>(
    trees: Seq<CFTree<F, CF, D, A>>,
    entries: Seq<CF>,
    order: Seq<usize>,
) -> bool {
    &&& trees.len() == order.len() + 1
    &&& forall|k: int|
        0 <= k < order.len() ==> feature_inserted(
            #[trigger] trees[k],
            trees[k + 1],
            entries[order[order.len() - 1 - k] as int],
        )
}

/// `t` is a consistent tree without leaf entries, with the given parameters,
/// threshold and rebuild count.
pub open spec fn cleared_tree<F: Float, CF: ClusterFeature<F>, D: CFDistance<F, CF>, A: CFDistance<F, CF>>(
    t: CFTree<F, CF, D, A>,
    dim: nat,
    capacity: nat,
    maxleaves: nat,
    threshold: F,
    rebuild_count: nat,
) -> bool {
    &&& t.wf()
    &&& t.spec_entries().len() == 0
    &&& t.total_size() == 0
    &&& t.spec_dim() == dim
    &&& t.spec_capacity() == capacity
    &&& t.spec_maxleaves() == maxleaves
    &&& t.spec_threshold() == threshold
    &&& t.spec_rebuild_count() == rebuild_count
}

/// Tree node holding a cluster feature and the indices of its children:
/// leaf entries for a leaf, nodes otherwise.
pub struct CFNode<F, C> {
    pub(crate) cf: C,
    pub(crate) children: Vec<usize>,
    pub(crate) is_leaf: bool,
    pub(crate) _marker: PhantomData<F>,
}

impl<F: Float, C: ClusterFeature<F>> CFNode<F, C> {
    /// Indices of the children.
    pub closed spec fn spec_kids(&self) -> Seq<usize> {
        self.children@
    }

    /// The node's cluster feature.
    pub closed spec fn spec_cf(&self) -> C {
        self.cf
    }

    pub closed spec fn spec_is_leaf(&self) -> bool {
        self.is_leaf
    }

    pub fn new(dim: usize, capacity: usize, is_leaf: bool) -> (r: Self)
        requires
            C::dim_supported(dim as nat),
        ensures
            r.spec_cf().inv(),
            r.spec_cf().spec_size() == 0,
            r.spec_cf().spec_dim() == dim,
            r.spec_cf().spec_fresh(dim as nat),
            is_empty_summary(r.spec_cf(), dim as nat),
            r.spec_kids().len() == 0,
            r.spec_is_leaf() == is_leaf,
    {
        CFNode {
            cf: C::new(dim),
            children: Vec::with_capacity(capacity),
            is_leaf,
            _marker: PhantomData,
        }
    }

    pub fn is_leaf(&self) -> (r: bool)
        ensures
            r == self.spec_is_leaf(),
    {
        self.is_leaf
    }

    pub fn add_child(&mut self, child_id: usize)
        ensures
            final(self).spec_kids() == old(self).spec_kids().push(child_id),
            final(self).spec_cf() == old(self).spec_cf(),
            final(self).spec_is_leaf() == old(self).spec_is_leaf(),
    {
        self.children.push(child_id);
    }

    pub fn children(&self) -> (r: &[usize])
        ensures
            r@ == self.spec_kids(),
    {
        self.children.as_slice()
    }

    pub fn get_child(&self, i: usize) -> (r: usize)
        requires
            i < self.spec_kids().len(),
        ensures
            r == self.spec_kids()[i as int],
    {
        self.children[i]
    }

    pub fn num_childs(&self) -> (r: usize)
        ensures
            r == self.spec_kids().len(),
    {
        self.children.len()
    }

    pub fn as_cf(&self) -> (r: &C)
        ensures
            *r == self.spec_cf(),
    {
        &self.cf
    }

    pub fn as_mut_cf(&mut self) -> (r: &mut C)
        ensures
            *r == old(self).spec_cf(),
            final(self).spec_cf() == *final(r),
            final(self).spec_kids() == old(self).spec_kids(),
            final(self).spec_is_leaf() == old(self).spec_is_leaf(),
    {
        &mut self.cf
    }
}

/// A CF-tree over cluster features of type `CF`; `D` routes points down the
/// tree and `A` decides whether a leaf entry absorbs them.
///
/// Nodes and leaf entries live in two vectors and refer to each other by
/// index. The ghost fields record, for every node, its height above the
/// leaves and its parent, and for every leaf entry the leaf holding it.
pub struct CFTree<F, CF, D, A> {
    pub(crate) dist_function: D,
    pub(crate) abs_function: A,
    pub(crate) capacity: usize,
    pub(crate) dim: usize,
    pub(crate) maxleaves: usize,
    pub(crate) root: usize,
    pub(crate) threshold: F,
    pub(crate) rebuild_count: usize,
    pub(crate) nodes: Vec<CFNode<F, CF>>,
    pub(crate) leaf_entries: Vec<CF>,
    pub(crate) levels: Ghost<Seq<nat>>,
    pub(crate) parents: Ghost<Seq<nat>>,
    pub(crate) owners: Ghost<Seq<nat>>,
}

impl<F: Float, CF: ClusterFeature<F>, D: CFDistance<F, CF>, A: CFDistance<F, CF>> CFTree<
    F,
    CF,
    D,
    A,
> {
    // ── Public model ──
    pub closed spec fn spec_nodes(&self) -> Seq<CFNode<F, CF>> {
        self.nodes@
    }

    pub closed spec fn spec_entries(&self) -> Seq<CF> {
        self.leaf_entries@
    }

    pub closed spec fn spec_root(&self) -> nat {
        self.root as nat
    }

    pub closed spec fn spec_dim(&self) -> nat {
        self.dim as nat
    }

    pub closed spec fn spec_capacity(&self) -> nat {
        self.capacity as nat
    }

    pub closed spec fn spec_maxleaves(&self) -> nat {
        self.maxleaves as nat
    }

    pub closed spec fn spec_threshold(&self) -> F {
        self.threshold
    }

    /// The routing distance.
    pub closed spec fn spec_routing(&self) -> D {
        self.dist_function
    }

    /// The absorption distance.
    pub closed spec fn spec_absorption(&self) -> A {
        self.abs_function
    }

    pub closed spec fn spec_rebuild_count(&self) -> nat {
        self.rebuild_count as nat
    }

    /// Sizes of the leaf entries, in storage order.
    pub closed spec fn entry_sizes(&self) -> Seq<nat> {
        self.leaf_entries@.map_values(|c: CF| c.spec_size())
    }

    /// Number of points summarized by the leaf entries.
    pub closed spec fn total_size(&self) -> nat {
        sum_nat(self.entry_sizes())
    }

    /// Sizes of the children of node `n`: leaf entries for a leaf, nodes
    /// otherwise.
    pub closed spec fn kid_sizes(&self, n: int) -> Seq<nat> {
        self.child_effs(Seq::empty(), 0, n)
    }

    /// The tree is consistent: see `pending`.
    pub closed spec fn wf(&self) -> bool {
        &&& self.pending(Seq::empty(), 0, None)
        &&& CF::dim_supported(self.dim as nat)
    }

    // ── Structure ──
    pub closed spec fn kid_ok(&self, n: int, c: usize) -> bool {
        if self.nodes@[n].is_leaf {
            &&& c < self.leaf_entries@.len()
            &&& self.owners@[c as int] == n
        } else {
            &&& c < self.nodes@.len()
            &&& self.parents@[c as int] == n
            &&& self.levels@[c as int] + 1 == self.levels@[n]
        }
    }

    /// Node `n` is listed among the children of its recorded parent, one
    /// level up.
    pub closed spec fn linked(&self, n: int) -> bool {
        let p = self.parents@[n];
        &&& p < self.nodes@.len()
        &&& self.nodes@[p as int].children@.contains(n as usize)
        &&& self.levels@[p as int] == self.levels@[n] + 1
    }

    pub closed spec fn node_ok(&self, n: int, orphan: Option<usize>) -> bool {
        let node = self.nodes@[n];
        let kids = node.children@;
        &&& (node.is_leaf <==> self.levels@[n] == 0)
        &&& self.levels@[n] <= self.levels@[self.root as int]
        &&& kids.no_duplicates()
        &&& (!node.is_leaf ==> kids.len() > 0)
        &&& kids.len() <= max_children(self.capacity as nat)
        &&& forall|k: int| 0 <= k < kids.len() ==> self.kid_ok(n, #[trigger] kids[k])
        &&& (n != self.root && orphan != Some(n as usize) ==> self.linked(n))
        &&& node.cf.inv()
        &&& node.cf.spec_dim() == self.dim
    }

    pub closed spec fn entry_ok(&self, e: int) -> bool {
        let o = self.owners@[e];
        &&& o < self.nodes@.len()
        &&& self.nodes@[o as int].is_leaf
        &&& self.nodes@[o as int].children@.contains(e as usize)
        &&& self.leaf_entries@[e].inv()
        &&& self.leaf_entries@[e].spec_dim() == self.dim
    }

    pub closed spec fn shape_ok(&self, orphan: Option<usize>) -> bool {
        &&& 0 < self.nodes@.len()
        &&& self.root < self.nodes@.len()
        &&& self.levels@.len() == self.nodes@.len()
        &&& self.parents@.len() == self.nodes@.len()
        &&& self.owners@.len() == self.leaf_entries@.len()
        &&& forall|n: int| 0 <= n < self.nodes@.len() ==> #[trigger] self.node_ok(n, orphan)
        &&& forall|e: int| 0 <= e < self.leaf_entries@.len() ==> #[trigger] self.entry_ok(e)
    }

    /// `p` is a path down from the root, one level per step.
    pub closed spec fn chain(&self, p: Seq<usize>) -> bool {
        &&& p.len() <= self.levels@[self.root as int] + 1
        &&& p.len() > 0 ==> p[0] == self.root
        &&& forall|k: int|
            0 <= k < p.len() ==> (#[trigger] p[k]) < self.nodes@.len() && self.levels@[p[k] as int]
                + k == self.levels@[self.root as int]
        &&& forall|k: int|
            0 <= k < p.len() - 1 ==> self.parents@[(#[trigger] p[k + 1]) as int] == p[k]
                && self.nodes@[p[k] as int].children@.contains(p[k + 1])
    }

    /// The node `o`, split off below the end of `p` (or off the root when `p`
    /// is empty), is not yet listed as a child.
    pub closed spec fn orphan_ok(&self, p: Seq<usize>, orphan: Option<usize>) -> bool {
        match orphan {
            None => true,
            Some(o) => {
                &&& o < self.nodes@.len()
                &&& o != self.root
                &&& if p.len() > 0 {
                    &&& self.parents@[o as int] == p.last()
                    &&& self.levels@[o as int] + 1 == self.levels@[p.last() as int]
                    &&& !self.nodes@[p.last() as int].children@.contains(o)
                } else {
                    self.levels@[o as int] == self.levels@[self.root as int]
                }
            },
        }
    }

    // ── Sizes ──
    /// Size of node `n` once the pending addition of `delta` points to the
    /// nodes of `p` is made.
    pub closed spec fn eff(&self, p: Seq<usize>, delta: nat, n: int) -> nat {
        self.nodes@[n].cf.spec_size() + if p.contains(n as usize) {
            delta
        } else {
            0
        }
    }

    pub closed spec fn child_eff(&self, p: Seq<usize>, delta: nat, n: int, c: usize) -> nat {
        if self.nodes@[n].is_leaf {
            self.leaf_entries@[c as int].spec_size()
        } else {
            self.eff(p, delta, c as int)
        }
    }

    pub closed spec fn child_effs(&self, p: Seq<usize>, delta: nat, n: int) -> Seq<nat> {
        self.nodes@[n].children@.map_values(|c: usize| self.child_eff(p, delta, n, c))
    }

    pub closed spec fn orphan_term(&self, p: Seq<usize>, orphan: Option<usize>, n: int) -> nat {
        match orphan {
            Some(o) => if p.len() > 0 && n == p.last() {
                self.nodes@[o as int].cf.spec_size()
            } else {
                0
            },
            None => 0,
        }
    }

    pub closed spec fn root_term(&self, p: Seq<usize>, orphan: Option<usize>) -> nat {
        match orphan {
            Some(o) => if p.len() == 0 {
                self.nodes@[o as int].cf.spec_size()
            } else {
                0
            },
            None => 0,
        }
    }

    pub closed spec fn size_ok(&self, p: Seq<usize>, delta: nat, orphan: Option<usize>, n: int) -> bool {
        self.eff(p, delta, n) == sum_nat(self.child_effs(p, delta, n)) + self.orphan_term(
            p,
            orphan,
            n,
        )
    }

    pub closed spec fn sizes_ok(&self, p: Seq<usize>, delta: nat, orphan: Option<usize>) -> bool {
        &&& forall|n: int| 0 <= n < self.nodes@.len() ==> #[trigger] self.size_ok(p, delta, orphan, n)
        &&& self.eff(p, delta, self.root as int) + self.root_term(p, orphan) == self.total_size()
    }

    /// The tree is consistent except that the nodes of the path `p` still
    /// lack `delta` points that their subtrees hold, and that `orphan`, when
    /// present, is not yet attached.
    pub closed spec fn pending(&self, p: Seq<usize>, delta: nat, orphan: Option<usize>) -> bool {
        &&& self.shape_ok(orphan)
        &&& self.chain(p)
        &&& self.orphan_ok(p, orphan)
        &&& self.sizes_ok(p, delta, orphan)
    }

    /// Every leaf entry summarizes at least one point.
    pub open spec fn entries_nonempty(&self) -> bool {
        forall|e: int| 0 <= e < self.spec_entries().len() ==> #[trigger] self.spec_entries()[e].spec_size() > 0
    }

    // ── Where an insertion goes ──
    /// The best of the first `i` (at least one) of `cfs` under `dist`, with
    /// its position: a later one replaces the best only when strictly
    /// nearer.
    pub closed spec fn nearest_scan(&self, cfs: Seq<CF>, dist: spec_fn(CF) -> F, i: int) -> (F, int)
        decreases i,
    {
        if i <= 1 {
            (dist(cfs[0]), 0)
        } else {
            let st = self.nearest_scan(cfs, dist, i - 1);
            let d = dist(cfs[i - 1]);
            if spec_lt(d, st.0) {
                (d, i - 1)
            } else {
                st
            }
        }
    }

    /// Position of the first of `cfs` nearest under `dist`.
    pub closed spec fn nearest_pos(&self, cfs: Seq<CF>, dist: spec_fn(CF) -> F) -> int {
        self.nearest_scan(cfs, dist, cfs.len() as int).1
    }

    /// Cluster features of the nodes `ids`.
    pub closed spec fn node_cfs(&self, ids: Seq<usize>) -> Seq<CF> {
        ids.map_values(|c: usize| self.nodes@[c as int].cf)
    }

    /// The features of the children of node `n`: its leaf entries for a
    /// leaf, the features of its child nodes otherwise.
    pub closed spec fn child_cfs(&self, n: int) -> Seq<CF> {
        let kids = self.nodes@[n].children@;
        if self.nodes@[n].is_leaf {
            self.entry_cfs(kids)
        } else {
            self.node_cfs(kids)
        }
    }

    /// The leaf entries `ids`.
    pub closed spec fn entry_cfs(&self, ids: Seq<usize>) -> Seq<CF> {
        ids.map_values(|c: usize| self.leaf_entries@[c as int])
    }

    /// The leaf reached from node `n` by going down, `fuel` levels at most,
    /// to the child nearest under `route`.
    pub closed spec fn descend(&self, route: spec_fn(CF) -> F, n: int, fuel: nat) -> int
        decreases fuel,
    {
        if fuel == 0 || self.nodes@[n].is_leaf {
            n
        } else {
            let kids = self.nodes@[n].children@;
            self.descend(
                route,
                kids[self.nearest_pos(self.node_cfs(kids), route)] as int,
                (fuel - 1) as nat,
            )
        }
    }

    /// The nodes from node `n` down to the leaf reached by going to the
    /// child nearest under `route`, `fuel` levels at most.
    pub closed spec fn descend_path(&self, route: spec_fn(CF) -> F, n: int, fuel: nat) -> Seq<usize>
        decreases fuel,
    {
        if fuel == 0 || self.nodes@[n].is_leaf {
            seq![n as usize]
        } else {
            let kids = self.nodes@[n].children@;
            seq![n as usize] + self.descend_path(
                route,
                kids[self.nearest_pos(self.node_cfs(kids), route)] as int,
                (fuel - 1) as nat,
            )
        }
    }

    /// The nodes an input with routing distances `route` passes through from
    /// the root down to its leaf.
    pub closed spec fn target_path(&self, route: spec_fn(CF) -> F) -> Seq<usize> {
        self.descend_path(route, self.root as int, self.levels@[self.root as int])
    }

    /// An input with routing distances `route` and absorption distances
    /// `absorb` makes a new entry in a leaf that is full: the leaf is split.
    pub closed spec fn splits_by(&self, route: spec_fn(CF) -> F, absorb: spec_fn(CF) -> F) -> bool {
        let kids = self.nodes@[self.target_leaf(route)].children@;
        &&& self.absorber_by(route, absorb) is None
        &&& kids.len() > 0
        &&& kids.len() >= self.capacity
    }

    /// The nodes the point `x` passes through from the root down to its
    /// leaf.
    pub closed spec fn point_path(&self, x: Seq<F>) -> Seq<usize> {
        self.target_path(|c: CF| self.dist_function.spec_sq_dist(c, x, self.dim as nat))
    }

    /// Inserting the point `x` splits its leaf.
    pub closed spec fn point_splits(&self, x: Seq<F>) -> bool {
        self.splits_by(
            |c: CF| self.dist_function.spec_sq_dist(c, x, self.dim as nat),
            |c: CF| self.abs_function.spec_sq_dist(c, x, self.dim as nat),
        )
    }

    /// The nodes the feature `f` passes through from the root down to its
    /// leaf.
    pub closed spec fn feature_path(&self, f: CF) -> Seq<usize> {
        self.target_path(|c: CF| self.dist_function.spec_sq_dist_cf(c, f, self.dim as nat))
    }

    /// Inserting the feature `f` splits its leaf.
    pub closed spec fn feature_splits(&self, f: CF) -> bool {
        self.splits_by(
            |c: CF| self.dist_function.spec_sq_dist_cf(c, f, self.dim as nat),
            |c: CF| self.abs_function.spec_sq_dist_cf(c, f, self.dim as nat),
        )
    }

    /// The leaf that an input with routing distances `route` descends to
    /// from the root.
    pub closed spec fn target_leaf(&self, route: spec_fn(CF) -> F) -> int {
        self.descend(route, self.root as int, self.levels@[self.root as int])
    }

    /// The entry of `leaf` that absorbs an input: the entry nearest under
    /// `route`, when its distance under `absorb` is within the threshold.
    pub closed spec fn leaf_absorber(
        &self,
        leaf: int,
        route: spec_fn(CF) -> F,
        absorb: spec_fn(CF) -> F,
    ) -> Option<usize> {
        let kids = self.nodes@[leaf].children@;
        if kids.len() == 0 {
            None
        } else {
            let b = kids[self.nearest_pos(self.entry_cfs(kids), route)];
            if spec_le(absorb(self.leaf_entries@[b as int]), self.threshold) {
                Some(b)
            } else {
                None
            }
        }
    }

    /// The leaf entry that absorbs an input with routing distances `route`
    /// and absorption distances `absorb`; `None` when it becomes a new
    /// entry.
    pub closed spec fn absorber_by(&self, route: spec_fn(CF) -> F, absorb: spec_fn(CF) -> F) -> Option<
        usize,
    > {
        self.leaf_absorber(self.target_leaf(route), route, absorb)
    }

    /// The leaf entry that absorbs the point `x`, if one does.
    pub closed spec fn point_absorber(&self, x: Seq<F>) -> Option<usize> {
        self.absorber_by(
            |c: CF| self.dist_function.spec_sq_dist(c, x, self.dim as nat),
            |c: CF| self.abs_function.spec_sq_dist(c, x, self.dim as nat),
        )
    }

    /// The leaf entry that absorbs the feature `f`, if one does.
    pub closed spec fn feature_absorber(&self, f: CF) -> Option<usize> {
        self.absorber_by(
            |c: CF| self.dist_function.spec_sq_dist_cf(c, f, self.dim as nat),
            |c: CF| self.abs_function.spec_sq_dist_cf(c, f, self.dim as nat),
        )
    }

    // ── Constructor and accessors ──
    pub fn new(dist: D, abs: A, capacity: usize, dim: usize, maxleaves: usize, threshold: F) -> (r:
        Self)
        requires
            CF::dim_supported(dim as nat),
        ensures
            r.wf(),
            r.spec_entries().len() == 0,
            r.total_size() == 0,
            r.spec_dim() == dim,
            r.spec_capacity() == capacity,
            r.spec_maxleaves() == maxleaves,
            r.spec_threshold() == threshold,
            r.spec_rebuild_count() == 0,
            r.entries_nonempty(),
            r.spec_root() == 0,
            r.spec_nodes().len() == 1,
            r.spec_nodes()[0].spec_is_leaf(),
            r.spec_nodes()[0].spec_kids().len() == 0,
            r.spec_nodes()[0].spec_cf().spec_size() == 0,
    {
        let mut nodes: Vec<CFNode<F, CF>> = Vec::new();
        nodes.push(CFNode::new(dim, capacity, true));
        let ghost lv: Seq<nat> = seq![0nat];
        let ghost ow: Seq<nat> = Seq::empty();
        let r = CFTree {
            dist_function: dist,
            abs_function: abs,
            capacity,
            dim,
            maxleaves,
            root: 0,
            threshold,
            rebuild_count: 0,
            nodes,
            leaf_entries: Vec::with_capacity(maxleaves),
            levels: Ghost(lv),
            parents: Ghost(lv),
            owners: Ghost(ow),
        };
        proof {
            assert(r.node_ok(0, None));
            assert(r.size_ok(Seq::empty(), 0, None, 0)) by {
                assert(r.child_effs(Seq::empty(), 0, 0) =~= Seq::empty());
            }
            assert(r.entry_sizes() =~= Seq::empty());
        }
        r
    }

    pub fn dim(&self) -> (r: usize)
        ensures
            r == self.spec_dim(),
    {
        self.dim
    }

    pub fn root(&self) -> (r: usize)
        ensures
            r == self.spec_root(),
    {
        self.root
    }

    pub fn nodes(&self) -> (r: &[CFNode<F, CF>])
        ensures
            r@ == self.spec_nodes(),
    {
        self.nodes.as_slice()
    }

    pub fn leaf_entries(&self) -> (r: &[CF])
        ensures
            r@ == self.spec_entries(),
    {
        self.leaf_entries.as_slice()
    }

    /// Number of points in the tree: the size of the root.
    pub fn num_points(&self) -> (r: usize)
        requires
            self.wf(),
        ensures
            r == self.total_size(),
    {
        self.nodes[self.root].cf.size()
    }

    pub fn threshold(&self) -> (r: F)
        ensures
            r == self.spec_threshold(),
    {
        self.threshold
    }

    pub fn rebuild_count(&self) -> (r: usize)
        ensures
            r == self.spec_rebuild_count(),
    {
        self.rebuild_count
    }

    /// Inserts a point; only its first `dim` coordinates are read.
    pub fn insert(&mut self, x: &[F])
        requires
            old(self).wf(),
            x@.len() >= old(self).spec_dim(),
            2 * (old(self).total_size() + 1) <= usize::MAX,
        ensures
            final(self).wf(),
            final(self).total_size() == old(self).total_size() + 1,
            final(self).spec_entries().len() <= old(self).spec_entries().len() + 1,
            final(self).spec_entries().len() <= final(self).spec_maxleaves()
                || final(self).spec_rebuild_count() == usize::MAX,
            final(self).spec_rebuild_count() >= old(self).spec_rebuild_count(),
            old(self).spec_entries().len() < old(self).spec_maxleaves() ==> final(self).spec_rebuild_count()
                == old(self).spec_rebuild_count(),
            old(self).spec_entries().len() + (if old(self).point_absorber(x@) is None {
                1int
            } else {
                0int
            }) <= old(self).spec_maxleaves() ==> final(self).spec_rebuild_count()
                == old(self).spec_rebuild_count(),
            old(self).spec_entries().len() + (if old(self).point_absorber(x@) is None {
                1int
            } else {
                0int
            }) > old(self).spec_maxleaves() && old(self).spec_rebuild_count() < usize::MAX
                ==> final(self).spec_rebuild_count() > old(self).spec_rebuild_count(),
            old(self).entries_nonempty() ==> final(self).entries_nonempty(),
            threshold_raised(old(self).spec_threshold(), final(self).spec_threshold()),
            final(self).spec_rebuild_count() == old(self).spec_rebuild_count() ==> final(self).spec_threshold() == old(self).spec_threshold(),
            final(self).spec_rebuild_count() == old(self).spec_rebuild_count() ==> entries_after_insert(
                old(self).spec_entries(),
                final(self).spec_entries(),
                1,
                x@.subrange(0, old(self).spec_dim() as int),
            ),
            final(self).spec_rebuild_count() == old(self).spec_rebuild_count() ==> entries_after_absorb(
                old(self).spec_entries(),
                final(self).spec_entries(),
                old(self).point_absorber(x@),
                1,
                x@.subrange(0, old(self).spec_dim() as int),
            ),
            final(self).spec_rebuild_count() == old(self).spec_rebuild_count() ==> entries_took(
                old(self).spec_entries(),
                final(self).spec_entries(),
                old(self).point_absorber(x@),
                |n: CF, o: CF| n.spec_added(o, x@),
                old(self).spec_dim(),
            ),
            final(self).spec_rebuild_count() == old(self).spec_rebuild_count() && !old(self).point_splits(x@)
                ==> nodes_took(
                old(self).spec_nodes(),
                final(self).spec_nodes(),
                old(self).point_path(x@),
                |n: CF, o: CF| n.spec_added(o, x@),
            ),
            final(self).spec_rebuild_count() == old(self).spec_rebuild_count() ==> exists|made: Set<usize>, took: Set<usize>|
                #[trigger] nodes_after_insert(
                    *old(self),
                    *final(self),
                    made,
                    took,
                    old(self).point_path(x@),
                    took_point(x@),
                ),
            old(self).spec_entries().len() == 0 ==> old(self).point_absorber(x@) is None,
            final(self).spec_dim() == old(self).spec_dim(),
            final(self).spec_capacity() == old(self).spec_capacity(),
            final(self).spec_maxleaves() == old(self).spec_maxleaves(),
    {
        proof {
            if self.spec_entries().len() == 0 {
                self.lemma_no_entries_point(x@);
            }
        }
        self.insert_unchecked(x);
    }

    /// Inserts a point whose length the caller has checked against the
    /// dimensionality; only its first `dim` coordinates are read.
    pub fn insert_unchecked(&mut self, x: &[F])
        requires
            old(self).wf(),
            x@.len() >= old(self).spec_dim(),
            2 * (old(self).total_size() + 1) <= usize::MAX,
        ensures
            final(self).wf(),
            final(self).total_size() == old(self).total_size() + 1,
            final(self).spec_entries().len() <= old(self).spec_entries().len() + 1,
            final(self).spec_entries().len() <= final(self).spec_maxleaves()
                || final(self).spec_rebuild_count() == usize::MAX,
            final(self).spec_rebuild_count() >= old(self).spec_rebuild_count(),
            old(self).spec_entries().len() < old(self).spec_maxleaves() ==> final(self).spec_rebuild_count()
                == old(self).spec_rebuild_count(),
            old(self).spec_entries().len() + (if old(self).point_absorber(x@) is None {
                1int
            } else {
                0int
            }) <= old(self).spec_maxleaves() ==> final(self).spec_rebuild_count()
                == old(self).spec_rebuild_count(),
            old(self).spec_entries().len() + (if old(self).point_absorber(x@) is None {
                1int
            } else {
                0int
            }) > old(self).spec_maxleaves() && old(self).spec_rebuild_count() < usize::MAX
                ==> final(self).spec_rebuild_count() > old(self).spec_rebuild_count(),
            old(self).entries_nonempty() ==> final(self).entries_nonempty(),
            threshold_raised(old(self).spec_threshold(), final(self).spec_threshold()),
            final(self).spec_rebuild_count() == old(self).spec_rebuild_count() ==> final(self).spec_threshold() == old(self).spec_threshold(),
            final(self).spec_rebuild_count() == old(self).spec_rebuild_count() ==> entries_after_insert(
                old(self).spec_entries(),
                final(self).spec_entries(),
                1,
                x@.subrange(0, old(self).spec_dim() as int),
            ),
            final(self).spec_rebuild_count() == old(self).spec_rebuild_count() ==> entries_after_absorb(
                old(self).spec_entries(),
                final(self).spec_entries(),
                old(self).point_absorber(x@),
                1,
                x@.subrange(0, old(self).spec_dim() as int),
            ),
            final(self).spec_rebuild_count() == old(self).spec_rebuild_count() ==> entries_took(
                old(self).spec_entries(),
                final(self).spec_entries(),
                old(self).point_absorber(x@),
                |n: CF, o: CF| n.spec_added(o, x@),
                old(self).spec_dim(),
            ),
            final(self).spec_rebuild_count() == old(self).spec_rebuild_count() && !old(self).point_splits(x@)
                ==> nodes_took(
                old(self).spec_nodes(),
                final(self).spec_nodes(),
                old(self).point_path(x@),
                |n: CF, o: CF| n.spec_added(o, x@),
            ),
            final(self).spec_rebuild_count() == old(self).spec_rebuild_count() ==> exists|made: Set<usize>, took: Set<usize>|
                #[trigger] nodes_after_insert(
                    *old(self),
                    *final(self),
                    made,
                    took,
                    old(self).point_path(x@),
                    took_point(x@),
                ),
            old(self).spec_entries().len() == 0 ==> old(self).point_absorber(x@) is None,
            final(self).spec_dim() == old(self).spec_dim(),
            final(self).spec_capacity() == old(self).spec_capacity(),
            final(self).spec_maxleaves() == old(self).spec_maxleaves(),
    {
        let ghost item = insert::Input::Point(x);
        proof {
            if self.spec_entries().len() == 0 {
                self.lemma_no_entries_point(x@);
            }
            assert(self.input_route(item) =~= (|c: CF| self.dist_function.spec_sq_dist(c, x@, self.dim as nat)));
            assert(self.input_absorb(item) =~= (|c: CF| self.abs_function.spec_sq_dist(c, x@, self.dim as nat)));
            assert(self.input_took(item) =~= (|n: CF, o: CF| n.spec_added(o, x@)));
        }
        self.insert_item(&insert::Input::Point(x));
        proof {
            if self.spec_rebuild_count() == old(self).spec_rebuild_count() {
                let (m, t) = choose|m: Set<usize>, t: Set<usize>|
                    nodes_after_insert(
                        *old(self),
                        *self,
                        m,
                        t,
                        old(self).target_path(old(self).input_route(item)),
                        old(self).input_took(item),
                    );
                assert(nodes_after_insert(
                    *old(self),
                    *self,
                    m,
                    t,
                    old(self).point_path(x@),
                    took_point(x@),
                ));
            }
        }
    }

    /// Inserts all the points a cluster feature summarizes, as one unit.
    pub fn insert_unchecked_cf(&mut self, cf: CF)
        requires
            old(self).wf(),
            cf.inv(),
            cf.spec_dim() == old(self).spec_dim(),
            2 * (old(self).total_size() + cf.spec_size()) <= usize::MAX,
        ensures
            final(self).wf(),
            final(self).total_size() == old(self).total_size() + cf.spec_size(),
            final(self).spec_entries().len() <= old(self).spec_entries().len() + 1,
            final(self).spec_entries().len() <= final(self).spec_maxleaves()
                || final(self).spec_rebuild_count() == usize::MAX,
            final(self).spec_rebuild_count() >= old(self).spec_rebuild_count(),
            old(self).spec_entries().len() < old(self).spec_maxleaves() ==> final(self).spec_rebuild_count()
                == old(self).spec_rebuild_count(),
            old(self).spec_entries().len() + (if old(self).feature_absorber(cf) is None {
                1int
            } else {
                0int
            }) <= old(self).spec_maxleaves() ==> final(self).spec_rebuild_count()
                == old(self).spec_rebuild_count(),
            old(self).spec_entries().len() + (if old(self).feature_absorber(cf) is None {
                1int
            } else {
                0int
            }) > old(self).spec_maxleaves() && old(self).spec_rebuild_count() < usize::MAX
                ==> final(self).spec_rebuild_count() > old(self).spec_rebuild_count(),
            old(self).entries_nonempty() && cf.spec_size() > 0 ==> final(self).entries_nonempty(),
            threshold_raised(old(self).spec_threshold(), final(self).spec_threshold()),
            final(self).spec_rebuild_count() == old(self).spec_rebuild_count() ==> final(self).spec_threshold() == old(self).spec_threshold(),
            final(self).spec_rebuild_count() == old(self).spec_rebuild_count() ==> entries_after_insert(
                old(self).spec_entries(),
                final(self).spec_entries(),
                cf.spec_size(),
                cf.spec_centroid(),
            ),
            final(self).spec_rebuild_count() == old(self).spec_rebuild_count() ==> entries_after_absorb(
                old(self).spec_entries(),
                final(self).spec_entries(),
                old(self).feature_absorber(cf),
                cf.spec_size(),
                cf.spec_centroid(),
            ),
            final(self).spec_rebuild_count() == old(self).spec_rebuild_count() ==> entries_took(
                old(self).spec_entries(),
                final(self).spec_entries(),
                old(self).feature_absorber(cf),
                |n: CF, o: CF| merged_with(n, o, cf),
                old(self).spec_dim(),
            ),
            final(self).spec_rebuild_count() == old(self).spec_rebuild_count() && !old(self).feature_splits(cf)
                ==> nodes_took(
                old(self).spec_nodes(),
                final(self).spec_nodes(),
                old(self).feature_path(cf),
                |n: CF, o: CF| merged_with(n, o, cf),
            ),
            final(self).spec_rebuild_count() == old(self).spec_rebuild_count() ==> exists|made: Set<usize>, took: Set<usize>|
                #[trigger] nodes_after_insert(
                    *old(self),
                    *final(self),
                    made,
                    took,
                    old(self).feature_path(cf),
                    took_feature(cf),
                ),
            final(self).spec_dim() == old(self).spec_dim(),
            final(self).spec_capacity() == old(self).spec_capacity(),
            final(self).spec_maxleaves() == old(self).spec_maxleaves(),
    {
        let ghost item = insert::Input::Feature(&cf);
        proof {
            assert(self.input_route(item) =~= (|c: CF| self.dist_function.spec_sq_dist_cf(c, cf, self.dim as nat)));
            assert(self.input_absorb(item) =~= (|c: CF| self.abs_function.spec_sq_dist_cf(c, cf, self.dim as nat)));
            assert(self.input_took(item) =~= (|n: CF, o: CF| merged_with(n, o, cf)));
        }
        self.insert_item(&insert::Input::Feature(&cf));
        proof {
            if self.spec_rebuild_count() == old(self).spec_rebuild_count() {
                let (m, t) = choose|m: Set<usize>, t: Set<usize>|
                    nodes_after_insert(
                        *old(self),
                        *self,
                        m,
                        t,
                        old(self).target_path(old(self).input_route(item)),
                        old(self).input_took(item),
                    );
                assert(nodes_after_insert(
                    *old(self),
                    *self,
                    m,
                    t,
                    old(self).feature_path(cf),
                    took_feature(cf),
                ));
            }
        }
    }
}

} // verus!
