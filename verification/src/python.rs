//! The models behind the Python interface: a tree built over a whole data
//! set, and a tree that grows point by point, each reporting its leaf
//! clusters as plain records.

use crate::cf_tree::seqs::{lemma_sum_push, sum_nat};
use crate::cf_tree::{entries_after_absorb, fresh_tree, point_inserted, CFTree};
use crate::cluster_feature::{
    matrix_view, per_dim_record, upper_diagonal, ClusterFeature, ClusterSummary, VII, VVI, VVV,
};
use crate::distance::{
    AverageInterclusterDistance, AverageIntraclusterDistance, CFDistance,
    CentroidEuclideanDistance, CentroidManhattanDistance, RadiusDistance,
    VarianceIncreaseDistance,
};
use crate::names::{
    lemma_distance_spelled_once, lemma_feature_spelled_once, spells_ignoring_case, DistanceName, FeatureName,
    UnknownName,
};
use crate::types::Float;
use vstd::prelude::*;
use vstd::string::StringSliceAdditionalSpecFns;

verus! {

/// A read-only record of one leaf cluster.
pub struct PyClusterFeature<F> {
    pub size: usize,
    pub centroid: Vec<F>,
    pub ssd: F,
    /// Per-dimension sums of squared deviations; empty where the feature
    /// does not keep them.
    pub ssd_per_dim: Vec<F>,
    /// Covariance matrix, where the feature keeps cross products.
    pub covariance: Option<Vec<Vec<F>>>,
}

/// `rec` records the statistics of `cf`.
pub open spec fn records<F: Float, CF: ClusterFeature<F>>(rec: PyClusterFeature<F>, cf: CF) -> bool {
    &&& rec.size == cf.spec_size()
    &&& rec.centroid@ == cf.spec_centroid()
    &&& rec.ssd == cf.spec_ssd_total()
    &&& rec.ssd_per_dim@ == per_dim_record(cf.spec_ssd_per_dim(), cf.spec_ssd_upper(), cf.spec_dim())
    &&& rec.ssd_per_dim@.len() == if cf.spec_ssd_per_dim() is Some || cf.spec_ssd_upper() is Some {
        cf.spec_dim()
    } else {
        0
    }
    &&& (rec.covariance is Some <==> cf.spec_keeps_covariance())
    &&& matrix_view(rec.covariance) == cf.spec_covariance()
}

/// `recs` records the statistics of `cfs`, one for one.
pub open spec fn records_all<F: Float, CF: ClusterFeature<F>>(
    recs: Seq<PyClusterFeature<F>>,
    cfs: Seq<CF>,
) -> bool {
    &&& recs.len() == cfs.len()
    &&& forall|k: int| 0 <= k < recs.len() ==> records(#[trigger] recs[k], cfs[k])
}

/// `zero + ssd of the first record + ... + ssd of record k - 1`, added left
/// to right.
pub open spec fn records_ssd_sum<F: Float>(cs: Seq<PyClusterFeature<F>>, k: nat) -> F
    decreases k,
{
    if k == 0 {
        F::spec_zero()
    } else {
        records_ssd_sum(cs, (k - 1) as nat).spec_plus(cs[k - 1].ssd)
    }
}

/// Summing the first `k` records' sums of squared deviations does not look
/// past them.
pub proof fn lemma_records_ssd_sum_prefix<F: Float>(cs: Seq<PyClusterFeature<F>>, ds: Seq<PyClusterFeature<F>>, k: nat)
    requires
        k <= cs.len(),
        k <= ds.len(),
        forall|i: int| 0 <= i < k ==> #[trigger] cs[i] == ds[i],
    ensures
        records_ssd_sum(cs, k) == records_ssd_sum(ds, k),
    decreases k,
{
    if k > 0 {
        lemma_records_ssd_sum_prefix(cs, ds, (k - 1) as nat);
        assert(cs[k - 1] == ds[k - 1]);
    }
}

/// The overall variance of a list of clusters is their total sum of
/// squared deviations over their total number of points: the total starts
/// at zero and grows by each cluster's `ssd` in turn, the count by each
/// cluster's size; with no points it is zero.
pub proof fn lemma_overall_variance<F: Float>(cs: Seq<PyClusterFeature<F>>, c: PyClusterFeature<F>)
    ensures
        records_ssd_sum(Seq::<PyClusterFeature<F>>::empty(), 0) == F::spec_zero(),
        records_ssd_sum(cs.push(c), cs.len() + 1) == records_ssd_sum(cs, cs.len()).spec_plus(c.ssd),
        sum_nat(record_sizes(Seq::<PyClusterFeature<F>>::empty())) == 0,
        sum_nat(record_sizes(cs.push(c))) == sum_nat(record_sizes(cs)) + c.size,
        sum_nat(record_sizes(cs)) > 0 ==> spec_overall_variance(cs) == records_ssd_sum(cs, cs.len()).spec_divided_by(
            F::spec_from_index(sum_nat(record_sizes(cs)) as usize),
        ),
        sum_nat(record_sizes(cs)) == 0 ==> spec_overall_variance(cs) == F::spec_zero(),
{
    lemma_records_ssd_sum_prefix(cs.push(c), cs, cs.len());
    assert(record_sizes(cs.push(c)) =~= record_sizes(cs).push(c.size as nat));
    lemma_sum_push(record_sizes(cs), c.size as nat);
    assert(record_sizes(Seq::<PyClusterFeature<F>>::empty()) =~= Seq::<nat>::empty());
}

/// The overall variance that `overall_variance` gives: the summed sums of
/// squared deviations over the summed sizes, or zero for no points.
pub open spec fn spec_overall_variance<F: Float>(cs: Seq<PyClusterFeature<F>>) -> F {
    let n = sum_nat(record_sizes(cs));
    if n > 0 {
        records_ssd_sum(cs, cs.len()).spec_divided_by(F::spec_from_index(n as usize))
    } else {
        F::spec_zero()
    }
}

/// Row `i` of `flat`, `dim` values long.
pub open spec fn flat_row<F>(flat: Seq<F>, dim: nat, i: int) -> Seq<F> {
    flat.subrange(i * dim, i * dim + dim)
}

/// `trees` starts from a fresh tree and inserts the rows of `flat` one
/// after the other, in order.
pub open spec fn builds_rows<F: Float, CF: ClusterFeature<F>, D: CFDistance<F, CF>, A: CFDistance<
    F,
    CF,
>>(
    trees: Seq<CFTree<F, CF, D, A>>,
    flat: Seq<F>,
    dim: nat,
    capacity: nat,
    maxleaves: nat,
    threshold: F,
) -> bool {
    &&& trees.len() >= 1
    &&& fresh_tree(trees[0], dim, capacity, maxleaves, threshold)
    &&& forall|i: int|
        0 <= i < trees.len() - 1 ==> point_inserted(
            #[trigger] trees[i],
            trees[i + 1],
            flat_row(flat, dim, i),
        )
}

/// `r` (records, rebuild count, overall variance) comes from a tree over
/// features `CF` with routing distance `D` and absorption distance `A` that
/// was built over the rows of `flat` from a fresh tree, in order.
pub open spec fn built_with<F: Float, CF: ClusterFeature<F>, D: CFDistance<F, CF>, A: CFDistance<
    F,
    CF,
>>(
    r: (Seq<PyClusterFeature<F>>, usize, F),
    flat: Seq<F>,
    dim: nat,
    capacity: nat,
    maxleaves: nat,
    threshold: F,
) -> bool {
    &&& exists|trees: Seq<CFTree<F, CF, D, A>>|
        #[trigger] builds_rows(trees, flat, dim, capacity, maxleaves, threshold) && trees.len() == flat.len()
            / dim + 1 && records_all(r.0, trees.last().spec_entries()) && r.1 == trees.last().spec_rebuild_count()
    &&& r.2 == spec_overall_variance(r.0)
}

/// `built_with` with the absorption distance that `absorption` names.
pub open spec fn built_absorbing<F: Float, CF: ClusterFeature<F>, D: CFDistance<F, CF>>(
    r: (Seq<PyClusterFeature<F>>, usize, F),
    flat: Seq<F>,
    dim: nat,
    capacity: nat,
    maxleaves: nat,
    threshold: F,
    absorption: DistanceName,
) -> bool {
    match absorption {
        DistanceName::Euclidean => built_with::<F, CF, D, CentroidEuclideanDistance<F, CF>>(
            r, flat, dim, capacity, maxleaves, threshold,
        ),
        DistanceName::Manhattan => built_with::<F, CF, D, CentroidManhattanDistance<F, CF>>(
            r, flat, dim, capacity, maxleaves, threshold,
        ),
        DistanceName::AvgIntercluster => built_with::<F, CF, D, AverageInterclusterDistance<F, CF>>(
            r, flat, dim, capacity, maxleaves, threshold,
        ),
        DistanceName::AvgIntracluster => built_with::<F, CF, D, AverageIntraclusterDistance<F, CF>>(
            r, flat, dim, capacity, maxleaves, threshold,
        ),
        DistanceName::VarianceIncrease => built_with::<F, CF, D, VarianceIncreaseDistance<F, CF>>(
            r, flat, dim, capacity, maxleaves, threshold,
        ),
        DistanceName::Radius => built_with::<F, CF, D, RadiusDistance<F, CF>>(
            r, flat, dim, capacity, maxleaves, threshold,
        ),
    }
}

/// `built_absorbing` with the routing distance that `distance` names.
pub open spec fn built_routing<F: Float, CF: ClusterFeature<F>>(
    r: (Seq<PyClusterFeature<F>>, usize, F),
    flat: Seq<F>,
    dim: nat,
    capacity: nat,
    maxleaves: nat,
    threshold: F,
    distance: DistanceName,
    absorption: DistanceName,
) -> bool {
    match distance {
        DistanceName::Euclidean => built_absorbing::<F, CF, CentroidEuclideanDistance<F, CF>>(
            r, flat, dim, capacity, maxleaves, threshold, absorption,
        ),
        DistanceName::Manhattan => built_absorbing::<F, CF, CentroidManhattanDistance<F, CF>>(
            r, flat, dim, capacity, maxleaves, threshold, absorption,
        ),
        DistanceName::AvgIntercluster => built_absorbing::<F, CF, AverageInterclusterDistance<F, CF>>(
            r, flat, dim, capacity, maxleaves, threshold, absorption,
        ),
        DistanceName::AvgIntracluster => built_absorbing::<F, CF, AverageIntraclusterDistance<F, CF>>(
            r, flat, dim, capacity, maxleaves, threshold, absorption,
        ),
        DistanceName::VarianceIncrease => built_absorbing::<F, CF, VarianceIncreaseDistance<F, CF>>(
            r, flat, dim, capacity, maxleaves, threshold, absorption,
        ),
        DistanceName::Radius => built_absorbing::<F, CF, RadiusDistance<F, CF>>(
            r, flat, dim, capacity, maxleaves, threshold, absorption,
        ),
    }
}

/// `built_routing` with the feature type that `feature` names.
pub open spec fn built_by_names<F: Float>(
    r: (Seq<PyClusterFeature<F>>, usize, F),
    flat: Seq<F>,
    dim: nat,
    capacity: nat,
    maxleaves: nat,
    threshold: F,
    distance: DistanceName,
    absorption: DistanceName,
    feature: FeatureName,
) -> bool {
    match feature {
        FeatureName::VII => built_routing::<F, VII<F>>(
            r, flat, dim, capacity, maxleaves, threshold, distance, absorption,
        ),
        FeatureName::VVI => built_routing::<F, VVI<F>>(
            r, flat, dim, capacity, maxleaves, threshold, distance, absorption,
        ),
        FeatureName::VVV => built_routing::<F, VVV<F>>(
            r, flat, dim, capacity, maxleaves, threshold, distance, absorption,
        ),
    }
}

/// Every one of `cfs` is consistent and of dimensionality `dim`.
pub open spec fn valid_features<F: Float, CF: ClusterFeature<F>>(cfs: Seq<CF>, dim: nat) -> bool {
    forall|k: int| 0 <= k < cfs.len() ==> (#[trigger] cfs[k]).inv() && cfs[k].spec_dim() == dim
}

/// Sizes of a list of cluster records.
pub open spec fn record_sizes<F>(cs: Seq<PyClusterFeature<F>>) -> Seq<nat> {
    cs.map_values(|c: PyClusterFeature<F>| c.size as nat)
}

impl<F: Float> PyClusterFeature<F> {
    /// Records the statistics of a cluster feature.
    pub fn from_cf<CF: ClusterFeature<F>>(cf: &CF) -> (r: Self)
        requires
            cf.inv(),
        ensures
            records(r, *cf),
            r.ssd_per_dim@.len() == 0 || r.ssd_per_dim@.len() == cf.spec_dim(),
    {
        let ssd_per_dim = match cf.ssd_per_dim() {
            Some(s) => vstd::slice::slice_to_vec(s),
            None => match cf.ssd_upper() {
                Some(u) => upper_diagonal(u, cf.centroid().len()),
                None => Vec::new(),
            },
        };
        PyClusterFeature {
            size: cf.size(),
            centroid: vstd::slice::slice_to_vec(cf.centroid()),
            ssd: cf.ssd(),
            ssd_per_dim,
            covariance: cf.covariance(),
        }
    }

    /// Variance: the sum of squared deviations over the size, or zero for
    /// an empty cluster.
    pub fn variance(&self) -> (r: F)
        ensures
            r == (if self.size > 0 {
                self.ssd.spec_divided_by(F::spec_from_index(self.size))
            } else {
                F::spec_zero()
            }),
    {
        if self.size > 0 {
            self.ssd.divided_by(F::from_index(self.size))
        } else {
            F::zero()
        }
    }
}

/// Records of the leaf entries of a tree, in storage order.
pub fn tree_clusters<F: Float, CF: ClusterFeature<F>, D: CFDistance<F, CF>, A: CFDistance<F, CF>>(
    tree: &CFTree<F, CF, D, A>,
) -> (r: Vec<PyClusterFeature<F>>)
    requires
        tree.wf(),
    ensures
        r@.len() == tree.spec_entries().len(),
        forall|k: int|
            0 <= k < r@.len() ==> (#[trigger] r@[k]).size == tree.spec_entries()[k].spec_size()
                && r@[k].centroid@ == tree.spec_entries()[k].spec_centroid(),
        records_all(r@, tree.spec_entries()),
        sum_nat(record_sizes(r@)) == tree.total_size(),
{
    let entries = tree.leaf_entries();
    let mut out: Vec<PyClusterFeature<F>> = Vec::new();
    proof {
        tree.lemma_entries_valid();
    }
    let mut k: usize = 0;
    while k < entries.len()
        invariant
            entries@ == tree.spec_entries(),
            tree.wf(),
            forall|e: int| 0 <= e < entries@.len() ==> (#[trigger] entries@[e]).inv(),
            k <= entries@.len(),
            out@.len() == k,
            forall|t: int|
                0 <= t < k ==> (#[trigger] out@[t]).size == entries@[t].spec_size()
                    && out@[t].centroid@ == entries@[t].spec_centroid(),
            forall|t: int| 0 <= t < k ==> records(#[trigger] out@[t], entries@[t]),
        decreases entries@.len() - k,
    {
        out.push(PyClusterFeature::from_cf(&entries[k]));
        k = k + 1;
    }
    proof {
        tree.lemma_entry_sizes();
        assert(record_sizes(out@) =~= tree.entry_sizes());
    }
    out
}

/// Builds a tree over the rows of `flat` (`dim` values each; a shorter
/// tail is left out) and reports its leaf clusters, how often it was
/// rebuilt, and the overall variance: the summed sums of squared deviations
/// over the number of points, or zero without points.
pub fn build_tree_and_extract<F: Float, CF: ClusterFeature<F>, D: CFDistance<F, CF>, A: CFDistance<
    F,
    CF,
>>(flat: &[F], dim: usize, capacity: usize, maxleaves: usize, threshold: F, dist: D, abs: A) -> (r: (
    Vec<PyClusterFeature<F>>,
    usize,
    F,
))
    requires
        CF::dim_supported(dim as nat),
        dim > 0,
        2 * flat@.len() <= usize::MAX,
    ensures
        sum_nat(record_sizes(r.0@)) == flat@.len() / (dim as nat),
        r.0@.len() <= flat@.len() / (dim as nat),
        r.0@.len() <= maxleaves || r.1 == usize::MAX,
        flat@.len() / (dim as nat) <= maxleaves ==> r.1 == 0,
        exists|es: Seq<CF>| #[trigger] records_all(r.0@, es) && valid_features(es, dim as nat),
        r.2 == spec_overall_variance(r.0@),
        exists|trees: Seq<CFTree<F, CF, D, A>>|
            #[trigger] builds_rows(trees, flat@, dim as nat, capacity as nat, maxleaves as nat, threshold)
                && trees.len() == flat@.len() / (dim as nat) + 1 && records_all(
                r.0@,
                trees.last().spec_entries(),
            ) && r.1 == trees.last().spec_rebuild_count(),
        built_with::<F, CF, D, A>(
            (r.0@, r.1, r.2),
            flat@,
            dim as nat,
            capacity as nat,
            maxleaves as nat,
            threshold,
        ),
{
    let mut tree = CFTree::<F, CF, D, A>::new(dist, abs, capacity, dim, maxleaves, threshold);
    let mut offset: usize = 0;
    let ghost mut rows: nat = 0;
    let ghost mut trees: Seq<CFTree<F, CF, D, A>> = seq![tree];
    while offset + dim <= flat.len()
        invariant
            dim > 0,
            2 * flat@.len() <= usize::MAX,
            offset == rows * dim,
            offset <= flat@.len(),
            offset == 0 || dim <= flat@.len(),
            tree.wf(),
            tree.total_size() == rows,
            tree.spec_entries().len() <= rows,
            tree.spec_entries().len() <= maxleaves || tree.spec_rebuild_count() == usize::MAX,
            tree.spec_dim() == dim,
            tree.spec_maxleaves() == maxleaves,
            rows <= offset,
            rows <= maxleaves ==> tree.spec_rebuild_count() == 0,
            builds_rows(trees, flat@, dim as nat, capacity as nat, maxleaves as nat, threshold),
            trees.len() == rows + 1,
            trees.last() == tree,
        decreases flat@.len() - offset,
    {
        let row = &flat[offset..offset + dim];
        let ghost before = tree;
        proof {
            assert(row@ == flat_row(flat@, dim as nat, rows as int));
        }
        tree.insert_unchecked(row);
        proof {
            assert(point_inserted(before, tree, row@));
            let next = trees.push(tree);
            assert forall|i: int| 0 <= i < next.len() - 1 implies point_inserted(
                #[trigger] next[i],
                next[i + 1],
                flat_row(flat@, dim as nat, i),
            ) by {
                if i < trees.len() - 1 {
                    assert(next[i] == trees[i] && next[i + 1] == trees[i + 1]);
                } else {
                    assert(next[i] == before && next[i + 1] == tree);
                }
            }
            trees = next;
        }
        offset = offset + dim;
        proof {
            rows = rows + 1;
            assert(offset == rows * dim) by (nonlinear_arith)
                requires
                    offset == (rows - 1) * dim + dim,
            ;
            assert(rows <= offset) by (nonlinear_arith)
                requires
                    offset == rows * dim,
                    dim > 0,
            ;
        }
    }
    proof {
        assert(rows == flat@.len() / (dim as nat)) by (nonlinear_arith)
            requires
                offset == rows * dim,
                offset <= flat@.len(),
                offset + dim > flat@.len(),
                dim > 0,
        ;
    }
    let clusters = tree_clusters(&tree);
    proof {
        tree.lemma_entries_valid();
        assert(records_all(clusters@, tree.spec_entries()));
        assert(records_all(clusters@, trees.last().spec_entries()));
        assert(valid_features(tree.spec_entries(), dim as nat));
    }
    let variance = overall_variance(clusters.as_slice());
    (clusters, tree.rebuild_count(), variance)
}

/// The summed sums of squared deviations of the clusters over their summed
/// sizes, or zero for no points.
pub fn overall_variance<F: Float>(clusters: &[PyClusterFeature<F>]) -> (r: F)
    requires
        sum_nat(record_sizes(clusters@)) <= usize::MAX,
    ensures
        r == spec_overall_variance(clusters@),
{
    let mut total_points: usize = 0;
    let mut total_ssd = F::zero();
    let mut k: usize = 0;
    while k < clusters.len()
        invariant
            k <= clusters@.len(),
            total_points == sum_nat(record_sizes(clusters@).subrange(0, k as int)),
            sum_nat(record_sizes(clusters@)) <= usize::MAX,
            total_ssd == records_ssd_sum(clusters@, k as nat),
        decreases clusters@.len() - k,
    {
        proof {
            crate::cf_tree::seqs::lemma_sum_prefix_step(record_sizes(clusters@), k as int);
            crate::cf_tree::seqs::lemma_sum_prefix_le(record_sizes(clusters@), k + 1);
        }
        total_points = total_points + clusters[k].size;
        total_ssd = total_ssd.plus(clusters[k].ssd);
        k = k + 1;
    }
    proof {
        assert(record_sizes(clusters@).subrange(0, k as int) =~= record_sizes(clusters@));
    }
    if total_points > 0 {
        total_ssd.divided_by(F::from_index(total_points))
    } else {
        F::zero()
    }
}

/// Why a model could not be built.
pub enum ModelError {
    /// No data was given.
    EmptyData,
    /// The points have no coordinates.
    NoDimensions,
    /// The routing distance name is unknown.
    UnknownDistance(UnknownName),
    /// The absorption distance name is unknown.
    UnknownAbsorption(UnknownName),
    /// The feature name is unknown.
    UnknownFeature(UnknownName),
}

/// `name` names a distance measure, ignoring the case of ASCII letters.
pub open spec fn known_distance(name: &str) -> bool {
    exists|d: DistanceName| spells_ignoring_case(name.spec_bytes(), #[trigger] d.spec_word())
}

/// `name` names a feature type, ignoring the case of ASCII letters.
pub open spec fn known_feature(name: &str) -> bool {
    exists|f: FeatureName| spells_ignoring_case(name.spec_bytes(), #[trigger] f.spec_word())
}

/// A clustering of a whole data set: its leaf clusters, how often its tree
/// was rebuilt, and the overall variance.
pub struct PyBetula<F> {
    pub clusters: Vec<PyClusterFeature<F>>,
    pub num_rebuilds: usize,
    pub overall_variance: F,
}

/// The tree build with routing distance `D`, the absorption distance chosen
/// by name.
fn build_with_absorption<F: Float, CF: ClusterFeature<F>, D: CFDistance<F, CF>>(
    flat: &[F],
    dim: usize,
    capacity: usize,
    maxleaves: usize,
    threshold: F,
    dist: D,
    absorption: DistanceName,
) -> (r: (Vec<PyClusterFeature<F>>, usize, F))
    requires
        CF::dim_supported(dim as nat),
        dim > 0,
        2 * flat@.len() <= usize::MAX,
    ensures
        sum_nat(record_sizes(r.0@)) == flat@.len() / (dim as nat),
        r.0@.len() <= maxleaves || r.1 == usize::MAX,
        flat@.len() / (dim as nat) <= maxleaves ==> r.1 == 0,
        exists|es: Seq<CF>| #[trigger] records_all(r.0@, es) && valid_features(es, dim as nat),
        r.2 == spec_overall_variance(r.0@),
        built_absorbing::<F, CF, D>(
            (r.0@, r.1, r.2),
            flat@,
            dim as nat,
            capacity as nat,
            maxleaves as nat,
            threshold,
            absorption,
        ),
{
    match absorption {
        DistanceName::Euclidean => build_tree_and_extract(
            flat,
            dim,
            capacity,
            maxleaves,
            threshold,
            dist,
            CentroidEuclideanDistance::<F, CF>::new(),
        ),
        DistanceName::Manhattan => build_tree_and_extract(
            flat,
            dim,
            capacity,
            maxleaves,
            threshold,
            dist,
            CentroidManhattanDistance::<F, CF>::new(),
        ),
        DistanceName::AvgIntercluster => build_tree_and_extract(
            flat,
            dim,
            capacity,
            maxleaves,
            threshold,
            dist,
            AverageInterclusterDistance::<F, CF>::new(),
        ),
        DistanceName::AvgIntracluster => build_tree_and_extract(
            flat,
            dim,
            capacity,
            maxleaves,
            threshold,
            dist,
            AverageIntraclusterDistance::<F, CF>::new(),
        ),
        DistanceName::VarianceIncrease => build_tree_and_extract(
            flat,
            dim,
            capacity,
            maxleaves,
            threshold,
            dist,
            VarianceIncreaseDistance::<F, CF>::new(),
        ),
        DistanceName::Radius => build_tree_and_extract(
            flat,
            dim,
            capacity,
            maxleaves,
            threshold,
            dist,
            RadiusDistance::<F, CF>::new(),
        ),
    }
}

/// The tree build over features `CF`, both distances chosen by name.
fn build_with_feature<F: Float, CF: ClusterFeature<F>>(
    flat: &[F],
    dim: usize,
    capacity: usize,
    maxleaves: usize,
    threshold: F,
    distance: DistanceName,
    absorption: DistanceName,
) -> (r: (Vec<PyClusterFeature<F>>, usize, F))
    requires
        CF::dim_supported(dim as nat),
        dim > 0,
        2 * flat@.len() <= usize::MAX,
    ensures
        sum_nat(record_sizes(r.0@)) == flat@.len() / (dim as nat),
        r.0@.len() <= maxleaves || r.1 == usize::MAX,
        flat@.len() / (dim as nat) <= maxleaves ==> r.1 == 0,
        exists|es: Seq<CF>| #[trigger] records_all(r.0@, es) && valid_features(es, dim as nat),
        r.2 == spec_overall_variance(r.0@),
        built_routing::<F, CF>(
            (r.0@, r.1, r.2),
            flat@,
            dim as nat,
            capacity as nat,
            maxleaves as nat,
            threshold,
            distance,
            absorption,
        ),
{
    match distance {
        DistanceName::Euclidean => build_with_absorption::<F, CF, _>(
            flat,
            dim,
            capacity,
            maxleaves,
            threshold,
            CentroidEuclideanDistance::<F, CF>::new(),
            absorption,
        ),
        DistanceName::Manhattan => build_with_absorption::<F, CF, _>(
            flat,
            dim,
            capacity,
            maxleaves,
            threshold,
            CentroidManhattanDistance::<F, CF>::new(),
            absorption,
        ),
        DistanceName::AvgIntercluster => build_with_absorption::<F, CF, _>(
            flat,
            dim,
            capacity,
            maxleaves,
            threshold,
            AverageInterclusterDistance::<F, CF>::new(),
            absorption,
        ),
        DistanceName::AvgIntracluster => build_with_absorption::<F, CF, _>(
            flat,
            dim,
            capacity,
            maxleaves,
            threshold,
            AverageIntraclusterDistance::<F, CF>::new(),
            absorption,
        ),
        DistanceName::VarianceIncrease => build_with_absorption::<F, CF, _>(
            flat,
            dim,
            capacity,
            maxleaves,
            threshold,
            VarianceIncreaseDistance::<F, CF>::new(),
            absorption,
        ),
        DistanceName::Radius => build_with_absorption::<F, CF, _>(
            flat,
            dim,
            capacity,
            maxleaves,
            threshold,
            RadiusDistance::<F, CF>::new(),
            absorption,
        ),
    }
}

impl<F: Float> PyBetula<F> {
    /// Clusters the rows of `flat` (`dim` values each) with the distances
    /// and the feature chosen by name. Fails on empty data, on points
    /// without coordinates, and on an unknown name, checked in that order:
    /// routing distance, absorption distance, feature.
    pub fn new(
        flat: &[F],
        dim: usize,
        capacity: usize,
        maxleaves: usize,
        threshold: F,
        distance: &str,
        absorption: &str,
        feature: &str,
    ) -> (r: Result<Self, ModelError>)
        requires
            2 * flat@.len() <= usize::MAX,
            spells_ignoring_case(feature.spec_bytes(), FeatureName::VVV.spec_word()) ==> dim * (dim
                + 1) <= usize::MAX,
        ensures
            flat@.len() == 0 ==> r matches Err(ModelError::EmptyData),
            flat@.len() > 0 && dim == 0 ==> r matches Err(ModelError::NoDimensions),
            flat@.len() > 0 && dim > 0 && !known_distance(distance) ==> (r matches Err(
                ModelError::UnknownDistance(e),
            ) && e.name@ == distance@),
            flat@.len() > 0 && dim > 0 && known_distance(distance) && !known_distance(absorption)
                ==> (r matches Err(ModelError::UnknownAbsorption(e)) && e.name@ == absorption@),
            flat@.len() > 0 && dim > 0 && known_distance(distance) && known_distance(absorption)
                && !known_feature(feature) ==> (r matches Err(ModelError::UnknownFeature(e))
                && e.name@ == feature@),
            flat@.len() > 0 && dim > 0 && known_distance(distance) && known_distance(absorption)
                && known_feature(feature) ==> r is Ok,
            r matches Ok(m) ==> sum_nat(record_sizes(m.clusters@)) == flat@.len() / (dim as nat),
            r matches Ok(m) ==> m.clusters@.len() <= maxleaves || m.num_rebuilds == usize::MAX,
            r matches Ok(m) ==> (flat@.len() / (dim as nat) <= maxleaves ==> m.num_rebuilds == 0),
            r matches Ok(m) ==> m.overall_variance == spec_overall_variance(m.clusters@),
            r matches Ok(m) ==> forall|d: DistanceName, a: DistanceName, f: FeatureName|
                spells_ignoring_case(distance.spec_bytes(), d.spec_word()) && spells_ignoring_case(
                    absorption.spec_bytes(),
                    a.spec_word(),
                ) && spells_ignoring_case(feature.spec_bytes(), f.spec_word()) ==> #[trigger] built_by_names(
                    (m.clusters@, m.num_rebuilds, m.overall_variance),
                    flat@,
                    dim as nat,
                    capacity as nat,
                    maxleaves as nat,
                    threshold,
                    d,
                    a,
                    f,
                ),
            r matches Ok(m) ==> forall|k: int|
                0 <= k < m.clusters@.len() ==> ((#[trigger] m.clusters@[k]).covariance is Some
                    <==> spells_ignoring_case(feature.spec_bytes(), FeatureName::VVV.spec_word()))
                    && m.clusters@[k].ssd_per_dim@.len() == if spells_ignoring_case(
                    feature.spec_bytes(),
                    FeatureName::VII.spec_word(),
                ) {
                    0
                } else {
                    dim as nat
                },
    {
        if flat.len() == 0 {
            return Err(ModelError::EmptyData);
        }
        if dim == 0 {
            return Err(ModelError::NoDimensions);
        }
        let dist_kind = match DistanceName::parse(distance) {
            Ok(d) => d,
            Err(e) => {
                return Err(ModelError::UnknownDistance(e));
            },
        };
        let abs_kind = match DistanceName::parse(absorption) {
            Ok(d) => d,
            Err(e) => {
                return Err(ModelError::UnknownAbsorption(e));
            },
        };
        let feat_kind = match FeatureName::parse(feature) {
            Ok(f) => f,
            Err(e) => {
                return Err(ModelError::UnknownFeature(e));
            },
        };
        proof {
            lemma_words_differ(feature.spec_bytes());
        }
        let ghost bytes = feature.spec_bytes();
        let (clusters, num_rebuilds, overall_variance) = match feat_kind {
            FeatureName::VII => {
                let r = build_with_feature::<F, VII<F>>(
                    flat,
                    dim,
                    capacity,
                    maxleaves,
                    threshold,
                    dist_kind,
                    abs_kind,
                );
                proof {
                    let es = choose|es: Seq<VII<F>>| #[trigger] records_all(r.0@, es) && valid_features(es, dim as nat);
                    assert forall|k: int| 0 <= k < r.0@.len() implies ((#[trigger] r.0@[k]).covariance is Some
                        <==> spells_ignoring_case(bytes, FeatureName::VVV.spec_word()))
                        && r.0@[k].ssd_per_dim@.len() == 0 by {
                        assert(records(r.0@[k], es[k]));
                    }
                }
                r
            },
            FeatureName::VVI => {
                let r = build_with_feature::<F, VVI<F>>(
                    flat,
                    dim,
                    capacity,
                    maxleaves,
                    threshold,
                    dist_kind,
                    abs_kind,
                );
                proof {
                    let es = choose|es: Seq<VVI<F>>| #[trigger] records_all(r.0@, es) && valid_features(es, dim as nat);
                    assert forall|k: int| 0 <= k < r.0@.len() implies ((#[trigger] r.0@[k]).covariance is Some
                        <==> spells_ignoring_case(bytes, FeatureName::VVV.spec_word()))
                        && r.0@[k].ssd_per_dim@.len() == dim by {
                        assert(records(r.0@[k], es[k]));
                        assert(es[k].spec_dim() == dim);
                    }
                }
                r
            },
            FeatureName::VVV => {
                let r = build_with_feature::<F, VVV<F>>(
                    flat,
                    dim,
                    capacity,
                    maxleaves,
                    threshold,
                    dist_kind,
                    abs_kind,
                );
                proof {
                    let es = choose|es: Seq<VVV<F>>| #[trigger] records_all(r.0@, es) && valid_features(es, dim as nat);
                    assert forall|k: int| 0 <= k < r.0@.len() implies ((#[trigger] r.0@[k]).covariance is Some
                        <==> spells_ignoring_case(bytes, FeatureName::VVV.spec_word()))
                        && r.0@[k].ssd_per_dim@.len() == dim by {
                        assert(records(r.0@[k], es[k]));
                        assert(es[k].spec_dim() == dim);
                    }
                }
                r
            },
        };
        proof {
            assert(built_by_names(
                (clusters@, num_rebuilds, overall_variance),
                flat@,
                dim as nat,
                capacity as nat,
                maxleaves as nat,
                threshold,
                dist_kind,
                abs_kind,
                feat_kind,
            ));
            assert forall|d: DistanceName, a: DistanceName, f: FeatureName|
                spells_ignoring_case(distance.spec_bytes(), d.spec_word()) && spells_ignoring_case(
                    absorption.spec_bytes(),
                    a.spec_word(),
                ) && spells_ignoring_case(feature.spec_bytes(), f.spec_word()) implies #[trigger] built_by_names(
                    (clusters@, num_rebuilds, overall_variance),
                    flat@,
                    dim as nat,
                    capacity as nat,
                    maxleaves as nat,
                    threshold,
                    d,
                    a,
                    f,
                ) by {
                lemma_distance_spelled_once(distance.spec_bytes(), d, dist_kind);
                lemma_distance_spelled_once(absorption.spec_bytes(), a, abs_kind);
                lemma_feature_spelled_once(feature.spec_bytes(), f, feat_kind);
            }
        }
        Ok(PyBetula { clusters, num_rebuilds, overall_variance })
    }
}

/// A tree routed and absorbing by centroid Euclidean distance, over one of
/// the three feature types.
pub enum PyCFTreeInner<F> {
    VII(CFTree<F, VII<F>, CentroidEuclideanDistance<F, VII<F>>, CentroidEuclideanDistance<F, VII<F>>>),
    VVI(CFTree<F, VVI<F>, CentroidEuclideanDistance<F, VVI<F>>, CentroidEuclideanDistance<F, VVI<F>>>),
    VVV(CFTree<F, VVV<F>, CentroidEuclideanDistance<F, VVV<F>>, CentroidEuclideanDistance<F, VVV<F>>>),
}

/// A tree that grows point by point.
pub struct PyCFTree<F> {
    pub inner: PyCFTreeInner<F>,
}

impl<F: Float> PyCFTree<F> {
    /// The tree is consistent.
    pub open spec fn wf(&self) -> bool {
        match self.inner {
            PyCFTreeInner::VII(t) => t.wf(),
            PyCFTreeInner::VVI(t) => t.wf(),
            PyCFTreeInner::VVV(t) => t.wf(),
        }
    }

    /// Number of points inserted.
    pub open spec fn spec_points(&self) -> nat {
        match self.inner {
            PyCFTreeInner::VII(t) => t.total_size(),
            PyCFTreeInner::VVI(t) => t.total_size(),
            PyCFTreeInner::VVV(t) => t.total_size(),
        }
    }

    pub open spec fn spec_dim(&self) -> nat {
        match self.inner {
            PyCFTreeInner::VII(t) => t.spec_dim(),
            PyCFTreeInner::VVI(t) => t.spec_dim(),
            PyCFTreeInner::VVV(t) => t.spec_dim(),
        }
    }

    pub open spec fn spec_num_clusters(&self) -> nat {
        match self.inner {
            PyCFTreeInner::VII(t) => t.spec_entries().len(),
            PyCFTreeInner::VVI(t) => t.spec_entries().len(),
            PyCFTreeInner::VVV(t) => t.spec_entries().len(),
        }
    }

    pub open spec fn spec_capacity(&self) -> nat {
        match self.inner {
            PyCFTreeInner::VII(t) => t.spec_capacity(),
            PyCFTreeInner::VVI(t) => t.spec_capacity(),
            PyCFTreeInner::VVV(t) => t.spec_capacity(),
        }
    }

    pub open spec fn spec_maxleaves(&self) -> nat {
        match self.inner {
            PyCFTreeInner::VII(t) => t.spec_maxleaves(),
            PyCFTreeInner::VVI(t) => t.spec_maxleaves(),
            PyCFTreeInner::VVV(t) => t.spec_maxleaves(),
        }
    }

    pub open spec fn spec_threshold(&self) -> F {
        match self.inner {
            PyCFTreeInner::VII(t) => t.spec_threshold(),
            PyCFTreeInner::VVI(t) => t.spec_threshold(),
            PyCFTreeInner::VVV(t) => t.spec_threshold(),
        }
    }

    /// Size and centroid of each leaf cluster, in storage order.
    pub open spec fn spec_cluster_stats(&self) -> Seq<(nat, Seq<F>)> {
        match self.inner {
            PyCFTreeInner::VII(t) => entry_stats(t.spec_entries()),
            PyCFTreeInner::VVI(t) => entry_stats(t.spec_entries()),
            PyCFTreeInner::VVV(t) => entry_stats(t.spec_entries()),
        }
    }

    /// The leaf cluster that absorbs the point `x`, if one does.
    pub open spec fn spec_point_absorber(&self, x: Seq<F>) -> Option<usize> {
        match self.inner {
            PyCFTreeInner::VII(t) => t.point_absorber(x),
            PyCFTreeInner::VVI(t) => t.point_absorber(x),
            PyCFTreeInner::VVV(t) => t.point_absorber(x),
        }
    }

    pub open spec fn spec_rebuild_count(&self) -> nat {
        match self.inner {
            PyCFTreeInner::VII(t) => t.spec_rebuild_count(),
            PyCFTreeInner::VVI(t) => t.spec_rebuild_count(),
            PyCFTreeInner::VVV(t) => t.spec_rebuild_count(),
        }
    }

    /// An empty tree over the feature chosen by name.
    pub fn new(dim: usize, capacity: usize, maxleaves: usize, threshold: F, feature: &str) -> (r:
        Result<Self, UnknownName>)
        requires
            spells_ignoring_case(feature.spec_bytes(), FeatureName::VVV.spec_word()) ==> dim * (dim
                + 1) <= usize::MAX,
        ensures
            r is Err <==> !known_feature(feature),
            r matches Err(e) ==> e.name@ == feature@,
            r matches Ok(t) ==> t.wf() && t.spec_points() == 0 && t.spec_dim() == dim
                && t.spec_num_clusters() == 0,
            r matches Ok(t) ==> t.spec_capacity() == capacity && t.spec_maxleaves() == maxleaves
                && t.spec_threshold() == threshold && t.spec_rebuild_count() == 0,
            r matches Ok(t) ==> match t.inner {
                PyCFTreeInner::VII(a) => fresh_tree(a, dim as nat, capacity as nat, maxleaves as nat, threshold),
                PyCFTreeInner::VVI(a) => fresh_tree(a, dim as nat, capacity as nat, maxleaves as nat, threshold),
                PyCFTreeInner::VVV(a) => fresh_tree(a, dim as nat, capacity as nat, maxleaves as nat, threshold),
            },
            r matches Ok(t) ==> (t.inner is VII <==> spells_ignoring_case(
                feature.spec_bytes(),
                FeatureName::VII.spec_word(),
            )),
            r matches Ok(t) ==> (t.inner is VVI <==> spells_ignoring_case(
                feature.spec_bytes(),
                FeatureName::VVI.spec_word(),
            )),
    {
        let kind = match FeatureName::parse(feature) {
            Ok(f) => f,
            Err(e) => {
                return Err(e);
            },
        };
        proof {
            lemma_words_differ(feature.spec_bytes());
        }
        let inner = match kind {
            FeatureName::VII => PyCFTreeInner::VII(
                CFTree::new(
                    CentroidEuclideanDistance::new(),
                    CentroidEuclideanDistance::new(),
                    capacity,
                    dim,
                    maxleaves,
                    threshold,
                ),
            ),
            FeatureName::VVI => PyCFTreeInner::VVI(
                CFTree::new(
                    CentroidEuclideanDistance::new(),
                    CentroidEuclideanDistance::new(),
                    capacity,
                    dim,
                    maxleaves,
                    threshold,
                ),
            ),
            FeatureName::VVV => PyCFTreeInner::VVV(
                CFTree::new(
                    CentroidEuclideanDistance::new(),
                    CentroidEuclideanDistance::new(),
                    capacity,
                    dim,
                    maxleaves,
                    threshold,
                ),
            ),
        };
        Ok(PyCFTree { inner })
    }

    /// Inserts one point; only its first `dim` values are read.
    pub fn insert(&mut self, point: &[F])
        requires
            old(self).wf(),
            point@.len() >= old(self).spec_dim(),
            2 * (old(self).spec_points() + 1) <= usize::MAX,
        ensures
            final(self).wf(),
            final(self).spec_points() == old(self).spec_points() + 1,
            final(self).spec_dim() == old(self).spec_dim(),
            final(self).spec_rebuild_count() >= old(self).spec_rebuild_count(),
            old(self).spec_num_clusters() + (if old(self).spec_point_absorber(point@) is None {
                1int
            } else {
                0int
            }) <= old(self).spec_maxleaves() ==> final(self).spec_rebuild_count()
                == old(self).spec_rebuild_count(),
            final(self).spec_rebuild_count() == old(self).spec_rebuild_count() ==> final(self).spec_threshold()
                == old(self).spec_threshold(),
            final(self).spec_rebuild_count() == old(self).spec_rebuild_count() ==> stats_after_absorb(
                old(self).spec_cluster_stats(),
                final(self).spec_cluster_stats(),
                old(self).spec_point_absorber(point@),
                point@.subrange(0, old(self).spec_dim() as int),
            ),
            old(self).spec_num_clusters() == 0 ==> old(self).spec_point_absorber(point@) is None,
            match (old(self).inner, final(self).inner) {
                (PyCFTreeInner::VII(a), PyCFTreeInner::VII(b)) => point_inserted(a, b, point@),
                (PyCFTreeInner::VVI(a), PyCFTreeInner::VVI(b)) => point_inserted(a, b, point@),
                (PyCFTreeInner::VVV(a), PyCFTreeInner::VVV(b)) => point_inserted(a, b, point@),
                _ => false,
            },
            final(self).spec_capacity() == old(self).spec_capacity(),
            final(self).spec_maxleaves() == old(self).spec_maxleaves(),
            (final(self).inner is VII) == (old(self).inner is VII),
            (final(self).inner is VVI) == (old(self).inner is VVI),
    {
        match &mut self.inner {
            PyCFTreeInner::VII(t) => {
                proof {
                    lemma_tree_point_step(*t, point@);
                }
                let ghost t0 = *t;
                t.insert(point);
                proof {
                    lemma_stats_after(t0, *t, point@);
                }
            },
            PyCFTreeInner::VVI(t) => {
                proof {
                    lemma_tree_point_step(*t, point@);
                }
                let ghost t0 = *t;
                t.insert(point);
                proof {
                    lemma_stats_after(t0, *t, point@);
                }
            },
            PyCFTreeInner::VVV(t) => {
                proof {
                    lemma_tree_point_step(*t, point@);
                }
                let ghost t0 = *t;
                t.insert(point);
                proof {
                    lemma_stats_after(t0, *t, point@);
                }
            },
        }
    }

    /// Records of the leaf clusters, in storage order.
    pub fn leaf_clusters(&self) -> (r: Vec<PyClusterFeature<F>>)
        requires
            self.wf(),
        ensures
            r@.len() == self.spec_num_clusters(),
            sum_nat(record_sizes(r@)) == self.spec_points(),
            forall|k: int|
                0 <= k < r@.len() ==> (#[trigger] r@[k]).size == self.spec_cluster_stats()[k].0
                    && r@[k].centroid@ == self.spec_cluster_stats()[k].1,
    {
        match &self.inner {
            PyCFTreeInner::VII(t) => tree_clusters(t),
            PyCFTreeInner::VVI(t) => tree_clusters(t),
            PyCFTreeInner::VVV(t) => tree_clusters(t),
        }
    }

    /// Number of points inserted.
    pub fn num_points(&self) -> (r: usize)
        requires
            self.wf(),
        ensures
            r == self.spec_points(),
    {
        match &self.inner {
            PyCFTreeInner::VII(t) => t.num_points(),
            PyCFTreeInner::VVI(t) => t.num_points(),
            PyCFTreeInner::VVV(t) => t.num_points(),
        }
    }

    pub fn num_clusters(&self) -> (r: usize)
        ensures
            r == self.spec_num_clusters(),
    {
        match &self.inner {
            PyCFTreeInner::VII(t) => t.leaf_entries().len(),
            PyCFTreeInner::VVI(t) => t.leaf_entries().len(),
            PyCFTreeInner::VVV(t) => t.leaf_entries().len(),
        }
    }

    pub fn rebuild_count(&self) -> (r: usize)
        ensures
            r == self.spec_rebuild_count(),
    {
        match &self.inner {
            PyCFTreeInner::VII(t) => t.rebuild_count(),
            PyCFTreeInner::VVI(t) => t.rebuild_count(),
            PyCFTreeInner::VVV(t) => t.rebuild_count(),
        }
    }

    pub fn dim(&self) -> (r: usize)
        ensures
            r == self.spec_dim(),
    {
        match &self.inner {
            PyCFTreeInner::VII(t) => t.dim(),
            PyCFTreeInner::VVI(t) => t.dim(),
            PyCFTreeInner::VVV(t) => t.dim(),
        }
    }
}

/// Size and centroid of each of `es`.
pub open spec fn entry_stats<F: Float, CF: ClusterFeature<F>>(es: Seq<CF>) -> Seq<(nat, Seq<F>)> {
    es.map_values(|c: CF| (c.spec_size(), c.spec_centroid()))
}

/// `new` holds the cluster statistics `old` after one point centred at
/// `centroid` was inserted: the cluster `absorber` took it in, or it became
/// a new last cluster when `absorber` is `None`.
pub open spec fn stats_after_absorb<F>(
    old: Seq<(nat, Seq<F>)>,
    new: Seq<(nat, Seq<F>)>,
    absorber: Option<usize>,
    centroid: Seq<F>,
) -> bool {
    match absorber {
        Some(b) => {
            &&& b < old.len()
            &&& new == old.update(b as int, new[b as int])
            &&& new[b as int].0 == old[b as int].0 + 1
        },
        None => {
            &&& new.len() == old.len() + 1
            &&& new.drop_last() == old
            &&& new.last() == (1nat, centroid)
        },
    }
}

/// An empty tree absorbs no point.
proof fn lemma_tree_point_step<F: Float, CF: ClusterFeature<F>, D: CFDistance<F, CF>, A: CFDistance<
    F,
    CF,
>>(t: CFTree<F, CF, D, A>, x: Seq<F>)
    requires
        t.wf(),
    ensures
        t.spec_entries().len() == 0 ==> t.point_absorber(x) is None,
{
    if t.spec_entries().len() == 0 {
        t.lemma_no_entries_point(x);
    }
}

/// The statistics of the leaf entries follow the entries through an
/// insertion of one point.
proof fn lemma_stats_after<F: Float, CF: ClusterFeature<F>, D: CFDistance<F, CF>, A: CFDistance<
    F,
    CF,
>>(t0: CFTree<F, CF, D, A>, t1: CFTree<F, CF, D, A>, x: Seq<F>)
    requires
        t1.spec_rebuild_count() == t0.spec_rebuild_count() ==> entries_after_absorb(
            t0.spec_entries(),
            t1.spec_entries(),
            t0.point_absorber(x),
            1,
            x.subrange(0, t0.spec_dim() as int),
        ),
    ensures
        t1.spec_rebuild_count() == t0.spec_rebuild_count() ==> stats_after_absorb(
            entry_stats(t0.spec_entries()),
            entry_stats(t1.spec_entries()),
            t0.point_absorber(x),
            x.subrange(0, t0.spec_dim() as int),
        ),
{
    if t1.spec_rebuild_count() == t0.spec_rebuild_count() {
        let o = entry_stats(t0.spec_entries());
        let n = entry_stats(t1.spec_entries());
        match t0.point_absorber(x) {
            Some(b) => {
                assert(n =~= o.update(b as int, n[b as int]));
            },
            None => {
                assert(n.drop_last() =~= o);
            },
        }
    }
}

/// No name spells two different features.
proof fn lemma_words_differ(bytes: Seq<u8>)
    ensures
        !(spells_ignoring_case(bytes, FeatureName::VII.spec_word()) && spells_ignoring_case(
            bytes,
            FeatureName::VVI.spec_word(),
        )),
        !(spells_ignoring_case(bytes, FeatureName::VII.spec_word()) && spells_ignoring_case(
            bytes,
            FeatureName::VVV.spec_word(),
        )),
        !(spells_ignoring_case(bytes, FeatureName::VVI.spec_word()) && spells_ignoring_case(
            bytes,
            FeatureName::VVV.spec_word(),
        )),
{
    if spells_ignoring_case(bytes, FeatureName::VII.spec_word()) {
        assert(crate::names::spec_ascii_lower(bytes[1]) == 'i' as u8);
    }
    if spells_ignoring_case(bytes, FeatureName::VVI.spec_word()) {
        assert(crate::names::spec_ascii_lower(bytes[2]) == 'i' as u8);
    }
}

} // verus!
