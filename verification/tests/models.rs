use betula::cf_tree::CFTree;
use betula::cluster_feature::{ClusterFeature, ClusterSummary, VII, VVI, VVV};
use betula::distance::{CentroidEuclideanDistance, CentroidManhattanDistance};
use betula::names::{DistanceName, FeatureName};
use betula::python::{build_tree_and_extract, ModelError, PyBetula, PyCFTree, PyCFTreeInner, PyClusterFeature};
use betula::types::{Comparison, Float, FromIndex};

/// `f64` as the library's number type.
#[derive(Clone, Copy, Debug, PartialEq, PartialOrd)]
struct F64(f64);

impl F64 {
    /// `v`, with every NaN given the same bits.
    fn of(v: f64) -> Self {
        if v.is_nan() {
            F64(f64::NAN)
        } else {
            F64(v)
        }
    }
}

impl FromIndex for F64 {
    fn spec_from_index(i: usize) -> Self {
        Self::from_index(i)
    }

    fn from_index(i: usize) -> Self {
        F64(i as f64)
    }
}

impl Float for F64 {
    fn spec_zero() -> Self {
        Self::zero()
    }

    fn spec_one() -> Self {
        Self::one()
    }

    fn spec_infinity() -> Self {
        Self::infinity()
    }

    fn spec_epsilon() -> Self {
        Self::epsilon()
    }

    fn spec_plus(self, other: Self) -> Self {
        self.plus(other)
    }

    fn spec_minus(self, other: Self) -> Self {
        self.minus(other)
    }

    fn spec_times(self, other: Self) -> Self {
        self.times(other)
    }

    fn spec_divided_by(self, other: Self) -> Self {
        self.divided_by(other)
    }

    fn spec_mul_add(self, a: Self, b: Self) -> Self {
        self.mul_add(a, b)
    }

    fn spec_abs(self) -> Self {
        self.abs()
    }

    fn spec_sqrt(self) -> Self {
        self.sqrt()
    }

    fn spec_compare(self, other: Self) -> Comparison {
        self.compare(&other)
    }

    fn zero() -> Self {
        F64(0.0)
    }
    fn one() -> Self {
        F64(1.0)
    }
    fn infinity() -> Self {
        F64(f64::INFINITY)
    }
    fn epsilon() -> Self {
        F64(f64::EPSILON)
    }
    fn plus(self, other: Self) -> Self {
        F64::of(self.0 + other.0)
    }
    fn minus(self, other: Self) -> Self {
        F64::of(self.0 - other.0)
    }
    fn times(self, other: Self) -> Self {
        F64::of(self.0 * other.0)
    }
    fn divided_by(self, other: Self) -> Self {
        F64::of(self.0 / other.0)
    }
    fn mul_add(self, a: Self, b: Self) -> Self {
        F64::of(self.0.mul_add(a.0, b.0))
    }
    fn abs(self) -> Self {
        F64::of(self.0.abs())
    }
    fn sqrt(self) -> Self {
        F64::of(self.0.sqrt())
    }
    fn lt(&self, other: &Self) -> bool {
        self.0 < other.0
    }
    fn le(&self, other: &Self) -> bool {
        self.0 <= other.0
    }
    fn compare(&self, other: &Self) -> Comparison {
        match self.0.partial_cmp(&other.0) {
            Some(std::cmp::Ordering::Less) => Comparison::Less,
            Some(std::cmp::Ordering::Equal) => Comparison::Equal,
            Some(std::cmp::Ordering::Greater) => Comparison::Greater,
            None => Comparison::Unordered,
        }
    }
}

fn pt(xs: &[f64]) -> Vec<F64> {
    xs.iter().map(|&x| F64(x)).collect()
}

fn assert_close(expected: f64, actual: f64) {
    assert!((expected - actual).abs() < 1e-10, "expected={}, actual={}", expected, actual);
}

type Euclid = CentroidEuclideanDistance<F64, VII<F64>>;

fn flat(rows: &[&[f64]]) -> Vec<F64> {
    rows.iter().flat_map(|r| r.iter().map(|&x| F64(x))).collect()
}

// ── Names ──

#[test]
fn feature_names_parse_ignoring_ascii_case() {
    assert_eq!(FeatureName::parse("vii").ok(), Some(FeatureName::VII));
    assert_eq!(FeatureName::parse("VVI").ok(), Some(FeatureName::VVI));
    assert_eq!(FeatureName::parse("vVv").ok(), Some(FeatureName::VVV));
}

#[test]
fn unknown_feature_name_is_reported() {
    match FeatureName::parse("vi") {
        Err(e) => assert_eq!(e.name, "vi"),
        Ok(_) => panic!("a two-letter name must not parse"),
    }
    assert!(FeatureName::parse("viii").is_err());
    assert!(FeatureName::parse("").is_err());
}

#[test]
fn distance_names_parse_ignoring_ascii_case() {
    assert_eq!(DistanceName::parse("euclidean").ok(), Some(DistanceName::Euclidean));
    assert_eq!(DistanceName::parse("Manhattan").ok(), Some(DistanceName::Manhattan));
    assert_eq!(DistanceName::parse("AVGINTERCLUSTER").ok(), Some(DistanceName::AvgIntercluster));
    assert_eq!(DistanceName::parse("avgIntraCluster").ok(), Some(DistanceName::AvgIntracluster));
    assert_eq!(DistanceName::parse("VarianceIncrease").ok(), Some(DistanceName::VarianceIncrease));
    assert_eq!(DistanceName::parse("radius").ok(), Some(DistanceName::Radius));
    match DistanceName::parse("cosine") {
        Err(e) => assert_eq!(e.name, "cosine"),
        Ok(_) => panic!("unknown distance must not parse"),
    }
}

#[test]
fn exact_distance_names_respect_case() {
    assert_eq!(DistanceName::parse_exact("radius"), Some(DistanceName::Radius));
    assert_eq!(DistanceName::parse_exact("varianceincrease"), Some(DistanceName::VarianceIncrease));
    assert_eq!(DistanceName::parse_exact("Radius"), None);
    assert_eq!(DistanceName::parse_exact("radius "), None);
}

// ── Models ──

#[test]
fn model_rejects_empty_data_first() {
    let r = PyBetula::new(&[], 0, 32, 1000, F64(0.0), "nope", "nope", "nope");
    assert!(matches!(r, Err(ModelError::EmptyData)));
}

#[test]
fn model_rejects_points_without_coordinates() {
    let data = flat(&[&[1.0]]);
    let r = PyBetula::new(&data, 0, 32, 1000, F64(0.0), "euclidean", "euclidean", "vii");
    assert!(matches!(r, Err(ModelError::NoDimensions)));
}

#[test]
fn model_reports_the_first_unknown_name() {
    let data = flat(&[&[1.0, 2.0]]);
    let r = PyBetula::new(&data, 2, 32, 1000, F64(0.0), "cosine", "nope", "nope");
    assert!(matches!(r, Err(ModelError::UnknownDistance(ref e)) if e.name == "cosine"));
    let r = PyBetula::new(&data, 2, 32, 1000, F64(0.0), "radius", "nope", "nope");
    assert!(matches!(r, Err(ModelError::UnknownAbsorption(ref e)) if e.name == "nope"));
    let r = PyBetula::new(&data, 2, 32, 1000, F64(0.0), "radius", "radius", "xyz");
    assert!(matches!(r, Err(ModelError::UnknownFeature(ref e)) if e.name == "xyz"));
}

#[test]
fn model_clusters_every_point() {
    let data = flat(&[&[1.0, 2.0], &[1.1, 2.1], &[10.0, 20.0], &[10.1, 20.1]]);
    for feature in ["vii", "vvi", "vvv"] {
        let m = PyBetula::new(&data, 2, 32, 1000, F64(0.0), "euclidean", "manhattan", feature).ok().unwrap();
        let total: usize = m.clusters.iter().map(|c| c.size).sum();
        assert_eq!(total, 4);
        assert_eq!(m.clusters.len(), 4);
        assert_eq!(m.num_rebuilds, 0);
        assert_close(0.0, m.overall_variance.0);
    }
}

#[test]
fn model_overall_variance_is_ssd_over_points() {
    // Threshold large enough that every point joins one entry.
    let data = flat(&[&[0.0, 0.0], &[2.0, 0.0], &[0.0, 2.0], &[2.0, 2.0]]);
    let (clusters, rebuilds, variance) = build_tree_and_extract::<F64, VII<F64>, Euclid, Euclid>(
        &data,
        2,
        32,
        1000,
        F64(100.0),
        Euclid::new(),
        Euclid::new(),
    );
    assert_eq!(clusters.len(), 1);
    assert_eq!(clusters[0].size, 4);
    assert_eq!(rebuilds, 0);
    // SSD = 4 * (1 + 1) = 8 over 4 points.
    assert_close(2.0, variance.0);
    assert_close(2.0, clusters[0].variance().0);
    assert_close(1.0, clusters[0].centroid[0].0);
}

#[test]
fn model_leaves_out_a_short_tail() {
    let data: Vec<F64> = [1.0, 2.0, 3.0, 4.0, 5.0].iter().map(|&x| F64(x)).collect();
    let (clusters, _, _) = build_tree_and_extract::<F64, VII<F64>, Euclid, Euclid>(
        &data,
        2,
        32,
        1000,
        F64(0.0),
        Euclid::new(),
        Euclid::new(),
    );
    let total: usize = clusters.iter().map(|c| c.size).sum();
    assert_eq!(total, 2);
}

#[test]
fn cluster_records_carry_per_dimension_data() {
    let mut vvi = VVI::<F64>::new(2);
    vvi.add(&pt(&[0.0, 0.0]));
    vvi.add(&pt(&[2.0, 4.0]));
    let r = PyClusterFeature::from_cf(&vvi);
    assert_eq!(r.size, 2);
    assert_eq!(r.ssd_per_dim.len(), 2);
    assert_close(2.0, r.ssd_per_dim[0].0);
    assert_close(8.0, r.ssd_per_dim[1].0);
    assert!(r.covariance.is_none());
    let mut vvv = VVV::<F64>::new(2);
    vvv.add(&pt(&[0.0, 0.0]));
    vvv.add(&pt(&[2.0, 4.0]));
    let r = PyClusterFeature::from_cf(&vvv);
    assert_eq!(r.ssd_per_dim.len(), 2);
    assert_close(2.0, r.ssd_per_dim[0].0);
    assert_close(8.0, r.ssd_per_dim[1].0);
    assert_close(10.0, r.ssd.0);
    assert_close(2.0, r.covariance.unwrap()[0][1].0);
    let empty = PyClusterFeature::from_cf(&VII::<F64>::new(2));
    assert_close(0.0, empty.variance().0);
}

#[test]
fn incremental_tree_tracks_points() {
    let mut t = PyCFTree::new(2, 32, 1000, F64(0.0), "VVI").ok().unwrap();
    assert!(matches!(t.inner, PyCFTreeInner::VVI(_)));
    assert_eq!(t.dim(), 2);
    for p in [[1.0, 2.0], [1.1, 2.1], [10.0, 20.0]] {
        t.insert(&pt(&p));
    }
    assert_eq!(t.num_clusters(), 3);
    assert_eq!(t.rebuild_count(), 0);
    let total: usize = t.leaf_clusters().iter().map(|c| c.size).sum();
    assert_eq!(total, 3);
    assert!(PyCFTree::<F64>::new(2, 32, 1000, F64(0.0), "abc").is_err());
}

// ── Tree laws on concrete values ──

#[test]
fn inserting_a_feature_adds_all_its_points() {
    let mut tree: CFTree<F64, VII<F64>, Euclid, Euclid> =
        CFTree::new(Euclid::new(), Euclid::new(), 2, 2, 100, F64(0.0));
    let mut cf = VII::<F64>::new(2);
    for p in [[0.0, 0.0], [1.0, 1.0], [2.0, 2.0]] {
        cf.add(&pt(&p));
    }
    tree.insert_unchecked_cf(cf);
    tree.insert(&pt(&[50.0, 50.0]));
    assert_eq!(tree.nodes()[tree.root()].as_cf().size(), 4);
    assert_eq!(tree.leaf_entries().len(), 2);
    assert_eq!(tree.leaf_entries()[0].size(), 3);
}

#[test]
fn rebuilding_keeps_every_point_and_never_adds_entries() {
    let mut tree: CFTree<F64, VII<F64>, Euclid, Euclid> =
        CFTree::new(Euclid::new(), Euclid::new(), 3, 2, 1000, F64(0.0));
    for i in 0..12 {
        let x = (i % 4) as f64;
        tree.insert(&pt(&[x, (i / 4) as f64 * 10.0]));
    }
    let before = tree.leaf_entries().len();
    tree.rebuild_tree();
    assert_eq!(tree.rebuild_count(), 1);
    assert!(tree.leaf_entries().len() <= before);
    let total: usize = tree.leaf_entries().iter().map(|c| c.size()).sum();
    assert_eq!(total, 12);
    assert_eq!(tree.nodes()[tree.root()].as_cf().size(), 12);
    assert!(tree.threshold().0 > 0.0);
}

#[test]
fn threshold_estimate_from_nearest_neighbours() {
    // One leaf with entries at 0, 1 and 3 on a line: nearest-neighbour
    // distances 1, 1 and 2, so the mean root is 4/3.
    let mut tree: CFTree<F64, VII<F64>, Euclid, Euclid> =
        CFTree::new(Euclid::new(), Euclid::new(), 10, 1, 100, F64(0.0));
    for x in [0.0, 1.0, 3.0] {
        tree.insert(&pt(&[x]));
    }
    let t = tree.estimate_threshold().0;
    let mean = 4.0 / 3.0;
    assert_close(mean * mean * (1.0 + 4.0 * f64::EPSILON), t);
    let empty: CFTree<F64, VII<F64>, Euclid, Euclid> =
        CFTree::new(Euclid::new(), Euclid::new(), 10, 1, 100, F64(0.0));
    assert_eq!(empty.estimate_threshold().0, 0.0);
}

#[test]
fn leaf_count_stays_within_maxleaves() {
    let mut tree: CFTree<F64, VII<F64>, CentroidManhattanDistance<F64, VII<F64>>, Euclid> =
        CFTree::new(CentroidManhattanDistance::new(), Euclid::new(), 4, 1, 5, F64(0.0));
    for i in 0..40 {
        tree.insert(&pt(&[i as f64]));
        assert!(tree.leaf_entries().len() <= 5);
    }
    let total: usize = tree.leaf_entries().iter().map(|c| c.size()).sum();
    assert_eq!(total, 40);
    assert!(tree.rebuild_count() > 0);
}

#[test]
fn depth_first_order_covers_every_entry_once() {
    let mut tree: CFTree<F64, VII<F64>, Euclid, Euclid> =
        CFTree::new(Euclid::new(), Euclid::new(), 2, 1, 1000, F64(0.0));
    for x in [5.0, 1.0, 9.0, 3.0, 7.0, 2.0, 8.0] {
        tree.insert(&pt(&[x]));
    }
    let mut ids = tree.collect_leaf_entry_ids_in_tree_order();
    assert_eq!(ids.len(), tree.leaf_entries().len());
    ids.sort_unstable();
    assert_eq!(ids, (0..tree.leaf_entries().len()).collect::<Vec<usize>>());
}

fn leaf_depths(tree: &CFTree<F64, VII<F64>, Euclid, Euclid>, node: usize, depth: usize, out: &mut Vec<usize>) {
    let n = &tree.nodes()[node];
    if n.is_leaf() {
        out.push(depth);
    } else {
        for &c in n.children() {
            leaf_depths(tree, c, depth + 1, out);
        }
    }
}

#[test]
fn nodes_respect_capacity_and_leaves_share_one_depth() {
    for capacity in [0usize, 1, 2, 3, 5] {
        let mut tree: CFTree<F64, VII<F64>, Euclid, Euclid> =
            CFTree::new(Euclid::new(), Euclid::new(), capacity, 2, 1000, F64(0.0));
        for i in 0..60 {
            let x = ((i * 37) % 101) as f64;
            tree.insert(&pt(&[x, (i % 7) as f64]));
        }
        let bound = if capacity < 2 { 2 } else { capacity };
        for node in tree.nodes() {
            assert!(node.num_childs() <= bound, "capacity {} exceeded", capacity);
        }
        let mut depths = Vec::new();
        leaf_depths(&tree, tree.root(), 0, &mut depths);
        assert!(depths.iter().all(|&d| d == depths[0]), "leaves at different depths");
        let total: usize = tree.leaf_entries().iter().map(|c| c.size()).sum();
        assert_eq!(total, 60);
    }
}

#[test]
fn an_insert_grows_one_entry_or_appends_one() {
    let mut absorbing: CFTree<F64, VII<F64>, Euclid, Euclid> =
        CFTree::new(Euclid::new(), Euclid::new(), 4, 2, 100, F64(10.0));
    absorbing.insert(&pt(&[1.0, 1.0]));
    absorbing.insert(&pt(&[2.0, 1.0]));
    assert_eq!(absorbing.leaf_entries().len(), 1);
    assert_eq!(absorbing.leaf_entries()[0].size(), 2);
    assert_close(1.5, absorbing.leaf_entries()[0].centroid()[0].0);

    let mut separate: CFTree<F64, VII<F64>, Euclid, Euclid> =
        CFTree::new(Euclid::new(), Euclid::new(), 4, 2, 100, F64(0.0));
    separate.insert(&pt(&[1.0, 1.0]));
    separate.insert(&pt(&[2.0, 1.0, 99.0]));
    assert_eq!(separate.leaf_entries().len(), 2);
    let last = &separate.leaf_entries()[1];
    assert_eq!(last.size(), 1);
    assert_eq!(last.centroid().len(), 2);
    assert_close(2.0, last.centroid()[0].0);
    assert_close(1.0, last.centroid()[1].0);
}

#[test]
fn point_count_is_the_root_size() {
    let mut tree: CFTree<F64, VII<F64>, Euclid, Euclid> =
        CFTree::new(Euclid::new(), Euclid::new(), 2, 1, 3, F64(0.0));
    assert_eq!(tree.num_points(), 0);
    for i in 0..9 {
        tree.insert(&pt(&[i as f64]));
    }
    assert_eq!(tree.num_points(), 9);
    let mut model = PyCFTree::new(1, 2, 3, F64(0.0), "vii").ok().unwrap();
    for i in 0..5 {
        model.insert(&pt(&[i as f64 * 2.0]));
    }
    assert_eq!(model.num_points(), 5);
}

#[test]
fn incremental_tree_uses_first_coordinates_of_longer_points() {
    let mut t = PyCFTree::new(2, 32, 1000, F64(0.0), "vii").ok().unwrap();
    t.insert(&pt(&[1.0, 2.0, 3.0]));
    assert_eq!(t.num_clusters(), 1);
    let cs = t.leaf_clusters();
    assert_eq!(cs[0].size, 1);
    assert_eq!(cs[0].centroid.len(), 2);
    assert_close(1.0, cs[0].centroid[0].0);
    assert_close(2.0, cs[0].centroid[1].0);
}

#[test]
fn record_variance_is_ssd_over_size() {
    let mut vii = VII::<F64>::new(1);
    vii.add(&pt(&[0.0]));
    vii.add(&pt(&[2.0]));
    let r = PyClusterFeature::from_cf(&vii);
    assert_close(2.0, r.ssd.0);
    assert_close(1.0, r.variance().0);
}
