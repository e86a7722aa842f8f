use betula::betula::Betula;
use betula::cf_tree::{CFNode, CFTree};
use betula::cluster_feature::{ClusterFeature, ClusterSummary, VII};
use betula::distance::{
    AverageInterclusterDistance, AverageIntraclusterDistance, CFDistance,
    CentroidEuclideanDistance, CentroidManhattanDistance, RadiusDistance, SqEuclidean,
    VarianceIncreaseDistance, VectorDistance,
};
use betula::types::{Comparison, Float, FromIndex};
use rand::rngs::StdRng;
use rand::{Rng, SeedableRng};

/// `f64` as the library's number type.
#[derive(Clone, Copy, Debug, PartialEq, PartialOrd)]
struct F64(f64);

impl F64 {
    /// `v`, with every NaN given the same bits.
    fn of(v: f64) -> Self {
        if v.is_nan() {
            F64(f64::NAN)
        } else {
            F64(v)
        }
    }
}

impl FromIndex for F64 {
    fn spec_from_index(i: usize) -> Self {
        Self::from_index(i)
    }

    fn from_index(i: usize) -> Self {
        F64(i as f64)
    }
}

impl Float for F64 {
    fn spec_zero() -> Self {
        Self::zero()
    }

    fn spec_one() -> Self {
        Self::one()
    }

    fn spec_infinity() -> Self {
        Self::infinity()
    }

    fn spec_epsilon() -> Self {
        Self::epsilon()
    }

    fn spec_plus(self, other: Self) -> Self {
        self.plus(other)
    }

    fn spec_minus(self, other: Self) -> Self {
        self.minus(other)
    }

    fn spec_times(self, other: Self) -> Self {
        self.times(other)
    }

    fn spec_divided_by(self, other: Self) -> Self {
        self.divided_by(other)
    }

    fn spec_mul_add(self, a: Self, b: Self) -> Self {
        self.mul_add(a, b)
    }

    fn spec_abs(self) -> Self {
        self.abs()
    }

    fn spec_sqrt(self) -> Self {
        self.sqrt()
    }

    fn spec_compare(self, other: Self) -> Comparison {
        self.compare(&other)
    }

    fn zero() -> Self {
        F64(0.0)
    }
    fn one() -> Self {
        F64(1.0)
    }
    fn infinity() -> Self {
        F64(f64::INFINITY)
    }
    fn epsilon() -> Self {
        F64(f64::EPSILON)
    }
    fn plus(self, other: Self) -> Self {
        F64::of(self.0 + other.0)
    }
    fn minus(self, other: Self) -> Self {
        F64::of(self.0 - other.0)
    }
    fn times(self, other: Self) -> Self {
        F64::of(self.0 * other.0)
    }
    fn divided_by(self, other: Self) -> Self {
        F64::of(self.0 / other.0)
    }
    fn mul_add(self, a: Self, b: Self) -> Self {
        F64::of(self.0.mul_add(a.0, b.0))
    }
    fn abs(self) -> Self {
        F64::of(self.0.abs())
    }
    fn sqrt(self) -> Self {
        F64::of(self.0.sqrt())
    }
    fn lt(&self, other: &Self) -> bool {
        self.0 < other.0
    }
    fn le(&self, other: &Self) -> bool {
        self.0 <= other.0
    }
    fn compare(&self, other: &Self) -> Comparison {
        match self.0.partial_cmp(&other.0) {
            Some(std::cmp::Ordering::Less) => Comparison::Less,
            Some(std::cmp::Ordering::Equal) => Comparison::Equal,
            Some(std::cmp::Ordering::Greater) => Comparison::Greater,
            None => Comparison::Unordered,
        }
    }
}

fn pt(xs: &[f64]) -> Vec<F64> {
    xs.iter().map(|&x| F64(x)).collect()
}

fn assert_close(expected: f64, actual: f64) {
    assert!((expected - actual).abs() < 1e-10, "expected={}, actual={}", expected, actual);
}

type Euclid = CentroidEuclideanDistance<F64, VII<F64>>;
type EuclidTree = CFTree<F64, VII<F64>, Euclid, Euclid>;

fn euclid_tree(capacity: usize, dim: usize, maxleaves: usize, threshold: f64) -> EuclidTree {
    CFTree::new(Euclid::new(), Euclid::new(), capacity, dim, maxleaves, F64(threshold))
}

fn insert_all<D: CFDistance<F64, VII<F64>>, A: CFDistance<F64, VII<F64>>>(
    tree: &mut CFTree<F64, VII<F64>, D, A>,
    data: &[Vec<f64>],
) {
    for v in data {
        tree.insert(&pt(v));
    }
}

fn total_entry_size<D: CFDistance<F64, VII<F64>>, A: CFDistance<F64, VII<F64>>>(
    tree: &CFTree<F64, VII<F64>, D, A>,
) -> usize {
    tree.leaf_entries().iter().map(|cf| cf.size()).sum()
}

fn create_data(size: usize, dim: usize) -> Vec<Vec<f64>> {
    let mut data = Vec::with_capacity(size);
    let mut rng = StdRng::seed_from_u64(0xBAD5EEDu64).random_iter::<f64>();
    for _ in 0..size {
        data.push(rng.by_ref().take(dim).collect::<Vec<f64>>());
    }
    data
}

fn random_points(seed: u64, n: usize) -> Vec<Vec<f64>> {
    let mut rng = StdRng::seed_from_u64(seed);
    (0..n).map(|_| vec![rng.random_range(0.0..100.0), rng.random_range(0.0..100.0)]).collect()
}

fn centroid_of(cf: &VII<F64>) -> Vec<f64> {
    cf.centroid().iter().map(|x| x.0).collect()
}

fn centroid_diff(a: &VII<F64>, b: &VII<F64>) -> f64 {
    centroid_of(a).iter().zip(centroid_of(b)).map(|(x, y)| (x - y).abs()).sum()
}

/// The feature rebuilt from a node's children.
fn reconstructed<D: CFDistance<F64, VII<F64>>, A: CFDistance<F64, VII<F64>>>(
    node: &CFNode<F64, VII<F64>>,
    tree: &CFTree<F64, VII<F64>, D, A>,
) -> VII<F64> {
    let mut r = VII::<F64>::new(tree.dim());
    for &id in node.children() {
        if node.is_leaf() {
            r.add_cf(&tree.leaf_entries()[id]);
        } else {
            r.add_cf(tree.nodes()[id].as_cf());
        }
    }
    r
}

/// Every node summarizes exactly its children.
fn verify_node<D: CFDistance<F64, VII<F64>>, A: CFDistance<F64, VII<F64>>>(
    node: &CFNode<F64, VII<F64>>,
    tree: &CFTree<F64, VII<F64>, D, A>,
) {
    let r = reconstructed(node, tree);
    assert!(centroid_diff(node.as_cf(), &r) < 0.001, "Centroid mismatch in node");
    assert!((r.ssd().0 - node.as_cf().ssd().0).abs() < 0.001, "SSD mismatch in node");
    if !node.is_leaf() {
        for &id in node.children() {
            verify_node(&tree.nodes()[id], tree);
        }
    }
}

fn verify_size(ds: &[Vec<f64>], cf: &VII<F64>) {
    assert_eq!(ds.len(), cf.size());
}

fn calc_error_for_mean(ds: &[Vec<f64>], cf: &VII<F64>) -> f64 {
    let mut meansum = vec![0.0; ds[0].len()];
    for x in ds {
        for (c, v) in meansum.iter_mut().zip(x) {
            *c += *v;
        }
    }
    let center: Vec<F64> = meansum.iter().map(|f| F64(f / ds.len() as f64)).collect();
    SqEuclidean::dist(&center, cf.centroid(), center.len()).0
}

fn create_data_det() -> Vec<Vec<f64>> {
    vec![vec![1.0, 2.5], vec![2.0, 3.0], vec![3.0, 4.0], vec![3.0, 4.2], vec![1.0, 2.5]]
}

// ── Tree construction ──

#[test]
fn flat_tree_one_object_per_leaf() {
    let data = create_data_det();
    let mut tree = euclid_tree(10, 2, 10, 0.0);
    insert_all(&mut tree, &data);
    assert_eq!(tree.leaf_entries().len(), 4);
    assert_eq!(tree.threshold().0, 0.0);
    verify_size(&data, tree.nodes().get(tree.root()).unwrap().as_cf());
    println!("{}", calc_error_for_mean(&data, tree.nodes().get(tree.root()).unwrap().as_cf()));
    verify_node(&tree.nodes()[tree.root()], &tree);
}

#[test]
fn betula_constructs_tree_from_data() {
    let data: Vec<Vec<f64>> = create_data_det();
    let rows: Vec<Vec<F64>> = data.iter().map(|v| pt(v)).collect();
    let data_refs: Vec<&[F64]> = rows.iter().map(|v| v.as_slice()).collect();
    let betula = Betula::new(&data_refs, Euclid::new(), Euclid::new(), 10, 2, 10, F64(0.0));
    assert_eq!(betula.cf_tree.leaf_entries().len(), 4);
}

// ── Rebuilds ──

#[test]
fn flat_tree_multiple_objects_per_leaf() {
    let data = create_data(50, 2);
    let mut tree = euclid_tree(100, 2, 5, 0.0);
    insert_all(&mut tree, &data);
    assert!(tree.rebuild_count() > 0);
    assert_ne!(tree.threshold().0, 0.0);
    assert_eq!(tree.leaf_entries().len(), 4);
    verify_size(&data, tree.nodes().get(tree.root()).unwrap().as_cf());
    println!("{}", calc_error_for_mean(&data, tree.nodes().get(tree.root()).unwrap().as_cf()));
    verify_node(&tree.nodes()[tree.root()], &tree);
}

#[test]
fn test_rebuild_must_use_tree_leaf_order_not_storage_order() {
    let data = create_data(40, 2);
    let mut tree = euclid_tree(3, 2, 100, 0.0);
    insert_all(&mut tree, &data);
    let storage_ids: Vec<usize> = (0..tree.leaf_entries().len()).collect();
    let dfs_ids = tree.collect_leaf_entry_ids_in_tree_order();
    let mut sorted_dfs = dfs_ids.clone();
    sorted_dfs.sort_unstable();
    assert_eq!(sorted_dfs, storage_ids, "DFS traversal must visit every leaf entry exactly once");
    assert_ne!(
        dfs_ids, storage_ids,
        "leaf_entries storage order unexpectedly matched DFS order; the rebuild test no longer exercises the order"
    );
}

// ── Splits ──

#[test]
fn split_nodes_hold_the_merge_of_their_children() {
    let mut tree = euclid_tree(2, 2, 100, 0.0);
    insert_all(&mut tree, &[vec![0.0, 0.0], vec![10.0, 0.0], vec![0.0, 10.0]]);
    assert_eq!(tree.nodes().len(), 3);
    let root = &tree.nodes()[tree.root()];
    assert!(!root.is_leaf());
    assert_eq!(root.children().len(), 2);
    for node in tree.nodes() {
        let r = reconstructed(node, &tree);
        assert_eq!(node.as_cf().size(), r.size());
        assert_eq!(centroid_of(node.as_cf()), centroid_of(&r));
        assert_eq!(node.as_cf().ssd().0, r.ssd().0);
    }
    assert_eq!(root.as_cf().size(), 3);
}

#[test]
fn entry_centroids_have_the_tree_dimensionality() {
    let data = random_points(7, 40);
    let mut tree = euclid_tree(3, 2, 5, 0.0);
    insert_all(&mut tree, &data);
    assert!(tree.leaf_entries().iter().all(|e| e.centroid().len() == 2 && e.size() >= 1));
    assert!(tree.nodes().iter().all(|n| n.as_cf().centroid().len() == 2));
    assert_eq!(total_entry_size(&tree), data.len());
}

#[test]
fn test_split_propagation_cf_consistency() {
    let data = random_points(42, 20);
    let mut tree = euclid_tree(3, 2, 100, 0.0);
    insert_all(&mut tree, &data);
    verify_size(&data, tree.nodes().get(tree.root()).unwrap().as_cf());
    verify_node(&tree.nodes()[tree.root()], &tree);
    let total_size = total_entry_size(&tree);
    assert_eq!(
        total_size,
        data.len(),
        "Total leaf entry sizes ({}) should match data count ({})",
        total_size,
        data.len()
    );
}

#[test]
fn test_cf_double_update_bug() {
    let mut tree = euclid_tree(3, 2, 100, 0.0);
    let points: Vec<Vec<f64>> = vec![vec![1.0, 1.0], vec![2.0, 2.0], vec![3.0, 3.0], vec![4.0, 4.0]];
    insert_all(&mut tree, &points);
    let more_points: Vec<Vec<f64>> = vec![vec![5.0, 5.0], vec![6.0, 6.0], vec![7.0, 7.0], vec![8.0, 8.0]];
    insert_all(&mut tree, &more_points);
    let even_more: Vec<Vec<f64>> =
        vec![vec![9.0, 9.0], vec![10.0, 10.0], vec![11.0, 11.0], vec![12.0, 12.0]];
    insert_all(&mut tree, &even_more);
    let all_points = [&points[..], &more_points[..], &even_more[..]].concat();
    verify_size(&all_points, tree.nodes().get(tree.root()).unwrap().as_cf());
    let root_node = &tree.nodes()[tree.root()];
    let root_cf = root_node.as_cf();
    let mut reconstructed_cf = VII::<F64>::new(tree.dim());
    for &child_id in root_node.children() {
        reconstructed_cf.add_cf(tree.nodes()[child_id].as_cf());
    }
    let diff = centroid_diff(root_cf, &reconstructed_cf);
    assert!(diff < 0.001, "Root CF centroid mismatch: diff={}", diff);
    assert!(
        (reconstructed_cf.ssd().0 - root_cf.ssd().0).abs() < 0.001,
        "Root CF SSD mismatch: root={}, reconstructed={}",
        root_cf.ssd().0,
        reconstructed_cf.ssd().0
    );
    verify_node(&tree.nodes()[tree.root()], &tree);
    let total_size = total_entry_size(&tree);
    assert_eq!(
        total_size,
        all_points.len(),
        "Total leaf entry sizes ({}) should match data count ({})",
        total_size,
        all_points.len()
    );
}

fn verify_node_cf(node: &CFNode<F64, VII<F64>>, tree: &EuclidTree) {
    let r = reconstructed(node, tree);
    if node.is_leaf() {
        assert!(
            centroid_diff(node.as_cf(), &r) < 0.001,
            "Leaf node centroid mismatch: node={:?}, reconstructed={:?}",
            centroid_of(node.as_cf()),
            centroid_of(&r)
        );
        assert!((r.ssd().0 - node.as_cf().ssd().0).abs() < 0.001, "Leaf node SSD mismatch");
    } else {
        assert!(
            centroid_diff(node.as_cf(), &r) < 0.001,
            "Non-leaf node centroid mismatch: node={:?}, reconstructed={:?}",
            centroid_of(node.as_cf()),
            centroid_of(&r)
        );
        assert!(
            (r.ssd().0 - node.as_cf().ssd().0).abs() < 0.001,
            "Non-leaf node SSD mismatch: node={}, reconstructed={}",
            node.as_cf().ssd().0,
            r.ssd().0
        );
        for &child_id in node.children() {
            verify_node_cf(&tree.nodes()[child_id], tree);
        }
    }
}

#[test]
fn test_overflow_propagation_parent_cf_consistency() {
    let data = random_points(7777, 30);
    let mut tree = euclid_tree(3, 2, 100, 0.0);
    insert_all(&mut tree, &data);
    let root = &tree.nodes()[tree.root()];
    assert!(!root.is_leaf(), "root should be a non-leaf after enough splits");
    let has_non_leaf_child = root.children().iter().any(|&cid| !tree.nodes()[cid].is_leaf());
    assert!(has_non_leaf_child, "tree should have at least 3 levels (root → intermediate → leaf)");
    verify_node_cf(root, &tree);
    assert_eq!(total_entry_size(&tree), data.len(), "total leaf entry sizes must match data count");
}

fn verify_all(point_idx: usize, node_id: usize, tree: &EuclidTree) {
    let node = &tree.nodes()[node_id];
    let r = reconstructed(node, tree);
    if !node.is_leaf() {
        for &child_id in node.children() {
            verify_all(point_idx, child_id, tree);
        }
    }
    assert!(
        centroid_diff(node.as_cf(), &r) < 0.01,
        "Point {}: node centroid mismatch: node={:?}, reconstructed={:?}",
        point_idx,
        centroid_of(node.as_cf()),
        centroid_of(&r)
    );
    assert!(
        (r.ssd().0 - node.as_cf().ssd().0).abs() < 0.01,
        "Point {}: node SSD mismatch: node={}, reconstructed={}",
        point_idx,
        node.as_cf().ssd().0,
        r.ssd().0
    );
}

#[test]
fn test_overflow_propagation_multi_entry_node() {
    let data: Vec<Vec<f64>> = vec![
        vec![0.0],
        vec![10.0],
        vec![20.0],
        vec![30.0],
        vec![1.0],
        vec![2.0],
        vec![3.0],
        vec![4.0],
        vec![5.0],
        vec![6.0],
        vec![7.0],
        vec![8.0],
        vec![9.0],
        vec![15.0],
        vec![25.0],
        vec![35.0],
    ];
    let mut tree = euclid_tree(3, 1, 100, 0.0);
    for (point_idx, v) in data.iter().enumerate() {
        tree.insert(&pt(v));
        verify_all(point_idx, tree.root(), &tree);
    }
    assert_eq!(total_entry_size(&tree), data.len(), "total leaf entry sizes must match data count");
}

#[test]
fn test_split_cfs_balanced_tie_breaking() {
    let data: Vec<Vec<f64>> = (0..8).map(|i| vec![5.0, (i as f64) * 0.5]).collect();
    let mut tree = euclid_tree(4, 2, 100, 0.0);
    insert_all(&mut tree, &data);
    verify_size(&data, tree.nodes().get(tree.root()).unwrap().as_cf());
    verify_node(&tree.nodes()[tree.root()], &tree);
    let leaf_sizes: Vec<usize> = tree.leaf_entries().iter().map(|cf| cf.size()).collect();
    for (i, size) in leaf_sizes.iter().enumerate() {
        assert!(
            *size > 0,
            "Leaf node {i} has {size} entries — split was unbalanced (all equidistant points went to one group)"
        );
    }
    let total_size: usize = leaf_sizes.iter().sum();
    assert_eq!(
        total_size,
        data.len(),
        "Total leaf entry sizes ({total_size}) should match data count ({})",
        data.len()
    );
}

// ── Golden values ──

fn overall_variance<D: CFDistance<F64, VII<F64>>, A: CFDistance<F64, VII<F64>>>(
    tree: &CFTree<F64, VII<F64>, D, A>,
) -> f64 {
    let total_ssd: f64 = tree.leaf_entries().iter().map(|cf| cf.ssd().0).sum();
    let total_points = total_entry_size(tree);
    if total_points == 0 {
        0.0
    } else {
        total_ssd / total_points as f64
    }
}

fn centroid_order(a: &[f64], b: &[f64]) -> std::cmp::Ordering {
    a.iter()
        .zip(b)
        .map(|(x, y)| x.partial_cmp(y).unwrap_or(std::cmp::Ordering::Equal))
        .find(|&o| o != std::cmp::Ordering::Equal)
        .unwrap_or(std::cmp::Ordering::Equal)
}

fn sorted_cluster_stats<D: CFDistance<F64, VII<F64>>, A: CFDistance<F64, VII<F64>>>(
    tree: &CFTree<F64, VII<F64>, D, A>,
) -> Vec<(usize, Vec<f64>, f64)> {
    let mut stats: Vec<(usize, Vec<f64>, f64)> =
        tree.leaf_entries().iter().map(|cf| (cf.size(), centroid_of(cf), cf.ssd().0)).collect();
    stats.sort_by(|a, b| centroid_order(&a.1, &b.1));
    stats
}

fn assert_regression<D: CFDistance<F64, VII<F64>> + Clone>(
    dist: D,
    n_points: usize,
    dim: usize,
    capacity: usize,
    maxleaves: usize,
    expected_leaves: usize,
    expected_variance: f64,
    expected_stats: &[(usize, &[f64], f64)],
) {
    let data = create_data(n_points, dim);
    let mut tree = CFTree::new(dist.clone(), dist, capacity, dim, maxleaves, F64(0.0));
    insert_all(&mut tree, &data);
    assert_eq!(tree.leaf_entries().len(), expected_leaves, "leaf count mismatch");
    let ov = overall_variance(&tree);
    assert!((ov - expected_variance).abs() < 1e-6, "overall variance mismatch: got {}", ov);
    let stats = sorted_cluster_stats(&tree);
    assert_eq!(stats.len(), expected_stats.len());
    for (i, ((sz, cent, ssd), &(esz, ecent, essd))) in stats.iter().zip(expected_stats).enumerate() {
        assert_eq!(*sz, esz, "cluster {} size mismatch", i);
        for (d, (c, ec)) in cent.iter().zip(ecent.iter()).enumerate() {
            assert!((c - ec).abs() < 1e-4, "cluster {} centroid[{}] mismatch: got {} expected {}", i, d, c, ec);
        }
        assert!((ssd - essd).abs() < 1e-4, "cluster {} ssd mismatch: got {} expected {}", i, ssd, essd);
    }
}

#[test]
fn regression_euclidean_small() {
    assert_regression(
        CentroidEuclideanDistance::<F64, VII<F64>>::new(),
        50,
        2,
        10,
        10,
        7,
        0.0230103956,
        &[
            (12, &[0.262528, 0.266949], 0.386061),
            (13, &[0.269360, 0.659733], 0.347445),
            (7, &[0.368375, 0.921907], 0.046654),
            (7, &[0.675434, 0.732416], 0.170730),
            (5, &[0.784398, 0.128625], 0.101751),
            (5, &[0.886579, 0.550053], 0.097878),
            (1, &[0.984125, 0.897439], 0.000000),
        ],
    );
}

#[test]
fn regression_euclidean_medium() {
    assert_regression(
        CentroidEuclideanDistance::<F64, VII<F64>>::new(),
        200,
        3,
        16,
        30,
        30,
        0.0210070595,
        &[
            (1, &[0.054907, 0.254480, 0.692796], 0.000000),
            (8, &[0.079542, 0.757396, 0.880777], 0.197884),
            (8, &[0.172564, 0.390664, 0.430203], 0.168059),
            (12, &[0.178458, 0.143981, 0.605050], 0.250110),
            (4, &[0.186638, 0.766816, 0.429760], 0.054583),
            (9, &[0.199086, 0.500625, 0.772454], 0.223175),
            (3, &[0.210314, 0.653515, 0.055786], 0.032975),
            (5, &[0.217886, 0.901430, 0.184546], 0.073682),
            (4, &[0.323219, 0.167376, 0.205703], 0.105025),
            (5, &[0.353129, 0.118259, 0.847674], 0.106614),
            (14, &[0.416364, 0.805292, 0.567164], 0.323831),
            (7, &[0.458369, 0.625134, 0.301291], 0.135068),
            (3, &[0.476377, 0.536899, 0.072727], 0.028900),
            (6, &[0.494607, 0.835836, 0.851783], 0.111786),
            (6, &[0.501382, 0.208187, 0.382480], 0.087518),
            (9, &[0.531759, 0.201727, 0.662988], 0.301191),
            (6, &[0.573391, 0.911283, 0.191519], 0.142762),
            (6, &[0.575032, 0.170585, 0.101066], 0.081667),
            (4, &[0.583808, 0.451413, 0.807726], 0.044435),
            (5, &[0.666115, 0.876071, 0.474106], 0.055162),
            (6, &[0.734585, 0.738816, 0.841089], 0.180664),
            (9, &[0.779791, 0.505323, 0.389349], 0.215662),
            (10, &[0.781928, 0.580286, 0.692638], 0.185766),
            (4, &[0.784954, 0.551270, 0.067242], 0.065684),
            (17, &[0.805939, 0.258595, 0.830048], 0.547973),
            (8, &[0.843880, 0.227544, 0.233122], 0.109078),
            (6, &[0.861317, 0.821353, 0.079647], 0.097707),
            (9, &[0.907209, 0.106127, 0.413300], 0.201566),
            (4, &[0.943201, 0.864927, 0.451624], 0.043296),
            (2, &[0.960752, 0.848113, 0.607924], 0.029589),
        ],
    );
}

#[test]
fn regression_manhattan_small() {
    assert_regression(
        CentroidManhattanDistance::<F64, VII<F64>>::new(),
        50,
        2,
        10,
        10,
        9,
        0.0174380766,
        &[
            (5, &[0.127111, 0.277504], 0.099242),
            (6, &[0.142299, 0.647631], 0.117171),
            (7, &[0.359254, 0.259409], 0.128684),
            (7, &[0.368375, 0.921907], 0.046654),
            (12, &[0.487616, 0.664971], 0.291177),
            (4, &[0.723951, 0.234193], 0.090809),
            (3, &[0.836218, 0.911816], 0.044151),
            (2, &[0.880585, 0.060295], 0.007922),
            (4, &[0.924478, 0.584008], 0.046093),
        ],
    );
}

#[test]
fn regression_manhattan_medium() {
    assert_regression(
        CentroidManhattanDistance::<F64, VII<F64>>::new(),
        200,
        3,
        16,
        30,
        26,
        0.0293731540,
        &[
            (5, &[0.034950, 0.812707, 0.882723], 0.088729),
            (1, &[0.062279, 0.222807, 0.806743], 0.000000),
            (8, &[0.155831, 0.564768, 0.747961], 0.165287),
            (10, &[0.194615, 0.828946, 0.233846], 0.370744),
            (24, &[0.224847, 0.181920, 0.542109], 1.095942),
            (6, &[0.293250, 0.529138, 0.405022], 0.081712),
            (6, &[0.294046, 0.299751, 0.883665], 0.182069),
            (1, &[0.300418, 0.623529, 0.020696], 0.000000),
            (1, &[0.377142, 0.053507, 0.277326], 0.000000),
            (3, &[0.393664, 0.873392, 0.214621], 0.050769),
            (5, &[0.399981, 0.820544, 0.892738], 0.104281),
            (16, &[0.439781, 0.810411, 0.565492], 0.389890),
            (12, &[0.533977, 0.177879, 0.217281], 0.430178),
            (2, &[0.542570, 0.646867, 0.312191], 0.016113),
            (8, &[0.562968, 0.512812, 0.092820], 0.237145),
            (3, &[0.610740, 0.026155, 0.812243], 0.067055),
            (19, &[0.725792, 0.632336, 0.728099], 0.692684),
            (10, &[0.738689, 0.881069, 0.265596], 0.315693),
            (24, &[0.747537, 0.309583, 0.805573], 0.936733),
            (8, &[0.757605, 0.522628, 0.353230], 0.196291),
            (1, &[0.834655, 0.934109, 0.885711], 0.000000),
            (10, &[0.835564, 0.209939, 0.262411], 0.203521),
            (4, &[0.882105, 0.804818, 0.043160], 0.050135),
            (7, &[0.937184, 0.096587, 0.422938], 0.122505),
            (5, &[0.941087, 0.861724, 0.533732], 0.077155),
            (1, &[0.942394, 0.647449, 0.091448], 0.000000),
        ],
    );
}

#[test]
fn regression_avgintercluster_small() {
    assert_regression(
        AverageInterclusterDistance::<F64, VII<F64>>::new(),
        50,
        2,
        10,
        10,
        7,
        0.0241044560,
        &[
            (4, &[0.093082, 0.660029], 0.073221),
            (12, &[0.262528, 0.266949], 0.386061),
            (16, &[0.356748, 0.774361], 0.413940),
            (6, &[0.667334, 0.690710], 0.094918),
            (5, &[0.784398, 0.128625], 0.101751),
            (2, &[0.854080, 0.940047], 0.037454),
            (5, &[0.886579, 0.550053], 0.097878),
        ],
    );
}

#[test]
fn regression_avgintercluster_medium() {
    assert_regression(
        AverageInterclusterDistance::<F64, VII<F64>>::new(),
        200,
        3,
        16,
        30,
        29,
        0.0228728859,
        &[
            (9, &[0.082830, 0.736705, 0.860207], 0.259948),
            (14, &[0.169825, 0.163367, 0.603150], 0.317902),
            (4, &[0.199345, 0.318578, 0.377564], 0.083335),
            (3, &[0.210314, 0.653515, 0.055786], 0.032975),
            (9, &[0.216942, 0.530905, 0.485369], 0.258542),
            (5, &[0.217886, 0.901430, 0.184546], 0.073682),
            (5, &[0.244340, 0.819742, 0.340941], 0.135870),
            (6, &[0.257846, 0.443455, 0.848652], 0.120184),
            (2, &[0.294050, 0.085437, 0.286131], 0.016003),
            (2, &[0.302272, 0.089406, 0.866609], 0.036125),
            (15, &[0.409211, 0.791123, 0.574256], 0.387300),
            (8, &[0.460197, 0.127353, 0.520091], 0.205953),
            (9, &[0.516403, 0.194765, 0.128299], 0.233483),
            (8, &[0.534476, 0.814003, 0.841832], 0.184803),
            (8, &[0.543580, 0.276412, 0.782842], 0.198613),
            (7, &[0.556951, 0.566100, 0.115960], 0.177423),
            (1, &[0.689603, 0.423824, 0.019880], 0.000000),
            (7, &[0.698418, 0.602148, 0.398909], 0.144704),
            (11, &[0.746083, 0.414986, 0.893126], 0.183679),
            (11, &[0.753522, 0.860139, 0.129108], 0.367737),
            (6, &[0.775552, 0.109954, 0.833348], 0.108105),
            (8, &[0.787545, 0.592843, 0.706621], 0.162138),
            (10, &[0.804264, 0.880733, 0.477327], 0.314754),
            (4, &[0.815310, 0.468314, 0.363582], 0.077041),
            (9, &[0.823363, 0.222978, 0.249847], 0.161027),
            (8, &[0.862670, 0.263834, 0.604332], 0.149145),
            (4, &[0.865971, 0.754941, 0.721558], 0.114823),
            (6, &[0.930736, 0.054306, 0.368129], 0.069284),
            (1, &[0.942394, 0.647449, 0.091448], 0.000000),
        ],
    );
}

#[test]
fn regression_avgintracluster_small() {
    let data = create_data(50, 2);
    let dist = AverageIntraclusterDistance::<F64, VII<F64>>::new();
    let mut tree = CFTree::new(dist.clone(), dist, 10, 2, 10, F64(0.0));
    insert_all(&mut tree, &data);
    assert!(
        tree.leaf_entries().len() >= 5 && tree.leaf_entries().len() <= 15,
        "Expected 5-15 leaves, got {}",
        tree.leaf_entries().len()
    );
    let ov = overall_variance(&tree);
    assert!(ov > 0.01 && ov < 0.1, "Overall variance out of expected range: {}", ov);
    for cf in tree.leaf_entries() {
        assert!(cf.size() > 0, "Leaf entry should have at least one point");
        assert!(cf.ssd().0 >= 0.0, "SSD should be non-negative");
        assert_eq!(cf.centroid().len(), 2, "Centroid should have 2 dimensions");
    }
}

// ── Distances inside a tree ──

fn three_pairs() -> Vec<Vec<f64>> {
    vec![
        vec![1.0, 2.0, 3.0],
        vec![1.1, 2.1, 3.1],
        vec![10.0, 20.0, 30.0],
        vec![10.1, 20.1, 30.1],
        vec![100.0, 200.0, 300.0],
        vec![100.1, 200.1, 300.1],
    ]
}

fn two_groups() -> Vec<Vec<f64>> {
    vec![vec![0.0, 0.0], vec![0.1, 0.1], vec![0.2, 0.2], vec![10.0, 10.0], vec![10.1, 10.1], vec![10.2, 10.2]]
}

fn check_leaf_statistics<D: CFDistance<F64, VII<F64>>, A: CFDistance<F64, VII<F64>>>(
    tree: &CFTree<F64, VII<F64>, D, A>,
    n: usize,
) {
    assert_eq!(total_entry_size(tree), n);
    for cf in tree.leaf_entries() {
        assert!(cf.size() > 0, "leaf should have points");
        assert!(cf.ssd().0 >= 0.0, "ssd should be non-negative");
        let variance = cf.ssd().0 / (cf.size() as f64);
        assert!(variance >= 0.0, "variance should be non-negative");
    }
}

fn leaf_summaries<D: CFDistance<F64, VII<F64>>, A: CFDistance<F64, VII<F64>>>(
    tree: &CFTree<F64, VII<F64>, D, A>,
) -> Vec<(usize, f64, f64)> {
    tree.leaf_entries()
        .iter()
        .map(|cf| {
            let c = centroid_of(cf);
            let mean_val = c.iter().sum::<f64>() / c.len() as f64;
            let variance = cf.ssd().0 / cf.size() as f64;
            (cf.size(), mean_val, variance)
        })
        .collect()
}

fn by_size_descending(leaves: &mut Vec<(usize, f64, f64)>) {
    leaves.sort_by(|a, b| b.0.partial_cmp(&a.0).unwrap());
}

#[test]
fn test_leaf_cluster_means_variance_variance_increase() {
    let data = three_pairs();
    let mut tree = CFTree::<F64, VII<F64>, VarianceIncreaseDistance<F64, VII<F64>>, VarianceIncreaseDistance<F64, VII<F64>>>::new(
        VarianceIncreaseDistance::new(),
        VarianceIncreaseDistance::new(),
        10,
        3,
        100,
        F64(f64::MAX),
    );
    insert_all(&mut tree, &data);
    check_leaf_statistics(&tree, data.len());
}

#[test]
fn test_leaf_cluster_means_variance_radius() {
    let data = three_pairs();
    let mut tree = CFTree::<F64, VII<F64>, RadiusDistance<F64, VII<F64>>, RadiusDistance<F64, VII<F64>>>::new(
        RadiusDistance::new(),
        RadiusDistance::new(),
        10,
        3,
        100,
        F64(f64::MAX),
    );
    insert_all(&mut tree, &data);
    check_leaf_statistics(&tree, data.len());
}

#[test]
fn test_leaf_cluster_regression_variance_increase() {
    let data = two_groups();
    let mut tree = CFTree::<F64, VII<F64>, VarianceIncreaseDistance<F64, VII<F64>>, VarianceIncreaseDistance<F64, VII<F64>>>::new(
        VarianceIncreaseDistance::new(),
        VarianceIncreaseDistance::new(),
        2,
        2,
        3,
        F64(1.0),
    );
    insert_all(&mut tree, &data);
    let mut leaves = leaf_summaries(&tree);
    by_size_descending(&mut leaves);
    let total: usize = leaves.iter().map(|l| l.0).sum();
    assert_eq!(total, data.len());
    for (_size, _mean, var) in &leaves {
        assert!(*var >= 0.0 && *var < 1.0, "variance {} out of range", var);
    }
}

#[test]
fn test_leaf_cluster_regression_radius() {
    let data = two_groups();
    let mut tree = CFTree::<F64, VII<F64>, RadiusDistance<F64, VII<F64>>, RadiusDistance<F64, VII<F64>>>::new(
        RadiusDistance::new(),
        RadiusDistance::new(),
        2,
        2,
        3,
        F64(1.0),
    );
    insert_all(&mut tree, &data);
    let mut leaves = leaf_summaries(&tree);
    by_size_descending(&mut leaves);
    let total: usize = leaves.iter().map(|l| l.0).sum();
    assert_eq!(total, data.len());
    for (_size, _mean, var) in &leaves {
        assert!(*var >= 0.0 && *var < 1.0, "variance {} out of range", var);
    }
}

#[test]
fn new_tree_is_one_empty_leaf() {
    let t = euclid_tree(4, 2, 10, 0.5);
    assert_eq!(t.root(), 0);
    assert_eq!(t.nodes().len(), 1);
    assert!(t.nodes()[0].is_leaf());
    assert_eq!(t.nodes()[0].num_childs(), 0);
    assert_eq!(t.nodes()[0].as_cf().size(), 0);
    assert!(t.leaf_entries().is_empty());
    assert_eq!(t.rebuild_count(), 0);
    assert_close(0.5, t.threshold().0);
}

#[test]
fn no_rebuild_while_entries_fit() {
    let mut t = euclid_tree(4, 2, 5, 0.0);
    for i in 0..5 {
        t.insert(&pt(&[i as f64 * 10.0, 0.0]));
    }
    assert_eq!(t.rebuild_count(), 0);
    assert_eq!(t.leaf_entries().len(), 5);
    assert_close(0.0, t.threshold().0);
}

#[test]
fn longer_point_gives_entry_at_its_first_coordinates() {
    let mut t = euclid_tree(10, 2, 10, 0.0);
    t.insert(&pt(&[1.0, 2.0, 3.0]));
    assert_eq!(t.leaf_entries().len(), 1);
    assert_eq!(t.leaf_entries()[0].size(), 1);
    assert_eq!(centroid_of(&t.leaf_entries()[0]), vec![1.0, 2.0]);
}

#[test]
fn estimate_threshold_of_two_entries() {
    let mut t = euclid_tree(4, 1, 10, 0.0);
    t.insert(&pt(&[0.0]));
    t.insert(&pt(&[3.0]));
    assert_eq!(t.leaf_entries().len(), 2);
    // One leaf, two entries at squared distance 9: the mean root is 3.
    assert_close(9.0 * (1.0 + 4.0 * f64::EPSILON), t.estimate_threshold().0);
}

#[test]
fn estimate_threshold_is_zero_without_pairs() {
    let mut t = euclid_tree(4, 1, 10, 0.0);
    t.insert(&pt(&[1.0]));
    assert_close(0.0, t.estimate_threshold().0);
}

#[test]
fn rebuild_keeps_a_larger_threshold() {
    let mut t = euclid_tree(4, 1, 10, 100.0);
    t.insert(&pt(&[0.0]));
    t.insert(&pt(&[3.0]));
    assert_eq!(t.leaf_entries().len(), 1);
    t.rebuild_tree();
    assert_eq!(t.rebuild_count(), 1);
    assert_close(100.0, t.threshold().0);
}

#[test]
fn rebuild_raises_threshold_to_estimate() {
    let mut t = euclid_tree(4, 1, 10, 0.0);
    t.insert(&pt(&[0.0]));
    t.insert(&pt(&[3.0]));
    t.rebuild_tree();
    assert_eq!(t.rebuild_count(), 1);
    assert_close(9.0 * (1.0 + 4.0 * f64::EPSILON), t.threshold().0);
    assert_eq!(t.leaf_entries().len(), 1);
    assert_eq!(t.leaf_entries()[0].size(), 2);
}
