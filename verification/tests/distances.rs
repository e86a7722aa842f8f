use betula::cluster_feature::{ClusterFeature, ClusterSummary, VII};
use betula::distance::{
    AverageInterclusterDistance, AverageIntraclusterDistance, CFDistance,
    CentroidEuclideanDistance, CentroidManhattanDistance, Manhattan, RadiusDistance, SqEuclidean,
    VarianceIncreaseDistance, VectorDistance,
};
use betula::types::{Comparison, Float, FromIndex};

/// `f64` as the library's number type.
#[derive(Clone, Copy, Debug, PartialEq, PartialOrd)]
struct F64(f64);

impl F64 {
    /// `v`, with every NaN given the same bits.
    fn of(v: f64) -> Self {
        if v.is_nan() {
            F64(f64::NAN)
        } else {
            F64(v)
        }
    }
}

impl FromIndex for F64 {
    fn spec_from_index(i: usize) -> Self {
        Self::from_index(i)
    }

    fn from_index(i: usize) -> Self {
        F64(i as f64)
    }
}

impl Float for F64 {
    fn spec_zero() -> Self {
        Self::zero()
    }

    fn spec_one() -> Self {
        Self::one()
    }

    fn spec_infinity() -> Self {
        Self::infinity()
    }

    fn spec_epsilon() -> Self {
        Self::epsilon()
    }

    fn spec_plus(self, other: Self) -> Self {
        self.plus(other)
    }

    fn spec_minus(self, other: Self) -> Self {
        self.minus(other)
    }

    fn spec_times(self, other: Self) -> Self {
        self.times(other)
    }

    fn spec_divided_by(self, other: Self) -> Self {
        self.divided_by(other)
    }

    fn spec_mul_add(self, a: Self, b: Self) -> Self {
        self.mul_add(a, b)
    }

    fn spec_abs(self) -> Self {
        self.abs()
    }

    fn spec_sqrt(self) -> Self {
        self.sqrt()
    }

    fn spec_compare(self, other: Self) -> Comparison {
        self.compare(&other)
    }

    fn zero() -> Self {
        F64(0.0)
    }
    fn one() -> Self {
        F64(1.0)
    }
    fn infinity() -> Self {
        F64(f64::INFINITY)
    }
    fn epsilon() -> Self {
        F64(f64::EPSILON)
    }
    fn plus(self, other: Self) -> Self {
        F64::of(self.0 + other.0)
    }
    fn minus(self, other: Self) -> Self {
        F64::of(self.0 - other.0)
    }
    fn times(self, other: Self) -> Self {
        F64::of(self.0 * other.0)
    }
    fn divided_by(self, other: Self) -> Self {
        F64::of(self.0 / other.0)
    }
    fn mul_add(self, a: Self, b: Self) -> Self {
        F64::of(self.0.mul_add(a.0, b.0))
    }
    fn abs(self) -> Self {
        F64::of(self.0.abs())
    }
    fn sqrt(self) -> Self {
        F64::of(self.0.sqrt())
    }
    fn lt(&self, other: &Self) -> bool {
        self.0 < other.0
    }
    fn le(&self, other: &Self) -> bool {
        self.0 <= other.0
    }
    fn compare(&self, other: &Self) -> Comparison {
        match self.0.partial_cmp(&other.0) {
            Some(std::cmp::Ordering::Less) => Comparison::Less,
            Some(std::cmp::Ordering::Equal) => Comparison::Equal,
            Some(std::cmp::Ordering::Greater) => Comparison::Greater,
            None => Comparison::Unordered,
        }
    }
}

fn pt(xs: &[f64]) -> Vec<F64> {
    xs.iter().map(|&x| F64(x)).collect()
}

fn assert_close(expected: f64, actual: f64) {
    assert!((expected - actual).abs() < 1e-10, "expected={}, actual={}", expected, actual);
}

fn vii_of(points: &[&[f64]], dim: usize) -> VII<F64> {
    let mut cf = VII::<F64>::new(dim);
    for p in points {
        cf.add(&pt(p));
    }
    cf
}

fn point_dist<D: CFDistance<F64, VII<F64>>>(dist: &D, cf: &VII<F64>, x: &[f64], d: usize) -> f64 {
    dist.sq_dist(cf, &pt(x), d).0
}

fn cf_dist<D: CFDistance<F64, VII<F64>>>(dist: &D, a: &VII<F64>, b: &VII<F64>, d: usize) -> f64 {
    dist.sq_dist_cf(a, b, d).0
}

fn mean_of(points: &[&[f64]], d: usize) -> Vec<f64> {
    let mut c = vec![0.0; d];
    for p in points {
        for i in 0..d {
            c[i] += p[i];
        }
    }
    for v in c.iter_mut() {
        *v /= points.len() as f64;
    }
    c
}

fn ssd_of(points: &[&[f64]], centroid: &[f64], d: usize) -> f64 {
    let mut s = 0.0;
    for p in points {
        for i in 0..d {
            let diff = p[i] - centroid[i];
            s += diff * diff;
        }
    }
    s
}

fn sq_between(a: &[f64], b: &[f64], d: usize) -> f64 {
    let mut s = 0.0;
    for i in 0..d {
        let diff = a[i] - b[i];
        s += diff * diff;
    }
    s
}

const NINE: [f64; 9] = [1.0, 2.0, 3.0, 3.0, 4.0, 5.0, 5.0, 6.0, 7.0];

fn three_rows() -> Vec<&'static [f64]> {
    vec![&NINE[0..3], &NINE[3..6], &NINE[6..9]]
}

fn two_clusters() -> (VII<F64>, VII<F64>) {
    (vii_of(&[&[1.0, 2.0], &[3.0, 4.0]], 2), vii_of(&[&[5.0, 6.0], &[7.0, 8.0]], 2))
}

fn various_points() -> (Vec<Vec<f64>>, Vec<f64>) {
    let points: Vec<Vec<f64>> = vec![
        (0..16).map(|i| (i + 1) as f64).collect(),
        (0..16).map(|i| (i + 2) as f64).collect(),
        (0..16).map(|i| i as f64).collect(),
    ];
    let query: Vec<f64> = (0..16).map(|i| (i as f64) * 0.5).collect();
    (points, query)
}

// ── Centroid distances ──

#[test]
fn test_centroid_distances() {
    let cf1 = vii_of(&[&[1.0, 2.0, 3.0]], 3);
    let cf2 = vii_of(&[&[4.0, 0.0, 1.0]], 3);
    let ce = CentroidEuclideanDistance::<F64, VII<F64>>::new();
    assert_close(17.0, cf_dist(&ce, &cf1, &cf2, 3));
    assert_close(14.0, point_dist(&ce, &cf1, &[0.0, 0.0, 0.0], 3));
    let cm = CentroidManhattanDistance::<F64, VII<F64>>::new();
    assert_close(7.0, cf_dist(&cm, &cf1, &cf2, 3));
    assert_close(6.0, point_dist(&cm, &cf1, &[0.0, 0.0, 0.0], 3));
}

// ── Average inter-cluster distance ──

fn reference_avg_intercluster(points: &[&[f64]], v: &[f64], d: usize) -> f64 {
    let n = points.len();
    if n == 0 {
        return 0.0;
    }
    let mut sum = 0.0;
    for p in points {
        sum += sq_between(v, p, d);
    }
    sum / n as f64
}

fn reference_avg_intercluster_cf(points1: &[&[f64]], points2: &[&[f64]], d: usize) -> f64 {
    let n1 = points1.len();
    let n2 = points2.len();
    if n1 == 0 || n2 == 0 {
        return 0.0;
    }
    let mut sum = 0.0;
    for p1 in points1 {
        for p2 in points2 {
            sum += sq_between(p1, p2, d);
        }
    }
    sum / (n1 * n2) as f64
}

#[test]
fn test_avg_intercluster() {
    let aid = AverageInterclusterDistance::<F64, VII<F64>>::new();
    let rows = three_rows();
    let cf = vii_of(&rows, 3);
    assert_close(
        reference_avg_intercluster(&rows, &[0.0, 0.0, 0.0], 3),
        point_dist(&aid, &cf, &[0.0, 0.0, 0.0], 3),
    );
    assert_close(
        reference_avg_intercluster(&rows, &[3.0, 4.0, 5.0], 3),
        point_dist(&aid, &cf, &[3.0, 4.0, 5.0], 3),
    );
}

#[test]
fn test_avg_intercluster_cf_to_cf() {
    let aid = AverageInterclusterDistance::<F64, VII<F64>>::new();
    let (cf1, cf2) = two_clusters();
    let p1: [f64; 4] = [1.0, 2.0, 3.0, 4.0];
    let p2: [f64; 4] = [5.0, 6.0, 7.0, 8.0];
    let rows1: &[&[f64]] = &[&p1[0..2], &p1[2..4]];
    let rows2: &[&[f64]] = &[&p2[0..2], &p2[2..4]];
    let expected = reference_avg_intercluster_cf(rows1, rows2, 2);
    assert_close(expected, cf_dist(&aid, &cf1, &cf2, 2));
}

#[test]
fn test_avg_intercluster_edge_cases() {
    let aid = AverageInterclusterDistance::<F64, VII<F64>>::new();
    let empty = VII::<F64>::new(2);
    assert_eq!(point_dist(&aid, &empty, &[1.0, 2.0], 2), 0.0);
    assert_eq!(cf_dist(&aid, &empty, &empty, 2), 0.0);
    let single = vii_of(&[&[3.0, 4.0]], 2);
    assert_close(25.0, point_dist(&aid, &single, &[0.0, 0.0], 2));
    let identical = vii_of(&[&[3.0, 4.0], &[3.0, 4.0], &[3.0, 4.0]], 2);
    let ce = CentroidEuclideanDistance::<F64, VII<F64>>::new();
    assert_close(point_dist(&ce, &identical, &[0.0, 0.0], 2), point_dist(&aid, &identical, &[0.0, 0.0], 2));
}

#[test]
fn test_avg_intercluster_various_dimensions() {
    let dims = [1usize, 2, 5, 8, 16];
    let (points, query) = various_points();
    for &dim in &dims {
        let rows: Vec<&[f64]> = points.iter().map(|p| &p[..dim]).collect();
        let cf = vii_of(&rows, dim);
        let aid = AverageInterclusterDistance::<F64, VII<F64>>::new();
        let expected = reference_avg_intercluster(&rows, &query[..dim], dim);
        let actual = point_dist(&aid, &cf, &query[..dim], dim);
        assert!((expected - actual).abs() < 1e-10, "dim={}", dim);
    }
}

// ── Average intra-cluster distance ──

fn reference_avg_intracluster(cf_ssd: f64, centroid: &[f64], v: &[f64], d: usize) -> f64 {
    let centroid_dist_sq = sq_between(centroid, v, d);
    let n_f = 3.0;
    let n_plus_1 = n_f + 1.0;
    (2.0 * (n_plus_1 * cf_ssd + n_f * centroid_dist_sq)) / (n_f * n_plus_1)
}

fn reference_avg_intracluster_cf(
    ssd1: f64,
    centroid1: &[f64],
    n1: usize,
    ssd2: f64,
    centroid2: &[f64],
    n2: usize,
    d: usize,
) -> f64 {
    let n1f = n1 as f64;
    let n2f = n2 as f64;
    let n12f = n1f + n2f;
    let centroid_dist_sq = sq_between(centroid1, centroid2, d);
    let numerator = n12f * (ssd1 + ssd2) + n1f * n2f * centroid_dist_sq;
    let denominator = n12f * (n12f - 1.0);
    2.0 * numerator / denominator
}

#[test]
fn test_avg_intracluster() {
    let aid = AverageIntraclusterDistance::<F64, VII<F64>>::new();
    let cf = vii_of(&three_rows(), 3);
    assert_eq!(3, cf.size());
    assert_close(24.0, cf.ssd().0);
    let expected = reference_avg_intracluster(24.0, &[3.0, 4.0, 5.0], &[0.0, 0.0, 0.0], 3);
    let actual = point_dist(&aid, &cf, &[0.0, 0.0, 0.0], 3);
    assert!((expected - actual).abs() < 1e-10, "query=[0,0,0], expected={}", expected);
    let expected2 = reference_avg_intracluster(24.0, &[3.0, 4.0, 5.0], &[3.0, 4.0, 5.0], 3);
    let actual2 = point_dist(&aid, &cf, &[3.0, 4.0, 5.0], 3);
    assert!((expected2 - actual2).abs() < 1e-10, "query=centroid, expected={}", expected2);
}

#[test]
fn test_avg_intracluster_cf_to_cf() {
    let aid = AverageIntraclusterDistance::<F64, VII<F64>>::new();
    let (cf1, cf2) = two_clusters();
    let expected = reference_avg_intracluster_cf(4.0, &[2.0, 3.0], 2, 4.0, &[6.0, 7.0], 2, 2);
    assert_close(expected, cf_dist(&aid, &cf1, &cf2, 2));
}

#[test]
fn test_avg_intracluster_edge_cases() {
    let aid = AverageIntraclusterDistance::<F64, VII<F64>>::new();
    let empty = VII::<F64>::new(2);
    assert_eq!(point_dist(&aid, &empty, &[1.0, 2.0], 2), 0.0);
    assert_eq!(cf_dist(&aid, &empty, &empty, 2), 0.0);
    let single = vii_of(&[&[3.0, 4.0]], 2);
    assert_close(0.0, point_dist(&aid, &single, &[3.0, 4.0], 2));
    assert_close(25.0, point_dist(&aid, &single, &[0.0, 0.0], 2));
}

#[test]
fn test_avg_intracluster_single_point_equivalence() {
    let cf1 = vii_of(&[&[1.0, 2.0]], 2);
    let cf2 = vii_of(&[&[4.0, 6.0]], 2);
    let intra = AverageIntraclusterDistance::<F64, VII<F64>>::new();
    let ce = CentroidEuclideanDistance::<F64, VII<F64>>::new();
    assert_close(cf_dist(&ce, &cf1, &cf2, 2), cf_dist(&intra, &cf1, &cf2, 2));
    assert_close(0.0, point_dist(&intra, &cf1, &[1.0, 2.0], 2));
}

// ── Radius ──

fn reference_radius(points: &[&[f64]], v: &[f64], d: usize) -> f64 {
    let n = points.len();
    if n == 0 {
        return 0.0;
    }
    let centroid = mean_of(points, d);
    let ssd = ssd_of(points, &centroid, d);
    let dist_sq = sq_between(v, &centroid, d);
    (n as f64 / (n + 1) as f64 * dist_sq + ssd) / (n + 1) as f64
}

fn reference_radius_cf(points1: &[&[f64]], points2: &[&[f64]], d: usize) -> f64 {
    let n1 = points1.len();
    let n2 = points2.len();
    let n12 = n1 + n2;
    if n12 == 0 {
        return 0.0;
    }
    let c1 = mean_of(points1, d);
    let c2 = mean_of(points2, d);
    let ssd1 = ssd_of(points1, &c1, d);
    let ssd2 = ssd_of(points2, &c2, d);
    let dist_sq = sq_between(&c1, &c2, d);
    (n1 as f64 * n2 as f64 / n12 as f64 * dist_sq + ssd1 + ssd2) / n12 as f64
}

fn reference_radius_by_ssd(points: &[&[f64]], v: &[f64], d: usize) -> f64 {
    let n = points.len();
    if n == 0 {
        return 0.0;
    }
    let mut all: Vec<&[f64]> = points.to_vec();
    all.push(v);
    let new_centroid = mean_of(&all, d);
    ssd_of(&all, &new_centroid, d) / (n + 1) as f64
}

#[test]
fn test_radius() {
    let rd = RadiusDistance::<F64, VII<F64>>::new();
    let rows = three_rows();
    let cf = vii_of(&rows, 3);
    let expected = reference_radius(&rows, &[0.0, 0.0, 0.0], 3);
    let actual = point_dist(&rd, &cf, &[0.0, 0.0, 0.0], 3);
    assert!((expected - actual).abs() < 1e-10, "query=[0,0,0], expected={}", expected);
    assert_close(6.0, point_dist(&rd, &cf, &[3.0, 4.0, 5.0], 3));
    let ssd_ref = reference_radius_by_ssd(&rows, &[0.0, 0.0, 0.0], 3);
    assert!((ssd_ref - actual).abs() < 1e-10, "SSD reference={}", ssd_ref);
}

#[test]
fn test_radius_cf_to_cf() {
    let rd = RadiusDistance::<F64, VII<F64>>::new();
    let (cf1, cf2) = two_clusters();
    let p1: [f64; 4] = [1.0, 2.0, 3.0, 4.0];
    let p2: [f64; 4] = [5.0, 6.0, 7.0, 8.0];
    let rows1: &[&[f64]] = &[&p1[0..2], &p1[2..4]];
    let rows2: &[&[f64]] = &[&p2[0..2], &p2[2..4]];
    let expected = reference_radius_cf(rows1, rows2, 2);
    assert_close(expected, cf_dist(&rd, &cf1, &cf2, 2));
}

#[test]
fn test_radius_edge_cases() {
    let rd = RadiusDistance::<F64, VII<F64>>::new();
    let empty = VII::<F64>::new(2);
    assert_eq!(point_dist(&rd, &empty, &[1.0, 2.0], 2), 0.0);
    assert_eq!(cf_dist(&rd, &empty, &empty, 2), 0.0);
    let single = vii_of(&[&[3.0, 4.0]], 2);
    assert_close(0.0, point_dist(&rd, &single, &[3.0, 4.0], 2));
    assert_close(6.25, point_dist(&rd, &single, &[0.0, 0.0], 2));
    let single2 = vii_of(&[&[6.0, 8.0]], 2);
    assert_close(6.25, cf_dist(&rd, &single, &single2, 2));
}

#[test]
fn test_radius_various_dimensions() {
    let dims = [1usize, 2, 5, 8, 16];
    let (points, query) = various_points();
    for &dim in &dims {
        let rows: Vec<&[f64]> = points.iter().map(|p| &p[..dim]).collect();
        let cf = vii_of(&rows, dim);
        let rd = RadiusDistance::<F64, VII<F64>>::new();
        let expected = reference_radius(&rows, &query[..dim], dim);
        let actual = point_dist(&rd, &cf, &query[..dim], dim);
        assert!((expected - actual).abs() < 1e-10, "dim={}", dim);
    }
}

// ── Variance increase ──

fn reference_variance_increase(points: &[&[f64]], v: &[f64], d: usize) -> f64 {
    let n = points.len();
    if n == 0 {
        return 0.0;
    }
    let centroid = mean_of(points, d);
    sq_between(v, &centroid, d) * n as f64 / (n + 1) as f64
}

fn reference_variance_increase_cf(points1: &[&[f64]], points2: &[&[f64]], d: usize) -> f64 {
    let n1 = points1.len();
    let n2 = points2.len();
    if n1 == 0 || n2 == 0 {
        return 0.0;
    }
    let c1 = mean_of(points1, d);
    let c2 = mean_of(points2, d);
    sq_between(&c1, &c2, d) * n1 as f64 * n2 as f64 / (n1 + n2) as f64
}

fn reference_variance_increase_by_ssd(points: &[&[f64]], v: &[f64], d: usize) -> f64 {
    let n = points.len();
    if n == 0 {
        return 0.0;
    }
    let old_centroid = mean_of(points, d);
    let old_ssd = ssd_of(points, &old_centroid, d);
    let mut new_centroid = old_centroid.clone();
    for i in 0..d {
        new_centroid[i] = (old_centroid[i] * n as f64 + v[i]) / (n + 1) as f64;
    }
    let mut all: Vec<&[f64]> = points.to_vec();
    all.push(v);
    ssd_of(&all, &new_centroid, d) - old_ssd
}

#[test]
fn test_variance_increase() {
    let vid = VarianceIncreaseDistance::<F64, VII<F64>>::new();
    let rows = three_rows();
    let cf = vii_of(&rows, 3);
    let expected = reference_variance_increase(&rows, &[0.0, 0.0, 0.0], 3);
    let actual = point_dist(&vid, &cf, &[0.0, 0.0, 0.0], 3);
    assert!((expected - actual).abs() < 1e-10, "query=[0,0,0], expected={}", expected);
    assert_close(0.0, point_dist(&vid, &cf, &[3.0, 4.0, 5.0], 3));
    let ssd_ref = reference_variance_increase_by_ssd(&rows, &[0.0, 0.0, 0.0], 3);
    assert!((ssd_ref - actual).abs() < 1e-10, "SSD reference={}", ssd_ref);
}

#[test]
fn test_variance_increase_cf_to_cf() {
    let vid = VarianceIncreaseDistance::<F64, VII<F64>>::new();
    let (cf1, cf2) = two_clusters();
    let p1: [f64; 4] = [1.0, 2.0, 3.0, 4.0];
    let p2: [f64; 4] = [5.0, 6.0, 7.0, 8.0];
    let rows1: &[&[f64]] = &[&p1[0..2], &p1[2..4]];
    let rows2: &[&[f64]] = &[&p2[0..2], &p2[2..4]];
    let expected = reference_variance_increase_cf(rows1, rows2, 2);
    assert_close(expected, cf_dist(&vid, &cf1, &cf2, 2));
}

#[test]
fn test_variance_increase_edge_cases() {
    let vid = VarianceIncreaseDistance::<F64, VII<F64>>::new();
    let empty = VII::<F64>::new(2);
    assert_eq!(point_dist(&vid, &empty, &[1.0, 2.0], 2), 0.0);
    assert_eq!(cf_dist(&vid, &empty, &empty, 2), 0.0);
    let single = vii_of(&[&[3.0, 4.0]], 2);
    assert_close(0.0, point_dist(&vid, &single, &[3.0, 4.0], 2));
    assert_close(12.5, point_dist(&vid, &single, &[0.0, 0.0], 2));
    let single2 = vii_of(&[&[6.0, 8.0]], 2);
    assert_close(12.5, cf_dist(&vid, &single, &single2, 2));
}

#[test]
fn test_variance_increase_various_dimensions() {
    let dims = [1usize, 2, 5, 8, 16];
    let (points, query) = various_points();
    for &dim in &dims {
        let rows: Vec<&[f64]> = points.iter().map(|p| &p[..dim]).collect();
        let cf = vii_of(&rows, dim);
        let vid = VarianceIncreaseDistance::<F64, VII<F64>>::new();
        let expected = reference_variance_increase(&rows, &query[..dim], dim);
        let actual = point_dist(&vid, &cf, &query[..dim], dim);
        assert!((expected - actual).abs() < 1e-10, "dim={}", dim);
    }
}

// ── Vector distances ──

fn reference_sq_euclidean(a: &[f64], b: &[f64], d: usize) -> f64 {
    sq_between(a, b, d)
}

fn reference_manhattan(a: &[f64], b: &[f64], d: usize) -> f64 {
    let mut sum = 0.0;
    for i in 0..d {
        sum += (a[i] - b[i]).abs();
    }
    sum
}

fn check_vector_distance<D: VectorDistance>(
    name: &str,
    reference: fn(&[f64], &[f64], usize) -> f64,
    dims: &[usize],
    a: &[f64],
    b: &[f64],
) {
    let pa = pt(a);
    let pb = pt(b);
    for &dim in dims {
        let expected = reference(a, b, dim);
        let actual = D::dist(&pa, &pb, dim).0;
        assert!(
            (expected - actual).abs() < 1e-10,
            "{} dim={}: expected={}, actual={}",
            name,
            dim,
            expected,
            actual
        );
    }
}

#[test]
fn test_sq_euclidean() {
    let dims = [0usize, 1, 2, 3, 4, 5, 6, 7, 8, 9, 15, 16, 17, 64, 65];
    let a: Vec<f64> = (0..65).map(|i| (i as f64) * 0.1).collect();
    let b: Vec<f64> = (0..65).map(|i| ((i as f64) * 0.1).sin().abs()).collect();
    check_vector_distance::<SqEuclidean>("sq_euclidean", reference_sq_euclidean, &dims, &a, &b);
}

#[test]
fn test_manhattan() {
    let dims = [0usize, 1, 2, 3, 4, 5, 8, 9, 15, 16, 17, 64, 65];
    let a: Vec<f64> = (0..65).map(|i| (i as f64) * 0.1).collect();
    let b: Vec<f64> = (0..65).map(|i| ((i as f64) * 0.1).sin().abs()).collect();
    check_vector_distance::<Manhattan>("manhattan", reference_manhattan, &dims, &a, &b);
}

#[test]
fn test_manhattan_negative_values() {
    assert_close(6.0_f64, Manhattan::dist(&pt(&[-1.0, 2.0]), &pt(&[1.0, -2.0]), 2).0);
}

#[test]
fn vector_distances_over_full_blocks_and_a_tail() {
    let a = pt(&[1.0, 2.0, 3.0, 4.0, 5.0, 6.0, 7.0, 8.0, 9.0, 10.0]);
    let b = pt(&[0.0; 10]);
    assert_close(385.0, SqEuclidean::dist(&a, &b, 10).0);
    assert_close(55.0, Manhattan::dist(&a, &b, 10).0);
    assert_close(204.0, SqEuclidean::dist(&a, &b, 8).0);
    assert_close(0.0, SqEuclidean::dist(&a, &b, 0).0);
}
