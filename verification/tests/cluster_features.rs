use betula::cluster_feature::{ClusterFeature, ClusterSummary, VII, VVI, VVV};
use betula::types::{Comparison, Float, FromIndex};

/// `f64` as the library's number type.
#[derive(Clone, Copy, Debug, PartialEq, PartialOrd)]
struct F64(f64);

impl F64 {
    /// `v`, with every NaN given the same bits.
    fn of(v: f64) -> Self {
        if v.is_nan() {
            F64(f64::NAN)
        } else {
            F64(v)
        }
    }
}

impl FromIndex for F64 {
    fn spec_from_index(i: usize) -> Self {
        Self::from_index(i)
    }

    fn from_index(i: usize) -> Self {
        F64(i as f64)
    }
}

impl Float for F64 {
    fn spec_zero() -> Self {
        Self::zero()
    }

    fn spec_one() -> Self {
        Self::one()
    }

    fn spec_infinity() -> Self {
        Self::infinity()
    }

    fn spec_epsilon() -> Self {
        Self::epsilon()
    }

    fn spec_plus(self, other: Self) -> Self {
        self.plus(other)
    }

    fn spec_minus(self, other: Self) -> Self {
        self.minus(other)
    }

    fn spec_times(self, other: Self) -> Self {
        self.times(other)
    }

    fn spec_divided_by(self, other: Self) -> Self {
        self.divided_by(other)
    }

    fn spec_mul_add(self, a: Self, b: Self) -> Self {
        self.mul_add(a, b)
    }

    fn spec_abs(self) -> Self {
        self.abs()
    }

    fn spec_sqrt(self) -> Self {
        self.sqrt()
    }

    fn spec_compare(self, other: Self) -> Comparison {
        self.compare(&other)
    }

    fn zero() -> Self {
        F64(0.0)
    }
    fn one() -> Self {
        F64(1.0)
    }
    fn infinity() -> Self {
        F64(f64::INFINITY)
    }
    fn epsilon() -> Self {
        F64(f64::EPSILON)
    }
    fn plus(self, other: Self) -> Self {
        F64::of(self.0 + other.0)
    }
    fn minus(self, other: Self) -> Self {
        F64::of(self.0 - other.0)
    }
    fn times(self, other: Self) -> Self {
        F64::of(self.0 * other.0)
    }
    fn divided_by(self, other: Self) -> Self {
        F64::of(self.0 / other.0)
    }
    fn mul_add(self, a: Self, b: Self) -> Self {
        F64::of(self.0.mul_add(a.0, b.0))
    }
    fn abs(self) -> Self {
        F64::of(self.0.abs())
    }
    fn sqrt(self) -> Self {
        F64::of(self.0.sqrt())
    }
    fn lt(&self, other: &Self) -> bool {
        self.0 < other.0
    }
    fn le(&self, other: &Self) -> bool {
        self.0 <= other.0
    }
    fn compare(&self, other: &Self) -> Comparison {
        match self.0.partial_cmp(&other.0) {
            Some(std::cmp::Ordering::Less) => Comparison::Less,
            Some(std::cmp::Ordering::Equal) => Comparison::Equal,
            Some(std::cmp::Ordering::Greater) => Comparison::Greater,
            None => Comparison::Unordered,
        }
    }
}

fn pt(xs: &[f64]) -> Vec<F64> {
    xs.iter().map(|&x| F64(x)).collect()
}

fn assert_close(expected: f64, actual: f64) {
    assert!((expected - actual).abs() < 1e-10, "expected={}, actual={}", expected, actual);
}

fn c(cf: &impl ClusterSummary<F64>, i: usize) -> f64 {
    cf.centroid()[i].0
}

fn ssd<CF: ClusterSummary<F64>>(cf: &CF) -> f64 {
    cf.ssd().0
}

fn per_dim(cf: &VVI<F64>, i: usize) -> f64 {
    cf.ssd_per_dim().unwrap()[i].0
}

fn cross(cf: &VVV<F64>, i: usize, j: usize) -> f64 {
    cf.get_ssd(i, j).0
}

fn var<CF: ClusterFeature<F64>>(cf: &CF, d: usize) -> f64 {
    cf.variance(d).0
}

fn vii_of(points: &[&[f64]], dim: usize) -> VII<F64> {
    let mut cf = VII::<F64>::new(dim);
    for p in points {
        cf.add(&pt(p));
    }
    cf
}

fn vvi_of(points: &[&[f64]], dim: usize) -> VVI<F64> {
    let mut cf = VVI::<F64>::new(dim);
    for p in points {
        cf.add(&pt(p));
    }
    cf
}

fn vvv_of(points: &[&[f64]], dim: usize) -> VVV<F64> {
    let mut cf = VVV::<F64>::new(dim);
    for p in points {
        cf.add(&pt(p));
    }
    cf
}

// ── VII ──

#[test]
fn test_vii_add_single_point() {
    let vii = vii_of(&[&[1.0, 2.0, 3.0]], 3);
    assert_eq!(vii.size(), 1);
    assert_close(1.0, c(&vii, 0));
    assert_close(2.0, c(&vii, 1));
    assert_close(3.0, c(&vii, 2));
    assert_close(0.0, ssd(&vii));
}

#[test]
fn test_vii_add_multiple_points() {
    let vii = vii_of(&[&[1.0, 2.0, 3.0], &[3.0, 4.0, 5.0], &[5.0, 6.0, 7.0]], 3);
    assert_eq!(vii.size(), 3);
    assert_close(3.0, c(&vii, 0));
    assert_close(4.0, c(&vii, 1));
    assert_close(5.0, c(&vii, 2));
    assert_close(24.0, ssd(&vii));
}

#[test]
fn test_vii_variance_isotropic() {
    let vii = vii_of(&[&[1.0, 2.0, 3.0], &[3.0, 4.0, 5.0], &[5.0, 6.0, 7.0]], 3);
    assert_close(8.0 / 3.0, var(&vii, 0));
    assert_close(8.0 / 3.0, var(&vii, 1));
    assert_close(8.0 / 3.0, var(&vii, 2));
}

#[test]
fn vii_variance_any_dimension_index() {
    let vii = vii_of(&[&[1.0, 2.0, 3.0], &[3.0, 4.0, 5.0], &[5.0, 6.0, 7.0]], 3);
    assert_close(8.0 / 3.0, var(&vii, 7));
}

#[test]
fn fresh_features_are_all_zero() {
    let vii = VII::<F64>::new(4);
    let vvi = VVI::<F64>::new(4);
    let vvv = VVV::<F64>::new(4);
    for d in 0..4 {
        assert_eq!(0.0, c(&vii, d));
        assert_eq!(0.0, vvi.centroid()[d].0);
        assert_eq!(0.0, vvv.centroid()[d].0);
        assert_eq!(0.0, per_dim(&vvi, d));
    }
    assert_eq!(vii.centroid().len(), 4);
    assert_eq!(0.0, ssd(&vii));
    assert_eq!(0.0, vvi.ssd().0);
    assert_eq!(0.0, vvv.ssd().0);
    assert!(vvv.ssd_upper().unwrap().iter().all(|u| u.0 == 0.0));
    assert_eq!(vvv.ssd_upper().unwrap().len(), 10);
}

#[test]
fn test_vii_add_cf_vii_to_vii() {
    let mut vii1 = vii_of(&[&[1.0, 2.0], &[3.0, 4.0]], 2);
    let vii2 = vii_of(&[&[5.0, 6.0], &[7.0, 8.0]], 2);
    assert_close(2.0, c(&vii1, 0));
    assert_close(4.0, ssd(&vii1));
    vii1.add_cf(&vii2);
    assert_eq!(vii1.size(), 4);
    assert_close(4.0, c(&vii1, 0));
    assert_close(5.0, c(&vii1, 1));
    assert_close(40.0, ssd(&vii1));
}

#[test]
fn test_vii_add_cf_empty() {
    let mut empty = VII::<F64>::new(3);
    let vii = vii_of(&[&[1.0, 2.0, 3.0], &[4.0, 5.0, 6.0]], 3);
    empty.add_cf(&vii);
    assert_eq!(empty.size(), 2);
    assert_close(2.5, c(&empty, 0));
    assert_close(3.5, c(&empty, 1));
    assert_close(4.5, c(&empty, 2));
    assert_close(13.5, ssd(&empty));
}

#[test]
fn test_vii_ssd_per_dim_none() {
    let vii = vii_of(&[&[1.0, 2.0, 3.0], &[3.0, 4.0, 5.0]], 3);
    assert!(vii.ssd_per_dim().is_none());
}

#[test]
fn test_vii_ssd_upper_none() {
    let vii = vii_of(&[&[1.0, 2.0, 3.0], &[3.0, 4.0, 5.0]], 3);
    assert!(vii.ssd_upper().is_none());
}

#[test]
fn test_vii_reset() {
    let mut vii = vii_of(&[&[1.0, 2.0, 3.0], &[4.0, 5.0, 6.0]], 3);
    vii.reset();
    assert_eq!(vii.size(), 0);
    assert_close(0.0, c(&vii, 0));
    assert_close(0.0, ssd(&vii));
}

#[test]
fn test_vii_covariance_none() {
    let vii = VII::<F64>::new(3);
    assert!(vii.covariance().is_none());
}

#[test]
fn test_vii_variance_empty() {
    let vii = VII::<F64>::new(3);
    assert_close(0.0, var(&vii, 0));
    assert_close(0.0, var(&vii, 2));
}

#[test]
fn test_vii_variance_single_point() {
    let vii = vii_of(&[&[1.0, 2.0, 3.0]], 3);
    assert_close(0.0, var(&vii, 0));
    assert_close(0.0, var(&vii, 1));
    assert_close(0.0, var(&vii, 2));
}

#[test]
fn test_vii_various_dimensions() {
    let dims = [1usize, 2, 5, 8, 16];
    for &dim in &dims {
        let mut vii = VII::<F64>::new(dim);
        for i in 0..10usize {
            let point: Vec<F64> = (0..dim).map(|j| F64((i * dim + j) as f64)).collect();
            vii.add(&point);
        }
        assert_eq!(vii.size(), 10);
        assert!(ssd(&vii) >= 0.0, "ssd < 0 for dim {}", dim);
    }
}

const FIVE_POINTS: [[f64; 3]; 5] = [
    [1.0, 2.0, 3.0],
    [3.0, 4.0, 5.0],
    [5.0, 6.0, 7.0],
    [2.0, 8.0, 1.0],
    [4.0, 0.0, 9.0],
];

#[test]
fn test_vii_vs_vvi_total_ssd() {
    let mut vii = VII::<F64>::new(3);
    let mut vvi = VVI::<F64>::new(3);
    for p in &FIVE_POINTS {
        vii.add(&pt(p));
        vvi.add(&pt(p));
    }
    assert_close(ssd(&vvi), ssd(&vii));
}

#[test]
fn test_vii_vs_vvv_total_ssd() {
    let mut vii = VII::<F64>::new(3);
    let mut vvv = VVV::<F64>::new(3);
    for p in &FIVE_POINTS {
        vii.add(&pt(p));
        vvv.add(&pt(p));
    }
    assert_close(ssd(&vvv), ssd(&vii));
}

const FOUR_POINTS: [[f64; 3]; 4] = [[1.0, 2.0, 3.0], [3.0, 4.0, 5.0], [5.0, 6.0, 7.0], [7.0, 8.0, 9.0]];

fn reference_vii() -> VII<F64> {
    let mut r = VII::<F64>::new(3);
    for p in &FOUR_POINTS {
        r.add(&pt(p));
    }
    r
}

#[test]
fn test_vii_add_cf_vii_to_vvi() {
    let mut vvi = vvi_of(&[&[1.0, 2.0, 3.0], &[3.0, 4.0, 5.0]], 3);
    let vii = vii_of(&[&[5.0, 6.0, 7.0], &[7.0, 8.0, 9.0]], 3);
    vvi.add_cf(&vii);
    assert_eq!(vvi.size(), 4);
    assert_close(4.0, c(&vvi, 0));
    assert_close(5.0, c(&vvi, 1));
    assert_close(6.0, c(&vvi, 2));
    assert_close(ssd(&reference_vii()), ssd(&vvi));
}

#[test]
fn test_vii_add_cf_vii_to_vvv() {
    let mut vvv = vvv_of(&[&[1.0, 2.0, 3.0], &[3.0, 4.0, 5.0]], 3);
    let vii = vii_of(&[&[5.0, 6.0, 7.0], &[7.0, 8.0, 9.0]], 3);
    vvv.add_cf(&vii);
    assert_eq!(vvv.size(), 4);
    assert_close(4.0, c(&vvv, 0));
    assert_close(5.0, c(&vvv, 1));
    assert_close(6.0, c(&vvv, 2));
    assert_close(ssd(&reference_vii()), ssd(&vvv));
}

#[test]
fn test_vii_add_cf_vvi_to_vii() {
    let mut vii = vii_of(&[&[1.0, 2.0, 3.0], &[3.0, 4.0, 5.0]], 3);
    let vvi = vvi_of(&[&[5.0, 6.0, 7.0], &[7.0, 8.0, 9.0]], 3);
    vii.add_cf(&vvi);
    assert_eq!(vii.size(), 4);
    assert_close(4.0, c(&vii, 0));
    assert_close(5.0, c(&vii, 1));
    assert_close(6.0, c(&vii, 2));
    assert_close(ssd(&reference_vii()), ssd(&vii));
}

#[test]
fn test_vii_add_cf_vvv_to_vii() {
    let mut vii = vii_of(&[&[1.0, 2.0, 3.0], &[3.0, 4.0, 5.0]], 3);
    let vvv = vvv_of(&[&[5.0, 6.0, 7.0], &[7.0, 8.0, 9.0]], 3);
    vii.add_cf(&vvv);
    assert_eq!(vii.size(), 4);
    assert_close(4.0, c(&vii, 0));
    assert_close(5.0, c(&vii, 1));
    assert_close(6.0, c(&vii, 2));
    assert_close(ssd(&reference_vii()), ssd(&vii));
}

#[test]
fn test_vii_add_cf_empty_other() {
    let mut vii = vii_of(&[&[1.0, 2.0], &[4.0, 1.0]], 2);
    let empty = VII::<F64>::new(2);
    let saved_size = vii.size();
    let saved_centroid = c(&vii, 0);
    let saved_ssd = ssd(&vii);
    vii.add_cf(&empty);
    assert_eq!(vii.size(), saved_size);
    assert_close(saved_centroid, c(&vii, 0));
    assert_close(saved_ssd, ssd(&vii));
}

#[test]
fn test_vii_clone() {
    let mut vii = vii_of(&[&[1.0, 2.0], &[4.0, 1.0]], 2);
    let vii2 = vii.clone();
    assert_eq!(vii.size(), vii2.size());
    assert_close(c(&vii, 0), c(&vii2, 0));
    assert_close(ssd(&vii), ssd(&vii2));
    vii.add(&pt(&[5.0, 5.0]));
    assert_eq!(vii2.size(), 2);
    assert_close(2.5, c(&vii2, 0));
}

#[test]
fn test_basecf_first_insertion() {
    let dim = 2;
    let mut cf = VII::<F64>::new(dim);
    assert_eq!(cf.size(), 0, "initial size should be 0");
    let x = pt(&[3.0, 4.0]);
    cf.add(&x);
    assert_eq!(cf.size(), 1, "size should be 1 after first add");
    let expected_centroid: Vec<f64> = vec![3.0, 4.0];
    for i in 0..dim {
        let diff = (c(&cf, i) - expected_centroid[i]).abs();
        assert!(
            diff < 1e-10_f64,
            "centroid[{}] should be {}, got {}, diff={}",
            i,
            expected_centroid[i],
            c(&cf, i),
            diff
        );
    }
    let ssd_val: f64 = ssd(&cf);
    assert!(ssd_val.abs() < 1e-10_f64, "SSD should be 0 after first add, got {}", ssd_val);
    let mut cf2 = VII::<F64>::new(dim);
    let other = VII::<F64>::new(dim);
    let mut other_copy = other.clone();
    other_copy.add(&pt(&[1.0, 2.0]));
    cf2.add_cf(&other_copy);
    assert_eq!(cf2.size(), 1, "size should be 1 after first add_cf");
}

// ── VVI ──

#[test]
fn test_vvi_add_single_point() {
    let vvi = vvi_of(&[&[1.0, 2.0, 3.0]], 3);
    assert_eq!(vvi.size(), 1);
    assert_close(1.0, c(&vvi, 0));
    assert_close(2.0, c(&vvi, 1));
    assert_close(3.0, c(&vvi, 2));
    assert_close(0.0, per_dim(&vvi, 0));
    assert_close(0.0, per_dim(&vvi, 1));
    assert_close(0.0, per_dim(&vvi, 2));
    assert_close(0.0, ssd(&vvi));
}

#[test]
fn test_vvi_add_multiple_points() {
    let vvi = vvi_of(&[&[1.0, 2.0, 3.0], &[3.0, 4.0, 5.0], &[5.0, 6.0, 7.0]], 3);
    assert_eq!(vvi.size(), 3);
    assert_close(3.0, c(&vvi, 0));
    assert_close(4.0, c(&vvi, 1));
    assert_close(5.0, c(&vvi, 2));
    assert_close(8.0, per_dim(&vvi, 0));
    assert_close(8.0, per_dim(&vvi, 1));
    assert_close(8.0, per_dim(&vvi, 2));
    assert_close(24.0, ssd(&vvi));
}

#[test]
fn test_vvi_variance_per_dimension() {
    let vvi = vvi_of(&[&[1.0, 2.0, 3.0], &[3.0, 4.0, 5.0], &[5.0, 6.0, 7.0]], 3);
    assert_close(8.0 / 3.0, var(&vvi, 0));
    assert_close(8.0 / 3.0, var(&vvi, 1));
    assert_close(8.0 / 3.0, var(&vvi, 2));
}

#[test]
fn test_vvi_variance_asymmetric() {
    let vvi = vvi_of(&[&[0.0, 0.0], &[10.0, 1.0], &[20.0, 2.0]], 2);
    assert_close(200.0, per_dim(&vvi, 0));
    assert_close(2.0, per_dim(&vvi, 1));
    assert_close(200.0 / 3.0, var(&vvi, 0));
    assert_close(2.0 / 3.0, var(&vvi, 1));
}

#[test]
fn test_vvi_add_cf_vvi_to_vvi() {
    let mut vvi1 = vvi_of(&[&[1.0, 2.0], &[3.0, 4.0]], 2);
    let vvi2 = vvi_of(&[&[5.0, 6.0], &[7.0, 8.0]], 2);
    assert_close(2.0, c(&vvi1, 0));
    assert_close(2.0, per_dim(&vvi1, 0));
    vvi1.add_cf(&vvi2);
    assert_eq!(vvi1.size(), 4);
    assert_close(4.0, c(&vvi1, 0));
    assert_close(5.0, c(&vvi1, 1));
    let base = vii_of(&[&[1.0, 2.0], &[3.0, 4.0], &[5.0, 6.0], &[7.0, 8.0]], 2);
    assert_close(ssd(&base), ssd(&vvi1));
    assert_close(20.0, per_dim(&vvi1, 0));
    assert_close(20.0, per_dim(&vvi1, 1));
}

#[test]
fn test_vvi_add_cf_empty() {
    let mut empty = VVI::<F64>::new(3);
    let vvi = vvi_of(&[&[1.0, 2.0, 3.0], &[4.0, 5.0, 6.0]], 3);
    empty.add_cf(&vvi);
    assert_eq!(empty.size(), 2);
    assert_close(2.5, c(&empty, 0));
    assert_close(3.5, c(&empty, 1));
    assert_close(4.5, c(&empty, 2));
    assert_close(4.5, per_dim(&empty, 0));
    assert_close(4.5, per_dim(&empty, 1));
    assert_close(4.5, per_dim(&empty, 2));
}

#[test]
fn test_vvi_add_cf_vvi_to_vii() {
    let mut base = vii_of(&[&[1.0, 2.0, 3.0], &[3.0, 4.0, 5.0]], 3);
    let vvi = vvi_of(&[&[5.0, 6.0, 7.0], &[7.0, 8.0, 9.0]], 3);
    base.add_cf(&vvi);
    assert_eq!(base.size(), 4);
    assert_close(4.0, c(&base, 0));
    assert_close(5.0, c(&base, 1));
    assert_close(6.0, c(&base, 2));
    assert_close(ssd(&reference_vii()), ssd(&base));
}

#[test]
fn test_vvi_ssd_per_dim() {
    let vvi = vvi_of(&[&[1.0, 2.0, 3.0], &[3.0, 4.0, 5.0]], 3);
    let per = vvi.ssd_per_dim().unwrap();
    assert_eq!(per.len(), 3);
    assert_close(2.0, per[0].0);
    assert_close(2.0, per[1].0);
    assert_close(2.0, per[2].0);
}

#[test]
fn test_vvi_reset() {
    let mut vvi = vvi_of(&[&[1.0, 2.0, 3.0], &[4.0, 5.0, 6.0]], 3);
    vvi.reset();
    assert_eq!(vvi.size(), 0);
    assert_close(0.0, c(&vvi, 0));
    assert_close(0.0, per_dim(&vvi, 0));
    assert_close(0.0, ssd(&vvi));
}

#[test]
fn test_vvi_covariance_none() {
    let vvi = VVI::<F64>::new(2);
    assert!(vvi.covariance().is_none());
}

#[test]
fn test_vvi_variance_empty() {
    let vvi = VVI::<F64>::new(3);
    assert_close(0.0, var(&vvi, 0));
    assert_close(0.0, var(&vvi, 2));
}

#[test]
fn test_vvi_variance_single_point() {
    let vvi = vvi_of(&[&[1.0, 2.0, 3.0]], 3);
    assert_close(0.0, var(&vvi, 0));
    assert_close(0.0, var(&vvi, 1));
    assert_close(0.0, var(&vvi, 2));
}

#[test]
fn test_vvi_various_dimensions() {
    let dims = [1usize, 2, 5, 8, 16];
    for &dim in &dims {
        let mut vvi = VVI::<F64>::new(dim);
        for i in 0..10usize {
            let point: Vec<F64> = (0..dim).map(|j| F64((i * dim + j) as f64)).collect();
            vvi.add(&point);
        }
        assert_eq!(vvi.size(), 10);
        assert!(ssd(&vvi) >= 0.0);
        for i in 0..dim {
            assert!(per_dim(&vvi, i) >= 0.0, "ssd[{}] < 0", i);
        }
    }
}

#[test]
fn test_vvi_vs_vii_total_ssd() {
    let mut vvi = VVI::<F64>::new(3);
    let mut base = VII::<F64>::new(3);
    for p in &FIVE_POINTS {
        vvi.add(&pt(p));
        base.add(&pt(p));
    }
    assert_close(ssd(&base), ssd(&vvi));
}

#[test]
fn test_vvi_add_cf_preserves_per_dim_ssd() {
    let mut vvi1 = vvi_of(&[&[0.0, 5.0], &[100.0, 5.0], &[200.0, 5.0]], 2);
    let vvi2 = vvi_of(&[&[0.0, 5.0], &[100.0, 5.0], &[200.0, 5.0]], 2);
    vvi1.add_cf(&vvi2);
    assert!((40000.0 - per_dim(&vvi1, 0)).abs() < 1e-10, "dim 0 SSD");
    assert!((0.0 - per_dim(&vvi1, 1)).abs() < 1e-10, "dim 1 SSD");
    assert!((40000.0 - ssd(&vvi1)).abs() < 1e-10, "total SSD");
}

// ── VVV ──

#[test]
fn test_vvv_add_single_point() {
    let vvv = vvv_of(&[&[1.0, 2.0, 3.0]], 3);
    assert_eq!(vvv.size(), 1);
    assert_close(1.0, c(&vvv, 0));
    assert_close(2.0, c(&vvv, 1));
    assert_close(3.0, c(&vvv, 2));
    assert_close(0.0, cross(&vvv, 0, 0));
    assert_close(0.0, cross(&vvv, 1, 1));
    assert_close(0.0, cross(&vvv, 2, 2));
    assert_close(0.0, cross(&vvv, 0, 1));
    assert_close(0.0, cross(&vvv, 0, 2));
    assert_close(0.0, cross(&vvv, 1, 2));
    assert_close(0.0, ssd(&vvv));
}

#[test]
fn test_vvv_add_two_points() {
    let vvv = vvv_of(&[&[1.0, 2.0], &[4.0, 1.0]], 2);
    assert_eq!(vvv.size(), 2);
    assert_close(2.5, c(&vvv, 0));
    assert_close(1.5, c(&vvv, 1));
    assert_close(4.5, cross(&vvv, 0, 0));
    assert_close(0.5, cross(&vvv, 1, 1));
    assert_close(-1.5, cross(&vvv, 0, 1));
    assert_close(-1.5, cross(&vvv, 1, 0));
    assert_close(5.0, ssd(&vvv));
}

#[test]
fn test_vvv_add_multiple_points() {
    let vvv = vvv_of(&[&[1.0, 2.0, 3.0], &[3.0, 4.0, 5.0], &[5.0, 6.0, 7.0]], 3);
    assert_eq!(vvv.size(), 3);
    assert_close(3.0, c(&vvv, 0));
    assert_close(4.0, c(&vvv, 1));
    assert_close(5.0, c(&vvv, 2));
    assert_close(8.0, cross(&vvv, 0, 0));
    assert_close(8.0, cross(&vvv, 1, 1));
    assert_close(8.0, cross(&vvv, 2, 2));
    assert_close(8.0, cross(&vvv, 0, 1));
    assert_close(8.0, cross(&vvv, 0, 2));
    assert_close(8.0, cross(&vvv, 1, 2));
    assert_close(24.0, ssd(&vvv));
}

#[test]
fn test_vvv_variance_per_dimension() {
    let vvv = vvv_of(&[&[1.0, 2.0, 3.0], &[3.0, 4.0, 5.0], &[5.0, 6.0, 7.0]], 3);
    assert_close(8.0 / 3.0, var(&vvv, 0));
    assert_close(8.0 / 3.0, var(&vvv, 1));
    assert_close(8.0 / 3.0, var(&vvv, 2));
}

#[test]
fn test_vvv_covariance_matrix() {
    let vvv = vvv_of(&[&[1.0, 2.0], &[4.0, 1.0]], 2);
    let cov = vvv.covariance().unwrap();
    assert_close(2.25, cov[0][0].0);
    assert_close(0.25, cov[1][1].0);
    assert_close(-0.75, cov[0][1].0);
    assert_close(-0.75, cov[1][0].0);
}

#[test]
fn test_vvv_covariance_known_values() {
    let vvv = vvv_of(&[&[0.0, 0.0], &[1.0, 2.0], &[2.0, 4.0]], 2);
    assert_close(1.0, c(&vvv, 0));
    assert_close(2.0, c(&vvv, 1));
    assert_close(2.0, cross(&vvv, 0, 0));
    assert_close(8.0, cross(&vvv, 1, 1));
    assert_close(4.0, cross(&vvv, 0, 1));
    let cov = vvv.covariance().unwrap();
    assert_close(2.0 / 3.0, cov[0][0].0);
    assert_close(8.0 / 3.0, cov[1][1].0);
    assert_close(4.0 / 3.0, cov[0][1].0);
    assert_close(4.0 / 3.0, cov[1][0].0);
}

#[test]
fn test_vvv_add_cf_vvv_to_vvv() {
    let mut vvv1 = vvv_of(&[&[1.0, 2.0], &[3.0, 4.0]], 2);
    let vvv2 = vvv_of(&[&[5.0, 6.0], &[7.0, 8.0]], 2);
    vvv1.add_cf(&vvv2);
    assert_eq!(vvv1.size(), 4);
    assert_close(4.0, c(&vvv1, 0));
    assert_close(5.0, c(&vvv1, 1));
    let base = vii_of(&[&[1.0, 2.0], &[3.0, 4.0], &[5.0, 6.0], &[7.0, 8.0]], 2);
    assert_close(ssd(&base), ssd(&vvv1));
    assert_close(20.0, cross(&vvv1, 0, 0));
    assert_close(20.0, cross(&vvv1, 1, 1));
    assert_close(20.0, cross(&vvv1, 0, 1));
}

#[test]
fn test_vvv_add_cf_empty() {
    let mut empty = VVV::<F64>::new(3);
    let vvv = vvv_of(&[&[1.0, 2.0, 3.0], &[4.0, 5.0, 6.0]], 3);
    empty.add_cf(&vvv);
    assert_eq!(empty.size(), 2);
    assert_close(2.5, c(&empty, 0));
    assert_close(3.5, c(&empty, 1));
    assert_close(4.5, c(&empty, 2));
    assert_close(4.5, cross(&empty, 0, 0));
    assert_close(4.5, cross(&empty, 1, 1));
    assert_close(4.5, cross(&empty, 2, 2));
    assert_close(4.5, cross(&empty, 0, 1));
    assert_close(4.5, cross(&empty, 0, 2));
    assert_close(4.5, cross(&empty, 1, 2));
}

#[test]
fn test_vvv_add_cf_vvv_to_vii() {
    let mut base = vii_of(&[&[1.0, 2.0, 3.0], &[3.0, 4.0, 5.0]], 3);
    let vvv = vvv_of(&[&[5.0, 6.0, 7.0], &[7.0, 8.0, 9.0]], 3);
    base.add_cf(&vvv);
    assert_eq!(base.size(), 4);
    assert_close(4.0, c(&base, 0));
    assert_close(5.0, c(&base, 1));
    assert_close(6.0, c(&base, 2));
    assert_close(ssd(&reference_vii()), ssd(&base));
}

#[test]
fn test_vvv_vs_vii_total_ssd() {
    let mut vvv = VVV::<F64>::new(3);
    let mut base = VII::<F64>::new(3);
    for p in &FIVE_POINTS {
        vvv.add(&pt(p));
        base.add(&pt(p));
    }
    assert_close(ssd(&base), ssd(&vvv));
}

#[test]
fn test_vvv_reset() {
    let mut vvv = vvv_of(&[&[1.0, 2.0, 3.0], &[4.0, 5.0, 6.0]], 3);
    vvv.reset();
    assert_eq!(vvv.size(), 0);
    assert_close(0.0, c(&vvv, 0));
    assert_close(0.0, cross(&vvv, 0, 0));
    assert_close(0.0, cross(&vvv, 0, 1));
    assert_close(0.0, ssd(&vvv));
}

#[test]
fn test_vvv_variance_empty() {
    let vvv = VVV::<F64>::new(3);
    assert_close(0.0, var(&vvv, 0));
    assert_close(0.0, var(&vvv, 2));
}

#[test]
fn test_vvv_variance_single_point() {
    let vvv = vvv_of(&[&[1.0, 2.0, 3.0]], 3);
    assert_close(0.0, var(&vvv, 0));
    assert_close(0.0, var(&vvv, 1));
    assert_close(0.0, var(&vvv, 2));
}

#[test]
fn test_vvv_ssd_upper() {
    let vvv = vvv_of(&[&[1.0, 2.0], &[4.0, 1.0]], 2);
    let mat = vvv.ssd_upper().unwrap();
    assert_eq!(mat.len(), 3);
    assert_close(4.5, mat[0].0);
    assert_close(-1.5, mat[1].0);
    assert_close(0.5, mat[2].0);
}

#[test]
fn test_vvv_add_cf_preserves_cross_products() {
    let mut vvv1 = vvv_of(&[&[0.0, 10.0], &[10.0, 0.0]], 2);
    let vvv2 = vvv_of(&[&[0.0, 10.0], &[10.0, 0.0]], 2);
    vvv1.add_cf(&vvv2);
    assert_eq!(vvv1.size(), 4);
    assert_close(5.0, c(&vvv1, 0));
    assert_close(5.0, c(&vvv1, 1));
    assert_close(100.0, cross(&vvv1, 0, 0));
    assert_close(100.0, cross(&vvv1, 1, 1));
    assert_close(-100.0, cross(&vvv1, 0, 1));
    assert_close(-100.0, cross(&vvv1, 1, 0));
}

#[test]
fn test_vvv_add_cf_asymmetric_data() {
    let mut vvv1 = vvv_of(&[&[0.0, 0.0], &[2.0, 0.0]], 2);
    let vvv2 = vvv_of(&[&[1.0, 1.0], &[3.0, 3.0]], 2);
    vvv1.add_cf(&vvv2);
    assert_eq!(vvv1.size(), 4);
    assert_close(1.5, c(&vvv1, 0));
    assert_close(1.0, c(&vvv1, 1));
    assert_close(5.0, cross(&vvv1, 0, 0));
    assert_close(6.0, cross(&vvv1, 1, 1));
    assert_close(4.0, cross(&vvv1, 0, 1));
    let base = vii_of(&[&[0.0, 0.0], &[2.0, 0.0], &[1.0, 1.0], &[3.0, 3.0]], 2);
    assert_close(ssd(&base), ssd(&vvv1));
}

#[test]
fn test_vvv_various_dimensions() {
    let dims = [1usize, 2, 5, 8, 16];
    for &dim in &dims {
        let mut vvv = VVV::<F64>::new(dim);
        for i in 0..10usize {
            let point: Vec<F64> = (0..dim).map(|j| F64((i * dim + j) as f64)).collect();
            vvv.add(&point);
        }
        assert_eq!(vvv.size(), 10);
        assert!(ssd(&vvv) >= 0.0);
        for i in 0..dim {
            assert!(cross(&vvv, i, i) >= 0.0, "ssd[{}][{}] < 0", i, i);
        }
        let cov = vvv.covariance().unwrap();
        for i in 0..dim {
            for j in 0..dim {
                assert!(
                    (cov[i][j].0 - cov[j][i].0).abs() < 1e-10,
                    "covariance not symmetric at [{},{}]",
                    i,
                    j
                );
            }
        }
    }
}

#[test]
fn test_vvv_covariance_empty() {
    let vvv = VVV::<F64>::new(3);
    let cov = vvv.covariance().unwrap();
    assert_eq!(cov.len(), 3);
    for i in 0..3 {
        for j in 0..3 {
            assert_close(0.0, cov[i][j].0);
        }
    }
}

#[test]
fn test_vvv_add_cf_vvv_to_vvi() {
    let mut vvi = vvi_of(&[&[1.0, 2.0], &[3.0, 4.0]], 2);
    let vvv = vvv_of(&[&[5.0, 6.0], &[7.0, 8.0]], 2);
    vvi.add_cf(&vvv);
    assert_eq!(vvi.size(), 4);
    assert_close(4.0, c(&vvi, 0));
    assert_close(5.0, c(&vvi, 1));
    let base = vii_of(&[&[1.0, 2.0], &[3.0, 4.0], &[5.0, 6.0], &[7.0, 8.0]], 2);
    assert_close(ssd(&base), ssd(&vvi));
}

#[test]
fn test_vvv_add_cf_vvi_to_vvv_preserves_diagonal_ssd() {
    let vvi = vvi_of(&[&[1.0, 2.0, 3.0], &[4.0, 5.0, 6.0]], 3);
    let mut vvv = VVV::<F64>::new(3);
    vvv.add_cf(&vvi);
    assert_eq!(vvv.size(), 2);
    assert_close(2.5, c(&vvv, 0));
    assert_close(3.5, c(&vvv, 1));
    assert_close(4.5, c(&vvv, 2));
    assert_close(4.5, cross(&vvv, 0, 0));
    assert_close(4.5, cross(&vvv, 1, 1));
    assert_close(4.5, cross(&vvv, 2, 2));
    assert_close(0.0, cross(&vvv, 0, 1));
    assert_close(0.0, cross(&vvv, 0, 2));
    assert_close(0.0, cross(&vvv, 1, 2));
}

#[test]
fn test_vvv_add_cf_vii_to_vvv_preserves_isotropic_diagonal_ssd() {
    let base = vii_of(&[&[1.0, 2.0, 3.0], &[4.0, 5.0, 6.0]], 3);
    let expected_per_dim = ssd(&base) / 3.0;
    let mut vvv = VVV::<F64>::new(3);
    vvv.add_cf(&base);
    assert_eq!(vvv.size(), 2);
    assert_close(2.5, c(&vvv, 0));
    assert_close(3.5, c(&vvv, 1));
    assert_close(4.5, c(&vvv, 2));
    assert_close(expected_per_dim, cross(&vvv, 0, 0));
    assert_close(expected_per_dim, cross(&vvv, 1, 1));
    assert_close(expected_per_dim, cross(&vvv, 2, 2));
    assert_close(0.0, cross(&vvv, 0, 1));
    assert_close(0.0, cross(&vvv, 0, 2));
    assert_close(0.0, cross(&vvv, 1, 2));
}

#[test]
fn test_vvv_add_cf_empty_other() {
    let mut vvv = vvv_of(&[&[1.0, 2.0], &[4.0, 1.0]], 2);
    let empty = VVV::<F64>::new(2);
    let saved_size = vvv.size();
    let saved_centroid = c(&vvv, 0);
    let saved_ssd = ssd(&vvv);
    vvv.add_cf(&empty);
    assert_eq!(vvv.size(), saved_size);
    assert_close(saved_centroid, c(&vvv, 0));
    assert_close(saved_ssd, ssd(&vvv));
}

#[test]
fn test_vvv_clone() {
    let mut vvv = vvv_of(&[&[1.0, 2.0], &[4.0, 1.0]], 2);
    let vvv2 = vvv.clone();
    assert_eq!(vvv.size(), vvv2.size());
    assert_close(c(&vvv, 0), c(&vvv2, 0));
    assert_close(cross(&vvv, 0, 0), cross(&vvv2, 0, 0));
    assert_close(cross(&vvv, 0, 1), cross(&vvv2, 0, 1));
    vvv.add(&pt(&[5.0, 5.0]));
    assert_eq!(vvv2.size(), 2);
}

#[test]
fn test_vvv_upper_triangular_storage() {
    let vvv = vvv_of(&[&[1.0, 2.0, 3.0], &[4.0, 5.0, 6.0]], 3);
    let upper = vvv.ssd_upper().unwrap();
    assert_eq!(upper.len(), 6);
    assert_close(upper[0].0, cross(&vvv, 0, 0));
    assert_close(upper[1].0, cross(&vvv, 0, 1));
    assert_close(upper[2].0, cross(&vvv, 0, 2));
    assert_close(upper[3].0, cross(&vvv, 1, 1));
    assert_close(upper[4].0, cross(&vvv, 1, 2));
    assert_close(upper[5].0, cross(&vvv, 2, 2));
    assert_close(cross(&vvv, 0, 1), cross(&vvv, 1, 0));
    assert_close(cross(&vvv, 0, 2), cross(&vvv, 2, 0));
    assert_close(cross(&vvv, 1, 2), cross(&vvv, 2, 1));
}

#[test]
fn vvv_covariance_of_an_empty_feature_is_zero() {
    let cf = VVV::<F64>::new(3);
    let m = cf.covariance().unwrap();
    assert_eq!(m.len(), 3);
    for row in &m {
        assert_eq!(row.len(), 3);
        for v in row {
            assert_close(0.0, v.0);
        }
    }
}

#[test]
fn vvi_spreads_a_scalar_total_evenly_when_empty() {
    let src = vii_of(&[&[0.0, 0.0], &[2.0, 2.0]], 2);
    assert_close(4.0, ssd(&src));
    let mut dst = VVI::<F64>::new(2);
    dst.add_cf(&src);
    assert_close(2.0, per_dim(&dst, 0));
    assert_close(2.0, per_dim(&dst, 1));
    assert_close(1.0, c(&dst, 0));
}
