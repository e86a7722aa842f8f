//! Cluster features: the summaries of point sets that the CF-tree stores.

mod vii;
mod vvi;
mod vvv;

use crate::types::{spec_le, Float};
use vstd::prelude::*;

pub use vii::VII;
pub use vvi::VVI;
pub use vvv::VVV;

verus! {

/// Read access to a summary of a set of points: how many there are, their
/// centroid and the sums of squared deviations from it.
pub trait ClusterSummary<F: Float>: Sized {
    /// Number of points summarized.
    spec fn spec_size(&self) -> nat;

    /// Dimensionality of the points.
    spec fn spec_dim(&self) -> nat;

    /// The stored centroid.
    spec fn spec_centroid(&self) -> Seq<F>;

    /// Internal consistency of the stored data.
    spec fn inv(&self) -> bool;

    /// The total sum of squared deviations, as `ssd` computes it.
    spec fn spec_ssd_total(&self) -> F;

    /// The per-dimension sums of squared deviations, where they are stored
    /// as such.
    spec fn spec_ssd_per_dim(&self) -> Option<Seq<F>>;

    /// The packed upper triangle of cross-product deviations, where it is
    /// stored.
    spec fn spec_ssd_upper(&self) -> Option<Seq<F>>;

    /// A consistent summary stores one centroid coordinate per dimension,
    /// and its sums, where it keeps them, at their full lengths.
    proof fn lemma_inv(&self)
        requires
            self.inv(),
        ensures
            self.spec_centroid().len() == self.spec_dim(),
            self.spec_ssd_per_dim() matches Some(s) ==> s.len() == self.spec_dim(),
            self.spec_ssd_upper() matches Some(u) ==> u.len() == triangle_len(self.spec_dim()),
    ;

    fn size(&self) -> (r: usize)
        ensures
            r == self.spec_size(),
    ;

    fn centroid(&self) -> (r: &[F])
        ensures
            r@ == self.spec_centroid(),
            self.inv() ==> r@.len() == self.spec_dim(),
    ;

    /// Total sum of squared deviations.
    fn ssd(&self) -> (r: F)
        requires
            self.inv(),
        ensures
            r == self.spec_ssd_total(),
    ;

    /// Per-dimension sums of squared deviations, where they are stored as such.
    fn ssd_per_dim(&self) -> (r: Option<&[F]>)
        ensures
            self.inv() ==> (r matches Some(s) ==> s@.len() == self.spec_dim()),
            (match r {
                Some(s) => Some(s@),
                None => None,
            }) == self.spec_ssd_per_dim(),
    ;

    /// Upper triangle (diagonal included) of the matrix of cross-product
    /// deviations, row by row, where it is stored as such: the entry
    /// `(i, j)` with `i <= j` stands at `i * dim - i * (i - 1) / 2 + (j - i)`.
    fn ssd_upper(&self) -> (r: Option<&[F]>)
        ensures
            self.inv() ==> (r matches Some(s) ==> s@.len() == triangle_len(self.spec_dim())),
            (match r {
                Some(s) => Some(s@),
                None => None,
            }) == self.spec_ssd_upper(),
    ;

}

/// A summary of a set of points that is kept up to date as points, or whole
/// summaries, are added.
pub trait ClusterFeature<F: Float>: ClusterSummary<F> {
    /// Whether a feature of dimensionality `dim` can be allocated.
    spec fn dim_supported(dim: nat) -> bool;

    /// `self` is an empty feature of dimensionality `dim`: no points, a zero
    /// centroid and zero sums.
    spec fn spec_fresh(&self, dim: nat) -> bool;

    /// `self` is `old` after the point `x` was added, as `add` computes it.
    spec fn spec_added(&self, old: Self, x: Seq<F>) -> bool;

    /// `self` is `old` after a feature with the given statistics (size,
    /// centroid, total, per-dimension and packed cross-product sums) was
    /// merged in, as `add_cf` computes it.
    spec fn spec_merged(
        &self,
        old: Self,
        size: nat,
        centroid: Seq<F>,
        ssd_total: F,
        per_dim: Option<Seq<F>>,
        upper: Option<Seq<F>>,
    ) -> bool;

    fn new(dim: usize) -> (r: Self)
        requires
            Self::dim_supported(dim as nat),
        ensures
            r.inv(),
            r.spec_size() == 0,
            r.spec_dim() == dim,
            r.spec_fresh(dim as nat),
            is_empty_summary(r, dim as nat),
    ;

    /// The variance along dimension `d`, as `variance` computes it.
    spec fn spec_variance(&self, d: int) -> F;

    /// Whether `variance` reads no per-dimension data, so that any `d` is
    /// accepted.
    spec fn variance_any_dim() -> bool;

    /// Variance along dimension `d`.
    fn variance(&self, d: usize) -> (r: F)
        requires
            self.inv(),
            d < self.spec_dim() || Self::variance_any_dim(),
        ensures
            r == self.spec_variance(d as int),
    ;

    /// Whether cross products are stored, so that `covariance` gives a
    /// matrix.
    spec fn spec_keeps_covariance(&self) -> bool;

    /// The covariance matrix that `covariance` gives, row by row.
    spec fn spec_covariance(&self) -> Option<Seq<Seq<F>>>;

    /// Covariance matrix, where cross products are stored.
    fn covariance(&self) -> (r: Option<Vec<Vec<F>>>)
        requires
            self.inv(),
        ensures
            r is Some <==> self.spec_keeps_covariance(),
            matrix_view(r) == self.spec_covariance(),
    ;

    /// Empties the feature.
    fn reset(&mut self)
        requires
            old(self).inv(),
        ensures
            final(self).inv(),
            final(self).spec_size() == 0,
            final(self).spec_dim() == old(self).spec_dim(),
            final(self).spec_fresh(old(self).spec_dim()),
            is_empty_summary(*final(self), old(self).spec_dim()),
    ;

    /// Adds one point; only its first `dim` coordinates are read.
    fn add(&mut self, x: &[F])
        requires
            old(self).inv(),
            x@.len() >= old(self).spec_dim(),
            old(self).spec_size() + 1 <= usize::MAX,
        ensures
            final(self).inv(),
            final(self).spec_size() == old(self).spec_size() + 1,
            final(self).spec_dim() == old(self).spec_dim(),
            old(self).spec_size() == 0 ==> final(self).spec_centroid() == x@.subrange(
                0,
                old(self).spec_dim() as int,
            ),
            final(self).spec_added(*old(self), x@),
    ;

    /// Merges the points summarized by `other` into this feature.
    fn add_cf<CF: ClusterSummary<F>>(&mut self, other: &CF)
        requires
            old(self).inv(),
            other.inv(),
            other.spec_dim() == old(self).spec_dim(),
            old(self).spec_size() + other.spec_size() <= usize::MAX,
        ensures
            final(self).inv(),
            final(self).spec_size() == old(self).spec_size() + other.spec_size(),
            final(self).spec_dim() == old(self).spec_dim(),
            old(self).spec_size() == 0 ==> final(self).spec_centroid() == other.spec_centroid(),
            final(self).spec_merged(
                *old(self),
                other.spec_size(),
                other.spec_centroid(),
                other.spec_ssd_total(),
                other.spec_ssd_per_dim(),
                other.spec_ssd_upper(),
            ),
    ;
}

/// `zero + s[0] + ... + s[n - 1]`, added left to right.
pub open spec fn sum_left<F: Float>(s: Seq<F>, n: nat) -> F
    decreases n,
{
    if n == 0 {
        F::spec_zero()
    } else {
        sum_left(s, (n - 1) as nat).spec_plus(s[n - 1])
    }
}

/// `v` where `zero <= v`, else zero: a variance with negative rounding
/// error removed.
pub open spec fn clamp_nonneg<F: Float>(v: F) -> F {
    if spec_le(F::spec_zero(), v) {
        v
    } else {
        F::spec_zero()
    }
}

/// The rows of a matrix, each by its view.
pub open spec fn matrix_view<F>(m: Option<Vec<Vec<F>>>) -> Option<Seq<Seq<F>>> {
    match m {
        Some(rows) => Some(rows@.map_values(|row: Vec<F>| row@)),
        None => None,
    }
}

/// `1 - 1/n`: the weight of a squared deviation when a point joins a
/// feature that then holds `n` points.
pub open spec fn add_weight<F: Float>(n: F) -> F {
    F::spec_one().spec_minus(F::spec_one().spec_divided_by(n))
}

/// The centroid `c` moved towards the point `x` by `1/n` of the way.
pub open spec fn centroid_after_add<F: Float>(c: Seq<F>, x: Seq<F>, n: F) -> Seq<F> {
    Seq::new(c.len(), |i: int| c[i].spec_plus(x[i].spec_minus(c[i]).spec_divided_by(n)))
}

/// The centroid `c` moved towards the centroid `oc` by `factor` of the way.
pub open spec fn centroid_after_merge<F: Float>(c: Seq<F>, oc: Seq<F>, factor: F) -> Seq<F> {
    Seq::new(c.len(), |i: int| c[i].spec_plus(oc[i].spec_minus(c[i]).spec_times(factor)))
}

/// `start` plus, for each of the first `i` dimensions in turn,
/// `(x - c)² * k`.
pub open spec fn ssd_after_add<F: Float>(start: F, c: Seq<F>, x: Seq<F>, k: F, i: nat) -> F
    decreases i,
{
    if i == 0 {
        start
    } else {
        let d = x[i - 1].spec_minus(c[i - 1]);
        ssd_after_add(start, c, x, k, (i - 1) as nat).spec_plus(d.spec_times(d).spec_times(k))
    }
}

/// `start` plus, for each of the first `i` dimensions in turn,
/// `w * (oc - c) * (oc - c)`.
pub open spec fn ssd_after_merge<F: Float>(start: F, c: Seq<F>, oc: Seq<F>, w: F, i: nat) -> F
    decreases i,
{
    if i == 0 {
        start
    } else {
        let d = oc[i - 1].spec_minus(c[i - 1]);
        ssd_after_merge(start, c, oc, w, (i - 1) as nat).spec_plus(w.spec_times(d).spec_times(d))
    }
}

/// Per-dimension sums `ssd` after adding `x` to a feature of centroid `c`:
/// each grows by `(x - c)² * k`.
pub open spec fn per_dim_after_add<F: Float>(ssd: Seq<F>, c: Seq<F>, x: Seq<F>, k: F) -> Seq<F> {
    Seq::new(
        ssd.len(),
        |i: int|
            {
                let d = x[i].spec_minus(c[i]);
                ssd[i].spec_plus(d.spec_times(d).spec_times(k))
            },
    )
}

/// Per-dimension sums `ssd` after merging a feature of centroid `oc` and
/// per-dimension sums `other`: each grows by `other + w (oc - c)²`.
pub open spec fn per_dim_after_merge<F: Float>(
    ssd: Seq<F>,
    c: Seq<F>,
    oc: Seq<F>,
    other: Seq<F>,
    w: F,
) -> Seq<F> {
    Seq::new(
        ssd.len(),
        |i: int|
            {
                let d = oc[i].spec_minus(c[i]);
                ssd[i].spec_plus(other[i].spec_plus(w.spec_times(d).spec_times(d)))
            },
    )
}

/// The per-dimension sums of squared deviations that a feature brings into
/// a merge over `dim` dimensions: its own where it keeps them, else its
/// total spread evenly.
pub open spec fn per_dim_share<F: Float, CF: ClusterSummary<F>>(other: CF, dim: nat) -> Seq<F> {
    share_of(other.spec_ssd_per_dim(), other.spec_ssd_total(), dim)
}

/// The per-dimension sums of a feature with per-dimension sums `per_dim`
/// where it keeps them and total `ssd_total`: those it keeps, else the total
/// spread evenly over `dim` dimensions.
pub open spec fn share_of<F: Float>(per_dim: Option<Seq<F>>, ssd_total: F, dim: nat) -> Seq<F> {
    match per_dim {
        Some(s) => s,
        None => Seq::new(dim, |i: int| ssd_total.spec_divided_by(F::spec_from_index(dim as usize))),
    }
}

/// A merge of a feature with the statistics of `other` into `old` gave
/// `new`.
pub open spec fn merged_with<F: Float, A: ClusterFeature<F>, B: ClusterSummary<F>>(
    new: A,
    old: A,
    other: B,
) -> bool {
    new.spec_merged(
        old,
        other.spec_size(),
        other.spec_centroid(),
        other.spec_ssd_total(),
        other.spec_ssd_per_dim(),
        other.spec_ssd_upper(),
    )
}

/// `n` zeros.
pub open spec fn zeros<F: Float>(n: nat) -> Seq<F> {
    Seq::new(n, |i: int| F::spec_zero())
}

/// `cf` summarizes no points over `dim` dimensions: its centroid is all
/// zeros and so are the sums it keeps; a feature that keeps only the total
/// keeps zero.
pub open spec fn is_empty_summary<F: Float, CF: ClusterSummary<F>>(cf: CF, dim: nat) -> bool {
    &&& cf.spec_size() == 0
    &&& cf.spec_centroid() == zeros::<F>(dim)
    &&& (cf.spec_ssd_per_dim() matches Some(s) ==> s == zeros::<F>(dim))
    &&& (cf.spec_ssd_upper() matches Some(u) ==> u == zeros::<F>(triangle_len(dim)))
    &&& (cf.spec_ssd_per_dim() is None && cf.spec_ssd_upper() is None ==> cf.spec_ssd_total()
        == F::spec_zero())
}

/// The diagonal of a `dim` by `dim` matrix kept as its packed upper
/// triangle.
pub open spec fn packed_diagonal<F>(upper: Seq<F>, dim: nat) -> Seq<F> {
    Seq::new(dim, |i: int| upper[vvv::row_start(dim as int, i)])
}

/// Reads the diagonal out of a packed upper triangle.
pub fn upper_diagonal<F: Copy>(upper: &[F], dim: usize) -> (r: Vec<F>)
    requires
        upper@.len() == triangle_len(dim as nat),
    ensures
        r@ == packed_diagonal(upper@, dim as nat),
{
    let mut out: Vec<F> = Vec::new();
    let mut idx: usize = 0;
    let mut i: usize = 0;
    while i < dim
        invariant
            upper@.len() == triangle_len(dim as nat),
            i <= dim,
            idx == vvv::row_start(dim as int, i as int),
            out@ =~= packed_diagonal(upper@, dim as nat).subrange(0, i as int),
        decreases dim - i,
    {
        proof {
            vvv::lemma_row_start_mono(dim as int, i as int, dim as int);
            vvv::lemma_row_start_end(dim as int);
            vvv::lemma_row_start_step(dim as int, i as int);
        }
        out.push(upper[idx]);
        idx = idx + (dim - i);
        i = i + 1;
    }
    out
}

/// The per-dimension sums of squared deviations that a record of a feature
/// shows: those stored as such, else the diagonal of the stored cross
/// products, else none.
pub open spec fn per_dim_record<F>(per_dim: Option<Seq<F>>, upper: Option<Seq<F>>, dim: nat) -> Seq<F> {
    match per_dim {
        Some(s) => s,
        None => match upper {
            Some(u) => packed_diagonal(u, dim),
            None => Seq::empty(),
        },
    }
}

/// Number of entries of the upper triangle (diagonal included) of a
/// `dim` by `dim` matrix.
pub open spec fn triangle_len(dim: nat) -> nat {
    dim * (dim + 1) / 2
}

} // verus!
