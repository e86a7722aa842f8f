//! The VVV cluster feature: centroid and the full matrix of cross-product
//! deviations, of which the upper triangle is stored.

use super::{
    clamp_nonneg, matrix_view, per_dim_share, share_of, sum_left, triangle_len, zeros, ClusterFeature,
    ClusterSummary,
};
use crate::types::Float;
use vstd::prelude::*;

verus! {

/// Position at which row `i` of the upper triangle of a `dim` by `dim`
/// matrix starts in row-major packed storage.
pub open spec fn row_start(dim: int, i: int) -> int {
    i * dim - i * (i - 1) / 2
}

/// Packed position of the entry `(i, j)`, `i <= j`, of the upper triangle.
pub open spec fn tri_index(dim: int, i: int, j: int) -> int {
    row_start(dim, i) + (j - i)
}

pub(crate) proof fn lemma_row_start_step(dim: int, i: int)
    requires
        0 <= i,
    ensures
        row_start(dim, i + 1) == row_start(dim, i) + dim - i,
{
    assert((i + 1) * i == i * (i - 1) + 2 * i) by (nonlinear_arith);
    assert((i + 1) * dim == i * dim + dim) by (nonlinear_arith);
}

pub(crate) proof fn lemma_row_start_mono(dim: int, i: int, k: int)
    requires
        0 <= i <= k <= dim,
    ensures
        row_start(dim, i) + (k - i) <= row_start(dim, k),
        i < k ==> row_start(dim, i) + (dim - i) <= row_start(dim, k),
    decreases k - i,
{
    if i < k {
        lemma_row_start_step(dim, i);
        lemma_row_start_mono(dim, i + 1, k);
    }
}

pub(crate) proof fn lemma_row_start_end(dim: int)
    requires
        0 <= dim,
    ensures
        row_start(dim, dim) == triangle_len(dim as nat),
{
    assert(dim * (dim + 1) == dim * (dim - 1) + 2 * dim) by (nonlinear_arith);
    assert(dim * dim == dim * (dim - 1) + dim) by (nonlinear_arith);
    let k = dim / 2;
    if dim % 2 == 0 {
        assert(dim * (dim - 1) == 2 * (k * (dim - 1))) by (nonlinear_arith)
            requires
                dim == 2 * k,
        ;
    } else {
        assert(dim * (dim - 1) == 2 * (dim * k)) by (nonlinear_arith)
            requires
                dim == 2 * k + 1,
        ;
    }
}

/// Every entry `(i, j)`, `i <= j < dim`, of the upper triangle has its own
/// packed position, and all positions fall inside the packed storage.
pub proof fn lemma_tri_index_layout(dim: int, i: int, j: int, i2: int, j2: int)
    requires
        0 <= i <= j < dim,
        0 <= i2 <= j2 < dim,
    ensures
        0 <= tri_index(dim, i, j) < triangle_len(dim as nat),
        tri_index(dim, i, j) == tri_index(dim, i2, j2) ==> i == i2 && j == j2,
{
    lemma_row_start_mono(dim, 0, i);
    lemma_row_start_mono(dim, i, dim);
    lemma_row_start_end(dim);
    assert(row_start(dim, 0) == 0);
    if i < i2 {
        lemma_row_start_mono(dim, i, i2);
    } else if i2 < i {
        lemma_row_start_mono(dim, i2, i);
    }
}

/// Deviations of the point `x` from the centroid `c`.
pub open spec fn point_deltas<F: Float>(x: Seq<F>, c: Seq<F>) -> Seq<F> {
    Seq::new(c.len(), |i: int| x[i].spec_minus(c[i]))
}

/// Cross-product entry `(a, b)`, at `old` before, after adding a point with
/// deviations `deltas` at weight `w`: it grows by `deltas[hi] * deltas[lo] * w`,
/// `hi` and `lo` the larger and smaller of `a` and `b`.
pub open spec fn cross_after_add<F: Float>(old: F, deltas: Seq<F>, a: int, b: int, w: F) -> F {
    let hi = if a >= b {
        a
    } else {
        b
    };
    let lo = if a >= b {
        b
    } else {
        a
    };
    old.spec_plus(deltas[hi].spec_times(deltas[lo]).spec_times(w))
}

/// What a merged feature contributes to the entry `(a, b)` of a `dim` by
/// `dim` matrix: its own cross product where it keeps the packed matrix
/// `upper`, else its per-dimension share (from `per_dim` or the total
/// `ssd_total`) on the diagonal and nothing off it.
pub open spec fn other_cross_of<F: Float>(
    upper: Option<Seq<F>>,
    per_dim: Option<Seq<F>>,
    ssd_total: F,
    dim: nat,
    a: int,
    b: int,
) -> F {
    let hi = if a >= b {
        a
    } else {
        b
    };
    let lo = if a >= b {
        b
    } else {
        a
    };
    match upper {
        Some(m) => m[tri_index(dim as int, lo, hi)],
        None => if a == b {
            share_of(per_dim, ssd_total, dim)[a]
        } else {
            F::spec_zero()
        },
    }
}

/// What a merged feature `other` contributes to the entry `(a, b)`.
pub open spec fn other_cross<F: Float, CF: ClusterSummary<F>>(other: CF, dim: nat, a: int, b: int) -> F {
    other_cross_of(other.spec_ssd_upper(), other.spec_ssd_per_dim(), other.spec_ssd_total(), dim, a, b)
}

/// Entry `(a, b)` of an empty feature, at `old` before, after it took over a
/// merged feature: that feature's cross product where it keeps the matrix,
/// else its share on the diagonal, the rest left as it was.
pub open spec fn cross_after_fill_of<F: Float>(
    old: F,
    upper: Option<Seq<F>>,
    per_dim: Option<Seq<F>>,
    ssd_total: F,
    dim: nat,
    a: int,
    b: int,
) -> F {
    if upper is Some || a == b {
        other_cross_of(upper, per_dim, ssd_total, dim, a, b)
    } else {
        old
    }
}

/// `cross_after_fill_of` with the statistics of `other`.
pub open spec fn cross_after_fill<F: Float, CF: ClusterSummary<F>>(
    old: F,
    other: CF,
    dim: nat,
    a: int,
    b: int,
) -> F {
    cross_after_fill_of(
        old,
        other.spec_ssd_upper(),
        other.spec_ssd_per_dim(),
        other.spec_ssd_total(),
        dim,
        a,
        b,
    )
}

/// Entry `(a, b)`, at `old` before, after merging a feature whose centroid
/// deviates by `deltas`: it grows by that feature's contribution and by
/// `m δhi δlo (1 - factor)`.
pub open spec fn cross_after_merge_of<F: Float>(
    old: F,
    upper: Option<Seq<F>>,
    per_dim: Option<Seq<F>>,
    ssd_total: F,
    dim: nat,
    deltas: Seq<F>,
    m: F,
    one_minus_factor: F,
    a: int,
    b: int,
) -> F {
    let hi = if a >= b {
        a
    } else {
        b
    };
    let lo = if a >= b {
        b
    } else {
        a
    };
    old.spec_plus(other_cross_of(upper, per_dim, ssd_total, dim, a, b)).spec_plus(
        m.spec_times(deltas[hi]).spec_times(deltas[lo]).spec_times(one_minus_factor),
    )
}

/// `cross_after_merge_of` with the statistics of `other`.
pub open spec fn cross_after_merge<F: Float, CF: ClusterSummary<F>>(
    old: F,
    other: CF,
    dim: nat,
    deltas: Seq<F>,
    m: F,
    one_minus_factor: F,
    a: int,
    b: int,
) -> F {
    cross_after_merge_of(
        old,
        other.spec_ssd_upper(),
        other.spec_ssd_per_dim(),
        other.spec_ssd_total(),
        dim,
        deltas,
        m,
        one_minus_factor,
        a,
        b,
    )
}

/// VVV cluster feature.
///
/// Stores the full matrix of cross-product sums of deviations, which gives
/// the covariance matrix and not only per-dimension variances. Only its upper
/// triangle (diagonal included) is kept, row by row: the entry `(i, j)`,
/// `i <= j`, stands at `i * dim - i * (i - 1) / 2 + (j - i)`.
#[derive(Clone)]
pub struct VVV<F> {
    size: usize,
    centroid: Vec<F>,
    ssd_upper: Vec<F>,
    dim: usize,
}

impl<F: Float> VVV<F> {
    /// The stored cross-product deviation sum of dimensions `i` and `j`.
    pub closed spec fn spec_ssd(&self, i: int, j: int) -> F {
        if i <= j {
            self.ssd_upper@[tri_index(self.dim as int, i, j)]
        } else {
            self.ssd_upper@[tri_index(self.dim as int, j, i)]
        }
    }

    /// The packed storage follows the documented layout: the entry `(i, j)`,
    /// `i <= j`, stands at `tri_index(dim, i, j)`.
    pub proof fn lemma_upper_layout(&self, i: int, j: int)
        requires
            self.inv(),
            0 <= i <= j < self.spec_dim(),
        ensures
            self.spec_upper().len() == triangle_len(self.spec_dim()),
            0 <= tri_index(self.spec_dim() as int, i, j) < self.spec_upper().len(),
            self.spec_upper()[tri_index(self.spec_dim() as int, i, j)] == self.spec_ssd(i, j),
    {
        lemma_tri_index_layout(self.dim as int, i, j, i, j);
    }

    /// The cross-product matrix is symmetric: both halves read the one
    /// stored entry.
    pub proof fn lemma_ssd_symmetric(&self, i: int, j: int)
        ensures
            self.spec_ssd(i, j) == self.spec_ssd(j, i),
    {
    }

    /// The diagonal of the matrix: the sum of squared deviations of each
    /// dimension.
    pub closed spec fn spec_diagonal(&self) -> Seq<F> {
        Seq::new(self.dim as nat, |i: int| self.spec_ssd(i, i))
    }

    /// The packed upper triangle.
    pub closed spec fn spec_upper(&self) -> Seq<F> {
        self.ssd_upper@
    }

    /// Packed position of the entry `(i, j)`, `i <= j`.
    #[verifier::spinoff_prover]
    fn flat_idx(&self, i: usize, j: usize) -> (r: usize)
        requires
            self.inv(),
            i <= j < self.dim,
        ensures
            r == tri_index(self.dim as int, i as int, j as int),
            r < self.ssd_upper@.len(),
    {
        proof {
            lemma_tri_index_layout(self.dim as int, i as int, j as int, i as int, j as int);
            let d = self.dim as int;
            assert(i * d <= d * (d + 1)) by (nonlinear_arith)
                requires
                    0 <= i < d,
            ;
            assert((i - 1) * i <= i * d) by (nonlinear_arith)
                requires
                    0 <= i < d,
            ;
            assert((i - 1) * i >= 0) by (nonlinear_arith)
                requires
                    0 <= i,
            ;
        }
        let i1 = i.saturating_sub(1);
        assert(i1 * i == (i - 1) * i) by (nonlinear_arith)
            requires
                i1 == (if i == 0 { 0 } else { i - 1 }),
        ;
        i * self.dim - i1 * i / 2 + (j - i)
    }

    /// The cross-product deviation sum of dimensions `i` and `j`, read from
    /// the packed triangle whichever way round the two are given.
    pub fn get_ssd(&self, i: usize, j: usize) -> (r: F)
        requires
            self.inv(),
            i < self.spec_dim(),
            j < self.spec_dim(),
        ensures
            r == self.spec_ssd(i as int, j as int),
    {
        let lo = if i <= j {
            i
        } else {
            j
        };
        let hi = if i <= j {
            j
        } else {
            i
        };
        self.ssd_upper[self.flat_idx(lo, hi)]
    }

    /// Writes the cross-product deviation sum of dimensions `i` and `j`.
    fn set_ssd(&mut self, i: usize, j: usize, val: F)
        requires
            old(self).inv(),
            i < old(self).spec_dim(),
            j < old(self).spec_dim(),
        ensures
            final(self).inv(),
            final(self).size == old(self).size,
            final(self).dim == old(self).dim,
            final(self).centroid == old(self).centroid,
            final(self).spec_ssd(i as int, j as int) == val,
            forall|a: int, b: int|
                0 <= a < final(self).dim && 0 <= b < final(self).dim && !((a == i && b == j) || (a
                    == j && b == i)) ==> #[trigger] final(self).spec_ssd(a, b) == old(
                    self,
                ).spec_ssd(a, b),
    {
        let lo = if i <= j {
            i
        } else {
            j
        };
        let hi = if i <= j {
            j
        } else {
            i
        };
        let idx = self.flat_idx(lo, hi);
        self.ssd_upper.set(idx, val);
        proof {
            let d = self.dim as int;
            assert forall|a: int, b: int|
                0 <= a < d && 0 <= b < d && !((a == i && b == j) || (a == j && b == i)) implies
                #[trigger] self.spec_ssd(a, b) == old(self).spec_ssd(a, b) by {
                if a <= b {
                    lemma_tri_index_layout(d, a, b, lo as int, hi as int);
                } else {
                    lemma_tri_index_layout(d, b, a, lo as int, hi as int);
                }
            }
        }
    }
}

impl<F: Float> ClusterSummary<F> for VVV<F> {
    closed spec fn spec_size(&self) -> nat {
        self.size as nat
    }

    closed spec fn spec_dim(&self) -> nat {
        self.dim as nat
    }

    closed spec fn spec_centroid(&self) -> Seq<F> {
        self.centroid@
    }

    closed spec fn inv(&self) -> bool {
        &&& self.centroid@.len() == self.dim
        &&& self.ssd_upper@.len() == triangle_len(self.dim as nat)
        &&& self.dim * (self.dim + 1) <= usize::MAX
    }

    open spec fn spec_ssd_total(&self) -> F {
        sum_left(self.spec_diagonal(), self.spec_dim())
    }

    open spec fn spec_ssd_per_dim(&self) -> Option<Seq<F>> {
        None
    }

    open spec fn spec_ssd_upper(&self) -> Option<Seq<F>> {
        Some(self.spec_upper())
    }

    proof fn lemma_inv(&self) {
    }

    fn size(&self) -> (r: usize) {
        self.size
    }

    fn centroid(&self) -> (r: &[F]) {
        self.centroid.as_slice()
    }

    /// Trace of the cross-product matrix.
    fn ssd(&self) -> F {
        let mut total = F::zero();
        let mut i: usize = 0;
        while i < self.dim
            invariant
                self.inv(),
                i <= self.dim,
                total == sum_left(self.spec_diagonal(), i as nat),
            decreases self.dim - i,
        {
            total = total.plus(self.get_ssd(i, i));
            i = i + 1;
        }
        total
    }

    /// Not kept as such: the diagonal of the matrix holds them.
    fn ssd_per_dim(&self) -> (r: Option<&[F]>)
        ensures
            r is None,
    {
        None
    }

    fn ssd_upper(&self) -> (r: Option<&[F]>)
        ensures
            r matches Some(s) && s@ == self.spec_upper(),
    {
        Some(self.ssd_upper.as_slice())
    }
}

impl<F: Float> ClusterFeature<F> for VVV<F> {
    open spec fn dim_supported(dim: nat) -> bool {
        dim * (dim + 1) <= usize::MAX
    }

    open spec fn spec_fresh(&self, dim: nat) -> bool {
        &&& self.spec_dim() == dim
        &&& self.spec_size() == 0
        &&& self.spec_centroid() == zeros::<F>(dim)
        &&& self.spec_upper() == zeros::<F>(triangle_len(dim))
    }

    open spec fn spec_added(&self, old: Self, x: Seq<F>) -> bool {
        &&& self.spec_dim() == old.spec_dim()
        &&& self.spec_size() == old.spec_size() + 1
        &&& self.spec_upper().len() == old.spec_upper().len()
        &&& if old.spec_size() == 0 {
            &&& self.spec_centroid() == x.subrange(0, old.spec_dim() as int)
            &&& self.spec_upper() == old.spec_upper()
        } else {
            let n = F::spec_from_index(old.spec_size() as usize);
            let f = F::spec_one().spec_divided_by(n.spec_plus(F::spec_one()));
            let deltas = point_deltas(x, old.spec_centroid());
            &&& self.spec_centroid() == Seq::new(
                old.spec_dim(),
                |k: int| old.spec_centroid()[k].spec_plus(deltas[k].spec_times(f)),
            )
            &&& forall|a: int, b: int|
                0 <= a < old.spec_dim() && 0 <= b < old.spec_dim() ==> #[trigger] self.spec_ssd(a, b)
                    == cross_after_add(old.spec_ssd(a, b), deltas, a, b, F::spec_one().spec_minus(f))
        }
    }

    open spec fn spec_merged(
        &self,
        old: Self,
        size: nat,
        centroid: Seq<F>,
        ssd_total: F,
        per_dim: Option<Seq<F>>,
        upper: Option<Seq<F>>,
    ) -> bool {
        let d = old.spec_dim();
        &&& self.spec_dim() == old.spec_dim()
        &&& self.spec_size() == old.spec_size() + size
        &&& self.spec_upper().len() == old.spec_upper().len()
        &&& if old.spec_size() == 0 {
            &&& self.spec_centroid() == centroid
            &&& forall|a: int, b: int|
                0 <= a < d && 0 <= b < d ==> #[trigger] self.spec_ssd(a, b) == cross_after_fill_of(
                    old.spec_ssd(a, b),
                    upper,
                    per_dim,
                    ssd_total,
                    d,
                    a,
                    b,
                )
        } else if size == 0 {
            *self == old
        } else {
            let on = F::spec_from_index(size as usize);
            let factor = on.spec_divided_by(F::spec_from_index((old.spec_size() + size) as usize));
            let deltas = point_deltas(centroid, old.spec_centroid());
            &&& self.spec_centroid() == Seq::new(
                d,
                |k: int| old.spec_centroid()[k].spec_plus(deltas[k].spec_times(factor)),
            )
            &&& forall|a: int, b: int|
                0 <= a < d && 0 <= b < d ==> #[trigger] self.spec_ssd(a, b) == cross_after_merge_of(
                    old.spec_ssd(a, b),
                    upper,
                    per_dim,
                    ssd_total,
                    d,
                    deltas,
                    on,
                    F::spec_one().spec_minus(factor),
                    a,
                    b,
                )
        }
    }

    fn new(dim: usize) -> (r: Self) {
        proof {
            lemma_row_start_end(dim as int);
            assert(dim * (dim + 1) <= usize::MAX);
            assert(dim + 1 <= usize::MAX) by (nonlinear_arith)
                requires
                    dim * (dim + 1) <= usize::MAX,
            ;
        }
        let mut centroid: Vec<F> = Vec::new();
        while centroid.len() < dim
            invariant
                centroid@.len() <= dim,
                forall|j: int| 0 <= j < centroid@.len() ==> #[trigger] centroid@[j] == F::spec_zero(),
            decreases dim - centroid@.len(),
        {
            centroid.push(F::zero());
        }
        let len = dim * (dim + 1) / 2;
        let mut ssd_upper: Vec<F> = Vec::new();
        while ssd_upper.len() < len
            invariant
                ssd_upper@.len() <= len,
                forall|j: int| 0 <= j < ssd_upper@.len() ==> #[trigger] ssd_upper@[j] == F::spec_zero(),
            decreases len - ssd_upper@.len(),
        {
            ssd_upper.push(F::zero());
        }
        assert(centroid@ =~= zeros::<F>(dim as nat));
        assert(ssd_upper@ =~= zeros::<F>(triangle_len(dim as nat)));
        VVV { size: 0, centroid, ssd_upper, dim }
    }

    /// Everything back to zero.
    fn reset(&mut self)
        ensures
            final(self).spec_centroid() == Seq::new(old(self).spec_dim(), |i: int| F::spec_zero()),
            forall|a: int, b: int|
                0 <= a < old(self).spec_dim() && 0 <= b < old(self).spec_dim()
                    ==> #[trigger] final(self).spec_ssd(a, b) == F::spec_zero(),
    {
        self.size = 0;
        let ghost dim = self.dim;
        let mut i: usize = 0;
        while i < self.dim
            invariant
                self.inv(),
                self.dim == dim,
                self.size == 0,
                i <= self.dim,
                forall|j: int| 0 <= j < i ==> self.centroid@[j] == F::spec_zero(),
            decreases self.dim - i,
        {
            self.centroid.set(i, F::zero());
            i = i + 1;
        }
        let ghost c1 = self.centroid@;
        let mut k: usize = 0;
        while k < self.ssd_upper.len()
            invariant
                self.inv(),
                self.dim == dim,
                self.size == 0,
                k <= self.ssd_upper@.len(),
                self.centroid@ == c1,
                forall|t: int| 0 <= t < k ==> self.ssd_upper@[t] == F::spec_zero(),
            decreases self.ssd_upper@.len() - k,
        {
            self.ssd_upper.set(k, F::zero());
            k = k + 1;
        }
        assert(self.centroid@ =~= Seq::new(dim as nat, |i: int| F::spec_zero()));
        assert(self.ssd_upper@ =~= zeros::<F>(triangle_len(dim as nat)));
        assert forall|a: int, b: int| 0 <= a < dim && 0 <= b < dim implies #[trigger] self.spec_ssd(a, b)
            == F::spec_zero() by {
            if a <= b {
                lemma_tri_index_layout(dim as int, a, b, a, b);
            } else {
                lemma_tri_index_layout(dim as int, b, a, b, a);
            }
        }
    }

    open spec fn spec_variance(&self, d: int) -> F {
        if self.spec_size() == 0 {
            F::spec_zero()
        } else {
            clamp_nonneg(self.spec_ssd(d, d).spec_divided_by(F::spec_from_index(self.spec_size() as usize)))
        }
    }

    /// Variance along dimension `d`: the diagonal entry over the size;
    /// negative rounding results give zero.
    fn variance(&self, d: usize) -> F {
        if self.size == 0 {
            return F::zero();
        }
        let var = self.get_ssd(d, d).divided_by(F::from_index(self.size));
        if F::zero().le(&var) {
            var
        } else {
            F::zero()
        }
    }

    open spec fn variance_any_dim() -> bool {
        false
    }

    open spec fn spec_keeps_covariance(&self) -> bool {
        true
    }

    open spec fn spec_covariance(&self) -> Option<Seq<Seq<F>>> {
        Some(
            Seq::new(
                self.spec_dim(),
                |a: int|
                    Seq::new(
                        self.spec_dim(),
                        |b: int|
                            if self.spec_size() == 0 {
                                F::spec_zero()
                            } else {
                                self.spec_ssd(a, b).spec_times(
                                    F::spec_one().spec_divided_by(
                                        F::spec_from_index(self.spec_size() as usize),
                                    ),
                                )
                            },
                    ),
            ),
        )
    }

    /// The covariance matrix: every cross-product sum over the size.
    fn covariance(&self) -> (r: Option<Vec<Vec<F>>>)
        ensures
            r matches Some(m) && m@.len() == self.spec_dim() && forall|k: int|
                0 <= k < m@.len() ==> (#[trigger] m@[k])@.len() == self.spec_dim(),
            r matches Some(m) && forall|a: int, b: int|
                0 <= a < self.spec_dim() && 0 <= b < self.spec_dim() ==> #[trigger] m@[a]@[b] == if self.spec_size()
                    == 0 {
                    F::spec_zero()
                } else {
                    self.spec_ssd(a, b).spec_times(
                        F::spec_one().spec_divided_by(F::spec_from_index(self.spec_size() as usize)),
                    )
                },
    {
        if self.size == 0 {
            let mut zeros: Vec<Vec<F>> = Vec::new();
            let mut i: usize = 0;
            while i < self.dim
                invariant
                    i <= self.dim,
                    zeros@.len() == i,
                    forall|k: int| 0 <= k < i ==> (#[trigger] zeros@[k])@.len() == self.dim,
                    forall|a: int, b: int| 0 <= a < i && 0 <= b < self.dim ==> #[trigger] zeros@[a]@[b] == F::spec_zero(),
                decreases self.dim - i,
            {
                let mut row: Vec<F> = Vec::new();
                while row.len() < self.dim
                    invariant
                        row@.len() <= self.dim,
                        forall|b: int| 0 <= b < row@.len() ==> #[trigger] row@[b] == F::spec_zero(),
                    decreases self.dim - row@.len(),
                {
                    row.push(F::zero());
                }
                zeros.push(row);
                i = i + 1;
            }
            proof {
                assert(matrix_view(Some(zeros)) =~= self.spec_covariance()) by {
                    let v = zeros@.map_values(|row: Vec<F>| row@);
                    let w = self.spec_covariance().unwrap();
                    assert forall|a: int| 0 <= a < v.len() implies v[a] =~= w[a] by {}
                    assert(v =~= w);
                }
            }
            return Some(zeros);
        }
        let f = F::one().divided_by(F::from_index(self.size));
        let mut cov: Vec<Vec<F>> = Vec::new();
        let mut i: usize = 0;
        while i < self.dim
            invariant
                self.inv(),
                i <= self.dim,
                cov@.len() == i,
                forall|k: int| 0 <= k < i ==> (#[trigger] cov@[k])@.len() == self.dim,
                f == F::spec_one().spec_divided_by(F::spec_from_index(self.size)),
                forall|a: int, b: int|
                    0 <= a < i && 0 <= b < self.dim ==> #[trigger] cov@[a]@[b] == self.spec_ssd(a, b).spec_times(f),
            decreases self.dim - i,
        {
            let mut row: Vec<F> = Vec::new();
            let mut j: usize = 0;
            while j < self.dim
                invariant
                    self.inv(),
                    i < self.dim,
                    j <= self.dim,
                    row@.len() == j,
                    forall|b: int| 0 <= b < j ==> #[trigger] row@[b] == self.spec_ssd(i as int, b).spec_times(f),
                decreases self.dim - j,
            {
                row.push(self.get_ssd(i, j).times(f));
                j = j + 1;
            }
            cov.push(row);
            i = i + 1;
        }
        proof {
            let v = cov@.map_values(|row: Vec<F>| row@);
            let w = self.spec_covariance().unwrap();
            assert forall|a: int| 0 <= a < v.len() implies v[a] =~= w[a] by {}
            assert(v =~= w);
        }
        Some(cov)
    }

    /// Welford's update of the full matrix: with `f = 1/(n + 1)`, `n` the
    /// old size, and `δ = x - c`, the centroid moves by `δ f` and the entry
    /// `(i, j)`, `i >= j`, grows by `δi δj (1 - f)`.
    fn add(&mut self, x: &[F])
        ensures
            old(self).spec_size() > 0 ==> {
                let n = F::spec_from_index(old(self).spec_size() as usize);
                let f = F::spec_one().spec_divided_by(n.spec_plus(F::spec_one()));
                let deltas = point_deltas(x@, old(self).spec_centroid());
                &&& final(self).spec_centroid() == Seq::new(
                    old(self).spec_dim(),
                    |k: int| old(self).spec_centroid()[k].spec_plus(deltas[k].spec_times(f)),
                )
                &&& forall|a: int, b: int|
                    0 <= a < old(self).spec_dim() && 0 <= b < old(self).spec_dim()
                        ==> #[trigger] final(self).spec_ssd(a, b) == cross_after_add(
                        old(self).spec_ssd(a, b),
                        deltas,
                        a,
                        b,
                        F::spec_one().spec_minus(f),
                    )
            },
    {
        let ghost dim = self.dim;
        let ghost s0 = *self;
        if self.size == 0 {
            // The cross products of an empty feature are all zero already.
            let mut i: usize = 0;
            while i < self.dim
                invariant
                    self.ssd_upper == s0.ssd_upper,
                    self.inv(),
                    self.dim == dim,
                    self.size == 0,
                    self.dim <= x@.len(),
                    i <= self.dim,
                    forall|j: int| 0 <= j < i ==> self.centroid@[j] == x@[j],
                decreases self.dim - i,
            {
                self.centroid.set(i, x[i]);
                i = i + 1;
            }
            assert(self.centroid@ =~= x@.subrange(0, self.dim as int));
            self.size = 1;
            return;
        }
        let d = self.dim;
        let n = F::from_index(self.size);
        let f = F::one().divided_by(n.plus(F::one()));
        let ghost dl = point_deltas(x@, s0.centroid@);
        let mut deltas: Vec<F> = Vec::new();
        let mut k: usize = 0;
        while k < d
            invariant
                self.inv(),
                self.dim == d,
                d <= x@.len(),
                k <= d,
                deltas@.len() == k,
                *self == s0,
                dl == point_deltas(x@, s0.centroid@),
                forall|t: int| 0 <= t < k ==> deltas@[t] == dl[t],
            decreases d - k,
        {
            deltas.push(x[k].minus(self.centroid[k]));
            k = k + 1;
        }
        assert(deltas@ =~= dl);
        // Welford update: ssd[i][j] += delta[i] * delta[j] * (1 - f)
        let one_minus_f = F::one().minus(f);
        let ghost size = self.size;
        let mut i: usize = 0;
        while i < d
            invariant
                self.inv(),
                self.dim == d,
                self.size == size,
                deltas@ == dl,
                deltas@.len() == d,
                i <= d,
                self.centroid == s0.centroid,
                s0.dim == d,
                forall|a: int, b: int|
                    0 <= a < d && 0 <= b < d ==> #[trigger] self.spec_ssd(a, b) == if a < i && b < i {
                        cross_after_add(s0.spec_ssd(a, b), dl, a, b, one_minus_f)
                    } else {
                        s0.spec_ssd(a, b)
                    },
            decreases d - i,
        {
            let delta_i = deltas[i];
            let mut j: usize = 0;
            while j <= i
                invariant
                    self.inv(),
                    self.dim == d,
                    self.size == size,
                    deltas@ == dl,
                    deltas@.len() == d,
                    delta_i == dl[i as int],
                    i < d,
                    j <= i + 1,
                    self.centroid == s0.centroid,
                    s0.dim == d,
                    forall|a: int, b: int|
                        0 <= a < d && 0 <= b < d ==> #[trigger] self.spec_ssd(a, b) == if (a < i
                            && b < i) || (a == i && b < j) || (b == i && a < j) {
                            cross_after_add(s0.spec_ssd(a, b), dl, a, b, one_minus_f)
                        } else {
                            s0.spec_ssd(a, b)
                        },
                decreases i + 1 - j,
            {
                let delta_j = deltas[j];
                let val = self.get_ssd(i, j).plus(delta_i.times(delta_j).times(one_minus_f));
                let ghost before = *self;
                self.set_ssd(i, j, val);
                proof {
                    assert forall|a: int, b: int|
                        0 <= a < d && 0 <= b < d implies #[trigger] self.spec_ssd(a, b) == if (a
                            < i && b < i) || (a == i && b < j + 1) || (b == i && a < j + 1) {
                            cross_after_add(s0.spec_ssd(a, b), dl, a, b, one_minus_f)
                        } else {
                            s0.spec_ssd(a, b)
                        } by {
                        if (a == i && b == j) || (a == j && b == i) {
                            self.lemma_ssd_symmetric(a, b);
                            s0.lemma_ssd_symmetric(a, b);
                            assert(before.spec_ssd(i as int, j as int) == s0.spec_ssd(i as int, j as int));
                        } else {
                            assert(self.spec_ssd(a, b) == before.spec_ssd(a, b));
                        }
                    }
                }
                j = j + 1;
            }
            i = i + 1;
        }
        let ghost u1 = self.ssd_upper@;
        let ghost s1 = *self;
        let mut c: usize = 0;
        while c < d
            invariant
                self.inv(),
                self.dim == d,
                self.size == size,
                deltas@.len() == d,
                deltas@ == dl,
                c <= d,
                self.ssd_upper@ == u1,
                s0.centroid@.len() == d,
                forall|t: int| 0 <= t < c ==> self.centroid@[t] == s0.centroid@[t].spec_plus(dl[t].spec_times(f)),
                forall|t: int| c <= t < d ==> self.centroid@[t] == s0.centroid@[t],
            decreases d - c,
        {
            let v = self.centroid[c];
            self.centroid.set(c, v.plus(deltas[c].times(f)));
            c = c + 1;
        }
        assert(self.centroid@ =~= Seq::new(
            d as nat,
            |k: int| s0.centroid@[k].spec_plus(dl[k].spec_times(f)),
        ));
        self.size = self.size + 1;
        assert forall|a: int, b: int| 0 <= a < d && 0 <= b < d implies #[trigger] self.spec_ssd(a, b)
            == cross_after_add(s0.spec_ssd(a, b), dl, a, b, one_minus_f) by {
            assert(self.spec_ssd(a, b) == s1.spec_ssd(a, b));
            assert(s1.spec_ssd(a, b) == cross_after_add(s0.spec_ssd(a, b), dl, a, b, one_minus_f));
        }
    }

    /// Merging an empty feature into a non-empty one changes nothing.
    ///
    /// Into an empty feature the other is copied: its centroid, and its
    /// matrix, or else its per-dimension share on the diagonal. Otherwise,
    /// with `factor = m/(n+m)` and `δ = oc - c`, the centroid moves by
    /// `δ factor` and the entry `(i, j)` grows by the other's contribution and
    /// `m δi δj (1 - factor)`.
    fn add_cf<CF: ClusterSummary<F>>(&mut self, other: &CF)
        ensures
            old(self).spec_size() > 0 && other.spec_size() == 0 ==> *final(self) == *old(self),
            old(self).spec_size() == 0 ==> forall|a: int, b: int|
                0 <= a < old(self).spec_dim() && 0 <= b < old(self).spec_dim()
                    ==> #[trigger] final(self).spec_ssd(a, b) == cross_after_fill(
                    old(self).spec_ssd(a, b),
                    *other,
                    old(self).spec_dim(),
                    a,
                    b,
                ),
            old(self).spec_size() > 0 && other.spec_size() > 0 ==> {
                let on = F::spec_from_index(other.spec_size() as usize);
                let factor = on.spec_divided_by(
                    F::spec_from_index((old(self).spec_size() + other.spec_size()) as usize),
                );
                let deltas = point_deltas(other.spec_centroid(), old(self).spec_centroid());
                &&& final(self).spec_centroid() == Seq::new(
                    old(self).spec_dim(),
                    |k: int| old(self).spec_centroid()[k].spec_plus(deltas[k].spec_times(factor)),
                )
                &&& forall|a: int, b: int|
                    0 <= a < old(self).spec_dim() && 0 <= b < old(self).spec_dim()
                        ==> #[trigger] final(self).spec_ssd(a, b) == cross_after_merge(
                        old(self).spec_ssd(a, b),
                        *other,
                        old(self).spec_dim(),
                        deltas,
                        on,
                        F::spec_one().spec_minus(factor),
                        a,
                        b,
                    )
            },
    {
        let oc = other.centroid();
        let other_mat = other.ssd_upper();
        let other_per_dim = other.ssd_per_dim();
        let ghost dim = self.dim;
        let ghost s0 = *self;
        if self.size == 0 {
            let mut i: usize = 0;
            while i < self.dim
                invariant
                    self.inv(),
                    self.dim == dim,
                    self.size == 0,
                    oc@.len() == self.dim,
                    i <= self.dim,
                    forall|j: int| 0 <= j < i ==> self.centroid@[j] == oc@[j],
                    self.ssd_upper == s0.ssd_upper,
                decreases self.dim - i,
            {
                self.centroid.set(i, oc[i]);
                i = i + 1;
            }
            assert(self.centroid@ =~= oc@);
            self.size = other.size();
            let ghost size = self.size;
            match other_mat {
                Some(mat) => {
                    let mut i: usize = 0;
                    while i < self.dim
                        invariant
                            self.inv(),
                            self.dim == dim,
                            self.size == size,
                            self.centroid@ == oc@,
                            mat@.len() == triangle_len(dim as nat),
                            i <= self.dim,
                            s0.dim == dim,
                            other.spec_ssd_upper() == Some(mat@),
                            forall|a: int, b: int|
                                0 <= a < dim && 0 <= b < dim ==> #[trigger] self.spec_ssd(a, b) == if a
                                    < i && b < i {
                                    cross_after_fill(s0.spec_ssd(a, b), *other, dim as nat, a, b)
                                } else {
                                    s0.spec_ssd(a, b)
                                },
                        decreases self.dim - i,
                    {
                        let mut j: usize = 0;
                        while j <= i
                            invariant
                                self.inv(),
                                self.dim == dim,
                                self.size == size,
                                self.centroid@ == oc@,
                                mat@.len() == triangle_len(dim as nat),
                                i < self.dim,
                                j <= i + 1,
                                s0.dim == dim,
                                other.spec_ssd_upper() == Some(mat@),
                                forall|a: int, b: int|
                                    0 <= a < dim && 0 <= b < dim ==> #[trigger] self.spec_ssd(a, b)
                                        == if (a < i && b < i) || (a == i && b < j) || (b == i && a < j) {
                                        cross_after_fill(s0.spec_ssd(a, b), *other, dim as nat, a, b)
                                    } else {
                                        s0.spec_ssd(a, b)
                                    },
                            decreases i + 1 - j,
                        {
                            let other_idx = self.flat_idx(j, i);
                            let ghost before = *self;
                            self.set_ssd(i, j, mat[other_idx]);
                            proof {
                                assert forall|a: int, b: int|
                                    0 <= a < dim && 0 <= b < dim implies #[trigger] self.spec_ssd(a, b)
                                        == if (a < i && b < i) || (a == i && b < j + 1) || (b == i && a
                                        < j + 1) {
                                        cross_after_fill(s0.spec_ssd(a, b), *other, dim as nat, a, b)
                                    } else {
                                        s0.spec_ssd(a, b)
                                    } by {
                                    if (a == i && b == j) || (a == j && b == i) {
                                        self.lemma_ssd_symmetric(a, b);
                                    } else {
                                        assert(self.spec_ssd(a, b) == before.spec_ssd(a, b));
                                    }
                                }
                            }
                            j = j + 1;
                        }
                        i = i + 1;
                    }
                },
                None => {
                    match other_per_dim {
                        Some(per_dim) => {
                            let mut i: usize = 0;
                            while i < self.dim
                                invariant
                                    self.inv(),
                                    self.dim == dim,
                                    self.size == size,
                                    self.centroid@ == oc@,
                                    per_dim@.len() == dim,
                                    i <= self.dim,
                                    s0.dim == dim,
                                    other.spec_ssd_upper() is None,
                                    other.spec_ssd_per_dim() == Some(per_dim@),
                                    forall|a: int, b: int|
                                        0 <= a < dim && 0 <= b < dim ==> #[trigger] self.spec_ssd(a, b)
                                            == if a == b && a < i {
                                            cross_after_fill(s0.spec_ssd(a, b), *other, dim as nat, a, b)
                                        } else {
                                            s0.spec_ssd(a, b)
                                        },
                                decreases self.dim - i,
                            {
                                let ghost before = *self;
                                self.set_ssd(i, i, per_dim[i]);
                                proof {
                                    assert forall|a: int, b: int|
                                        0 <= a < dim && 0 <= b < dim implies #[trigger] self.spec_ssd(a, b)
                                            == if a == b && a < i + 1 {
                                            cross_after_fill(s0.spec_ssd(a, b), *other, dim as nat, a, b)
                                        } else {
                                            s0.spec_ssd(a, b)
                                        } by {
                                        if !(a == i && b == i) {
                                            assert(self.spec_ssd(a, b) == before.spec_ssd(a, b));
                                        }
                                    }
                                }
                                i = i + 1;
                            }
                        },
                        None => {
                            // Only a scalar sum is known: spread it evenly over the diagonal.
                            let per_dim = other.ssd().divided_by(F::from_index(self.dim));
                            let mut i: usize = 0;
                            while i < self.dim
                                invariant
                                    self.inv(),
                                    self.dim == dim,
                                    self.size == size,
                                    self.centroid@ == oc@,
                                    i <= self.dim,
                                    s0.dim == dim,
                                    other.spec_ssd_upper() is None,
                                    other.spec_ssd_per_dim() is None,
                                    per_dim == other.spec_ssd_total().spec_divided_by(
                                        F::spec_from_index(dim),
                                    ),
                                    forall|a: int, b: int|
                                        0 <= a < dim && 0 <= b < dim ==> #[trigger] self.spec_ssd(a, b)
                                            == if a == b && a < i {
                                            cross_after_fill(s0.spec_ssd(a, b), *other, dim as nat, a, b)
                                        } else {
                                            s0.spec_ssd(a, b)
                                        },
                                decreases self.dim - i,
                            {
                                let ghost before = *self;
                                self.set_ssd(i, i, per_dim);
                                proof {
                                    assert forall|a: int, b: int|
                                        0 <= a < dim && 0 <= b < dim implies #[trigger] self.spec_ssd(a, b)
                                            == if a == b && a < i + 1 {
                                            cross_after_fill(s0.spec_ssd(a, b), *other, dim as nat, a, b)
                                        } else {
                                            s0.spec_ssd(a, b)
                                        } by {
                                        if !(a == i && b == i) {
                                            assert(self.spec_ssd(a, b) == before.spec_ssd(a, b));
                                        }
                                    }
                                }
                                i = i + 1;
                            }
                        },
                    }
                },
            }
            return;
        }
        if other.size() == 0 {
            return;
        }
        let d = self.dim;
        let other_n = F::from_index(other.size());
        self.size = self.size + other.size();
        let combined_n = F::from_index(self.size);
        let factor = other_n.divided_by(combined_n);
        let ghost dl = point_deltas(oc@, s0.centroid@);
        let mut deltas: Vec<F> = Vec::new();
        let mut k: usize = 0;
        while k < d
            invariant
                self.inv(),
                self.dim == d,
                oc@.len() == d,
                k <= d,
                deltas@.len() == k,
                self.centroid == s0.centroid,
                self.ssd_upper == s0.ssd_upper,
                dl == point_deltas(oc@, s0.centroid@),
                forall|t: int| 0 <= t < k ==> deltas@[t] == dl[t],
            decreases d - k,
        {
            deltas.push(oc[k].minus(self.centroid[k]));
            k = k + 1;
        }
        assert(deltas@ =~= dl);
        let one_minus_factor = F::one().minus(factor);
        let ghost size = self.size;
        // Parallel update:
        // ssd[i][j] += other[i][j] + other_n * delta[i] * delta[j] * (1 - factor)
        let mut i: usize = 0;
        while i < d
            invariant
                self.inv(),
                self.dim == d,
                self.size == size,
                deltas@.len() == d,
                other.inv(),
                other.spec_dim() == d,
                other_mat matches Some(m) ==> m@.len() == triangle_len(d as nat),
                other_per_dim matches Some(p) ==> p@.len() == d,
                i <= d,
                deltas@ == dl,
                self.centroid == s0.centroid,
                s0.dim == d,
                (match other_mat {
                    Some(m) => Some(m@),
                    None => None,
                }) == other.spec_ssd_upper(),
                (match other_per_dim {
                    Some(p) => Some(p@),
                    None => None,
                }) == other.spec_ssd_per_dim(),
                forall|a: int, b: int|
                    0 <= a < d && 0 <= b < d ==> #[trigger] self.spec_ssd(a, b) == if a < i && b < i {
                        cross_after_merge(s0.spec_ssd(a, b), *other, d as nat, dl, other_n, one_minus_factor, a, b)
                    } else {
                        s0.spec_ssd(a, b)
                    },
            decreases d - i,
        {
            let delta_i = deltas[i];
            let mut j: usize = 0;
            while j <= i
                invariant
                    self.inv(),
                    self.dim == d,
                    self.size == size,
                    deltas@.len() == d,
                    other.inv(),
                    other.spec_dim() == d,
                    other_mat matches Some(m) ==> m@.len() == triangle_len(d as nat),
                    other_per_dim matches Some(p) ==> p@.len() == d,
                    i < d,
                    j <= i + 1,
                    deltas@ == dl,
                    delta_i == dl[i as int],
                    self.centroid == s0.centroid,
                    s0.dim == d,
                    (match other_mat {
                        Some(m) => Some(m@),
                        None => None,
                    }) == other.spec_ssd_upper(),
                    (match other_per_dim {
                        Some(p) => Some(p@),
                        None => None,
                    }) == other.spec_ssd_per_dim(),
                    forall|a: int, b: int|
                        0 <= a < d && 0 <= b < d ==> #[trigger] self.spec_ssd(a, b) == if (a < i && b
                            < i) || (a == i && b < j) || (b == i && a < j) {
                            cross_after_merge(s0.spec_ssd(a, b), *other, d as nat, dl, other_n, one_minus_factor, a, b)
                        } else {
                            s0.spec_ssd(a, b)
                        },
                decreases i + 1 - j,
            {
                let delta_j = deltas[j];
                let other_val = match other_mat {
                    Some(mat) => mat[self.flat_idx(j, i)],
                    None => {
                        if i == j {
                            match other_per_dim {
                                Some(per_dim) => per_dim[i],
                                None => other.ssd().divided_by(F::from_index(self.dim)),
                            }
                        } else {
                            F::zero()
                        }
                    },
                };
                proof {
                    assert(other_val == other_cross(*other, d as nat, i as int, j as int));
                }
                let val = self.get_ssd(i, j).plus(other_val).plus(
                    other_n.times(delta_i).times(delta_j).times(one_minus_factor),
                );
                let ghost before = *self;
                self.set_ssd(i, j, val);
                proof {
                    assert forall|a: int, b: int|
                        0 <= a < d && 0 <= b < d implies #[trigger] self.spec_ssd(a, b) == if (a < i
                            && b < i) || (a == i && b < j + 1) || (b == i && a < j + 1) {
                            cross_after_merge(s0.spec_ssd(a, b), *other, d as nat, dl, other_n, one_minus_factor, a, b)
                        } else {
                            s0.spec_ssd(a, b)
                        } by {
                        if (a == i && b == j) || (a == j && b == i) {
                            self.lemma_ssd_symmetric(a, b);
                            s0.lemma_ssd_symmetric(a, b);
                            assert(before.spec_ssd(i as int, j as int) == s0.spec_ssd(i as int, j as int));
                        } else {
                            assert(self.spec_ssd(a, b) == before.spec_ssd(a, b));
                        }
                    }
                }
                j = j + 1;
            }
            i = i + 1;
        }
        let ghost s1 = *self;
        let mut c: usize = 0;
        while c < d
            invariant
                self.inv(),
                self.dim == d,
                self.size == size,
                deltas@.len() == d,
                c <= d,
                deltas@ == dl,
                self.ssd_upper == s1.ssd_upper,
                s0.centroid@.len() == d,
                forall|t: int| 0 <= t < c ==> self.centroid@[t] == s0.centroid@[t].spec_plus(dl[t].spec_times(factor)),
                forall|t: int| c <= t < d ==> self.centroid@[t] == s0.centroid@[t],
            decreases d - c,
        {
            let v = self.centroid[c];
            self.centroid.set(c, v.plus(deltas[c].times(factor)));
            c = c + 1;
        }
        assert(self.centroid@ =~= Seq::new(
            d as nat,
            |k: int| s0.centroid@[k].spec_plus(dl[k].spec_times(factor)),
        ));
        assert forall|a: int, b: int| 0 <= a < d && 0 <= b < d implies #[trigger] self.spec_ssd(a, b)
            == cross_after_merge(s0.spec_ssd(a, b), *other, d as nat, dl, other_n, one_minus_factor, a, b) by {
            assert(self.spec_ssd(a, b) == s1.spec_ssd(a, b));
        }
    }
}

} // verus!
