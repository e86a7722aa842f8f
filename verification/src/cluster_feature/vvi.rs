//! The VVI cluster feature: centroid and one sum of squared deviations per
//! dimension.

use super::{
    add_weight, centroid_after_add, centroid_after_merge, clamp_nonneg, per_dim_after_add,
    per_dim_after_merge, per_dim_share, share_of, sum_left, zeros, ClusterFeature, ClusterSummary,
};
use crate::types::Float;
use vstd::prelude::*;

verus! {

/// VVI cluster feature.
///
/// Stores the sum of squared deviations of each dimension, so that the
/// variance along dimension `d` is `ssd[d] / n`.
#[derive(Clone)]
pub struct VVI<F> {
    size: usize,
    centroid: Vec<F>,
    ssd: Vec<F>,
    dim: usize,
}

impl<F: Float> VVI<F> {
    /// The stored per-dimension sums of squared deviations.
    pub closed spec fn spec_ssd(&self) -> Seq<F> {
        self.ssd@
    }
}

impl<F: Float> ClusterSummary<F> for VVI<F> {
    closed spec fn spec_size(&self) -> nat {
        self.size as nat
    }

    closed spec fn spec_dim(&self) -> nat {
        self.dim as nat
    }

    closed spec fn spec_centroid(&self) -> Seq<F> {
        self.centroid@
    }

    closed spec fn inv(&self) -> bool {
        &&& self.centroid@.len() == self.dim
        &&& self.ssd@.len() == self.dim
    }

    open spec fn spec_ssd_total(&self) -> F {
        sum_left(self.spec_ssd(), self.spec_ssd().len())
    }

    open spec fn spec_ssd_per_dim(&self) -> Option<Seq<F>> {
        Some(self.spec_ssd())
    }

    open spec fn spec_ssd_upper(&self) -> Option<Seq<F>> {
        None
    }

    proof fn lemma_inv(&self) {
    }

    fn size(&self) -> (r: usize) {
        self.size
    }

    fn centroid(&self) -> (r: &[F]) {
        self.centroid.as_slice()
    }

    /// Sum of the per-dimension sums.
    fn ssd(&self) -> F {
        let mut total = F::zero();
        let mut i: usize = 0;
        while i < self.ssd.len()
            invariant
                i <= self.ssd@.len(),
                total == sum_left(self.ssd@, i as nat),
            decreases self.ssd@.len() - i,
        {
            total = total.plus(self.ssd[i]);
            i = i + 1;
        }
        total
    }

    fn ssd_per_dim(&self) -> (r: Option<&[F]>)
        ensures
            r matches Some(s) && s@ == self.spec_ssd(),
    {
        Some(self.ssd.as_slice())
    }

    /// Not kept: no cross products are stored.
    fn ssd_upper(&self) -> (r: Option<&[F]>)
        ensures
            r is None,
    {
        None
    }
}

impl<F: Float> ClusterFeature<F> for VVI<F> {
    open spec fn dim_supported(dim: nat) -> bool {
        true
    }

    open spec fn spec_fresh(&self, dim: nat) -> bool {
        &&& self.spec_dim() == dim
        &&& self.spec_size() == 0
        &&& self.spec_centroid() == zeros::<F>(dim)
        &&& self.spec_ssd() == zeros::<F>(dim)
    }

    open spec fn spec_added(&self, old: Self, x: Seq<F>) -> bool {
        &&& self.spec_dim() == old.spec_dim()
        &&& self.spec_size() == old.spec_size() + 1
        &&& if old.spec_size() == 0 {
            &&& self.spec_centroid() == x.subrange(0, old.spec_dim() as int)
            &&& self.spec_ssd() == zeros::<F>(old.spec_dim())
        } else {
            let n = F::spec_from_index((old.spec_size() + 1) as usize);
            &&& self.spec_centroid() == centroid_after_add(old.spec_centroid(), x, n)
            &&& self.spec_ssd() == per_dim_after_add(old.spec_ssd(), old.spec_centroid(), x, add_weight(n))
        }
    }

    open spec fn spec_merged(
        &self,
        old: Self,
        size: nat,
        centroid: Seq<F>,
        ssd_total: F,
        per_dim: Option<Seq<F>>,
        upper: Option<Seq<F>>,
    ) -> bool {
        let share = share_of(per_dim, ssd_total, old.spec_dim());
        &&& self.spec_dim() == old.spec_dim()
        &&& self.spec_size() == old.spec_size() + size
        &&& if old.spec_size() == 0 {
            &&& self.spec_centroid() == centroid
            &&& self.spec_ssd() == share
        } else {
            let on = F::spec_from_index(size as usize);
            let factor = on.spec_divided_by(F::spec_from_index((old.spec_size() + size) as usize));
            &&& self.spec_centroid() == centroid_after_merge(old.spec_centroid(), centroid, factor)
            &&& self.spec_ssd() == per_dim_after_merge(
                old.spec_ssd(),
                old.spec_centroid(),
                centroid,
                share,
                on.spec_times(F::spec_one().spec_minus(factor)),
            )
        }
    }

    fn new(dim: usize) -> (r: Self) {
        let mut centroid: Vec<F> = Vec::new();
        let mut ssd: Vec<F> = Vec::new();
        while centroid.len() < dim
            invariant
                centroid@.len() <= dim,
                ssd@.len() == centroid@.len(),
                forall|j: int| 0 <= j < centroid@.len() ==> #[trigger] centroid@[j] == F::spec_zero(),
                forall|j: int| 0 <= j < ssd@.len() ==> #[trigger] ssd@[j] == F::spec_zero(),
            decreases dim - centroid@.len(),
        {
            centroid.push(F::zero());
            ssd.push(F::zero());
        }
        assert(centroid@ =~= zeros::<F>(dim as nat));
        assert(ssd@ =~= zeros::<F>(dim as nat));
        VVI { size: 0, centroid, ssd, dim }
    }

    /// Everything back to zero.
    fn reset(&mut self)
        ensures
            final(self).spec_centroid() == Seq::new(old(self).spec_dim(), |i: int| F::spec_zero()),
            final(self).spec_ssd() == Seq::new(old(self).spec_dim(), |i: int| F::spec_zero()),
    {
        self.size = 0;
        let ghost dim = self.dim;
        let mut i: usize = 0;
        while i < self.dim
            invariant
                self.centroid@.len() == self.dim,
                self.ssd@.len() == self.dim,
                self.dim == dim,
                self.size == 0,
                i <= self.dim,
                forall|j: int| 0 <= j < i ==> self.centroid@[j] == F::spec_zero() && self.ssd@[j] == F::spec_zero(),
            decreases self.dim - i,
        {
            self.centroid.set(i, F::zero());
            self.ssd.set(i, F::zero());
            i = i + 1;
        }
        assert(self.centroid@ =~= Seq::new(dim as nat, |i: int| F::spec_zero()));
        assert(self.ssd@ =~= Seq::new(dim as nat, |i: int| F::spec_zero()));
    }

    open spec fn spec_variance(&self, d: int) -> F {
        if self.spec_size() == 0 {
            F::spec_zero()
        } else {
            clamp_nonneg(self.spec_ssd()[d].spec_divided_by(F::spec_from_index(self.spec_size() as usize)))
        }
    }

    /// Exact variance along dimension `d`; negative rounding results give zero.
    fn variance(&self, d: usize) -> F {
        if self.size == 0 {
            return F::zero();
        }
        let var = self.ssd[d].divided_by(F::from_index(self.size));
        if F::zero().le(&var) {
            var
        } else {
            F::zero()
        }
    }

    open spec fn variance_any_dim() -> bool {
        false
    }

    open spec fn spec_keeps_covariance(&self) -> bool {
        false
    }

    open spec fn spec_covariance(&self) -> Option<Seq<Seq<F>>> {
        None
    }

    /// Not available: no cross products are stored.
    fn covariance(&self) -> (r: Option<Vec<Vec<F>>>)
        ensures
            r is None,
    {
        None
    }

    /// Welford's update per dimension: the centroid moves by `(x - c)/n` and
    /// each sum grows by `(x - c)² (1 - 1/n)`, `n` the new size.
    fn add(&mut self, x: &[F])
        ensures
            old(self).spec_size() == 0 ==> final(self).spec_ssd() == Seq::new(
                old(self).spec_dim(),
                |i: int| F::spec_zero(),
            ),
            old(self).spec_size() > 0 ==> {
                let n = F::spec_from_index((old(self).spec_size() + 1) as usize);
                &&& final(self).spec_centroid() == centroid_after_add(old(self).spec_centroid(), x@, n)
                &&& final(self).spec_ssd() == per_dim_after_add(
                    old(self).spec_ssd(),
                    old(self).spec_centroid(),
                    x@,
                    add_weight(n),
                )
            },
    {
        let ghost dim = self.dim;
        let ghost c0 = self.centroid@;
        let ghost s0 = self.ssd@;
        if self.size == 0 {
            let mut i: usize = 0;
            while i < self.dim
                invariant
                    self.centroid@.len() == self.dim,
                    self.ssd@.len() == self.dim,
                    self.dim == dim,
                    self.size == 0,
                    self.dim <= x@.len(),
                    i <= self.dim,
                    forall|j: int| 0 <= j < i ==> self.centroid@[j] == x@[j],
                decreases self.dim - i,
            {
                self.centroid.set(i, x[i]);
                i = i + 1;
            }
            assert(self.centroid@ =~= x@.subrange(0, self.dim as int));
            let mut k: usize = 0;
            while k < self.dim
                invariant
                    self.centroid@ =~= x@.subrange(0, dim as int),
                    self.ssd@.len() == self.dim,
                    self.dim == dim,
                    self.size == 0,
                    k <= self.dim,
                    forall|j: int| 0 <= j < k ==> self.ssd@[j] == F::spec_zero(),
                decreases self.dim - k,
            {
                self.ssd.set(k, F::zero());
                k = k + 1;
            }
            assert(self.ssd@ =~= Seq::new(dim as nat, |i: int| F::spec_zero()));
            self.size = 1;
        } else {
            self.size = self.size + 1;
            let n = F::from_index(self.size);
            // Welford update: ssd[i] += delta^2 * (1 - 1/n)
            let one_minus_inv_n = F::one().minus(F::one().divided_by(n));
            let ghost size = self.size;
            let mut i: usize = 0;
            while i < self.dim
                invariant
                    self.centroid@.len() == self.dim,
                    self.ssd@.len() == self.dim,
                    self.dim == dim,
                    self.size == size,
                    self.dim <= x@.len(),
                    i <= self.dim,
                    c0.len() == dim,
                    s0.len() == dim,
                    n == F::spec_from_index(size),
                    one_minus_inv_n == add_weight(n),
                    forall|j: int| 0 <= j < i ==> self.centroid@[j] == centroid_after_add(c0, x@, n)[j],
                    forall|j: int| i <= j < dim ==> self.centroid@[j] == c0[j],
                    forall|j: int| 0 <= j < i ==> self.ssd@[j] == per_dim_after_add(s0, c0, x@, one_minus_inv_n)[j],
                    forall|j: int| i <= j < dim ==> self.ssd@[j] == s0[j],
                decreases self.dim - i,
            {
                let c = self.centroid[i];
                let delta = x[i].minus(c);
                let s = self.ssd[i];
                self.ssd.set(i, s.plus(delta.times(delta).times(one_minus_inv_n)));
                self.centroid.set(i, c.plus(delta.divided_by(n)));
                i = i + 1;
            }
            assert(self.centroid@ =~= centroid_after_add(c0, x@, n));
            assert(self.ssd@ =~= per_dim_after_add(s0, c0, x@, one_minus_inv_n));
        }
    }

    /// The parallel update per dimension: the centroid moves by
    /// `factor = m/(n+m)` of the way to the other centroid, and each sum
    /// grows by the other's share plus `m (1 - factor) (oc - c)²`. The other's
    /// share is its own per-dimension sum, or its total spread evenly.
    fn add_cf<CF: ClusterSummary<F>>(&mut self, other: &CF)
        ensures
            old(self).spec_size() == 0 ==> final(self).spec_ssd() == per_dim_share(
                *other,
                old(self).spec_dim(),
            ),
            old(self).spec_size() > 0 ==> {
                let on = F::spec_from_index(other.spec_size() as usize);
                let factor = on.spec_divided_by(
                    F::spec_from_index((old(self).spec_size() + other.spec_size()) as usize),
                );
                &&& final(self).spec_centroid() == centroid_after_merge(
                    old(self).spec_centroid(),
                    other.spec_centroid(),
                    factor,
                )
                &&& final(self).spec_ssd() == per_dim_after_merge(
                    old(self).spec_ssd(),
                    old(self).spec_centroid(),
                    other.spec_centroid(),
                    per_dim_share(*other, old(self).spec_dim()),
                    on.spec_times(F::spec_one().spec_minus(factor)),
                )
            },
    {
        let oc = other.centroid();
        let other_per_dim = other.ssd_per_dim();
        let ghost dim = self.dim;
        let ghost c0 = self.centroid@;
        let ghost s0 = self.ssd@;
        let ghost share = per_dim_share(*other, dim as nat);
        if self.size == 0 {
            let mut i: usize = 0;
            while i < self.dim
                invariant
                    self.centroid@.len() == self.dim,
                    self.ssd@.len() == self.dim,
                    self.dim == dim,
                    self.size == 0,
                    oc@.len() == self.dim,
                    i <= self.dim,
                    forall|j: int| 0 <= j < i ==> self.centroid@[j] == oc@[j],
                decreases self.dim - i,
            {
                self.centroid.set(i, oc[i]);
                i = i + 1;
            }
            assert(self.centroid@ =~= oc@);
            self.size = other.size();
            match other_per_dim {
                Some(per_dim) => {
                    let mut k: usize = 0;
                    while k < self.dim
                        invariant
                            self.centroid@ == oc@,
                            self.ssd@.len() == self.dim,
                            self.dim == dim,
                            self.size == other.spec_size(),
                            per_dim@.len() == self.dim,
                            k <= self.dim,
                            per_dim@ == share,
                            forall|j: int| 0 <= j < k ==> self.ssd@[j] == share[j],
                        decreases self.dim - k,
                    {
                        self.ssd.set(k, per_dim[k]);
                        k = k + 1;
                    }
                    assert(self.ssd@ =~= share);
                },
                None => {
                    // Only a scalar sum is known: spread it evenly.
                    let per_dim_val = other.ssd().divided_by(F::from_index(self.dim));
                    let mut k: usize = 0;
                    while k < self.dim
                        invariant
                            self.centroid@ == oc@,
                            self.ssd@.len() == self.dim,
                            self.dim == dim,
                            self.size == other.spec_size(),
                            k <= self.dim,
                            share.len() == dim,
                            forall|j: int| 0 <= j < dim ==> share[j] == per_dim_val,
                            forall|j: int| 0 <= j < k ==> self.ssd@[j] == share[j],
                        decreases self.dim - k,
                    {
                        self.ssd.set(k, per_dim_val);
                        k = k + 1;
                    }
                    assert(self.ssd@ =~= share);
                },
            }
        } else {
            let other_n = F::from_index(other.size());
            self.size = self.size + other.size();
            let combined_n = F::from_index(self.size);
            let factor = other_n.divided_by(combined_n);
            let other_n_times_one_minus_factor = other_n.times(F::one().minus(factor));
            let ghost size = self.size;
            let mut i: usize = 0;
            while i < self.dim
                invariant
                    self.centroid@.len() == self.dim,
                    self.ssd@.len() == self.dim,
                    self.dim == dim,
                    self.size == size,
                    oc@.len() == self.dim,
                    other.inv(),
                    other_per_dim matches Some(p) ==> p@.len() == self.dim,
                    i <= self.dim,
                    c0.len() == dim,
                    s0.len() == dim,
                    oc@ == other.spec_centroid(),
                    (match other_per_dim {
                        Some(p) => Some(p@),
                        None => None,
                    }) == other.spec_ssd_per_dim(),
                    share == per_dim_share(*other, dim as nat),
                    forall|j: int| 0 <= j < i ==> self.centroid@[j] == centroid_after_merge(c0, oc@, factor)[j],
                    forall|j: int| i <= j < dim ==> self.centroid@[j] == c0[j],
                    forall|j: int|
                        0 <= j < i ==> self.ssd@[j] == per_dim_after_merge(
                            s0,
                            c0,
                            oc@,
                            share,
                            other_n_times_one_minus_factor,
                        )[j],
                    forall|j: int| i <= j < dim ==> self.ssd@[j] == s0[j],
                decreases self.dim - i,
            {
                let c = self.centroid[i];
                let delta = oc[i].minus(c);
                let other_ssd_i = match other_per_dim {
                    Some(per_dim) => per_dim[i],
                    None => other.ssd().divided_by(F::from_index(self.dim)),
                };
                let s = self.ssd[i];
                self.ssd.set(
                    i,
                    s.plus(other_ssd_i.plus(other_n_times_one_minus_factor.times(delta).times(delta))),
                );
                self.centroid.set(i, c.plus(delta.times(factor)));
                i = i + 1;
            }
            assert(self.centroid@ =~= centroid_after_merge(c0, oc@, factor));
            assert(self.ssd@ =~= per_dim_after_merge(s0, c0, oc@, share, other_n_times_one_minus_factor));
        }
    }
}

} // verus!
