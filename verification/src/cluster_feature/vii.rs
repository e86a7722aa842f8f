//! The VII cluster feature: centroid and one scalar sum of squared deviations.

use super::{
    add_weight, centroid_after_add, centroid_after_merge, ssd_after_add, ssd_after_merge, zeros,
    ClusterFeature, ClusterSummary,
};
use crate::types::Float;
use vstd::prelude::*;

verus! {

/// VII cluster feature.
///
/// Stores a single scalar sum of squared deviations (SSD) alongside the
/// centroid and count: the total variance without per-dimension detail.
#[derive(Clone)]
pub struct VII<F> {
    size: usize,
    centroid: Vec<F>,
    ssd: F,
    dim: usize,
}

impl<F: Float> VII<F> {
    /// The stored scalar sum of squared deviations.
    pub closed spec fn spec_ssd(&self) -> F {
        self.ssd
    }
}

impl<F: Float> ClusterSummary<F> for VII<F> {
    closed spec fn spec_size(&self) -> nat {
        self.size as nat
    }

    closed spec fn spec_dim(&self) -> nat {
        self.dim as nat
    }

    closed spec fn spec_centroid(&self) -> Seq<F> {
        self.centroid@
    }

    closed spec fn inv(&self) -> bool {
        self.centroid@.len() == self.dim
    }

    open spec fn spec_ssd_total(&self) -> F {
        self.spec_ssd()
    }

    open spec fn spec_ssd_per_dim(&self) -> Option<Seq<F>> {
        None
    }

    open spec fn spec_ssd_upper(&self) -> Option<Seq<F>> {
        None
    }

    proof fn lemma_inv(&self) {
    }

    fn size(&self) -> (r: usize) {
        self.size
    }

    fn centroid(&self) -> (r: &[F]) {
        self.centroid.as_slice()
    }

    fn ssd(&self) -> (r: F)
        ensures
            r == self.spec_ssd(),
    {
        self.ssd
    }

    /// Not kept: only the total is stored.
    fn ssd_per_dim(&self) -> (r: Option<&[F]>)
        ensures
            r is None,
    {
        None
    }

    /// Not kept: no cross products are stored.
    fn ssd_upper(&self) -> (r: Option<&[F]>)
        ensures
            r is None,
    {
        None
    }
}

impl<F: Float> ClusterFeature<F> for VII<F> {
    open spec fn dim_supported(dim: nat) -> bool {
        true
    }

    open spec fn spec_fresh(&self, dim: nat) -> bool {
        &&& self.spec_dim() == dim
        &&& self.spec_size() == 0
        &&& self.spec_centroid() == zeros::<F>(dim)
        &&& self.spec_ssd() == F::spec_zero()
    }

    open spec fn spec_added(&self, old: Self, x: Seq<F>) -> bool {
        &&& self.spec_dim() == old.spec_dim()
        &&& self.spec_size() == old.spec_size() + 1
        &&& if old.spec_size() == 0 {
            &&& self.spec_centroid() == x.subrange(0, old.spec_dim() as int)
            &&& self.spec_ssd() == F::spec_zero()
        } else {
            let n = F::spec_from_index((old.spec_size() + 1) as usize);
            &&& self.spec_centroid() == centroid_after_add(old.spec_centroid(), x, n)
            &&& self.spec_ssd() == ssd_after_add(old.spec_ssd(), old.spec_centroid(), x, add_weight(n), old.spec_dim())
        }
    }

    open spec fn spec_merged(
        &self,
        old: Self,
        size: nat,
        centroid: Seq<F>,
        ssd_total: F,
        per_dim: Option<Seq<F>>,
        upper: Option<Seq<F>>,
    ) -> bool {
        &&& self.spec_dim() == old.spec_dim()
        &&& self.spec_size() == old.spec_size() + size
        &&& if old.spec_size() == 0 {
            &&& self.spec_centroid() == centroid
            &&& self.spec_ssd() == ssd_total
        } else {
            let on = F::spec_from_index(size as usize);
            let factor = on.spec_divided_by(F::spec_from_index((old.spec_size() + size) as usize));
            &&& self.spec_centroid() == centroid_after_merge(old.spec_centroid(), centroid, factor)
            &&& self.spec_ssd() == ssd_after_merge(
                old.spec_ssd().spec_plus(ssd_total),
                old.spec_centroid(),
                centroid,
                on.spec_times(F::spec_one().spec_minus(factor)),
                old.spec_dim(),
            )
        }
    }

    fn new(dim: usize) -> (r: Self) {
        let mut centroid: Vec<F> = Vec::new();
        while centroid.len() < dim
            invariant
                centroid@.len() <= dim,
                forall|j: int| 0 <= j < centroid@.len() ==> #[trigger] centroid@[j] == F::spec_zero(),
            decreases dim - centroid@.len(),
        {
            centroid.push(F::zero());
        }
        assert(centroid@ =~= zeros::<F>(dim as nat));
        VII { size: 0, centroid, ssd: F::zero(), dim }
    }

    /// Everything back to zero.
    fn reset(&mut self)
        ensures
            final(self).spec_centroid() == Seq::new(old(self).spec_dim(), |i: int| F::spec_zero()),
            final(self).spec_ssd() == F::spec_zero(),
    {
        self.size = 0;
        let ghost dim = self.dim;
        let mut i: usize = 0;
        while i < self.centroid.len()
            invariant
                self.centroid@.len() == self.dim,
                self.dim == dim,
                self.size == 0,
                i <= self.dim,
                forall|j: int| 0 <= j < i ==> self.centroid@[j] == F::spec_zero(),
            decreases self.dim - i,
        {
            self.centroid.set(i, F::zero());
            i = i + 1;
        }
        assert(self.centroid@ =~= Seq::new(dim as nat, |i: int| F::spec_zero()));
        self.ssd = F::zero();
    }

    open spec fn spec_variance(&self, d: int) -> F {
        if self.spec_size() < 2 {
            F::spec_zero()
        } else {
            self.spec_ssd().spec_divided_by(F::spec_from_index(self.spec_dim() as usize)).spec_divided_by(
                F::spec_from_index(self.spec_size() as usize),
            )
        }
    }

    /// Isotropic approximation: the total is divided evenly over the dimensions.
    fn variance(&self, d: usize) -> F {
        if self.size < 2 {
            return F::zero();
        }
        let dim = F::from_index(self.dim);
        self.ssd.divided_by(dim).divided_by(F::from_index(self.size))
    }

    open spec fn variance_any_dim() -> bool {
        true
    }

    open spec fn spec_keeps_covariance(&self) -> bool {
        false
    }

    open spec fn spec_covariance(&self) -> Option<Seq<Seq<F>>> {
        None
    }

    /// Not available: no cross products are stored.
    fn covariance(&self) -> (r: Option<Vec<Vec<F>>>)
        ensures
            r is None,
    {
        None
    }

    /// Welford's update: the centroid moves by `(x - c)/n` and the sum of
    /// squared deviations grows by `(x - c)² (1 - 1/n)` per dimension, `n`
    /// the new size.
    fn add(&mut self, x: &[F])
        ensures
            old(self).spec_size() == 0 ==> final(self).spec_ssd() == F::spec_zero(),
            old(self).spec_size() > 0 ==> {
                let n = F::spec_from_index((old(self).spec_size() + 1) as usize);
                &&& final(self).spec_centroid() == centroid_after_add(old(self).spec_centroid(), x@, n)
                &&& final(self).spec_ssd() == ssd_after_add(
                    old(self).spec_ssd(),
                    old(self).spec_centroid(),
                    x@,
                    add_weight(n),
                    old(self).spec_dim(),
                )
            },
    {
        let ghost dim = self.dim;
        let ghost c0 = self.centroid@;
        let ghost s0 = self.ssd;
        if self.size == 0 {
            let mut i: usize = 0;
            while i < self.dim
                invariant
                    self.centroid@.len() == self.dim,
                    self.dim == dim,
                    self.size == 0,
                    self.dim <= x@.len(),
                    i <= self.dim,
                    forall|j: int| 0 <= j < i ==> self.centroid@[j] == x@[j],
                decreases self.dim - i,
            {
                self.centroid.set(i, x[i]);
                i = i + 1;
            }
            assert(self.centroid@ =~= x@.subrange(0, self.dim as int));
            self.size = 1;
            self.ssd = F::zero();
        } else {
            self.size = self.size + 1;
            let n = F::from_index(self.size);
            // Welford update: ssd += delta^2 * (1 - 1/n)
            let one_minus_inv_n = F::one().minus(F::one().divided_by(n));
            let ghost size = self.size;
            let mut i: usize = 0;
            while i < self.dim
                invariant
                    self.centroid@.len() == self.dim,
                    self.dim == dim,
                    self.size == size,
                    self.dim <= x@.len(),
                    i <= self.dim,
                    c0.len() == dim,
                    n == F::spec_from_index(size),
                    one_minus_inv_n == add_weight(n),
                    forall|j: int| 0 <= j < i ==> self.centroid@[j] == centroid_after_add(c0, x@, n)[j],
                    forall|j: int| i <= j < dim ==> self.centroid@[j] == c0[j],
                    self.ssd == ssd_after_add(s0, c0, x@, one_minus_inv_n, i as nat),
                decreases self.dim - i,
            {
                let c = self.centroid[i];
                let delta = x[i].minus(c);
                self.ssd = self.ssd.plus(delta.times(delta).times(one_minus_inv_n));
                self.centroid.set(i, c.plus(delta.divided_by(n)));
                i = i + 1;
            }
            assert(self.centroid@ =~= centroid_after_add(c0, x@, n));
        }
    }

    /// The parallel update: the centroid moves by `factor = m/(n+m)` of the
    /// way to the other centroid, and the sum of squared deviations becomes
    /// both sums plus `m (1 - factor) (oc - c)²` per dimension.
    fn add_cf<CF: ClusterSummary<F>>(&mut self, other: &CF)
        ensures
            old(self).spec_size() == 0 ==> final(self).spec_ssd() == other.spec_ssd_total(),
            old(self).spec_size() > 0 ==> {
                let on = F::spec_from_index(other.spec_size() as usize);
                let factor = on.spec_divided_by(
                    F::spec_from_index((old(self).spec_size() + other.spec_size()) as usize),
                );
                &&& final(self).spec_centroid() == centroid_after_merge(
                    old(self).spec_centroid(),
                    other.spec_centroid(),
                    factor,
                )
                &&& final(self).spec_ssd() == ssd_after_merge(
                    old(self).spec_ssd().spec_plus(other.spec_ssd_total()),
                    old(self).spec_centroid(),
                    other.spec_centroid(),
                    on.spec_times(F::spec_one().spec_minus(factor)),
                    old(self).spec_dim(),
                )
            },
    {
        let oc = other.centroid();
        let ghost dim = self.dim;
        let ghost c0 = self.centroid@;
        if self.size == 0 {
            let mut i: usize = 0;
            while i < self.dim
                invariant
                    self.centroid@.len() == self.dim,
                    self.dim == dim,
                    self.size == 0,
                    oc@.len() == self.dim,
                    i <= self.dim,
                    forall|j: int| 0 <= j < i ==> self.centroid@[j] == oc@[j],
                decreases self.dim - i,
            {
                self.centroid.set(i, oc[i]);
                i = i + 1;
            }
            assert(self.centroid@ =~= oc@);
            self.size = other.size();
            self.ssd = other.ssd();
        } else {
            let other_n = F::from_index(other.size());
            self.size = self.size + other.size();
            let combined_n = F::from_index(self.size);
            let factor = other_n.divided_by(combined_n);
            self.ssd = self.ssd.plus(other.ssd());
            let ghost s1 = self.ssd;
            // Parallel update: ssd += other_n * (1 - factor) * delta^2
            let other_n_times_one_minus_factor = other_n.times(F::one().minus(factor));
            let ghost size = self.size;
            let mut i: usize = 0;
            while i < self.dim
                invariant
                    self.centroid@.len() == self.dim,
                    self.dim == dim,
                    self.size == size,
                    oc@.len() == self.dim,
                    i <= self.dim,
                    c0.len() == dim,
                    forall|j: int| 0 <= j < i ==> self.centroid@[j] == centroid_after_merge(c0, oc@, factor)[j],
                    forall|j: int| i <= j < dim ==> self.centroid@[j] == c0[j],
                    self.ssd == ssd_after_merge(s1, c0, oc@, other_n_times_one_minus_factor, i as nat),
                decreases self.dim - i,
            {
                let c = self.centroid[i];
                let delta = oc[i].minus(c);
                self.ssd = self.ssd.plus(other_n_times_one_minus_factor.times(delta).times(delta));
                self.centroid.set(i, c.plus(delta.times(factor)));
                i = i + 1;
            }
            assert(self.centroid@ =~= centroid_after_merge(c0, oc@, factor));
        }
    }
}

} // verus!
