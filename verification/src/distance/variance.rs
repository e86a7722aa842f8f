//! Variance increase distance.

use super::vector_distance::sq_euclidean;
use super::{CFDistance, SqEuclidean, VectorDistance};
use crate::cluster_feature::{ClusterFeature, ClusterSummary};
use crate::types::{one_is_unit, Float};
use core::marker::PhantomData;
use vstd::prelude::*;

verus! {

/// Variance increase distance (D4): the growth of the sum of squared
/// deviations that adding the point, or merging the two clusters, would
/// cause.
///
///   sq_dist(CF, v)    = ||v - centroid||² * n / (n+1)
///   sq_dist(CF1, CF2) = ||c1 - c2||² * n1 * n2 / (n1 + n2)
///
/// An empty cluster feature is at distance zero.
pub struct VarianceIncreaseDistance<F, C> {
    _marker: PhantomData<C>,
    _marker2: PhantomData<F>,
}

impl<F, C> VarianceIncreaseDistance<F, C> {
    /// The one value of the type.
    pub closed spec fn spec_new() -> Self {
        VarianceIncreaseDistance { _marker: PhantomData, _marker2: PhantomData }
    }

    pub fn new() -> (r: Self)
        ensures
            r == Self::spec_new(),
    {
        VarianceIncreaseDistance { _marker: PhantomData, _marker2: PhantomData }
    }
}

impl<F: Float, C: ClusterFeature<F>> VarianceIncreaseDistance<F, C> {
    /// D4 to a cluster feature of one point is D4 to that point: merging a
    /// single point grows the sum of squared deviations as adding it does,
    /// on a number type where the count one is the unit of `*`.
    pub proof fn lemma_single_point(&self, cf1: C, cf2: C, d: nat)
        requires
            one_is_unit::<F>(),
            cf2.spec_size() == 1,
        ensures
            self.spec_sq_dist_cf(cf1, cf2, d) == self.spec_sq_dist(cf1, cf2.spec_centroid(), d),
    {
        let n1_f = F::spec_from_index(cf1.spec_size() as usize);
        let cd = sq_euclidean(cf1.spec_centroid(), cf2.spec_centroid(), d);
        assert(cd.spec_times(n1_f).spec_times(F::spec_one()) == cd.spec_times(n1_f));
    }
}

impl<F, C> Default for VarianceIncreaseDistance<F, C> {
    fn default() -> (r: Self)
        ensures
            r == Self::spec_new(),
    {
        Self::new()
    }
}

impl<F, C> Clone for VarianceIncreaseDistance<F, C> {
    fn clone(&self) -> (r: Self)
        ensures
            r == *self,
    {
        Self::new()
    }
}

impl<F: Float, C: ClusterFeature<F>> CFDistance<F, C> for VarianceIncreaseDistance<F, C> {
    open spec fn spec_sq_dist(&self, cf1: C, x: Seq<F>, d: nat) -> F {
        let n = cf1.spec_size();
        if n == 0 {
            F::spec_zero()
        } else {
            let n_f = F::spec_from_index(n as usize);
            sq_euclidean(cf1.spec_centroid(), x, d).spec_times(n_f).spec_divided_by(
                n_f.spec_plus(F::spec_one()),
            )
        }
    }

    open spec fn spec_sq_dist_cf(&self, cf1: C, cf2: C, d: nat) -> F {
        let n1 = cf1.spec_size();
        let n2 = cf2.spec_size();
        if n1 == 0 || n2 == 0 {
            F::spec_zero()
        } else {
            let n1_f = F::spec_from_index(n1 as usize);
            let n2_f = F::spec_from_index(n2 as usize);
            sq_euclidean(cf1.spec_centroid(), cf2.spec_centroid(), d).spec_times(n1_f).spec_times(
                n2_f,
            ).spec_divided_by(n1_f.spec_plus(n2_f))
        }
    }

    fn sq_dist(&self, cf1: &C, x: &[F], d: usize) -> F {
        let n = cf1.size();
        if n == 0 {
            return F::zero();
        }
        let centroid_dist = SqEuclidean::dist(cf1.centroid(), x, d);
        let n_f = F::from_index(n);
        let n_plus_1 = n_f.plus(F::one());
        centroid_dist.times(n_f).divided_by(n_plus_1)
    }

    fn sq_dist_cf(&self, cf1: &C, cf2: &C, d: usize) -> F {
        let n1 = cf1.size();
        let n2 = cf2.size();
        if n1 == 0 || n2 == 0 {
            return F::zero();
        }
        let centroid_dist = SqEuclidean::dist(cf1.centroid(), cf2.centroid(), d);
        let n1_f = F::from_index(n1);
        let n2_f = F::from_index(n2);
        let n12_f = n1_f.plus(n2_f);
        centroid_dist.times(n1_f).times(n2_f).divided_by(n12_f)
    }
}

} // verus!
