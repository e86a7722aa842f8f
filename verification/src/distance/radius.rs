//! Radius distance.

use super::vector_distance::sq_euclidean;
use super::{CFDistance, SqEuclidean, VectorDistance};
use crate::cluster_feature::{ClusterFeature, ClusterSummary};
use crate::types::Float;
use core::marker::PhantomData;
use vstd::prelude::*;

verus! {

/// Average radius distance (BIRCH "R" criterion): the average squared
/// radius of the cluster that adding the point, or merging the two clusters,
/// would give, that is its sum of squared deviations over its size.
///
///   sq_dist(CF, v)    = (n/(n+1) * ||v - centroid||² + ssd) / (n+1)
///   sq_dist(CF1, CF2) = (n1*n2/(n1+n2) * ||c1-c2||² + ssd1 + ssd2) / (n1+n2)
///
/// An empty cluster feature is at distance zero from a point, and two empty
/// features are at distance zero.
pub struct RadiusDistance<F, C> {
    _marker: PhantomData<C>,
    _marker2: PhantomData<F>,
}

impl<F, C> RadiusDistance<F, C> {
    /// The one value of the type.
    pub closed spec fn spec_new() -> Self {
        RadiusDistance { _marker: PhantomData, _marker2: PhantomData }
    }

    pub fn new() -> (r: Self)
        ensures
            r == Self::spec_new(),
    {
        RadiusDistance { _marker: PhantomData, _marker2: PhantomData }
    }
}

impl<F, C> Default for RadiusDistance<F, C> {
    fn default() -> (r: Self)
        ensures
            r == Self::spec_new(),
    {
        Self::new()
    }
}

impl<F, C> Clone for RadiusDistance<F, C> {
    fn clone(&self) -> (r: Self)
        ensures
            r == *self,
    {
        Self::new()
    }
}

impl<F: Float, C: ClusterFeature<F>> CFDistance<F, C> for RadiusDistance<F, C> {
    open spec fn spec_sq_dist(&self, cf1: C, x: Seq<F>, d: nat) -> F {
        let n = cf1.spec_size();
        if n == 0 {
            F::spec_zero()
        } else {
            let centroid_dist = sq_euclidean(cf1.spec_centroid(), x, d);
            let n_f = F::spec_from_index(n as usize);
            let n_plus_1 = n_f.spec_plus(F::spec_one());
            n_f.spec_mul_add(centroid_dist, n_plus_1.spec_times(cf1.spec_ssd_total())).spec_divided_by(
                n_plus_1.spec_times(n_plus_1),
            )
        }
    }

    open spec fn spec_sq_dist_cf(&self, cf1: C, cf2: C, d: nat) -> F {
        let n12 = cf1.spec_size() + cf2.spec_size();
        if n12 == 0 {
            F::spec_zero()
        } else {
            let centroid_dist = sq_euclidean(cf1.spec_centroid(), cf2.spec_centroid(), d);
            let n1_f = F::spec_from_index(cf1.spec_size() as usize);
            let n2_f = F::spec_from_index(cf2.spec_size() as usize);
            let n12_f = F::spec_from_index(n12 as usize);
            let ssd_sum = cf1.spec_ssd_total().spec_plus(cf2.spec_ssd_total());
            n1_f.spec_mul_add(n2_f.spec_times(centroid_dist), n12_f.spec_times(ssd_sum)).spec_divided_by(
                n12_f.spec_times(n12_f),
            )
        }
    }

    fn sq_dist(&self, cf1: &C, x: &[F], d: usize) -> F {
        let n = cf1.size();
        if n == 0 {
            return F::zero();
        }
        // (n * centroid_dist + (n+1) * ssd) / (n+1)²
        let centroid_dist = SqEuclidean::dist(cf1.centroid(), x, d);
        let n_f = F::from_index(n);
        let n_plus_1 = n_f.plus(F::one());
        let numerator = n_f.mul_add(centroid_dist, n_plus_1.times(cf1.ssd()));
        numerator.divided_by(n_plus_1.times(n_plus_1))
    }

    fn sq_dist_cf(&self, cf1: &C, cf2: &C, d: usize) -> F {
        let n1 = cf1.size();
        let n2 = cf2.size();
        let n12 = n1 + n2;
        if n12 == 0 {
            return F::zero();
        }
        // (n1*n2 * centroid_dist + n12*(ssd1+ssd2)) / n12²
        let centroid_dist = SqEuclidean::dist(cf1.centroid(), cf2.centroid(), d);
        let n1_f = F::from_index(n1);
        let n2_f = F::from_index(n2);
        let n12_f = F::from_index(n12);
        let ssd_sum = cf1.ssd().plus(cf2.ssd());
        let numerator = n1_f.mul_add(n2_f.times(centroid_dist), n12_f.times(ssd_sum));
        numerator.divided_by(n12_f.times(n12_f))
    }
}

} // verus!
