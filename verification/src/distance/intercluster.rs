//! Average inter-cluster (D2) and intra-cluster (D3) distances.

use super::vector_distance::{lemma_sq_euclidean_symmetric, sq_euclidean};
use super::{CFDistance, SqEuclidean, VectorDistance};
use crate::cluster_feature::{ClusterFeature, ClusterSummary};
use crate::types::{difference_squares_symmetric, plus_times_commute, Float};
use core::marker::PhantomData;
use vstd::prelude::*;

verus! {

/// Average intercluster distance (D2): the average squared Euclidean
/// distance between the points of one side and those of the other, which
/// takes cluster spread into account.
///
///   sq_dist(CF, v)    = ||v - centroid||² + ssd/n
///   sq_dist(CF1, CF2) = ||c1 - c2||² + ssd1/n1 + ssd2/n2
///
/// An empty cluster feature is at distance zero.
pub struct AverageInterclusterDistance<F, C> {
    _marker: PhantomData<C>,
    _marker2: PhantomData<F>,
}

impl<F, C> AverageInterclusterDistance<F, C> {
    /// The one value of the type.
    pub closed spec fn spec_new() -> Self {
        AverageInterclusterDistance { _marker: PhantomData, _marker2: PhantomData }
    }

    pub fn new() -> (r: Self)
        ensures
            r == Self::spec_new(),
    {
        AverageInterclusterDistance { _marker: PhantomData, _marker2: PhantomData }
    }
}

impl<F, C> Default for AverageInterclusterDistance<F, C> {
    fn default() -> (r: Self)
        ensures
            r == Self::spec_new(),
    {
        Self::new()
    }
}

impl<F, C> Clone for AverageInterclusterDistance<F, C> {
    fn clone(&self) -> (r: Self)
        ensures
            r == *self,
    {
        Self::new()
    }
}

impl<F: Float, C: ClusterFeature<F>> CFDistance<F, C> for AverageInterclusterDistance<F, C> {
    open spec fn spec_sq_dist(&self, cf1: C, x: Seq<F>, d: nat) -> F {
        let n = cf1.spec_size();
        if n == 0 {
            F::spec_zero()
        } else {
            sq_euclidean(cf1.spec_centroid(), x, d).spec_plus(
                cf1.spec_ssd_total().spec_divided_by(F::spec_from_index(n as usize)),
            )
        }
    }

    open spec fn spec_sq_dist_cf(&self, cf1: C, cf2: C, d: nat) -> F {
        let n1 = cf1.spec_size();
        let n2 = cf2.spec_size();
        if n1 == 0 || n2 == 0 {
            F::spec_zero()
        } else {
            sq_euclidean(cf1.spec_centroid(), cf2.spec_centroid(), d).spec_plus(
                cf1.spec_ssd_total().spec_divided_by(F::spec_from_index(n1 as usize)),
            ).spec_plus(cf2.spec_ssd_total().spec_divided_by(F::spec_from_index(n2 as usize)))
        }
    }

    fn sq_dist(&self, cf1: &C, x: &[F], d: usize) -> F {
        let n = cf1.size();
        if n == 0 {
            return F::zero();
        }
        let centroid_dist = SqEuclidean::dist(cf1.centroid(), x, d);
        let variance = cf1.ssd().divided_by(F::from_index(n));
        centroid_dist.plus(variance)
    }

    fn sq_dist_cf(&self, cf1: &C, cf2: &C, d: usize) -> F {
        let n1 = cf1.size();
        let n2 = cf2.size();
        if n1 == 0 || n2 == 0 {
            return F::zero();
        }
        let centroid_dist = SqEuclidean::dist(cf1.centroid(), cf2.centroid(), d);
        let var1 = cf1.ssd().divided_by(F::from_index(n1));
        let var2 = cf2.ssd().divided_by(F::from_index(n2));
        centroid_dist.plus(var1).plus(var2)
    }
}

/// Average intracluster distance (D3): the average squared Euclidean
/// distance between all pairs of points of the cluster that adding the point,
/// or merging the two clusters, would give.
///
///   sq_dist(CF, v)    = 2 * ((n+1)*ssd + n*||c - v||²) / (n*(n+1))
///   sq_dist(CF1, CF2) = 2 * (n12*(ssd1+ssd2) + n1*n2*||c1-c2||²) / (n12*(n12-1))
///
/// An empty cluster feature is at distance zero.
pub struct AverageIntraclusterDistance<F, C> {
    _marker: PhantomData<C>,
    _marker2: PhantomData<F>,
}

impl<F, C> AverageIntraclusterDistance<F, C> {
    /// The one value of the type.
    pub closed spec fn spec_new() -> Self {
        AverageIntraclusterDistance { _marker: PhantomData, _marker2: PhantomData }
    }

    pub fn new() -> (r: Self)
        ensures
            r == Self::spec_new(),
    {
        AverageIntraclusterDistance { _marker: PhantomData, _marker2: PhantomData }
    }
}

impl<F: Float, C: ClusterFeature<F>> AverageIntraclusterDistance<F, C> {
    /// D3 between two cluster features is symmetric: it is the same when
    /// the two are swapped, as the average over all pairs of points of the
    /// merged cluster is, on a number type whose `+` and `*` commute and
    /// whose squared differences do not depend on their order.
    pub proof fn lemma_symmetric(&self, cf1: C, cf2: C, d: nat)
        requires
            plus_times_commute::<F>(),
            difference_squares_symmetric::<F>(),
        ensures
            self.spec_sq_dist_cf(cf1, cf2, d) == self.spec_sq_dist_cf(cf2, cf1, d),
    {
        lemma_sq_euclidean_symmetric(cf1.spec_centroid(), cf2.spec_centroid(), d);
        let n1_f = F::spec_from_index(cf1.spec_size() as usize);
        let n2_f = F::spec_from_index(cf2.spec_size() as usize);
        assert(n1_f.spec_plus(n2_f) == n2_f.spec_plus(n1_f));
        assert(n1_f.spec_times(n2_f) == n2_f.spec_times(n1_f));
        assert(cf1.spec_ssd_total().spec_plus(cf2.spec_ssd_total()) == cf2.spec_ssd_total().spec_plus(
            cf1.spec_ssd_total(),
        ));
    }
}

impl<F, C> Default for AverageIntraclusterDistance<F, C> {
    fn default() -> (r: Self)
        ensures
            r == Self::spec_new(),
    {
        Self::new()
    }
}

impl<F, C> Clone for AverageIntraclusterDistance<F, C> {
    fn clone(&self) -> (r: Self)
        ensures
            r == *self,
    {
        Self::new()
    }
}

impl<F: Float, C: ClusterFeature<F>> CFDistance<F, C> for AverageIntraclusterDistance<F, C> {
    open spec fn spec_sq_dist(&self, cf1: C, x: Seq<F>, d: nat) -> F {
        let n = cf1.spec_size();
        if n == 0 {
            F::spec_zero()
        } else {
            let n_f = F::spec_from_index(n as usize);
            let n_plus_1 = n_f.spec_plus(F::spec_one());
            let centroid_dist = sq_euclidean(cf1.spec_centroid(), x, d);
            let two = F::spec_one().spec_plus(F::spec_one());
            let numerator = n_plus_1.spec_mul_add(
                cf1.spec_ssd_total(),
                n_f.spec_times(centroid_dist),
            );
            two.spec_times(numerator).spec_divided_by(n_f.spec_times(n_plus_1))
        }
    }

    open spec fn spec_sq_dist_cf(&self, cf1: C, cf2: C, d: nat) -> F {
        let n1 = cf1.spec_size();
        let n2 = cf2.spec_size();
        if n1 == 0 || n2 == 0 {
            F::spec_zero()
        } else {
            let n1_f = F::spec_from_index(n1 as usize);
            let n2_f = F::spec_from_index(n2 as usize);
            let n12_f = n1_f.spec_plus(n2_f);
            let centroid_dist = sq_euclidean(cf1.spec_centroid(), cf2.spec_centroid(), d);
            let ssd_sum = cf1.spec_ssd_total().spec_plus(cf2.spec_ssd_total());
            let two = F::spec_one().spec_plus(F::spec_one());
            let numerator = n12_f.spec_mul_add(
                ssd_sum,
                n1_f.spec_times(n2_f).spec_times(centroid_dist),
            );
            two.spec_times(numerator).spec_divided_by(
                n12_f.spec_times(n12_f.spec_minus(F::spec_one())),
            )
        }
    }

    fn sq_dist(&self, cf1: &C, x: &[F], d: usize) -> F {
        let n = cf1.size();
        if n == 0 {
            return F::zero();
        }
        let n_f = F::from_index(n);
        let n_plus_1 = n_f.plus(F::one());
        let centroid_dist = SqEuclidean::dist(cf1.centroid(), x, d);
        let ssd = cf1.ssd();
        let two = F::one().plus(F::one());
        let numerator = n_plus_1.mul_add(ssd, n_f.times(centroid_dist));
        let denominator = n_f.times(n_plus_1);
        two.times(numerator).divided_by(denominator)
    }

    fn sq_dist_cf(&self, cf1: &C, cf2: &C, d: usize) -> F {
        let n1 = cf1.size();
        let n2 = cf2.size();
        if n1 == 0 || n2 == 0 {
            return F::zero();
        }
        let n1_f = F::from_index(n1);
        let n2_f = F::from_index(n2);
        let n12_f = n1_f.plus(n2_f);
        let centroid_dist = SqEuclidean::dist(cf1.centroid(), cf2.centroid(), d);
        let ssd_sum = cf1.ssd().plus(cf2.ssd());
        let n1n2 = n1_f.times(n2_f);
        let two = F::one().plus(F::one());
        let numerator = n12_f.mul_add(ssd_sum, n1n2.times(centroid_dist));
        let denominator = n12_f.times(n12_f.minus(F::one()));
        two.times(numerator).divided_by(denominator)
    }
}

} // verus!
