//! Distances between centroids.

use super::vector_distance::{lemma_sq_euclidean_symmetric, manhattan, sq_euclidean};
use super::{CFDistance, Manhattan, SqEuclidean, VectorDistance};
use crate::cluster_feature::{ClusterFeature, ClusterSummary};
use crate::types::{difference_squares_symmetric, Float};
use core::marker::PhantomData;
use vstd::prelude::*;

verus! {

/// Centroid Euclidean distance (D0): the squared Euclidean distance between
/// a point, or a second centroid, and the centroid of a cluster feature.
/// Cluster spread is ignored.
///
///   sq_dist(CF, v)    = ||v - centroid||²
///   sq_dist(CF1, CF2) = ||centroid1 - centroid2||²
pub struct CentroidEuclideanDistance<F, C> {
    _marker: PhantomData<C>,
    _marker2: PhantomData<F>,
}

impl<F, C> CentroidEuclideanDistance<F, C> {
    /// The one value of the type.
    pub closed spec fn spec_new() -> Self {
        CentroidEuclideanDistance { _marker: PhantomData, _marker2: PhantomData }
    }

    pub fn new() -> (r: Self)
        ensures
            r == Self::spec_new(),
    {
        CentroidEuclideanDistance { _marker: PhantomData, _marker2: PhantomData }
    }
}

impl<F, C> Default for CentroidEuclideanDistance<F, C> {
    fn default() -> (r: Self)
        ensures
            r == Self::spec_new(),
    {
        Self::new()
    }
}

impl<F, C> Clone for CentroidEuclideanDistance<F, C> {
    fn clone(&self) -> (r: Self)
        ensures
            r == *self,
    {
        Self::new()
    }
}

impl<F: Float, C: ClusterFeature<F>> CentroidEuclideanDistance<F, C> {
    /// The centroid Euclidean distance is symmetric, on a number type whose
    /// squared differences do not depend on their order.
    pub proof fn lemma_symmetric(&self, cf1: C, cf2: C, d: nat)
        requires
            difference_squares_symmetric::<F>(),
        ensures
            self.spec_sq_dist_cf(cf1, cf2, d) == self.spec_sq_dist_cf(cf2, cf1, d),
    {
        lemma_sq_euclidean_symmetric(cf1.spec_centroid(), cf2.spec_centroid(), d);
    }
}

impl<F: Float, C: ClusterFeature<F>> CFDistance<F, C> for CentroidEuclideanDistance<F, C> {
    open spec fn spec_sq_dist(&self, cf1: C, x: Seq<F>, d: nat) -> F {
        sq_euclidean(cf1.spec_centroid(), x, d)
    }

    open spec fn spec_sq_dist_cf(&self, cf1: C, cf2: C, d: nat) -> F {
        sq_euclidean(cf1.spec_centroid(), cf2.spec_centroid(), d)
    }

    fn sq_dist(&self, cf1: &C, x: &[F], d: usize) -> F {
        SqEuclidean::dist(cf1.centroid(), x, d)
    }

    fn sq_dist_cf(&self, cf1: &C, cf2: &C, d: usize) -> F {
        SqEuclidean::dist(cf1.centroid(), cf2.centroid(), d)
    }
}

/// Centroid Manhattan distance (D1): the L1 distance between a point, or a
/// second centroid, and the centroid of a cluster feature.
///
///   sq_dist(CF, v)    = Σᵢ |vᵢ - centroidᵢ|
///   sq_dist(CF1, CF2) = Σᵢ |centroid1ᵢ - centroid2ᵢ|
pub struct CentroidManhattanDistance<F, C> {
    _marker: PhantomData<C>,
    _marker2: PhantomData<F>,
}

impl<F, C> CentroidManhattanDistance<F, C> {
    /// The one value of the type.
    pub closed spec fn spec_new() -> Self {
        CentroidManhattanDistance { _marker: PhantomData, _marker2: PhantomData }
    }

    pub fn new() -> (r: Self)
        ensures
            r == Self::spec_new(),
    {
        CentroidManhattanDistance { _marker: PhantomData, _marker2: PhantomData }
    }
}

impl<F, C> Default for CentroidManhattanDistance<F, C> {
    fn default() -> (r: Self)
        ensures
            r == Self::spec_new(),
    {
        Self::new()
    }
}

impl<F, C> Clone for CentroidManhattanDistance<F, C> {
    fn clone(&self) -> (r: Self)
        ensures
            r == *self,
    {
        Self::new()
    }
}

impl<F: Float, C: ClusterFeature<F>> CFDistance<F, C> for CentroidManhattanDistance<F, C> {
    open spec fn spec_sq_dist(&self, cf1: C, x: Seq<F>, d: nat) -> F {
        manhattan(cf1.spec_centroid(), x, d)
    }

    open spec fn spec_sq_dist_cf(&self, cf1: C, cf2: C, d: nat) -> F {
        manhattan(cf1.spec_centroid(), cf2.spec_centroid(), d)
    }

    fn sq_dist(&self, cf1: &C, x: &[F], d: usize) -> F {
        Manhattan::dist(cf1.centroid(), x, d)
    }

    fn sq_dist_cf(&self, cf1: &C, cf2: &C, d: usize) -> F {
        Manhattan::dist(cf1.centroid(), cf2.centroid(), d)
    }
}

} // verus!
