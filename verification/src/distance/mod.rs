//! Distances between cluster features and points, used to route points down
//! the CF-tree and to decide whether a leaf entry absorbs them.

mod centroid;
mod intercluster;
mod radius;
mod variance;
pub mod vector_distance;

use crate::cluster_feature::{ClusterFeature, ClusterSummary};
use crate::types::Float;
use vstd::prelude::*;

pub use centroid::{CentroidEuclideanDistance, CentroidManhattanDistance};
pub use intercluster::{AverageInterclusterDistance, AverageIntraclusterDistance};
pub use radius::RadiusDistance;
pub use variance::VarianceIncreaseDistance;
pub use vector_distance::{Manhattan, SqEuclidean};

verus! {

/// Distance function for BIRCH / BETULA clustering.
///
/// Implementations use squared distances where that saves a square root.
/// Each method takes the dimensionality `d` of the data: trailing components
/// beyond it are not read.
pub trait CFDistance<F: Float, C: ClusterFeature<F>> {
    /// The distance of the point `x` to `cf1` over the first `d` components,
    /// as `sq_dist` computes it.
    spec fn spec_sq_dist(&self, cf1: C, x: Seq<F>, d: nat) -> F;

    /// The distance between `cf1` and `cf2` over the first `d` components,
    /// as `sq_dist_cf` computes it.
    spec fn spec_sq_dist_cf(&self, cf1: C, cf2: C, d: nat) -> F;

    /// Distance of a point to a cluster feature.
    fn sq_dist(&self, cf1: &C, x: &[F], d: usize) -> (r: F)
        requires
            cf1.inv(),
            d <= cf1.spec_dim(),
            d <= x@.len(),
        ensures
            r == self.spec_sq_dist(*cf1, x@, d as nat),
    ;

    /// Distance between two cluster features.
    fn sq_dist_cf(&self, cf1: &C, cf2: &C, d: usize) -> (r: F)
        requires
            cf1.inv(),
            cf2.inv(),
            d <= cf1.spec_dim(),
            d <= cf2.spec_dim(),
            cf1.spec_size() + cf2.spec_size() <= usize::MAX,
        ensures
            r == self.spec_sq_dist_cf(*cf1, *cf2, d as nat),
    ;
}

/// Distance between two raw vectors.
pub trait VectorDistance {
    /// The distance between the first `d` components of `vec1` and `vec2`.
    fn dist<F: Float>(vec1: &[F], vec2: &[F], d: usize) -> F
        requires
            d <= vec1@.len(),
            d <= vec2@.len(),
    ;
}

} // verus!
