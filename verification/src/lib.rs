//! BETULA: streamable data clustering with numerically stable cluster
//! features, summarized in a CF-tree.

pub mod betula;
pub mod cf_tree;
pub mod cluster_feature;
pub mod distance;
pub mod names;
pub mod python;
pub mod types;
