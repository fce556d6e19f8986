//! Combinatorial core of a hierarchical point-clustering index.
//!
//! The index is a ladder of layers, one per zoom level. Every layer is a
//! vector of bookkeeping records; positions and spatial queries are kept by
//! the caller, who hands the library the hits of each query it asks for.
//!
//! - `cluster`: identifiers, records, and what is reported of a record.
//! - `options`, `error`: the options of an index, and the one error.
//! - `points`: how many source points a set of records stands for.
//! - `pass`: the visit of one seed, and the invariant of a pass over a layer.
//! - `ladder`: what links one layer to the next.
//! - `builder`: the construction of the ladder, layer by layer.
//! - `supercluster`: the finished index and its queries.
//! - `expansion`, `leaves`: the searches that go down from a cluster.
//! - `subtree`: the tree of children below a record of the index.

pub mod cluster;
pub mod error;
pub mod options;
pub mod points;
pub mod pass;
pub mod ladder;
pub mod builder;
pub mod supercluster;
pub mod expansion;
pub mod leaves;
pub mod subtree;

pub use builder::SuperclusterBuilder;
pub use cluster::{ClusterData, ClusterId, ClusterInfo};
pub use error::SuperclusterError;
pub use options::SuperclusterOptions;
pub use supercluster::Supercluster;
