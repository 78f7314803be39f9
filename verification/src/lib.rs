//! Topological merging of agent belief states using persistent homology.
//!
//! Several agents each hold a belief state: a weighted point cloud. The library
//! unites the clouds, builds the distance matrix of the union, computes its
//! Vietoris-Rips persistence (H0 components and H1 loops), and scores each
//! feature by how well the agents' own diagrams agree with it.
//!
//! Real numbers (coordinates, weights, distances, radii, births and deaths) are
//! carried as the bit patterns of binary64 values; the library only compares them,
//! with the IEEE order described in [`ieee`]. The arithmetic that produces them
//! (the metric kernels and the scores) is supplied by the caller.
//!
//! - [`belief`]: weighted point clouds
//! - [`distance`]: pairwise distance matrices
//! - [`rips`]: Vietoris-Rips complexes and filtrations
//! - [`persistence`]: persistent homology (H0 and H1)
//! - [`matching`]: exact bottleneck matchings between features
//! - [`confidence`]: confidence levels of merged features
//! - [`merge`]: the merger combining all steps
pub mod ieee;
pub mod belief;
pub mod sorting;
pub mod distance;
pub mod components;
pub mod matching;
pub mod persistence;
pub mod rips;
pub mod confidence;
pub mod merge;

pub use belief::{BeliefError, BeliefState, WeightedPoint};
pub use confidence::{ConfidenceLevel, ConfidenceMap, FeatureConfidence};
pub use distance::{DistanceError, DistanceMatrix, Metric};
pub use merge::{MergeError, MergeParams, MergeResult, TopologicalMerger};
pub use persistence::{Barcode, PersistenceDiagram, PersistenceFeature};
pub use rips::{Simplex, VietorisRipsComplex};
