# topo_merge

Topological merging of agent belief states by persistent homology, written in
Verus.

Several agents each hold a belief state, a weighted point cloud. The library
unites the clouds, builds the distance matrix of the union, computes its
Vietoris-Rips persistence (H0 components and H1 loops), and scores each feature
by how well the agents' own diagrams agree with it.

## Layout

- `src/` — the verified library.
  - `ieee.rs`: real numbers as binary64 bit patterns, and their IEEE order.
  - `sorting.rs`: stable ordering by key.
  - `belief.rs`: belief states.
  - `distance.rs`: upper-triangle distance matrices.
  - `components.rs`: connected components, as a labelling and as a union-find forest.
  - `rips.rs`: Vietoris-Rips complexes and filtrations.
  - `matching.rs`: exact bottleneck matchings between two lists of features.
  - `persistence.rs`: persistence diagrams, barcodes, bottleneck distance.
  - `confidence.rs`: confidence levels.
  - `merge.rs`: the merger.
- `app/` — the floating-point side: metric kernels, weighted centroid and spread,
  confidence scores, `Display`, and serde/thiserror forms of the types.
- `tests/` — tests of the library.

The library never does arithmetic on real numbers; it only compares them. The
arithmetic is handed to it by the caller as functions: the distance kernel
(`DistanceMatrix::compute`), the distances between features
(`PersistenceDiagram::bottleneck_distance`), and a feature's persistence, the
proximity of two features, the mean of proximities and the score formula
(`ConfidenceMap::build`, `TopologicalMerger::merge`). Counting the agents that
observe a feature, the levels, and the consensus threshold of a merge are the
library's own, verified. The contracts state each result in terms of what
those functions return, and fix what each of them is given.
