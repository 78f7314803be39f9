//! Topological merger: combine N belief states using persistent homology.
use vstd::prelude::*;

use crate::belief::{label_view, rejected_point, BeliefError, BeliefState};
use crate::confidence::{built_from, level_of, ConfidenceLevel, ConfidenceMap, FeatureConfidence, CONFIRMED_SCORE};
use crate::distance::{kernel_matrix, DistanceError, DistanceMatrix, Metric};
use crate::persistence::{diagram_features, PersistenceDiagram, PersistenceFeature};

verus! {

/// Result of a topological merge.
#[derive(Debug, PartialEq)]
pub struct MergeResult {
    /// The merged belief state.
    pub merged_belief: BeliefState,
    /// Persistence diagram of the merged state.
    pub merged_diagram: PersistenceDiagram,
    /// Confidence scores for merged features.
    pub confidence: ConfidenceMap,
    /// Distance metric used.
    pub metric: Metric,
    /// Number of input agents.
    pub agent_count: usize,
}

/// Parameters for the merge algorithm.
#[derive(Debug, Clone, Copy, PartialEq, Eq, Structural)]
pub struct MergeParams {
    /// Distance metric to use.
    pub metric: Metric,
    /// Minimum number of agents that must observe a feature for it to be "confirmed".
    pub consensus_threshold: usize,
}

/// Topological merger for combining agent belief states.
#[derive(Debug, Clone)]
pub struct TopologicalMerger {
    params: MergeParams,
}

/// Errors during merging.
#[derive(Debug, Clone, PartialEq, Eq, Structural)]
pub enum MergeError {
    /// No belief state was given.
    NoAgents,
    /// An agent's dimension differs from the first agent's.
    DimensionMismatch { agent: usize, expected: usize, actual: usize },
    /// The union of the belief states has no point.
    EmptyUnion,
    /// Two belief states could not be united.
    BeliefError(BeliefError),
    /// The distance matrix of the union could not be built.
    DistanceError(DistanceError),
}

impl Default for MergeParams {
    fn default() -> (r: Self)
        ensures
            r == (MergeParams { metric: Metric::Euclidean, consensus_threshold: 2 }),
    {
        MergeParams { metric: Metric::Euclidean, consensus_threshold: 2 }
    }
}

impl Default for TopologicalMerger {
    fn default() -> (m: Self)
        ensures
            m.params() == (MergeParams { metric: Metric::Euclidean, consensus_threshold: 2 }),
    {
        Self::new()
    }
}

/// The points of the first `k` beliefs, one belief after the other.
pub open spec fn union_cloud(bs: Seq<BeliefState>, k: nat) -> Seq<(Seq<u64>, u64)>
    decreases k,
{
    if k == 0 {
        Seq::empty()
    } else {
        union_cloud(bs, (k - 1) as nat) + bs[k - 1].cloud()
    }
}

/// The dimension of the union of the first `k >= 1` beliefs: the first dimension that is not 0.
pub open spec fn union_dimension(bs: Seq<BeliefState>, k: nat) -> usize
    decreases k,
{
    if k <= 1 {
        bs[0].dimension
    } else {
        let d = union_dimension(bs, (k - 1) as nat);
        if d == 0 {
            bs[k - 1].dimension
        } else {
            d
        }
    }
}

/// Uniting the union of the first `t` beliefs with belief `t` fails: both dimensions are set and
/// they differ.
pub open spec fn union_step_fails(bs: Seq<BeliefState>, t: int) -> bool {
    let d = union_dimension(bs, t as nat);
    d != 0 && bs[t].dimension != 0 && d != bs[t].dimension
}

/// The label of the union of the first `k >= 1` beliefs: the first belief's own when it stands
/// alone, none otherwise.
pub open spec fn union_label(bs: Seq<BeliefState>, k: nat) -> Option<Seq<char>> {
    if k == 1 {
        label_view(bs[0].agent_id)
    } else {
        None
    }
}

/// The coordinates of each point.
pub open spec fn coords_of(cloud: Seq<(Seq<u64>, u64)>) -> Seq<Seq<u64>> {
    cloud.map_values(|p: (Seq<u64>, u64)| p.0)
}

/// All points have the dimension of the first one.
pub open spec fn points_uniform(ps: Seq<Seq<u64>>) -> bool {
    forall|k: int| 0 <= k < ps.len() ==> #[trigger] ps[k].len() == ps[0].len()
}

/// `pd` is the persistence diagram of the points `points` under the kernel `distance`.
pub open spec fn diagram_of_points<F: Fn(Metric, &Vec<u64>, &Vec<u64>) -> u64>(
    pd: PersistenceDiagram,
    points: Seq<Seq<u64>>,
    metric: Metric,
    distance: &F,
) -> bool {
    exists|c: Seq<Vec<u64>>, dm: DistanceMatrix|
        {
            &&& c.map_values(|v: Vec<u64>| v@) == points
            &&& #[trigger] kernel_matrix(dm, c, metric, distance)
            &&& pd.features@ == diagram_features(dm)
        }
}

/// The beliefs that hold at least one point.
pub open spec fn nonempty_beliefs(bs: Seq<BeliefState>) -> Seq<BeliefState> {
    bs.filter(|b: BeliefState| b.points@.len() > 0)
}

/// `ind` holds, in order, the diagram of each belief that holds a point.
pub open spec fn agent_diagrams<F: Fn(Metric, &Vec<u64>, &Vec<u64>) -> u64>(
    ind: Seq<PersistenceDiagram>,
    bs: Seq<BeliefState>,
    metric: Metric,
    distance: &F,
) -> bool {
    &&& ind.len() == nonempty_beliefs(bs).len()
    &&& forall|t: int|
        0 <= t < ind.len() ==> diagram_of_points(
            #[trigger] ind[t],
            coords_of(nonempty_beliefs(bs)[t].cloud()),
            metric,
            distance,
        )
}

/// The first agent whose dimension differs from the first agent's.
pub open spec fn first_other_dimension(bs: Seq<BeliefState>, i: int) -> bool {
    &&& 0 < i < bs.len()
    &&& bs[i].dimension != bs[0].dimension
    &&& forall|t: int| 0 <= t < i ==> #[trigger] bs[t].dimension == bs[0].dimension
}

/// Every agent has the first agent's dimension.
pub open spec fn same_dimensions(bs: Seq<BeliefState>) -> bool {
    forall|t: int| 0 <= t < bs.len() ==> #[trigger] bs[t].dimension == bs[0].dimension
}

/// Agents that all share one dimension always unite, and their union has that dimension.
pub proof fn law_same_dimension_unites(bs: Seq<BeliefState>, k: nat)
    requires
        1 <= k <= bs.len(),
        same_dimensions(bs),
    ensures
        union_dimension(bs, k) == bs[0].dimension,
        forall|t: int| 1 <= t < k ==> !#[trigger] union_step_fails(bs, t),
    decreases k,
{
    if k > 1 {
        law_same_dimension_unites(bs, (k - 1) as nat);
        assert(bs[k - 1].dimension == bs[0].dimension);
    }
}

/// The level of a feature once `threshold` observing agents are asked for: a confirmed feature
/// that fewer agents observe is only provisional.
pub open spec fn consensus_level(level: ConfidenceLevel, agent_count: usize, threshold: usize) -> ConfidenceLevel {
    if level == ConfidenceLevel::Confirmed && agent_count < threshold {
        ConfidenceLevel::Provisional
    } else {
        level
    }
}

/// `map` is `built` with each level lowered by [`consensus_level`] under `threshold`, all else kept.
pub open spec fn thresholded(map: ConfidenceMap, built: ConfidenceMap, threshold: usize) -> bool {
    &&& map.total_agents == built.total_agents
    &&& map.scores@.len() == built.scores@.len()
    &&& forall|k: int|
        0 <= k < map.scores@.len() ==> {
            let b = #[trigger] built.scores@[k];
            map.scores@[k] == FeatureConfidence {
                level: consensus_level(b.level, b.agent_count, threshold),
                ..b
            }
        }
}

/// Lowers to provisional every confirmed score that fewer than `threshold` agents observe.
fn require_consensus(built: &ConfidenceMap, threshold: usize) -> (r: ConfidenceMap)
    ensures
        thresholded(r, *built, threshold),
{
    let mut scores: Vec<FeatureConfidence> = Vec::new();
    let mut k: usize = 0;
    while k < built.scores.len()
        invariant
            k <= built.scores@.len(),
            scores@.len() == k,
            forall|t: int|
                0 <= t < k ==> {
                    let b = #[trigger] built.scores@[t];
                    scores@[t] == FeatureConfidence {
                        level: consensus_level(b.level, b.agent_count, threshold),
                        ..b
                    }
                },
        decreases built.scores@.len() - k,
    {
        let mut s = built.scores[k];
        if s.level == ConfidenceLevel::Confirmed && s.agent_count < threshold {
            s.level = ConfidenceLevel::Provisional;
        }
        scores.push(s);
        k = k + 1;
    }
    ConfidenceMap { scores, total_agents: built.total_agents }
}

/// Whenever `merge` succeeds, `quick_merge` succeeds too, with the same union: every union step
/// succeeds, and the union has the first agent's dimension, which is the dimension of `merge`'s
/// merged belief (both give the points `union_cloud` and the label `union_label`).
pub proof fn law_quick_merge_matches_merge(bs: Seq<BeliefState>)
    requires
        bs.len() > 0,
        same_dimensions(bs),
        union_cloud(bs, bs.len()).len() > 0,
        points_uniform(coords_of(union_cloud(bs, bs.len()))),
    ensures
        forall|t: int| 1 <= t < bs.len() ==> !#[trigger] union_step_fails(bs, t),
        union_dimension(bs, bs.len()) == bs[0].dimension,
{
    law_same_dimension_unites(bs, bs.len());
}

/// Every point of the union comes from one of the beliefs.
proof fn lemma_union_from(bs: Seq<BeliefState>, k: nat, j: int)
    requires
        k <= bs.len(),
        0 <= j < union_cloud(bs, k).len(),
    ensures
        exists|t: int| 0 <= t < k && #[trigger] bs[t].cloud().contains(union_cloud(bs, k)[j]),
    decreases k,
{
    let prev = union_cloud(bs, (k - 1) as nat);
    let last = bs[k - 1].cloud();
    if j < prev.len() {
        lemma_union_from(bs, (k - 1) as nat, j);
        assert(union_cloud(bs, k)[j] == prev[j]);
    } else {
        assert(union_cloud(bs, k)[j] == last[j - prev.len()]);
        assert(bs[k - 1].cloud().contains(union_cloud(bs, k)[j]));
    }
}

/// The union of beliefs of one dimension, each consistent, is consistent in that dimension.
proof fn lemma_union_consistent(bs: Seq<BeliefState>)
    requires
        bs.len() > 0,
        same_dimensions(bs),
        forall|t: int| 0 <= t < bs.len() ==> (#[trigger] bs[t]).consistent(),
    ensures
        forall|j: int|
            0 <= j < union_cloud(bs, bs.len()).len() ==> !rejected_point(
                #[trigger] union_cloud(bs, bs.len())[j],
                bs[0].dimension as nat,
            ),
{
    let u = union_cloud(bs, bs.len());
    assert forall|j: int| 0 <= j < u.len() implies !rejected_point(
        #[trigger] u[j],
        bs[0].dimension as nat,
    ) by {
        lemma_union_from(bs, bs.len(), j);
        let t = choose|t: int| 0 <= t < bs.len() && #[trigger] bs[t].cloud().contains(u[j]);
        let q = choose|q: int| 0 <= q < bs[t].cloud().len() && bs[t].cloud()[q] == u[j];
        assert(bs[t].dimension == bs[0].dimension);
        assert(!rejected_point(bs[t].cloud()[q], bs[t].dimension as nat));
    }
}

/// Every point of a belief, and at least its number of points, is in the union.
proof fn lemma_union_holds(bs: Seq<BeliefState>, k: nat, t: int)
    requires
        0 <= t < k <= bs.len(),
    ensures
        union_cloud(bs, k).len() >= bs[t].cloud().len(),
        forall|j: int|
            0 <= j < bs[t].cloud().len() ==> union_cloud(bs, k).contains(#[trigger] bs[t].cloud()[j]),
    decreases k,
{
    let prev = union_cloud(bs, (k - 1) as nat);
    let last = bs[k - 1].cloud();
    if t == k - 1 {
        assert forall|j: int| 0 <= j < last.len() implies union_cloud(bs, k).contains(
            #[trigger] last[j],
        ) by {
            assert(union_cloud(bs, k)[prev.len() + j] == last[j]);
        }
    } else {
        lemma_union_holds(bs, (k - 1) as nat, t);
        assert forall|j: int| 0 <= j < bs[t].cloud().len() implies union_cloud(bs, k).contains(
            #[trigger] bs[t].cloud()[j],
        ) by {
            let q = choose|q: int| 0 <= q < prev.len() && prev[q] == bs[t].cloud()[j];
            assert(union_cloud(bs, k)[q] == prev[q]);
        }
    }
}

proof fn lemma_pairs_fit(m: int, big: int)
    requires
        0 <= m <= big,
        big * (big - 1) <= usize::MAX,
    ensures
        m * (m - 1) <= usize::MAX,
{
    if m >= 1 {
        assert(m * (m - 1) <= big * (big - 1)) by (nonlinear_arith)
            requires
                1 <= m <= big,
        ;
    } else {
        assert(m * (m - 1) == 0) by (nonlinear_arith)
            requires
                m == 0,
        ;
    }
}

/// The coordinates of a belief's points, as owned vectors.
fn point_coords(b: &BeliefState) -> (c: Vec<Vec<u64>>)
    ensures
        c@.map_values(|v: Vec<u64>| v@) == coords_of(b.cloud()),
{
    let c = b.coords();
    proof {
        assert(c@.map_values(|v: Vec<u64>| v@) =~= coords_of(b.cloud()));
    }
    c
}

/// Unites all beliefs, in order.
fn union_all(beliefs: &[BeliefState]) -> (r: Result<BeliefState, MergeError>)
    requires
        beliefs@.len() > 0,
    ensures
        r is Ok <==> forall|t: int| 1 <= t < beliefs@.len() ==> !#[trigger] union_step_fails(beliefs@, t),
        r matches Ok(u) ==> {
            &&& u.cloud() == union_cloud(beliefs@, beliefs@.len())
            &&& u.dimension == union_dimension(beliefs@, beliefs@.len())
            &&& label_view(u.agent_id) == union_label(beliefs@, beliefs@.len())
        },
        r matches Err(e) ==> exists|t: int|
            {
                &&& 1 <= t < beliefs@.len()
                &&& #[trigger] union_step_fails(beliefs@, t)
                &&& forall|s: int| 1 <= s < t ==> !#[trigger] union_step_fails(beliefs@, s)
                &&& e == MergeError::BeliefError(
                    BeliefError::DimensionMismatch {
                        expected: union_dimension(beliefs@, t as nat),
                        actual: beliefs@[t].dimension,
                    },
                )
            },
{
    let mut u = beliefs[0].clone();
    proof {
        assert(union_cloud(beliefs@, 0) == Seq::<(Seq<u64>, u64)>::empty());
        assert(union_cloud(beliefs@, 1) == union_cloud(beliefs@, 0) + beliefs@[0].cloud());
        assert(union_cloud(beliefs@, 1) =~= beliefs@[0].cloud());
    }
    let mut t: usize = 1;
    while t < beliefs.len()
        invariant
            1 <= t <= beliefs@.len(),
            u.cloud() == union_cloud(beliefs@, t as nat),
            u.dimension == union_dimension(beliefs@, t as nat),
            label_view(u.agent_id) == union_label(beliefs@, t as nat),
            forall|s: int| 1 <= s < t ==> !#[trigger] union_step_fails(beliefs@, s),
        decreases beliefs@.len() - t,
    {
        match u.union(&beliefs[t]) {
            Ok(next) => {
                u = next;
            },
            Err(e) => {
                proof {
                    assert(union_step_fails(beliefs@, t as int));
                }
                return Err(MergeError::BeliefError(e));
            },
        }
        t = t + 1;
    }
    Ok(u)
}

impl TopologicalMerger {
    /// The merger's parameters.
    pub closed spec fn params(&self) -> MergeParams {
        self.params
    }

    /// Create a new merger with default parameters.
    pub fn new() -> (m: Self)
        ensures
            m.params() == (MergeParams { metric: Metric::Euclidean, consensus_threshold: 2 }),
    {
        TopologicalMerger { params: MergeParams::default() }
    }

    /// Create a merger with custom parameters.
    pub fn with_params(params: MergeParams) -> (m: Self)
        ensures
            m.params() == params,
    {
        TopologicalMerger { params }
    }

    /// Merge multiple belief states into one.
    ///
    /// 1. check that all agents share the first agent's dimension;
    /// 2. unite the beliefs, in order;
    /// 3. build the distance matrix of the union with the metric kernel `distance`;
    /// 4. compute the persistence diagram of the union;
    /// 5. compute the diagram of each agent that holds a point;
    /// 6. score the union's features against the agents' diagrams with [`ConfidenceMap::build`],
    ///    given `persistence`, `proximity`, `mean` and `rate`;
    /// 7. keep as confirmed only the features that at least `consensus_threshold` agents observe:
    ///    the others with a confirming score are provisional.
    pub fn merge<F, Pe, P, M, R>(
        &self,
        beliefs: &[BeliefState],
        distance: &F,
        persistence: &Pe,
        proximity: &P,
        mean: &M,
        rate: &R,
    ) -> (r: Result<MergeResult, MergeError>) where
        F: Fn(Metric, &Vec<u64>, &Vec<u64>) -> u64,
        Pe: Fn(&PersistenceFeature) -> u64,
        P: Fn(&PersistenceFeature, &PersistenceFeature) -> u64,
        M: Fn(&Vec<u64>) -> u64,
        R: Fn(u64, u64, usize, usize, u64) -> u64,

        requires
            union_cloud(beliefs@, beliefs@.len()).len() * (union_cloud(beliefs@, beliefs@.len()).len()
                - 1) <= usize::MAX,
            forall|m: Metric, a: &Vec<u64>, b: &Vec<u64>| #[trigger] distance.requires((m, a, b)),
            forall|f: &PersistenceFeature| #[trigger] persistence.requires((f,)),
            forall|x: &PersistenceFeature, y: &PersistenceFeature| #[trigger] proximity.requires((x, y)),
            forall|v: &Vec<u64>| #[trigger] mean.requires((v,)),
            forall|p: u64, m: u64, c: usize, t: usize, x: u64| #[trigger] rate.requires((p, m, c, t, x)),
        ensures
            r == Err::<MergeResult, MergeError>(MergeError::NoAgents) <==> beliefs@.len() == 0,
            beliefs@.len() > 0 && !same_dimensions(beliefs@) ==> exists|i: int|
                #[trigger] first_other_dimension(beliefs@, i) && r == Err::<MergeResult, MergeError>(
                    MergeError::DimensionMismatch {
                        agent: i as usize,
                        expected: beliefs@[0].dimension,
                        actual: beliefs@[i].dimension,
                    },
                ),
            beliefs@.len() > 0 && same_dimensions(beliefs@) ==> (r == Err::<
                MergeResult,
                MergeError,
            >(MergeError::EmptyUnion) <==> union_cloud(beliefs@, beliefs@.len()).len() == 0),
            ({
                let u = coords_of(union_cloud(beliefs@, beliefs@.len()));
                beliefs@.len() > 0 && same_dimensions(beliefs@) && u.len() > 0 && !points_uniform(u)
                    ==> exists|k: int|
                    {
                        &&& 0 < k < u.len()
                        &&& #[trigger] u[k].len() != u[0].len()
                        &&& forall|t: int| 0 <= t < k ==> #[trigger] u[t].len() == u[0].len()
                        &&& r == Err::<MergeResult, MergeError>(
                            MergeError::DistanceError(
                                DistanceError::DimensionMismatch {
                                    index: k as usize,
                                    expected: u[0].len() as usize,
                                    actual: u[k].len() as usize,
                                },
                            ),
                        )
                    }
            }),
            r is Ok <==> {
                let u = coords_of(union_cloud(beliefs@, beliefs@.len()));
                beliefs@.len() > 0 && same_dimensions(beliefs@) && u.len() > 0 && points_uniform(u)
            },
            r matches Ok(res) ==> {
                &&& res.merged_belief.cloud() == union_cloud(beliefs@, beliefs@.len())
                &&& res.merged_belief.dimension == beliefs@[0].dimension
                &&& (forall|t: int| 0 <= t < beliefs@.len() ==> (#[trigger] beliefs@[t]).consistent())
                    ==> res.merged_belief.consistent()
                &&& label_view(res.merged_belief.agent_id) == union_label(beliefs@, beliefs@.len())
                &&& res.metric == self.params().metric
                &&& res.agent_count == beliefs@.len()
                &&& diagram_of_points(
                    res.merged_diagram,
                    coords_of(union_cloud(beliefs@, beliefs@.len())),
                    self.params().metric,
                    distance,
                )
                &&& exists|ind: Seq<PersistenceDiagram>, built: ConfidenceMap|
                    {
                        &&& #[trigger] agent_diagrams(ind, beliefs@, self.params().metric, distance)
                        &&& #[trigger] built_from(
                            built,
                            res.merged_diagram.features@,
                            ind,
                            persistence,
                            proximity,
                            mean,
                            rate,
                        )
                        &&& thresholded(res.confidence, built, self.params().consensus_threshold)
                    }
                &&& forall|k: int|
                    0 <= k < res.confidence.scores@.len() && (#[trigger] res.confidence.scores@[k]).level
                        == ConfidenceLevel::Confirmed ==> {
                        &&& res.confidence.scores@[k].agent_count >= self.params().consensus_threshold
                        &&& crate::ieee::float_le(CONFIRMED_SCORE, res.confidence.scores@[k].score)
                    }
            },
    {
        if beliefs.len() == 0 {
            return Err(MergeError::NoAgents);
        }
        let metric = self.params.metric;
        let dim = beliefs[0].dimension;
        let mut i: usize = 0;
        while i < beliefs.len()
            invariant
                i <= beliefs@.len(),
                beliefs@.len() > 0,
                dim == beliefs@[0].dimension,
                forall|t: int| 0 <= t < i ==> #[trigger] beliefs@[t].dimension == dim,
            decreases beliefs@.len() - i,
        {
            if beliefs[i].dimension != dim {
                proof {
                    assert(first_other_dimension(beliefs@, i as int));
                }
                return Err(
                    MergeError::DimensionMismatch {
                        agent: i,
                        expected: dim,
                        actual: beliefs[i].dimension,
                    },
                );
            }
            i = i + 1;
        }
        proof {
            law_same_dimension_unites(beliefs@, beliefs@.len());
        }
        let ghost whole = union_cloud(beliefs@, beliefs@.len());
        let ghost u = coords_of(whole);
        let union_belief = match union_all(beliefs) {
            Ok(b) => b,
            Err(_) => vstd::pervasive::unreached(),
        };
        if union_belief.is_empty() {
            return Err(MergeError::EmptyUnion);
        }
        let coords = point_coords(&union_belief);
        proof {
            assert(coords@.len() == u.len());
            assert forall|k: int| 0 <= k < coords@.len() implies #[trigger] coords@[k].len() == u[k].len() by {
                assert(coords@.map_values(|v: Vec<u64>| v@)[k] == u[k]);
            }
            if crate::distance::uniform_dimension(coords@) {
                assert forall|k: int| 0 <= k < u.len() implies #[trigger] u[k].len() == u[0].len() by {
                    assert(coords@[k].len() == coords@[0].len());
                }
            }
            if points_uniform(u) {
                assert forall|k: int| 0 <= k < coords@.len() implies #[trigger] coords@[k].len()
                    == coords@[0].len() by {
                    assert(u[k].len() == u[0].len());
                }
            }
        }
        let dm = match DistanceMatrix::compute(&coords, metric, distance) {
            Ok(dm) => dm,
            Err(e) => {
                proof {
                    let k = choose|k: int|
                        {
                            &&& 0 < k < coords@.len()
                            &&& #[trigger] coords@[k].len() != coords@[0].len()
                            &&& forall|t: int|
                                0 <= t < k ==> #[trigger] coords@[t].len() == coords@[0].len()
                            &&& e == DistanceError::DimensionMismatch {
                                index: k as usize,
                                expected: coords@[0].len(),
                                actual: coords@[k].len(),
                            }
                        };
                    assert(u[k].len() != u[0].len());
                    assert forall|t: int| 0 <= t < k implies #[trigger] u[t].len() == u[0].len() by {
                        assert(coords@[t].len() == coords@[0].len());
                    }
                }
                return Err(MergeError::DistanceError(e));
            },
        };
        let merged_diagram = PersistenceDiagram::compute(&dm);
        proof {
            assert(kernel_matrix(dm, coords@, metric, distance));
        }
        let mut individual: Vec<PersistenceDiagram> = Vec::new();
        let mut t: usize = 0;
        proof {
            assert(beliefs@.take(0) =~= Seq::<BeliefState>::empty());
            reveal(Seq::filter);
            assert(nonempty_beliefs(beliefs@.take(0)) =~= Seq::<BeliefState>::empty());
        }
        while t < beliefs.len()
            invariant
                t <= beliefs@.len(),
                beliefs@.len() > 0,
                whole == union_cloud(beliefs@, beliefs@.len()),
                u == coords_of(whole),
                u.len() > 0,
                points_uniform(u),
                whole.len() * (whole.len() - 1) <= usize::MAX,
                forall|m: Metric, a: &Vec<u64>, b: &Vec<u64>| #[trigger] distance.requires((m, a, b)),
                agent_diagrams(individual@, beliefs@.take(t as int), metric, distance),
            decreases beliefs@.len() - t,
        {
            let ghost prev = individual@;
            proof {
                assert(beliefs@.take(t + 1) == beliefs@.take(t as int).push(beliefs@[t as int]));
                beliefs@.take(t as int).lemma_filter_push(
                    beliefs@[t as int],
                    |b: BeliefState| b.points@.len() > 0,
                );
            }
            if !beliefs[t].is_empty() {
                let c = point_coords(&beliefs[t]);
                let ghost pts = coords_of(beliefs@[t as int].cloud());
                proof {
                    lemma_union_holds(beliefs@, beliefs@.len(), t as int);
                    assert(c@.map_values(|v: Vec<u64>| v@).len() == pts.len());
                    assert(c@.len() == pts.len());
                    lemma_pairs_fit(c@.len() as int, whole.len() as int);
                    assert forall|k: int| 0 <= k < c@.len() implies #[trigger] c@[k].len()
                        == c@[0].len() by {
                        assert(c@.map_values(|v: Vec<u64>| v@)[k] == pts[k]);
                        assert(c@.map_values(|v: Vec<u64>| v@)[0] == pts[0]);
                        let cl = beliefs@[t as int].cloud();
                        assert(whole.contains(cl[k]));
                        assert(whole.contains(cl[0]));
                        let qk = choose|q: int| 0 <= q < whole.len() && whole[q] == cl[k];
                        let q0 = choose|q: int| 0 <= q < whole.len() && whole[q] == cl[0];
                        assert(u[qk] == cl[k].0);
                        assert(u[q0] == cl[0].0);
                    }
                }
                let agent_dm = match DistanceMatrix::compute(&c, metric, distance) {
                    Ok(d) => d,
                    Err(_) => vstd::pervasive::unreached(),
                };
                let pd = PersistenceDiagram::compute(&agent_dm);
                proof {
                    assert(kernel_matrix(agent_dm, c@, metric, distance));
                    assert(diagram_of_points(pd, pts, metric, distance));
                }
                individual.push(pd);
                proof {
                    let ne = nonempty_beliefs(beliefs@.take(t + 1));
                    assert(ne == nonempty_beliefs(beliefs@.take(t as int)).push(beliefs@[t as int]));
                    assert forall|q: int| 0 <= q < individual@.len() implies diagram_of_points(
                        #[trigger] individual@[q],
                        coords_of(ne[q].cloud()),
                        metric,
                        distance,
                    ) by {
                        if q < prev.len() {
                            assert(individual@[q] == prev[q]);
                        }
                    }
                }
            } else {
                proof {
                    assert(nonempty_beliefs(beliefs@.take(t + 1)) == nonempty_beliefs(
                        beliefs@.take(t as int),
                    ));
                }
            }
            t = t + 1;
        }
        proof {
            assert(beliefs@.take(beliefs@.len() as int) == beliefs@);
        }
        let built = ConfidenceMap::build(&merged_diagram, &individual, persistence, proximity, mean, rate);
        let confidence = require_consensus(&built, self.params.consensus_threshold);
        proof {
            assert(built_from(
                built,
                merged_diagram.features@,
                individual@,
                persistence,
                proximity,
                mean,
                rate,
            ));
            let pers = choose|pers: Seq<u64>|
                #[trigger] crate::confidence::persistences(merged_diagram.features@, pers, persistence)
                    && forall|k: int|
                    0 <= k < built.scores@.len() ==> crate::confidence::rated(
                        #[trigger] built.scores@[k],
                        merged_diagram.features@,
                        k,
                        individual@,
                        crate::confidence::finite_max(merged_diagram.features@, pers, merged_diagram.features@.len()),
                        persistence,
                        proximity,
                        mean,
                        rate,
                    );
            assert forall|k: int|
                0 <= k < confidence.scores@.len() && (#[trigger] confidence.scores@[k]).level
                    == ConfidenceLevel::Confirmed implies confidence.scores@[k].agent_count
                >= self.params.consensus_threshold && crate::ieee::float_le(
                CONFIRMED_SCORE,
                confidence.scores@[k].score,
            ) by {
                assert(crate::confidence::rated(
                    built.scores@[k],
                    merged_diagram.features@,
                    k,
                    individual@,
                    crate::confidence::finite_max(merged_diagram.features@, pers, merged_diagram.features@.len()),
                    persistence,
                    proximity,
                    mean,
                    rate,
                ));
            }
            assert(agent_diagrams(individual@, beliefs@, metric, distance));
            if forall|t: int| 0 <= t < beliefs@.len() ==> (#[trigger] beliefs@[t]).consistent() {
                lemma_union_consistent(beliefs@);
            }
            assert(thresholded(confidence, built, self.params().consensus_threshold));
            assert(agent_diagrams(individual@, beliefs@, self.params().metric, distance));
            assert(exists|ind: Seq<PersistenceDiagram>, b: ConfidenceMap|
                {
                    &&& #[trigger] agent_diagrams(ind, beliefs@, self.params().metric, distance)
                    &&& #[trigger] built_from(
                        b,
                        merged_diagram.features@,
                        ind,
                        persistence,
                        proximity,
                        mean,
                        rate,
                    )
                    &&& thresholded(confidence, b, self.params().consensus_threshold)
                });
        }
        let res = MergeResult {
            merged_belief: union_belief,
            merged_diagram,
            confidence,
            metric,
            agent_count: beliefs.len(),
        };
        proof {
            assert(res.merged_belief.cloud() == union_cloud(beliefs@, beliefs@.len()));
            assert(res.merged_belief.dimension == beliefs@[0].dimension);
            assert(label_view(res.merged_belief.agent_id) == union_label(beliefs@, beliefs@.len()));
            assert(diagram_of_points(
                res.merged_diagram,
                coords_of(union_cloud(beliefs@, beliefs@.len())),
                self.params().metric,
                distance,
            ));
        }
        Ok(res)
    }

    /// Quick merge without persistence: just the union of the beliefs, in order.
    pub fn quick_merge(&self, beliefs: &[BeliefState]) -> (r: Result<BeliefState, MergeError>)
        ensures
            r == Err::<BeliefState, MergeError>(MergeError::NoAgents) <==> beliefs@.len() == 0,
            beliefs@.len() > 0 ==> (r is Ok <==> forall|t: int|
                1 <= t < beliefs@.len() ==> !#[trigger] union_step_fails(beliefs@, t)),
            r matches Ok(u) ==> {
                &&& u.cloud() == union_cloud(beliefs@, beliefs@.len())
                &&& u.dimension == union_dimension(beliefs@, beliefs@.len())
                &&& label_view(u.agent_id) == union_label(beliefs@, beliefs@.len())
            },
            beliefs@.len() > 0 ==> (r matches Err(e) ==> exists|t: int|
                {
                    &&& 1 <= t < beliefs@.len()
                    &&& #[trigger] union_step_fails(beliefs@, t)
                    &&& forall|s: int| 1 <= s < t ==> !#[trigger] union_step_fails(beliefs@, s)
                    &&& e == MergeError::BeliefError(
                        BeliefError::DimensionMismatch {
                            expected: union_dimension(beliefs@, t as nat),
                            actual: beliefs@[t].dimension,
                        },
                    )
                }),
    {
        if beliefs.len() == 0 {
            return Err(MergeError::NoAgents);
        }
        union_all(beliefs)
    }
}

} // verus!
