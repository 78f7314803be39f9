//! Confidence levels of merged topological features.
use vstd::prelude::*;

use crate::ieee::{self, float_le, float_lt, float_max, is_finite, ZERO};
use crate::persistence::{PersistenceDiagram, PersistenceFeature};

verus! {

/// Confidence level for a merged feature.
#[derive(Debug, Clone, Copy, PartialEq, Eq, Hash, Structural)]
pub enum ConfidenceLevel {
    /// Feature observed by many agents with high persistence.
    Confirmed,
    /// Feature observed by some agents, moderate persistence.
    Provisional,
    /// Feature not well-supported, low persistence or few observers.
    Rejected,
}

/// A confidence score for a single merged feature.
#[derive(Debug, Clone, Copy, PartialEq, Eq, Structural)]
pub struct FeatureConfidence {
    /// Index of the feature in the merged diagram.
    pub feature_index: usize,
    /// The persistence feature.
    pub feature: PersistenceFeature,
    /// How many agents observed this feature.
    pub agent_count: usize,
    /// Total number of agents.
    pub total_agents: usize,
    /// Persistence value (death - birth).
    pub persistence: u64,
    /// Proximity score: how close agents' individual features are (0-1).
    pub proximity: u64,
    /// Raw confidence score (0-1).
    pub score: u64,
    /// Categorized confidence level.
    pub level: ConfidenceLevel,
}

/// A map from features to confidence scores.
#[derive(Debug, Clone, PartialEq)]
pub struct ConfidenceMap {
    /// Confidence scores for each feature.
    pub scores: Vec<FeatureConfidence>,
    /// Total number of agents.
    pub total_agents: usize,
}

/// The least score of a confirmed feature: `0.6`.
pub const CONFIRMED_SCORE: u64 = 0x3FE3_3333_3333_3333;

/// The least score of a provisional feature: `0.3`.
pub const PROVISIONAL_SCORE: u64 = 0x3FD3_3333_3333_3333;

/// The level of a score: confirmed from `0.6` up, provisional from `0.3` up, rejected below
/// (and for a score that is not a number).
pub open spec fn level_of(score: u64) -> ConfidenceLevel {
    if float_le(CONFIRMED_SCORE, score) {
        ConfidenceLevel::Confirmed
    } else if float_le(PROVISIONAL_SCORE, score) {
        ConfidenceLevel::Provisional
    } else {
        ConfidenceLevel::Rejected
    }
}

/// The scores at one level, in order.
pub open spec fn scores_at(scores: Seq<FeatureConfidence>, level: ConfidenceLevel) -> Seq<
    FeatureConfidence,
> {
    scores.filter(|s: FeatureConfidence| s.level == level)
}

/// `f64::max`, from `+0.0`, over the persistences `pers[t]` of those of the first `k` features of
/// `fs` whose death is finite.
pub open spec fn finite_max(fs: Seq<PersistenceFeature>, pers: Seq<u64>, k: nat) -> u64
    decreases k,
{
    if k == 0 {
        ZERO
    } else {
        let acc = finite_max(fs, pers, (k - 1) as nat);
        if is_finite(fs[k - 1].death) {
            float_max(acc, pers[k - 1])
        } else {
            acc
        }
    }
}

/// `pers` holds, for each feature of `fs` whose death is finite, a persistence that `persistence`
/// returns for it.
pub open spec fn persistences<Pe: Fn(&PersistenceFeature) -> u64>(
    fs: Seq<PersistenceFeature>,
    pers: Seq<u64>,
    persistence: &Pe,
) -> bool {
    &&& pers.len() == fs.len()
    &&& forall|t: int|
        0 <= t < fs.len() && is_finite(fs[t].death) ==> persistence.ensures(
            (&fs[t],),
            #[trigger] pers[t],
        )
}

/// The proximity an agent's feature must pass for the agent to count as observing: `0.5`.
pub const OBSERVED_MATCH: u64 = 0x3FE0_0000_0000_0000;

/// The best match of a feature of dimension `dim` among the first `k` features of `fs`: `f64::max`,
/// from `+0.0`, of the proximities `row[j]` of those of dimension `dim`.
pub open spec fn best_match(dim: usize, fs: Seq<PersistenceFeature>, row: Seq<u64>, k: nat) -> u64
    decreases k,
{
    if k == 0 {
        ZERO
    } else {
        let acc = best_match(dim, fs, row, (k - 1) as nat);
        if fs[k - 1].dim == dim {
            float_max(acc, row[k - 1])
        } else {
            acc
        }
    }
}

/// `row[j]` is, for each feature `j` of `fs` of the dimension of `feature`, a proximity that
/// `proximity` returns for `feature` and it.
pub open spec fn proximity_row<P: Fn(&PersistenceFeature, &PersistenceFeature) -> u64>(
    feature: PersistenceFeature,
    fs: Seq<PersistenceFeature>,
    row: Seq<u64>,
    proximity: &P,
) -> bool {
    &&& row.len() == fs.len()
    &&& forall|j: int|
        0 <= j < fs.len() && fs[j].dim == feature.dim ==> proximity.ensures(
            (&feature, &fs[j]),
            #[trigger] row[j],
        )
}

/// `rows[d]` is a proximity row of `feature` against the features of diagram `d`.
pub open spec fn proximity_rows<P: Fn(&PersistenceFeature, &PersistenceFeature) -> u64>(
    feature: PersistenceFeature,
    diagrams: Seq<PersistenceDiagram>,
    rows: Seq<Seq<u64>>,
    proximity: &P,
) -> bool {
    &&& rows.len() == diagrams.len()
    &&& forall|d: int|
        0 <= d < diagrams.len() ==> proximity_row(
            feature,
            diagrams[d].features@,
            #[trigger] rows[d],
            proximity,
        )
}

/// The best match of `feature` in each diagram, from the proximity rows `rows`.
pub open spec fn best_matches(
    feature: PersistenceFeature,
    diagrams: Seq<PersistenceDiagram>,
    rows: Seq<Seq<u64>>,
) -> Seq<u64> {
    Seq::new(
        diagrams.len(),
        |d: int| best_match(feature.dim, diagrams[d].features@, rows[d], diagrams[d].features@.len()),
    )
}

/// The best matches above `0.5`: one per agent that observes the feature, in order.
pub open spec fn observed(best: Seq<u64>) -> Seq<u64> {
    best.filter(|b: u64| float_lt(OBSERVED_MATCH, b))
}

/// `agent_count` agents observe `feature` in `diagrams` (their best matches pass `0.5`), and
/// `prox` is `mean` of those best matches, or `+0.0` when there is none.
pub open spec fn observation<P, M>(
    agent_count: usize,
    prox: u64,
    feature: PersistenceFeature,
    diagrams: Seq<PersistenceDiagram>,
    proximity: &P,
    mean: &M,
) -> bool where
    P: Fn(&PersistenceFeature, &PersistenceFeature) -> u64,
    M: Fn(&Vec<u64>) -> u64,
 {
    exists|rows: Seq<Seq<u64>>|
        #[trigger] proximity_rows(feature, diagrams, rows, proximity) && {
            let seen = observed(best_matches(feature, diagrams, rows));
            &&& agent_count == seen.len()
            &&& if seen.len() == 0 {
                prox == ZERO
            } else {
                exists|v: Vec<u64>| v@ == seen && #[trigger] mean.ensures((&v,), prox)
            }
        }
}

/// `fc` is the rating of feature `k` of `fs` against the agents' `diagrams`: it names the feature,
/// its index and the number of agents; its agent count and proximity are the observation of the
/// feature; its persistence is what `persistence` returns for it; its score is what `rate` makes of
/// the persistence, `maxp`, the two counts and the proximity; its level is that of its score.
pub open spec fn rated<Pe, P, M, R>(
    fc: FeatureConfidence,
    fs: Seq<PersistenceFeature>,
    k: int,
    diagrams: Seq<PersistenceDiagram>,
    maxp: u64,
    persistence: &Pe,
    proximity: &P,
    mean: &M,
    rate: &R,
) -> bool where
    Pe: Fn(&PersistenceFeature) -> u64,
    P: Fn(&PersistenceFeature, &PersistenceFeature) -> u64,
    M: Fn(&Vec<u64>) -> u64,
    R: Fn(u64, u64, usize, usize, u64) -> u64,
 {
    &&& fc.feature_index == k
    &&& fc.feature == fs[k]
    &&& fc.total_agents == diagrams.len()
    &&& fc.agent_count <= diagrams.len()
    &&& fc.level == level_of(fc.score)
    &&& persistence.ensures((&fs[k],), fc.persistence)
    &&& rate.ensures((fc.persistence, maxp, fc.agent_count, fc.total_agents, fc.proximity), fc.score)
    &&& observation(fc.agent_count, fc.proximity, fs[k], diagrams, proximity, mean)
}

/// `map` is the confidence map of the features `merged` against the agents' `diagrams`, as
/// [`ConfidenceMap::build`] makes it: one rating per feature, in order, scaled by the largest
/// persistence of a feature with a finite death.
pub open spec fn built_from<Pe, P, M, R>(
    map: ConfidenceMap,
    merged: Seq<PersistenceFeature>,
    diagrams: Seq<PersistenceDiagram>,
    persistence: &Pe,
    proximity: &P,
    mean: &M,
    rate: &R,
) -> bool where
    Pe: Fn(&PersistenceFeature) -> u64,
    P: Fn(&PersistenceFeature, &PersistenceFeature) -> u64,
    M: Fn(&Vec<u64>) -> u64,
    R: Fn(u64, u64, usize, usize, u64) -> u64,
 {
    &&& map.total_agents == diagrams.len()
    &&& map.scores@.len() == merged.len()
    &&& exists|pers: Seq<u64>|
        #[trigger] persistences(merged, pers, persistence) && forall|k: int|
            0 <= k < map.scores@.len() ==> rated(
                #[trigger] map.scores@[k],
                merged,
                k,
                diagrams,
                finite_max(merged, pers, merged.len()),
                persistence,
                proximity,
                mean,
                rate,
            )
}

proof fn lemma_best_match_prefix(dim: usize, fs: Seq<PersistenceFeature>, a: Seq<u64>, b: Seq<u64>, k: nat)
    requires
        k <= a.len(),
        k <= b.len(),
        forall|t: int| 0 <= t < k ==> a[t] == b[t],
    ensures
        best_match(dim, fs, a, k) == best_match(dim, fs, b, k),
    decreases k,
{
    if k > 0 {
        lemma_best_match_prefix(dim, fs, a, b, (k - 1) as nat);
    }
}

/// The best match of `feature` among the features `fs`.
fn best_match_in<P: Fn(&PersistenceFeature, &PersistenceFeature) -> u64>(
    feature: &PersistenceFeature,
    fs: &Vec<PersistenceFeature>,
    proximity: &P,
) -> (r: u64)
    requires
        forall|x: &PersistenceFeature, y: &PersistenceFeature| #[trigger] proximity.requires((x, y)),
    ensures
        exists|row: Seq<u64>|
            #[trigger] proximity_row(*feature, fs@, row, proximity) && r == best_match(
                feature.dim,
                fs@,
                row,
                fs@.len(),
            ),
{
    let ghost mut row: Seq<u64> = Seq::empty();
    let mut best: u64 = ZERO;
    let mut j: usize = 0;
    while j < fs.len()
        invariant
            j <= fs@.len(),
            row.len() == j,
            forall|x: &PersistenceFeature, y: &PersistenceFeature| #[trigger] proximity.requires((x, y)),
            forall|t: int|
                0 <= t < j && fs@[t].dim == feature.dim ==> proximity.ensures(
                    (feature, &fs@[t]),
                    #[trigger] row[t],
                ),
            best == best_match(feature.dim, fs@, row, j as nat),
        decreases fs@.len() - j,
    {
        let ghost before = row;
        if fs[j].dim == feature.dim {
            let p = (*proximity)(feature, &fs[j]);
            best = ieee::max(best, p);
            proof {
                row = row.push(p);
            }
        } else {
            proof {
                row = row.push(ZERO);
            }
        }
        proof {
            lemma_best_match_prefix(feature.dim, fs@, before, row, j as nat);
        }
        j = j + 1;
    }
    proof {
        assert(proximity_row(*feature, fs@, row, proximity));
    }
    best
}

/// Count the agents whose diagram has a feature close to `feature`.
///
/// For each diagram, the best match is the largest proximity (`f64::max` from `+0.0`) between
/// `feature` and that diagram's features of the same dimension, as `proximity` gives it. An agent
/// observes the feature when its best match is above `0.5`. Returns the number of observing agents
/// and their best matches, in order.
pub fn count_observing_agents<P: Fn(&PersistenceFeature, &PersistenceFeature) -> u64>(
    feature: &PersistenceFeature,
    diagrams: &Vec<PersistenceDiagram>,
    proximity: &P,
) -> (r: (usize, Vec<u64>))
    requires
        forall|x: &PersistenceFeature, y: &PersistenceFeature| #[trigger] proximity.requires((x, y)),
    ensures
        r.0 == r.1@.len(),
        r.0 <= diagrams@.len(),
        exists|rows: Seq<Seq<u64>>|
            #[trigger] proximity_rows(*feature, diagrams@, rows, proximity) && r.1@ == observed(
                best_matches(*feature, diagrams@, rows),
            ),
{
    let ghost mut rows: Seq<Seq<u64>> = Seq::empty();
    let mut seen: Vec<u64> = Vec::new();
    let mut d: usize = 0;
    while d < diagrams.len()
        invariant
            d <= diagrams@.len(),
            rows.len() == d,
            seen@.len() <= d,
            forall|x: &PersistenceFeature, y: &PersistenceFeature| #[trigger] proximity.requires((x, y)),
            forall|t: int|
                0 <= t < d ==> proximity_row(
                    *feature,
                    diagrams@[t].features@,
                    #[trigger] rows[t],
                    proximity,
                ),
            seen@ == observed(best_matches(*feature, diagrams@.take(d as int), rows)),
        decreases diagrams@.len() - d,
    {
        let best = best_match_in(feature, &diagrams[d].features, proximity);
        let ghost before = rows;
        let ghost prev = best_matches(*feature, diagrams@.take(d as int), rows);
        proof {
            let row = choose|row: Seq<u64>|
                #[trigger] proximity_row(*feature, diagrams@[d as int].features@, row, proximity)
                    && best == best_match(
                    feature.dim,
                    diagrams@[d as int].features@,
                    row,
                    diagrams@[d as int].features@.len(),
                );
            rows = rows.push(row);
            let next = best_matches(*feature, diagrams@.take(d + 1), rows);
            assert forall|t: int| 0 <= t < d implies #[trigger] rows[t] == before[t] by {}
            assert(next =~= prev.push(best));
            prev.lemma_filter_push(best, |b: u64| float_lt(OBSERVED_MATCH, b));
        }
        if ieee::lt(OBSERVED_MATCH, best) {
            seen.push(best);
        }
        d = d + 1;
    }
    proof {
        assert(diagrams@.take(diagrams@.len() as int) == diagrams@);
        assert(proximity_rows(*feature, diagrams@, rows, proximity));
    }
    (seen.len(), seen)
}

proof fn lemma_finite_max_prefix(fs: Seq<PersistenceFeature>, a: Seq<u64>, b: Seq<u64>, k: nat)
    requires
        k <= a.len(),
        k <= b.len(),
        forall|t: int| 0 <= t < k ==> a[t] == b[t],
    ensures
        finite_max(fs, a, k) == finite_max(fs, b, k),
    decreases k,
{
    if k > 0 {
        lemma_finite_max_prefix(fs, a, b, (k - 1) as nat);
    }
}

impl ConfidenceLevel {
    /// Categorize a raw score.
    pub fn from_score(score: u64) -> (r: Self)
        ensures
            r == level_of(score),
    {
        if crate::ieee::le(CONFIRMED_SCORE, score) {
            ConfidenceLevel::Confirmed
        } else if crate::ieee::le(PROVISIONAL_SCORE, score) {
            ConfidenceLevel::Provisional
        } else {
            ConfidenceLevel::Rejected
        }
    }

    /// The level's name in lower case.
    pub fn to_string(&self) -> (r: String)
        ensures
            r@ == match *self {
                ConfidenceLevel::Confirmed => "confirmed"@,
                ConfidenceLevel::Provisional => "provisional"@,
                ConfidenceLevel::Rejected => "rejected"@,
            },
    {
        match self {
            ConfidenceLevel::Confirmed => "confirmed".to_owned(),
            ConfidenceLevel::Provisional => "provisional".to_owned(),
            ConfidenceLevel::Rejected => "rejected".to_owned(),
        }
    }
}

impl ConfidenceMap {
    /// Build a confidence map from the merged diagram and the agents' own diagrams: one score per
    /// feature of `merged`, in order.
    ///
    /// `persistence` gives a feature's persistence (`death - birth`); the largest of those of the
    /// features with a finite death (`f64::max` from `+0.0`) scales every score. The agents that
    /// observe a feature are counted by [`count_observing_agents`] with `proximity`; `mean` averages
    /// their best matches (the proximity is `+0.0` when no agent observes the feature). `rate`
    /// makes the score from the persistence, the largest persistence, the number of observing
    /// agents, the number of agents and the proximity, and the level is that of the score.
    pub fn build<Pe, P, M, R>(
        merged: &PersistenceDiagram,
        individual_diagrams: &Vec<PersistenceDiagram>,
        persistence: &Pe,
        proximity: &P,
        mean: &M,
        rate: &R,
    ) -> (r: Self) where
        Pe: Fn(&PersistenceFeature) -> u64,
        P: Fn(&PersistenceFeature, &PersistenceFeature) -> u64,
        M: Fn(&Vec<u64>) -> u64,
        R: Fn(u64, u64, usize, usize, u64) -> u64,

        requires
            forall|f: &PersistenceFeature| #[trigger] persistence.requires((f,)),
            forall|x: &PersistenceFeature, y: &PersistenceFeature| #[trigger] proximity.requires((x, y)),
            forall|v: &Vec<u64>| #[trigger] mean.requires((v,)),
            forall|p: u64, m: u64, c: usize, t: usize, x: u64| #[trigger] rate.requires((p, m, c, t, x)),
        ensures
            built_from(
                r,
                merged.features@,
                individual_diagrams@,
                persistence,
                proximity,
                mean,
                rate,
            ),
    {
        let ghost fs = merged.features@;
        let total_agents = individual_diagrams.len();
        let ghost mut pers: Seq<u64> = Seq::empty();
        let mut max_persistence: u64 = ZERO;
        let mut k: usize = 0;
        while k < merged.features.len()
            invariant
                fs == merged.features@,
                k <= fs.len(),
                pers.len() == k,
                forall|f: &PersistenceFeature| #[trigger] persistence.requires((f,)),
                forall|t: int|
                    0 <= t < k && is_finite(fs[t].death) ==> persistence.ensures(
                        (&fs[t],),
                        #[trigger] pers[t],
                    ),
                max_persistence == finite_max(fs, pers, k as nat),
            decreases fs.len() - k,
        {
            let ghost before = pers;
            if ieee::finite(merged.features[k].death) {
                let p = (*persistence)(&merged.features[k]);
                max_persistence = ieee::max(max_persistence, p);
                proof {
                    pers = pers.push(p);
                }
            } else {
                proof {
                    pers = pers.push(ZERO);
                }
            }
            proof {
                lemma_finite_max_prefix(fs, before, pers, k as nat);
            }
            k = k + 1;
        }
        let mut scores: Vec<FeatureConfidence> = Vec::new();
        let mut k: usize = 0;
        while k < merged.features.len()
            invariant
                fs == merged.features@,
                k <= fs.len(),
                scores@.len() == k,
                total_agents == individual_diagrams@.len(),
                forall|f: &PersistenceFeature| #[trigger] persistence.requires((f,)),
                forall|x: &PersistenceFeature, y: &PersistenceFeature| #[trigger] proximity.requires((x, y)),
                forall|v: &Vec<u64>| #[trigger] mean.requires((v,)),
                forall|p: u64, m: u64, c: usize, t: usize, x: u64| #[trigger] rate.requires((p, m, c, t, x)),
                forall|t: int|
                    0 <= t < k ==> rated(
                        #[trigger] scores@[t],
                        fs,
                        t,
                        individual_diagrams@,
                        max_persistence,
                        persistence,
                        proximity,
                        mean,
                        rate,
                    ),
            decreases fs.len() - k,
        {
            let feature = merged.features[k];
            let p = (*persistence)(&merged.features[k]);
            let (agent_count, seen) = count_observing_agents(&merged.features[k], individual_diagrams, proximity);
            let prox = if agent_count > 0 {
                (*mean)(&seen)
            } else {
                ZERO
            };
            let score = (*rate)(p, max_persistence, agent_count, total_agents, prox);
            let fc = FeatureConfidence {
                feature_index: k,
                feature,
                agent_count,
                total_agents,
                persistence: p,
                proximity: prox,
                score,
                level: ConfidenceLevel::from_score(score),
            };
            proof {
                let rows = choose|rows: Seq<Seq<u64>>|
                    #[trigger] proximity_rows(fs[k as int], individual_diagrams@, rows, proximity)
                        && seen@ == observed(best_matches(fs[k as int], individual_diagrams@, rows));
                if agent_count > 0 {
                    assert(mean.ensures((&seen,), prox));
                }
                assert(observation(agent_count, prox, fs[k as int], individual_diagrams@, proximity, mean));
                assert(rated(
                    fc,
                    fs,
                    k as int,
                    individual_diagrams@,
                    max_persistence,
                    persistence,
                    proximity,
                    mean,
                    rate,
                ));
            }
            scores.push(fc);
            k = k + 1;
        }
        let r = ConfidenceMap { scores, total_agents };
        proof {
            assert(persistences(fs, pers, persistence));
        }
        r
    }

    /// Get features at a specific confidence level.
    pub fn at_level(&self, level: ConfidenceLevel) -> (r: Vec<FeatureConfidence>)
        ensures
            r@ == scores_at(self.scores@, level),
    {
        let mut r: Vec<FeatureConfidence> = Vec::new();
        let mut k: usize = 0;
        while k < self.scores.len()
            invariant
                k <= self.scores@.len(),
                r@ == scores_at(self.scores@.take(k as int), level),
            decreases self.scores@.len() - k,
        {
            proof {
                assert(self.scores@.take(k + 1) == self.scores@.take(k as int).push(
                    self.scores@[k as int],
                ));
                self.scores@.take(k as int).lemma_filter_push(
                    self.scores@[k as int],
                    |s: FeatureConfidence| s.level == level,
                );
            }
            if self.scores[k].level == level {
                r.push(self.scores[k]);
            }
            k = k + 1;
        }
        proof {
            assert(self.scores@.take(self.scores@.len() as int) == self.scores@);
        }
        r
    }

    /// Get confirmed features.
    pub fn confirmed(&self) -> (r: Vec<FeatureConfidence>)
        ensures
            r@ == scores_at(self.scores@, ConfidenceLevel::Confirmed),
    {
        self.at_level(ConfidenceLevel::Confirmed)
    }

    /// Get provisional features.
    pub fn provisional(&self) -> (r: Vec<FeatureConfidence>)
        ensures
            r@ == scores_at(self.scores@, ConfidenceLevel::Provisional),
    {
        self.at_level(ConfidenceLevel::Provisional)
    }

    /// Get rejected features.
    pub fn rejected(&self) -> (r: Vec<FeatureConfidence>)
        ensures
            r@ == scores_at(self.scores@, ConfidenceLevel::Rejected),
    {
        self.at_level(ConfidenceLevel::Rejected)
    }
}

/// Every score sits at exactly one level: the confirmed, provisional and rejected scores
/// together are all the scores.
pub proof fn law_levels_partition(scores: Seq<FeatureConfidence>)
    ensures
        scores_at(scores, ConfidenceLevel::Confirmed).len() + scores_at(
            scores,
            ConfidenceLevel::Provisional,
        ).len() + scores_at(scores, ConfidenceLevel::Rejected).len() == scores.len(),
    decreases scores.len(),
{
    if scores.len() > 0 {
        let d = scores.drop_last();
        let x = scores.last();
        law_levels_partition(d);
        assert(scores == d.push(x));
        d.lemma_filter_push(x, |s: FeatureConfidence| s.level == ConfidenceLevel::Confirmed);
        d.lemma_filter_push(x, |s: FeatureConfidence| s.level == ConfidenceLevel::Provisional);
        d.lemma_filter_push(x, |s: FeatureConfidence| s.level == ConfidenceLevel::Rejected);
    }
}

/// Higher scores never sit at a lower level.
pub proof fn law_level_monotone(s1: u64, s2: u64)
    requires
        crate::ieee::float_le(s1, s2),
    ensures
        level_of(s1) == ConfidenceLevel::Confirmed ==> level_of(s2) == ConfidenceLevel::Confirmed,
        level_of(s1) == ConfidenceLevel::Provisional ==> level_of(s2) != ConfidenceLevel::Rejected,
{
}

} // verus!
