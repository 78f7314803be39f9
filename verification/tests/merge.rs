use topo_merge::belief::{BeliefError, BeliefState, WeightedPoint};
use topo_merge::confidence::{ConfidenceLevel, ConfidenceMap};
use topo_merge::distance::{DistanceError, Metric};
use topo_merge::merge::{MergeError, MergeParams, MergeResult, TopologicalMerger};
use topo_merge::persistence::{PersistenceDiagram, PersistenceFeature};

fn kernel(metric: Metric, a: &Vec<u64>, b: &Vec<u64>) -> u64 {
    let a: Vec<f64> = a.iter().map(|x| f64::from_bits(*x)).collect();
    let b: Vec<f64> = b.iter().map(|x| f64::from_bits(*x)).collect();
    let d = match metric {
        Metric::Euclidean => {
            a.iter().zip(b.iter()).map(|(x, y)| (x - y).powi(2)).sum::<f64>().sqrt()
        }
        Metric::Cosine => {
            let dot: f64 = a.iter().zip(b.iter()).map(|(x, y)| x * y).sum();
            let na: f64 = a.iter().map(|x| x * x).sum::<f64>().sqrt();
            let nb: f64 = b.iter().map(|x| x * x).sum::<f64>().sqrt();
            if na < 1e-15 || nb < 1e-15 {
                1.0
            } else {
                1.0 - dot / (na * nb)
            }
        }
    };
    d.to_bits()
}

fn value(x: u64) -> f64 {
    f64::from_bits(x)
}

fn persistence(f: &PersistenceFeature) -> u64 {
    (value(f.death) - value(f.birth)).to_bits()
}

fn proximity(feature: &PersistenceFeature, f: &PersistenceFeature) -> u64 {
    let (fb, fd) = (value(feature.birth), value(feature.death));
    let (b, d) = (value(f.birth), value(f.death));
    let b_diff = (b - fb).abs();
    let d_diff = if d.is_infinite() && fd.is_infinite() {
        0.0
    } else if d.is_infinite() || fd.is_infinite() {
        f64::INFINITY
    } else {
        (d - fd).abs()
    };
    let p = if d_diff.is_infinite() {
        0.0
    } else {
        let dist = (b_diff.powi(2) + d_diff.powi(2)).sqrt();
        let max_range = (fd - fb).max(1.0);
        (1.0 - (dist / max_range).min(1.0)).max(0.0)
    };
    p.to_bits()
}

fn mean(best: &Vec<u64>) -> u64 {
    let total: f64 = best.iter().fold(0.0, |acc, b| acc + value(*b));
    (total / best.len() as f64).to_bits()
}

fn rate(
    persistence: u64,
    max_persistence: u64,
    agent_count: usize,
    total_agents: usize,
    proximity: u64,
) -> u64 {
    let (persistence, max_persistence) = (value(persistence), value(max_persistence));
    let persistence_norm = if max_persistence > 0.0 && persistence.is_finite() {
        persistence / max_persistence
    } else if persistence.is_infinite() {
        1.0
    } else {
        0.0
    };
    let agent_fraction =
        if total_agents > 0 { agent_count as f64 / total_agents as f64 } else { 0.0 };
    (0.4 * agent_fraction + 0.4 * persistence_norm + 0.2 * value(proximity)).to_bits()
}

fn average_score(map: &ConfidenceMap) -> f64 {
    if map.scores.is_empty() {
        return 0.0;
    }
    map.scores.iter().map(|s| value(s.score)).sum::<f64>() / map.scores.len() as f64
}

fn point(xs: &[f64]) -> Vec<u64> {
    xs.iter().map(|x| x.to_bits()).collect()
}

fn make_belief(coords: &[Vec<f64>], agent: &str) -> BeliefState {
    let c: Vec<Vec<u64>> = coords.iter().map(|p| point(p)).collect();
    BeliefState::from_coords(&c).unwrap().with_agent_id(agent)
}

fn merge(merger: &TopologicalMerger, beliefs: &[BeliefState]) -> Result<MergeResult, MergeError> {
    merger.merge(beliefs, &kernel, &persistence, &proximity, &mean, &rate)
}

#[test]
fn test_merge_two_agents() {
    let a = make_belief(&[vec![0.0, 0.0], vec![1.0, 0.0]], "a");
    let b = make_belief(&[vec![0.5, 0.5], vec![1.5, 0.5]], "b");
    let merger = TopologicalMerger::new();
    let result = merge(&merger, &[a, b]).unwrap();
    assert_eq!(result.agent_count, 2);
    assert_eq!(result.merged_belief.len(), 4);
}

#[test]
fn test_merge_three_agents() {
    let a = make_belief(&[vec![0.0], vec![1.0]], "a");
    let b = make_belief(&[vec![0.5], vec![1.5]], "b");
    let c = make_belief(&[vec![2.0]], "c");
    let merger = TopologicalMerger::new();
    let result = merge(&merger, &[a, b, c]).unwrap();
    assert_eq!(result.merged_belief.len(), 5);
    assert!(result.merged_diagram.features.len() > 0);
}

#[test]
fn test_merge_no_agents() {
    let merger = TopologicalMerger::new();
    let result = merge(&merger, &[]);
    assert!(result.is_err());
}

#[test]
fn test_merge_dimension_mismatch() {
    let a = make_belief(&[vec![0.0, 0.0]], "a");
    let b = make_belief(&[vec![0.0]], "b");
    let merger = TopologicalMerger::new();
    let result = merge(&merger, &[a, b]);
    assert!(result.is_err());
}

#[test]
fn test_merge_single_agent() {
    let a = make_belief(&[vec![0.0, 0.0], vec![1.0, 0.0]], "a");
    let merger = TopologicalMerger::new();
    let result = merge(&merger, &[a]).unwrap();
    assert_eq!(result.agent_count, 1);
    assert_eq!(result.merged_belief.len(), 2);
}

#[test]
fn test_merge_with_cosine_metric() {
    let params = MergeParams { metric: Metric::Cosine, consensus_threshold: 1 };
    let a = make_belief(&[vec![1.0, 0.0], vec![0.0, 1.0]], "a");
    let b = make_belief(&[vec![1.0, 0.0]], "b");
    let merger = TopologicalMerger::with_params(params);
    let result = merge(&merger, &[a, b]).unwrap();
    assert_eq!(result.metric, Metric::Cosine);
}

#[test]
fn test_quick_merge() {
    let a = make_belief(&[vec![0.0]], "a");
    let b = make_belief(&[vec![1.0]], "b");
    let merger = TopologicalMerger::new();
    let result = merger.quick_merge(&[a, b]).unwrap();
    assert_eq!(result.len(), 2);
}

#[test]
fn test_quick_merge_no_agents() {
    let merger = TopologicalMerger::new();
    let result = merger.quick_merge(&[]);
    assert!(result.is_err());
}

#[test]
fn test_merge_default() {
    let merger = TopologicalMerger::default();
    let a = make_belief(&[vec![0.0]], "a");
    let result = merge(&merger, &[a]).unwrap();
    assert_eq!(result.agent_count, 1);
}

#[test]
fn test_merge_params_default() {
    let params = MergeParams::default();
    assert_eq!(params.metric, Metric::Euclidean);
    assert_eq!(params.consensus_threshold, 2);
}

#[test]
fn test_merge_weighted_beliefs() {
    let a = BeliefState::new(vec![
        WeightedPoint::new(point(&[0.0]), 2.0f64.to_bits()),
        WeightedPoint::new(point(&[1.0]), 1.0f64.to_bits()),
    ])
    .unwrap()
    .with_agent_id("heavy");
    let b = BeliefState::new(vec![WeightedPoint::new(point(&[0.0]), 0.5f64.to_bits())])
        .unwrap()
        .with_agent_id("light");
    let merger = TopologicalMerger::new();
    let result = merge(&merger, &[a, b]).unwrap();
    assert_eq!(result.merged_belief.len(), 3);
    let total: f64 = result.merged_belief.points.iter().map(|p| f64::from_bits(p.weight)).sum();
    assert!((total - 3.5).abs() < 1e-10);
}

#[test]
fn merge_errors_name_the_cause() {
    let merger = TopologicalMerger::new();
    assert_eq!(merge(&merger, &[]), Err(MergeError::NoAgents));
    let a = make_belief(&[vec![0.0, 0.0]], "a");
    let b = make_belief(&[vec![1.0, 0.0]], "b");
    let c = make_belief(&[vec![0.0]], "c");
    assert_eq!(
        merge(&merger, &[a, b, c]),
        Err(MergeError::DimensionMismatch { agent: 2, expected: 2, actual: 1 })
    );
    assert_eq!(
        merge(&merger, &[BeliefState::empty(2), BeliefState::empty(2)]),
        Err(MergeError::EmptyUnion)
    );
    let odd = BeliefState {
        points: vec![WeightedPoint::unit(point(&[0.0, 0.0])), WeightedPoint::unit(point(&[1.0]))],
        dimension: 2,
        agent_id: None,
    };
    assert_eq!(
        merge(&merger, &[odd]),
        Err(MergeError::DistanceError(DistanceError::DimensionMismatch {
            index: 1,
            expected: 2,
            actual: 1
        }))
    );
}

#[test]
fn quick_merge_reports_union_error() {
    let merger = TopologicalMerger::new();
    let a = BeliefState::empty(0);
    let b = make_belief(&[vec![0.0, 1.0]], "b");
    let c = make_belief(&[vec![2.0]], "c");
    assert_eq!(
        merger.quick_merge(&[a, b, c]),
        Err(MergeError::BeliefError(BeliefError::DimensionMismatch { expected: 2, actual: 1 }))
    );
}

#[test]
fn merge_scores_the_agents_that_hold_points() {
    let a = make_belief(&[vec![0.0], vec![1.0]], "a");
    let e = BeliefState::empty(1);
    let b = make_belief(&[vec![4.0]], "b");
    let merger = TopologicalMerger::new();
    let result = merge(&merger, &[a, e, b]).unwrap();
    assert_eq!(result.confidence.total_agents, 2);
    assert_eq!(result.agent_count, 3);
    assert_eq!(result.merged_belief.agent_id, None);
    assert_eq!(result.merged_diagram.h0_count(), 3);
}

#[test]
fn single_agent_merge_keeps_its_label() {
    let a = make_belief(&[vec![0.0]], "solo");
    let merger = TopologicalMerger::new();
    let result = merge(&merger, &[a]).unwrap();
    assert_eq!(result.merged_belief.agent_id.as_deref(), Some("solo"));
}

#[test]
fn test_merge_identical_agents() {
    let a = make_belief(&[vec![0.0, 0.0], vec![1.0, 0.0]], "a");
    let b = make_belief(&[vec![0.0, 0.0], vec![1.0, 0.0]], "b");
    let merger = TopologicalMerger::new();
    let result = merge(&merger, &[a, b]).unwrap();
    // High confidence since agents agree
    let avg = average_score(&result.confidence);
    assert!(avg > 0.1, "identical agents should have reasonable confidence, got {}", avg);
}

#[test]
fn merge_scores_every_merged_feature_against_every_agent() {
    let a = make_belief(&[vec![0.0], vec![1.0]], "a");
    let b = make_belief(&[vec![0.5]], "b");
    let merger = TopologicalMerger::new();
    let result = merge(&merger, &[a, b, BeliefState::empty(1)]).unwrap();
    // the empty agent has no diagram
    assert_eq!(result.confidence.total_agents, 2);
    assert_eq!(result.confidence.scores.len(), result.merged_diagram.features.len());
    for (k, s) in result.confidence.scores.iter().enumerate() {
        assert_eq!(s.feature_index, k);
        assert_eq!(s.feature, result.merged_diagram.features[k]);
    }
}

#[test]
fn merged_belief_of_consistent_agents_is_consistent() {
    let a = make_belief(&[vec![0.0, 0.0], vec![1.0, 0.0]], "a");
    let b = make_belief(&[vec![0.5, 0.5]], "b");
    let merger = TopologicalMerger::new();
    let result = merge(&merger, &[a, b]).unwrap();
    let u = &result.merged_belief;
    assert_eq!(u.dimension, 2);
    assert!(u.points.iter().all(|p| p.coords.len() == 2 && value(p.weight) > 0.0));
}

#[test]
fn confirmation_needs_the_consensus_threshold() {
    // one agent alone: every feature it sees scores high, but the default threshold asks for two
    let a = make_belief(&[vec![0.0], vec![1.0]], "a");
    let merger = TopologicalMerger::new();
    let result = merge(&merger, &[a]).unwrap();
    assert!(result.confidence.scores.iter().all(|s| s.level != ConfidenceLevel::Confirmed));
    assert!(result
        .confidence
        .scores
        .iter()
        .any(|s| ConfidenceLevel::from_score(s.score) == ConfidenceLevel::Confirmed));
    // with a threshold of one the same features are confirmed
    let lenient = TopologicalMerger::with_params(MergeParams {
        metric: Metric::Euclidean,
        consensus_threshold: 1,
    });
    let a = make_belief(&[vec![0.0], vec![1.0]], "a");
    let result = merge(&lenient, &[a]).unwrap();
    assert!(result.confidence.scores.iter().any(|s| s.level == ConfidenceLevel::Confirmed));
}
