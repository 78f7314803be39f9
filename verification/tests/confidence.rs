use topo_merge::confidence::{
    count_observing_agents, ConfidenceLevel, ConfidenceMap, FeatureConfidence,
};
use topo_merge::distance::{DistanceMatrix, Metric};
use topo_merge::persistence::{PersistenceDiagram, PersistenceFeature};

fn bits(x: f64) -> u64 {
    x.to_bits()
}

fn value(x: u64) -> f64 {
    f64::from_bits(x)
}

fn persistence_of(f: &PersistenceFeature) -> f64 {
    value(f.death) - value(f.birth)
}

fn proximity(feature: &PersistenceFeature, f: &PersistenceFeature) -> u64 {
    let (fb, fd) = (value(feature.birth), value(feature.death));
    let (b, d) = (value(f.birth), value(f.death));
    let b_diff = (b - fb).abs();
    let d_diff = if d.is_infinite() && fd.is_infinite() {
        0.0
    } else if d.is_infinite() || fd.is_infinite() {
        f64::INFINITY
    } else {
        (d - fd).abs()
    };
    let p = if d_diff.is_infinite() {
        0.0
    } else {
        let dist = (b_diff.powi(2) + d_diff.powi(2)).sqrt();
        let max_range = (fd - fb).max(1.0);
        (1.0 - (dist / max_range).min(1.0)).max(0.0)
    };
    p.to_bits()
}

fn mean(best: &Vec<u64>) -> u64 {
    let total: f64 = best.iter().fold(0.0, |acc, b| acc + value(*b));
    (total / best.len() as f64).to_bits()
}

fn rate(
    persistence: u64,
    max_persistence: u64,
    agent_count: usize,
    total_agents: usize,
    proximity: u64,
) -> u64 {
    let (persistence, max_persistence) = (value(persistence), value(max_persistence));
    let persistence_norm = if max_persistence > 0.0 && persistence.is_finite() {
        persistence / max_persistence
    } else if persistence.is_infinite() {
        1.0
    } else {
        0.0
    };
    let agent_fraction =
        if total_agents > 0 { agent_count as f64 / total_agents as f64 } else { 0.0 };
    (0.4 * agent_fraction + 0.4 * persistence_norm + 0.2 * value(proximity)).to_bits()
}

fn build(merged: &PersistenceDiagram, individual: &[PersistenceDiagram]) -> ConfidenceMap {
    let persistence = |f: &PersistenceFeature| -> u64 { bits(persistence_of(f)) };
    ConfidenceMap::build(merged, &individual.to_vec(), &persistence, &proximity, &mean, &rate)
}

fn average(map: &ConfidenceMap) -> f64 {
    if map.scores.is_empty() {
        return 0.0;
    }
    map.scores.iter().map(|s| value(s.score)).sum::<f64>() / map.scores.len() as f64
}

fn euclidean(_metric: Metric, a: &Vec<u64>, b: &Vec<u64>) -> u64 {
    a.iter()
        .zip(b.iter())
        .map(|(x, y)| (value(*x) - value(*y)).powi(2))
        .sum::<f64>()
        .sqrt()
        .to_bits()
}

fn simple_diagram() -> PersistenceDiagram {
    PersistenceDiagram {
        features: vec![
            PersistenceFeature { dim: 0, birth: bits(0.0), death: bits(1.0) },
            PersistenceFeature { dim: 0, birth: bits(0.0), death: bits(f64::INFINITY) },
        ],
    }
}

fn scored(index: usize, score: f64) -> FeatureConfidence {
    FeatureConfidence {
        feature_index: index,
        feature: PersistenceFeature { dim: 0, birth: bits(0.0), death: bits(1.0) },
        agent_count: 1,
        total_agents: 2,
        persistence: bits(1.0),
        proximity: bits(1.0),
        score: bits(score),
        level: ConfidenceLevel::from_score(bits(score)),
    }
}

#[test]
fn test_confidence_levels() {
    assert_ne!(ConfidenceLevel::Confirmed, ConfidenceLevel::Rejected);
    assert_ne!(ConfidenceLevel::Provisional, ConfidenceLevel::Confirmed);
}

#[test]
fn test_confidence_level_display() {
    assert_eq!(ConfidenceLevel::Confirmed.to_string(), "confirmed");
    assert_eq!(ConfidenceLevel::Provisional.to_string(), "provisional");
    assert_eq!(ConfidenceLevel::Rejected.to_string(), "rejected");
}

#[test]
fn score_thresholds() {
    assert_eq!(ConfidenceLevel::from_score(bits(0.98)), ConfidenceLevel::Confirmed);
    assert_eq!(ConfidenceLevel::from_score(bits(0.6)), ConfidenceLevel::Confirmed);
    assert_eq!(ConfidenceLevel::from_score(bits(0.59)), ConfidenceLevel::Provisional);
    assert_eq!(ConfidenceLevel::from_score(bits(0.3)), ConfidenceLevel::Provisional);
    assert_eq!(ConfidenceLevel::from_score(bits(0.29)), ConfidenceLevel::Rejected);
    assert_eq!(ConfidenceLevel::from_score(bits(-1.0)), ConfidenceLevel::Rejected);
    assert_eq!(ConfidenceLevel::from_score(bits(f64::NAN)), ConfidenceLevel::Rejected);
}

#[test]
fn levels_split_the_scores() {
    let map = ConfidenceMap {
        scores: vec![scored(0, 0.9), scored(1, 0.1), scored(2, 0.4), scored(3, 0.7)],
        total_agents: 2,
    };
    let confirmed = map.confirmed();
    let provisional = map.provisional();
    let rejected = map.rejected();
    assert_eq!(confirmed.iter().map(|s| s.feature_index).collect::<Vec<_>>(), vec![0, 3]);
    assert_eq!(provisional.iter().map(|s| s.feature_index).collect::<Vec<_>>(), vec![2]);
    assert_eq!(rejected.iter().map(|s| s.feature_index).collect::<Vec<_>>(), vec![1]);
    assert_eq!(confirmed.len() + provisional.len() + rejected.len(), map.scores.len());
    assert_eq!(map.at_level(ConfidenceLevel::Provisional), provisional);
}

#[test]
fn test_confidence_map_build() {
    let merged = simple_diagram();
    let ind1 = simple_diagram();
    let ind2 = simple_diagram();
    let map = build(&merged, &[ind1, ind2]);
    assert_eq!(map.scores.len(), 2);
    assert_eq!(map.total_agents, 2);
}

#[test]
fn test_confidence_map_levels() {
    let c: Vec<Vec<u64>> = vec![vec![bits(0.0)], vec![bits(1.0)]];
    let dm = DistanceMatrix::compute(&c, Metric::Euclidean, &euclidean).unwrap();
    let pd = PersistenceDiagram::compute(&dm);
    let map = build(&pd, &[pd.clone(), pd.clone()]);
    let confirmed = map.confirmed();
    let provisional = map.provisional();
    let rejected = map.rejected();
    assert_eq!(confirmed.len() + provisional.len() + rejected.len(), map.scores.len());
}

#[test]
fn test_empty_confidence_map() {
    let pd = PersistenceDiagram::empty();
    let map = build(&pd, &[]);
    assert_eq!(map.scores.len(), 0);
    assert!((average(&map)).abs() < 1e-10);
}

#[test]
fn build_rates_each_feature_in_order() {
    let merged = simple_diagram();
    let map = build(&merged, &[simple_diagram(), simple_diagram()]);
    for (k, s) in map.scores.iter().enumerate() {
        assert_eq!(s.feature_index, k);
        assert_eq!(s.feature, merged.features[k]);
        assert_eq!(s.total_agents, 2);
        assert_eq!(s.agent_count, 2);
        assert!((value(s.score) - 1.0).abs() < 1e-12);
        assert_eq!(s.level, ConfidenceLevel::Confirmed);
    }
    // an agent with nothing close to the merged features lowers the agreement
    let far = PersistenceDiagram {
        features: vec![PersistenceFeature { dim: 1, birth: bits(5.0), death: bits(9.0) }],
    };
    let map = build(&merged, &[simple_diagram(), far]);
    assert_eq!(map.scores[0].agent_count, 1);
    assert!((value(map.scores[0].score) - 0.8).abs() < 1e-12);
    assert_eq!(map.scores[0].level, ConfidenceLevel::Confirmed);
}

#[test]
fn observing_agents_are_those_with_a_close_feature() {
    let feature = PersistenceFeature { dim: 0, birth: bits(0.0), death: bits(1.0) };
    let far = PersistenceDiagram {
        features: vec![PersistenceFeature { dim: 0, birth: bits(0.0), death: bits(3.0) }],
    };
    let other_dim = PersistenceDiagram {
        features: vec![PersistenceFeature { dim: 1, birth: bits(0.0), death: bits(1.0) }],
    };
    let near = PersistenceDiagram {
        features: vec![
            PersistenceFeature { dim: 0, birth: bits(0.0), death: bits(3.0) },
            PersistenceFeature { dim: 0, birth: bits(0.0), death: bits(1.25) },
        ],
    };
    let diagrams = vec![simple_diagram(), far, other_dim, near, PersistenceDiagram::empty()];
    let (count, best) = count_observing_agents(&feature, &diagrams, &proximity);
    assert_eq!(count, 2);
    assert_eq!(best, vec![bits(1.0), bits(0.75)]);
}

#[test]
fn build_levels_follow_scores() {
    let merged = simple_diagram();
    let far = PersistenceDiagram {
        features: vec![PersistenceFeature { dim: 1, birth: bits(5.0), death: bits(9.0) }],
    };
    let map = build(&merged, &[far.clone(), far]);
    // nobody observes: the finite feature scores 0.4, the lasting one 0.4 too
    for s in &map.scores {
        assert_eq!(s.agent_count, 0);
        assert_eq!(s.proximity, bits(0.0));
        assert_eq!(s.level, ConfidenceLevel::from_score(s.score));
        assert_eq!(s.level, ConfidenceLevel::Provisional);
    }
}
