use topo_merge::belief::{BeliefError, BeliefState, WeightedPoint};

fn bits(x: f64) -> u64 {
    x.to_bits()
}

fn point(xs: &[f64]) -> Vec<u64> {
    xs.iter().map(|x| x.to_bits()).collect()
}

fn cloud(coords: &[Vec<f64>]) -> Vec<Vec<u64>> {
    coords.iter().map(|c| point(c)).collect()
}

#[test]
fn test_from_coords() {
    let bs = BeliefState::from_coords(&cloud(&[vec![0.0, 0.0], vec![1.0, 0.0], vec![0.0, 1.0]]))
        .unwrap();
    assert_eq!(bs.len(), 3);
    assert_eq!(bs.dimension, 2);
}

#[test]
fn test_dimension_mismatch() {
    let result = BeliefState::new(vec![
        WeightedPoint::unit(point(&[0.0, 0.0])),
        WeightedPoint::unit(point(&[1.0, 0.0, 0.0])),
    ]);
    assert!(result.is_err());
}

#[test]
fn test_non_positive_weight() {
    let result = BeliefState::new(vec![WeightedPoint { coords: point(&[0.0]), weight: bits(0.0) }]);
    assert!(result.is_err());
    let result = BeliefState::new(vec![WeightedPoint { coords: point(&[0.0]), weight: bits(-1.0) }]);
    assert!(result.is_err());
}

#[test]
fn test_union() {
    let bs1 = BeliefState::from_coords(&cloud(&[vec![0.0, 0.0]])).unwrap();
    let bs2 = BeliefState::from_coords(&cloud(&[vec![1.0, 1.0]])).unwrap();
    let union = bs1.union(&bs2).unwrap();
    assert_eq!(union.len(), 2);
    assert_eq!(union.dimension, 2);
}

#[test]
fn test_union_dimension_mismatch() {
    let bs1 = BeliefState::from_coords(&cloud(&[vec![0.0]])).unwrap();
    let bs2 = BeliefState::from_coords(&cloud(&[vec![0.0, 0.0]])).unwrap();
    assert!(bs1.union(&bs2).is_err());
}

#[test]
fn test_union_empty() {
    let bs1 = BeliefState::empty(2);
    let bs2 = BeliefState::from_coords(&cloud(&[vec![1.0, 1.0]])).unwrap();
    let union = bs1.union(&bs2).unwrap();
    assert_eq!(union.len(), 1);
}

#[test]
fn test_add_point() {
    let mut bs = BeliefState::empty(2);
    bs.add_point(WeightedPoint::unit(point(&[1.0, 2.0]))).unwrap();
    assert_eq!(bs.len(), 1);
    assert_eq!(bs.dimension, 2);
}

#[test]
fn test_add_point_dim_mismatch() {
    let mut bs = BeliefState::from_coords(&cloud(&[vec![0.0, 0.0]])).unwrap();
    let result = bs.add_point(WeightedPoint::unit(point(&[1.0])));
    assert!(result.is_err());
}

#[test]
fn non_positive_weight_becomes_one() {
    assert_eq!(WeightedPoint::new(point(&[1.0]), bits(0.0)).weight, bits(1.0));
    assert_eq!(WeightedPoint::new(point(&[1.0]), bits(-2.5)).weight, bits(1.0));
    assert_eq!(WeightedPoint::new(point(&[1.0]), bits(-0.0)).weight, bits(1.0));
    assert_eq!(WeightedPoint::new(point(&[1.0]), bits(0.5)).weight, bits(0.5));
    assert_eq!(WeightedPoint::new(point(&[1.0, 2.0]), bits(3.0)).dim(), 2);
}

#[test]
fn new_reports_first_bad_point() {
    let r = BeliefState::new(vec![
        WeightedPoint::unit(point(&[0.0, 0.0])),
        WeightedPoint { coords: point(&[1.0, 0.0]), weight: bits(-1.0) },
        WeightedPoint::unit(point(&[1.0])),
    ]);
    assert_eq!(r, Err(BeliefError::NonPositiveWeight(bits(-1.0))));
    let r = BeliefState::new(vec![
        WeightedPoint::unit(point(&[0.0, 0.0])),
        WeightedPoint { coords: point(&[1.0]), weight: bits(-1.0) },
    ]);
    assert_eq!(r, Err(BeliefError::DimensionMismatch { expected: 2, actual: 1 }));
}

#[test]
fn new_of_no_point_has_no_dimension() {
    let bs = BeliefState::new(vec![]).unwrap();
    assert!(bs.is_empty());
    assert_eq!(bs.dimension, 0);
    assert_eq!(bs.agent_id, None);
}

#[test]
fn agent_id_is_kept() {
    let bs = BeliefState::from_coords(&cloud(&[vec![0.0]])).unwrap().with_agent_id("sensor-a");
    assert_eq!(bs.agent_id.as_deref(), Some("sensor-a"));
    assert_eq!(bs.len(), 1);
}

#[test]
fn union_keeps_points_in_order_and_drops_agent() {
    let a = BeliefState::from_coords(&cloud(&[vec![0.0], vec![1.0]])).unwrap().with_agent_id("a");
    let b = BeliefState::from_coords(&cloud(&[vec![2.0]])).unwrap().with_agent_id("b");
    let u = a.union(&b).unwrap();
    assert_eq!(u.coords(), cloud(&[vec![0.0], vec![1.0], vec![2.0]]));
    assert_eq!(u.agent_id, None);
    let e = BeliefState::empty(0).union(&BeliefState::empty(3)).unwrap();
    assert_eq!(e.dimension, 3);
}

#[test]
fn union_error_names_both_dimensions() {
    let a = BeliefState::from_coords(&cloud(&[vec![0.0]])).unwrap();
    let b = BeliefState::from_coords(&cloud(&[vec![0.0, 1.0]])).unwrap();
    assert_eq!(a.union(&b), Err(BeliefError::DimensionMismatch { expected: 1, actual: 2 }));
}

#[test]
fn add_point_rejects_bad_weight_and_sets_dimension() {
    let mut bs = BeliefState::empty(0);
    let r = bs.add_point(WeightedPoint { coords: point(&[1.0, 2.0, 3.0]), weight: bits(0.0) });
    assert_eq!(r, Err(BeliefError::NonPositiveWeight(bits(0.0))));
    assert!(bs.is_empty());
    bs.add_point(WeightedPoint::unit(point(&[1.0, 2.0, 3.0]))).unwrap();
    assert_eq!(bs.dimension, 3);
    let r = bs.add_point(WeightedPoint::unit(point(&[1.0])));
    assert_eq!(r, Err(BeliefError::DimensionMismatch { expected: 3, actual: 1 }));
    assert_eq!(bs.len(), 1);
}

#[test]
fn from_coords_reports_first_other_dimension() {
    let r = BeliefState::from_coords(&cloud(&[vec![0.0, 0.0], vec![1.0, 1.0], vec![2.0]]));
    assert_eq!(r, Err(BeliefError::DimensionMismatch { expected: 2, actual: 1 }));
    let bs = BeliefState::from_coords(&cloud(&[vec![4.0]])).unwrap();
    assert_eq!(bs.points[0].weight, bits(1.0));
}

fn consistent(bs: &BeliefState) -> bool {
    bs.points.iter().all(|p| p.coords.len() == bs.dimension && f64::from_bits(p.weight) > 0.0)
}

#[test]
fn beliefs_stay_consistent() {
    let mut bs = BeliefState::empty(0);
    assert!(consistent(&bs));
    bs.add_point(WeightedPoint::new(point(&[1.0, 2.0]), bits(3.0))).unwrap();
    assert!(consistent(&bs));
    assert!(bs.add_point(WeightedPoint::unit(point(&[1.0]))).is_err());
    assert!(consistent(&bs));
    let other = BeliefState::from_coords(&cloud(&[vec![0.0, 0.0], vec![5.0, 5.0]])).unwrap();
    let u = bs.union(&other).unwrap();
    assert!(consistent(&u));
    assert_eq!(u.len(), 3);
}

#[test]
fn nan_weight_is_not_positive() {
    let result = BeliefState::new(vec![WeightedPoint { coords: point(&[0.0]), weight: bits(f64::NAN) }]);
    assert!(matches!(result, Err(BeliefError::NonPositiveWeight(_))));
    assert_eq!(WeightedPoint::new(point(&[0.0]), bits(f64::NAN)).weight, bits(1.0));
    let mut bs = BeliefState::empty(1);
    assert!(bs.add_point(WeightedPoint { coords: point(&[0.0]), weight: bits(f64::NAN) }).is_err());
    assert!(bs.is_empty());
}
