use topo_merge::distance::{DistanceMatrix, Metric};
use topo_merge::matching::bottleneck_matching;
use topo_merge::persistence::{PersistenceDiagram, PersistenceFeature};

fn value(x: u64) -> f64 {
    f64::from_bits(x)
}

fn bits(x: f64) -> u64 {
    x.to_bits()
}

fn euclidean(_metric: Metric, a: &Vec<u64>, b: &Vec<u64>) -> u64 {
    a.iter()
        .zip(b.iter())
        .map(|(x, y)| (f64::from_bits(*x) - f64::from_bits(*y)).powi(2))
        .sum::<f64>()
        .sqrt()
        .to_bits()
}

fn compute(coords: &[Vec<f64>]) -> DistanceMatrix {
    let c: Vec<Vec<u64>> =
        coords.iter().map(|p| p.iter().map(|x| x.to_bits()).collect()).collect();
    DistanceMatrix::compute(&c, Metric::Euclidean, &euclidean).unwrap()
}

fn persistence_of(f: &PersistenceFeature) -> f64 {
    value(f.death) - value(f.birth)
}

fn feature(dim: usize, birth: f64, death: f64) -> PersistenceFeature {
    PersistenceFeature { dim, birth: bits(birth), death: bits(death) }
}

#[test]
fn persistence_test_single_point() {
    let dm = compute(&[vec![0.0, 0.0]]);
    let pd = PersistenceDiagram::compute(&dm);
    assert_eq!(pd.h0_count(), 1);
    assert!(pd.features[0].is_infinite());
}

#[test]
fn test_two_points() {
    let dm = compute(&[vec![0.0], vec![1.0]]);
    let pd = PersistenceDiagram::compute(&dm);
    assert_eq!(pd.h0_count(), 2);
    let h0: Vec<_> = pd.features_by_dim(0);
    let finite: Vec<_> = h0.iter().filter(|f| !f.is_infinite()).collect();
    assert_eq!(finite.len(), 1);
    assert!((value(finite[0].death) - 1.0).abs() < 1e-10);
}

#[test]
fn test_three_points_line() {
    let dm = compute(&[vec![0.0], vec![1.0], vec![2.0]]);
    let pd = PersistenceDiagram::compute(&dm);
    let h0 = pd.features_by_dim(0);
    assert_eq!(h0.len(), 3);
    let finite: Vec<_> = h0.iter().filter(|f| !f.is_infinite()).collect();
    assert_eq!(finite.len(), 2);
}

#[test]
fn test_triangle_h0() {
    let dm = compute(&[vec![0.0, 0.0], vec![1.0, 0.0], vec![0.5, 0.866]]);
    let pd = PersistenceDiagram::compute(&dm);
    assert_eq!(pd.h0_count(), 3);
}

#[test]
fn test_empty_diagram() {
    let pd = PersistenceDiagram::empty();
    assert_eq!(pd.features.len(), 0);
}

#[test]
fn test_barcode() {
    let dm = compute(&[vec![0.0], vec![1.0]]);
    let pd = PersistenceDiagram::compute(&dm);
    let bc = pd.barcode();
    assert!(!bc.bars.is_empty());
    for i in 1..bc.bars.len() {
        assert!(value(bc.bars[i].birth) >= value(bc.bars[i - 1].birth));
    }
}

#[test]
fn test_most_persistent() {
    let dm = compute(&[vec![0.0], vec![1.0], vec![10.0]]);
    let pd = PersistenceDiagram::compute(&dm);
    let pers: Vec<u64> = pd.features.iter().map(|f| bits(persistence_of(f))).collect();
    let mp = pd.most_persistent(&pers).unwrap();
    assert!(persistence_of(&mp) > 0.0);
}

#[test]
fn diagram_of_a_line_of_three() {
    let dm = compute(&[vec![0.0], vec![1.0], vec![3.0]]);
    let pd = PersistenceDiagram::compute(&dm);
    // edges by length: (0,1)=1, (1,2)=2, (0,2)=3; the last closes a cycle, filled at once
    // by the triangle (0,1,2), whose longest side is 3
    assert_eq!(
        pd.features,
        vec![
            feature(0, 0.0, 1.0),
            feature(0, 0.0, 2.0),
            feature(0, 0.0, f64::INFINITY),
            feature(1, 3.0, 3.0),
        ]
    );
    assert_eq!(pd.h0_count(), 3);
    assert_eq!(pd.h1_count(), 1);
}

#[test]
fn square_has_a_loop_born_at_its_side() {
    let dm = compute(&[vec![0.0, 0.0], vec![1.0, 0.0], vec![1.0, 1.0], vec![0.0, 1.0]]);
    let pd = PersistenceDiagram::compute(&dm);
    assert_eq!(pd.h0_count(), 4);
    let h1 = pd.features_by_dim(1);
    assert_eq!(h1.len(), 3);
    assert_eq!(value(h1[0].birth), 1.0);
    assert!(h1[0].is_infinite());
}

#[test]
fn infinite_distance_takes_the_place_of_the_lasting_component() {
    let dm = DistanceMatrix::from_upper_triangle(2, vec![bits(f64::INFINITY)], Metric::Euclidean)
        .unwrap();
    let pd = PersistenceDiagram::compute(&dm);
    assert_eq!(pd.features, vec![feature(0, 0.0, f64::INFINITY)]);
}

#[test]
fn barcode_orders_by_birth_stably() {
    let pd = PersistenceDiagram {
        features: vec![feature(1, 2.0, 3.0), feature(0, 0.0, 1.0), feature(1, 2.0, 5.0)],
    };
    let bc = pd.barcode();
    assert_eq!(bc.bars, vec![feature(0, 0.0, 1.0), feature(1, 2.0, 3.0), feature(1, 2.0, 5.0)]);
}

#[test]
fn most_persistent_skips_infinite_and_keeps_later_tie() {
    let pd = PersistenceDiagram {
        features: vec![
            feature(0, 0.0, 2.0),
            feature(0, 0.0, f64::INFINITY),
            feature(1, 1.0, 3.0),
        ],
    };
    let pers: Vec<u64> = pd.features.iter().map(|f| bits(persistence_of(f))).collect();
    assert_eq!(pd.most_persistent(&pers), Some(feature(1, 1.0, 3.0)));
    let only_infinite = PersistenceDiagram { features: vec![feature(0, 0.0, f64::INFINITY)] };
    assert_eq!(only_infinite.most_persistent(&vec![bits(f64::INFINITY)]), None);
}

#[test]
fn bottleneck_matching_of_identical_lists_is_zero() {
    let dists = vec![vec![bits(0.0), bits(1.0)], vec![bits(1.0), bits(0.0)]];
    let diag = vec![bits(0.5), bits(0.7)];
    assert_eq!(value(bottleneck_matching(&dists, &diag, &diag)), 0.0);
}

#[test]
fn bottleneck_matching_counts_unmatched_to_diagonal() {
    let dists = vec![vec![bits(0.25)]];
    let r = bottleneck_matching(&dists, &vec![bits(0.5)], &vec![bits(0.5)]);
    assert_eq!(value(r), 0.25);
    let dists: Vec<Vec<u64>> = vec![vec![bits(0.25), bits(4.0)]];
    let r = bottleneck_matching(&dists, &vec![bits(0.5)], &vec![bits(0.5), bits(3.0)]);
    assert_eq!(value(r), 3.0);
    let r = bottleneck_matching(&vec![], &vec![], &vec![bits(1.5), bits(0.5)]);
    assert_eq!(value(r), 1.5);
    let r = bottleneck_matching(&vec![vec![], vec![]], &vec![bits(2.0), bits(0.5)], &vec![]);
    assert_eq!(value(r), 2.0);
}

#[test]
fn counts_by_dimension() {
    let pd = PersistenceDiagram {
        features: vec![feature(1, 2.0, 3.0), feature(0, 0.0, 1.0), feature(1, 2.0, 5.0)],
    };
    assert_eq!(pd.h0_count(), 1);
    assert_eq!(pd.h1_count(), 2);
    assert_eq!(pd.features_by_dim(1), vec![feature(1, 2.0, 3.0), feature(1, 2.0, 5.0)]);
}

#[test]
fn five_points_give_five_components_one_lasting() {
    let dm = compute(&[vec![0.0, 0.0], vec![1.0, 0.5], vec![2.5, 0.0], vec![0.5, 2.0], vec![3.0, 3.0]]);
    let pd = PersistenceDiagram::compute(&dm);
    assert_eq!(pd.h0_count(), 5);
    let lasting: Vec<_> = pd.features.iter().filter(|f| f.dim == 0 && f.is_infinite()).collect();
    assert_eq!(lasting.len(), 1);
    assert!(pd.features.iter().filter(|f| f.dim == 0).all(|f| f.birth == bits(0.0)));
    // the deaths of the dying components are the lengths of a minimum spanning tree, in order
    let deaths: Vec<f64> = pd
        .features_by_dim(0)
        .iter()
        .filter(|f| !f.is_infinite())
        .map(|f| value(f.death))
        .collect();
    for w in deaths.windows(2) {
        assert!(w[0] <= w[1]);
    }
}

fn diagonal_distance(f: &PersistenceFeature) -> u64 {
    if value(f.death) == f64::INFINITY {
        bits(f64::INFINITY)
    } else {
        bits((value(f.death) - value(f.birth)) / std::f64::consts::SQRT_2)
    }
}

fn feature_distance(f1: &PersistenceFeature, f2: &PersistenceFeature) -> u64 {
    let (d1, d2) = (value(f1.death), value(f2.death));
    let b = (value(f1.birth) - value(f2.birth)).abs();
    let d = if d1 == f64::INFINITY && d2 == f64::INFINITY {
        0.0
    } else if d1 == f64::INFINITY || d2 == f64::INFINITY {
        f64::INFINITY
    } else {
        (d1 - d2).abs()
    };
    bits((b * b + d * d).sqrt())
}

fn bottleneck(a: &PersistenceDiagram, b: &PersistenceDiagram) -> f64 {
    value(a.bottleneck_distance(b, &feature_distance, &diagonal_distance))
}

#[test]
fn test_bottleneck_identical() {
    let dm = compute(&[vec![0.0], vec![1.0]]);
    let pd1 = PersistenceDiagram::compute(&dm);
    let pd2 = PersistenceDiagram::compute(&dm);
    let dist = bottleneck(&pd1, &pd2);
    assert!(dist < 1e-10, "identical diagrams should have zero bottleneck distance, got {}", dist);
}

#[test]
fn bottleneck_matches_features_of_each_dimension() {
    let pd1 = PersistenceDiagram::compute(&compute(&[vec![0.0], vec![1.0]]));
    let pd2 = PersistenceDiagram::compute(&compute(&[vec![0.0], vec![3.0]]));
    // (0, 1) is matched to (0, 3), the two lasting components to each other
    assert_eq!(bottleneck(&pd1, &pd2), 2.0);
    // a loop only one side has counts with its distance to the diagonal
    let with_loop = PersistenceDiagram {
        features: vec![feature(0, 0.0, f64::INFINITY), feature(1, 1.0, 5.0)],
    };
    let without = PersistenceDiagram { features: vec![feature(0, 0.0, f64::INFINITY)] };
    assert_eq!(bottleneck(&with_loop, &without), 4.0 / std::f64::consts::SQRT_2);
    // nothing of dimension 0 or 1 on either side
    let empty = PersistenceDiagram::empty();
    assert_eq!(bottleneck(&empty, &empty), 0.0);
}

#[test]
fn loops_never_die_before_they_are_born() {
    let dm = compute(&[vec![0.0], vec![10.0], vec![1.0]]);
    let pd = PersistenceDiagram::compute(&dm);
    let h1 = pd.features_by_dim(1);
    assert_eq!(h1, vec![feature(1, 10.0, 10.0)]);
    for f in &pd.features {
        assert!(value(f.birth) <= value(f.death));
    }
}

#[test]
fn bottleneck_is_the_least_over_all_matchings() {
    // a greedy choice would match 1.5 with 1.0 first and be left with 1.0 against 2.0
    let a = PersistenceDiagram { features: vec![feature(0, 0.0, 1.5), feature(0, 0.0, 1.0)] };
    let b = PersistenceDiagram { features: vec![feature(0, 0.0, 1.0), feature(0, 0.0, 2.0)] };
    assert_eq!(bottleneck(&a, &b), 0.5);
    assert_eq!(bottleneck(&b, &a), 0.5);
}

#[test]
fn bottleneck_matching_may_send_features_to_the_diagonal() {
    // matching the pair costs 10; sending both to the diagonal costs 1
    let dists = vec![vec![bits(10.0)]];
    let r = bottleneck_matching(&dists, &vec![bits(1.0)], &vec![bits(0.5)]);
    assert_eq!(value(r), 1.0);
}

#[test]
fn bottleneck_matching_reads_the_same_both_ways() {
    let dists = vec![
        vec![bits(0.5), bits(2.0), bits(0.25)],
        vec![bits(1.0), bits(0.75), bits(3.0)],
    ];
    let diag_a = vec![bits(0.6), bits(0.9)];
    let diag_b = vec![bits(0.4), bits(1.2), bits(0.1)];
    let transposed: Vec<Vec<u64>> =
        (0..3).map(|j| (0..2).map(|i| dists[i][j]).collect()).collect();
    let r1 = bottleneck_matching(&dists, &diag_a, &diag_b);
    let r2 = bottleneck_matching(&transposed, &diag_b, &diag_a);
    assert_eq!(r1, r2);
    // a0-b2 (0.25), a1-b1 (0.75), b0 to the diagonal (0.4)
    assert_eq!(value(r1), 0.75);
}
