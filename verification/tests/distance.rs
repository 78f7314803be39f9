use topo_merge::distance::{DistanceError, DistanceMatrix, Metric};

fn bits(x: f64) -> u64 {
    x.to_bits()
}

fn value(x: u64) -> f64 {
    f64::from_bits(x)
}

fn point(xs: &[f64]) -> Vec<u64> {
    xs.iter().map(|x| x.to_bits()).collect()
}

fn kernel(metric: Metric, a: &Vec<u64>, b: &Vec<u64>) -> u64 {
    let a: Vec<f64> = a.iter().map(|x| f64::from_bits(*x)).collect();
    let b: Vec<f64> = b.iter().map(|x| f64::from_bits(*x)).collect();
    let d = match metric {
        Metric::Euclidean => a
            .iter()
            .zip(b.iter())
            .map(|(x, y)| (x - y).powi(2))
            .sum::<f64>()
            .sqrt(),
        Metric::Cosine => {
            let dot: f64 = a.iter().zip(b.iter()).map(|(x, y)| x * y).sum();
            let na: f64 = a.iter().map(|x| x * x).sum::<f64>().sqrt();
            let nb: f64 = b.iter().map(|x| x * x).sum::<f64>().sqrt();
            if na < 1e-15 || nb < 1e-15 {
                1.0
            } else {
                1.0 - dot / (na * nb)
            }
        }
    };
    d.to_bits()
}

fn compute(coords: &[Vec<f64>], metric: Metric) -> Result<DistanceMatrix, DistanceError> {
    let c: Vec<Vec<u64>> = coords.iter().map(|p| point(p)).collect();
    DistanceMatrix::compute(&c, metric, &kernel)
}

#[test]
fn test_euclidean_basic() {
    let dm = compute(&[vec![0.0, 0.0], vec![3.0, 4.0]], Metric::Euclidean).unwrap();
    assert!((value(dm.get(0, 1)) - 5.0).abs() < 1e-10);
}

#[test]
fn test_self_distance_zero() {
    let dm = compute(&[vec![1.0, 2.0], vec![3.0, 4.0]], Metric::Euclidean).unwrap();
    assert!((value(dm.get(0, 0))).abs() < 1e-10);
    assert!((value(dm.get(1, 1))).abs() < 1e-10);
}

#[test]
fn test_symmetry() {
    let dm = compute(&[vec![0.0, 0.0], vec![1.0, 0.0], vec![0.0, 1.0]], Metric::Euclidean).unwrap();
    assert!((value(dm.get(0, 1)) - value(dm.get(1, 0))).abs() < 1e-10);
    assert!((value(dm.get(0, 2)) - value(dm.get(2, 0))).abs() < 1e-10);
}

#[test]
fn test_euclidean_triangle() {
    let dm = compute(&[vec![0.0, 0.0], vec![1.0, 0.0], vec![0.0, 1.0]], Metric::Euclidean).unwrap();
    assert!((value(dm.get(0, 1)) - 1.0).abs() < 1e-10);
    assert!((value(dm.get(0, 2)) - 1.0).abs() < 1e-10);
    assert!((value(dm.get(1, 2)) - std::f64::consts::SQRT_2).abs() < 1e-10);
}

#[test]
fn test_cosine_identical() {
    let dm = compute(&[vec![1.0, 0.0], vec![2.0, 0.0]], Metric::Cosine).unwrap();
    assert!(value(dm.get(0, 1)).abs() < 1e-10);
}

#[test]
fn test_cosine_orthogonal() {
    let dm = compute(&[vec![1.0, 0.0], vec![0.0, 1.0]], Metric::Cosine).unwrap();
    assert!((value(dm.get(0, 1)) - 1.0).abs() < 1e-10);
}

#[test]
fn test_cosine_opposite() {
    let dm = compute(&[vec![1.0, 0.0], vec![-1.0, 0.0]], Metric::Cosine).unwrap();
    assert!((value(dm.get(0, 1)) - 2.0).abs() < 1e-10);
}

#[test]
fn test_empty() {
    let dm = compute(&[], Metric::Euclidean).unwrap();
    assert_eq!(dm.n, 0);
    assert!(dm.data.is_empty());
}

#[test]
fn distance_test_single_point() {
    let dm = compute(&[vec![1.0, 2.0]], Metric::Euclidean).unwrap();
    assert_eq!(dm.n, 1);
    assert!(dm.data.is_empty());
}

#[test]
fn test_from_upper_triangle() {
    let dm = DistanceMatrix::from_upper_triangle(3, point(&[1.0, 2.0, 3.0]), Metric::Euclidean)
        .unwrap();
    assert!((value(dm.get(0, 1)) - 1.0).abs() < 1e-10);
    assert!((value(dm.get(0, 2)) - 2.0).abs() < 1e-10);
    assert!((value(dm.get(1, 2)) - 3.0).abs() < 1e-10);
}

#[test]
fn test_from_upper_triangle_wrong_size() {
    let result = DistanceMatrix::from_upper_triangle(3, point(&[1.0, 2.0]), Metric::Euclidean);
    assert!(result.is_err());
}

#[test]
fn test_sorted_distances() {
    let dm = compute(&[vec![0.0], vec![3.0], vec![1.0]], Metric::Euclidean).unwrap();
    let sorted = dm.sorted_distances();
    assert_eq!(sorted.len(), 3);
    assert!(value(sorted[0]) <= value(sorted[1]));
    assert!(value(sorted[1]) <= value(sorted[2]));
}

#[test]
fn test_max_min() {
    let dm = compute(&[vec![0.0], vec![1.0], vec![10.0]], Metric::Euclidean).unwrap();
    assert!((value(dm.min_distance()) - 1.0).abs() < 1e-10);
    assert!((value(dm.max_distance()) - 10.0).abs() < 1e-10);
}

#[test]
fn test_set_distance() {
    let mut dm = DistanceMatrix::from_upper_triangle(2, point(&[5.0]), Metric::Euclidean).unwrap();
    dm.set(0, 1, bits(10.0));
    assert!((value(dm.get(0, 1)) - 10.0).abs() < 1e-10);
    dm.set(1, 0, bits(20.0));
    assert!((value(dm.get(0, 1)) - 20.0).abs() < 1e-10);
}

#[test]
fn compute_reports_first_point_of_other_dimension() {
    let r = compute(&[vec![0.0, 0.0], vec![1.0, 1.0], vec![1.0], vec![2.0]], Metric::Euclidean);
    assert_eq!(
        r,
        Err(DistanceError::DimensionMismatch { index: 2, expected: 2, actual: 1 })
    );
}

#[test]
fn upper_triangle_layout_is_row_major() {
    let dm = DistanceMatrix::from_upper_triangle(
        4,
        point(&[1.0, 2.0, 3.0, 4.0, 5.0, 6.0]),
        Metric::Euclidean,
    )
    .unwrap();
    assert_eq!(value(dm.get(0, 3)), 3.0);
    assert_eq!(value(dm.get(1, 2)), 4.0);
    assert_eq!(value(dm.get(3, 1)), 5.0);
    assert_eq!(value(dm.get(2, 3)), 6.0);
    assert_eq!(dm.pair_count(), 6);
}

#[test]
fn wrong_size_reports_expected_count() {
    let r = DistanceMatrix::from_upper_triangle(4, point(&[1.0]), Metric::Cosine);
    assert_eq!(r, Err(DistanceError::InvalidSize { expected: 6, actual: 1 }));
}

#[test]
fn sorted_distances_keep_equal_values_in_order() {
    let dm = DistanceMatrix::from_upper_triangle(
        3,
        vec![bits(2.0), bits(0.0), bits(-0.0)],
        Metric::Euclidean,
    )
    .unwrap();
    assert_eq!(dm.sorted_distances(), vec![bits(0.0), bits(-0.0), bits(2.0)]);
}

#[test]
fn max_and_min_of_no_distance() {
    let dm = compute(&[vec![1.0]], Metric::Euclidean).unwrap();
    assert_eq!(dm.max_distance(), bits(0.0));
    assert_eq!(dm.min_distance(), bits(f64::INFINITY));
}

#[test]
fn max_ignores_nan() {
    let dm = DistanceMatrix::from_upper_triangle(
        3,
        vec![bits(f64::NAN), bits(4.0), bits(1.0)],
        Metric::Euclidean,
    )
    .unwrap();
    assert_eq!(value(dm.max_distance()), 4.0);
    assert_eq!(value(dm.min_distance()), 1.0);
}

#[test]
fn upper_triangle_of_no_point() {
    let dm = DistanceMatrix::from_upper_triangle(0, vec![], Metric::Euclidean).unwrap();
    assert_eq!(dm.n, 0);
    assert_eq!(dm.get(3, 3), 0.0f64.to_bits());
    assert_eq!(
        DistanceMatrix::from_upper_triangle(0, vec![1.0f64.to_bits()], Metric::Euclidean),
        Err(DistanceError::InvalidSize { expected: 0, actual: 1 })
    );
}
