use topo_merge::distance::{DistanceMatrix, Metric};
use topo_merge::persistence::PersistenceDiagram;
use topo_merge::rips::{Simplex, VietorisRipsComplex};

fn value(x: u64) -> f64 {
    f64::from_bits(x)
}

fn euclidean(_metric: Metric, a: &Vec<u64>, b: &Vec<u64>) -> u64 {
    a.iter()
        .zip(b.iter())
        .map(|(x, y)| (f64::from_bits(*x) - f64::from_bits(*y)).powi(2))
        .sum::<f64>()
        .sqrt()
        .to_bits()
}

fn compute(coords: &[Vec<f64>]) -> DistanceMatrix {
    let c: Vec<Vec<u64>> =
        coords.iter().map(|p| p.iter().map(|x| x.to_bits()).collect()).collect();
    DistanceMatrix::compute(&c, Metric::Euclidean, &euclidean).unwrap()
}

fn triangle_dm() -> DistanceMatrix {
    compute(&[vec![0.0, 0.0], vec![1.0, 0.0], vec![0.5, 0.866]])
}

#[test]
fn test_rips_zero_epsilon() {
    let dm = triangle_dm();
    let rips = VietorisRipsComplex::build(&dm, 0.0f64.to_bits());
    assert_eq!(rips.vertices.len(), 3);
    assert!(rips.edges.is_empty());
    assert!(rips.triangles.is_empty());
    assert_eq!(rips.connected_components(), 3);
}

#[test]
fn test_rips_small_epsilon() {
    let dm = triangle_dm();
    let rips = VietorisRipsComplex::build(&dm, 0.9f64.to_bits());
    assert_eq!(rips.vertices.len(), 3);
    assert!(rips.edges.is_empty());
}

#[test]
fn test_rips_full_triangle() {
    let dm = triangle_dm();
    let rips = VietorisRipsComplex::build(&dm, 1.5f64.to_bits());
    assert_eq!(rips.vertices.len(), 3);
    assert_eq!(rips.edges.len(), 3);
    assert_eq!(rips.triangles.len(), 1);
    assert_eq!(rips.connected_components(), 1);
}

#[test]
fn test_rips_two_components() {
    let dm = compute(&[vec![0.0, 0.0], vec![1.0, 0.0], vec![10.0, 0.0], vec![11.0, 0.0]]);
    let rips = VietorisRipsComplex::build(&dm, 1.5f64.to_bits());
    assert_eq!(rips.edges.len(), 2);
    assert_eq!(rips.connected_components(), 2);
}

#[test]
fn test_filtration() {
    let dm = triangle_dm();
    let filt = VietorisRipsComplex::filtration(&dm);
    assert!(filt.len() >= 2);
    for i in 1..filt.len() {
        assert!(value(filt[i].epsilon) >= value(filt[i - 1].epsilon));
    }
}

#[test]
fn test_euler_characteristic() {
    let dm = triangle_dm();
    let rips = VietorisRipsComplex::build(&dm, 1.5f64.to_bits());
    assert_eq!(rips.euler_characteristic(), 1);
}

#[test]
fn test_empty_point_cloud() {
    let dm = compute(&[]);
    let rips = VietorisRipsComplex::build(&dm, 1.0f64.to_bits());
    assert!(rips.vertices.is_empty());
    assert!(rips.edges.is_empty());
    assert_eq!(rips.connected_components(), 0);
}

#[test]
fn rips_test_single_point() {
    let dm = compute(&[vec![0.0, 0.0]]);
    let rips = VietorisRipsComplex::build(&dm, 1.0f64.to_bits());
    assert_eq!(rips.vertices.len(), 1);
    assert!(rips.edges.is_empty());
    assert_eq!(rips.connected_components(), 1);
}

#[test]
fn test_simplex_dim() {
    assert_eq!(Simplex::Vertex(0).dim(), 0);
    assert_eq!(Simplex::Edge(0, 1).dim(), 1);
    assert_eq!(Simplex::Triangle(0, 1, 2).dim(), 2);
}

#[test]
fn test_simplex_vertices() {
    let s = Simplex::Triangle(1, 2, 3);
    assert_eq!(s.vertices(), vec![1, 2, 3]);
}

#[test]
fn test_birth_radius() {
    let dm = triangle_dm();
    let edge = Simplex::Edge(0, 1);
    let r = value(edge.birth_radius(&dm));
    assert!(r > 0.0);
    assert!(r <= 1.1);
}

#[test]
fn test_simplices_method() {
    let dm = triangle_dm();
    let rips = VietorisRipsComplex::build(&dm, 1.5f64.to_bits());
    let simplices = rips.simplices();
    assert_eq!(simplices.len(), 7);
}

#[test]
fn edges_and_triangles_come_in_lexicographic_order() {
    let dm = compute(&[vec![0.0], vec![1.0], vec![2.0], vec![3.0]]);
    let rips = VietorisRipsComplex::build(&dm, 2.0f64.to_bits());
    assert_eq!(rips.edges, vec![(0, 1), (0, 2), (1, 2), (1, 3), (2, 3)]);
    assert_eq!(rips.triangles, vec![(0, 1, 2), (1, 2, 3)]);
    assert_eq!(rips.vertices, vec![0, 1, 2, 3]);
    assert_eq!(rips.simplex_count(), 11);
    assert_eq!(rips.euler_characteristic(), 1);
    assert_eq!(rips.connected_components(), 1);
}

#[test]
fn simplices_list_vertices_then_edges_then_triangles() {
    let dm = triangle_dm();
    let rips = VietorisRipsComplex::build(&dm, 1.5f64.to_bits());
    assert_eq!(
        rips.simplices(),
        vec![
            Simplex::Vertex(0),
            Simplex::Vertex(1),
            Simplex::Vertex(2),
            Simplex::Edge(0, 1),
            Simplex::Edge(0, 2),
            Simplex::Edge(1, 2),
            Simplex::Triangle(0, 1, 2),
        ]
    );
}

#[test]
fn filtration_radii_are_zero_then_distinct_distances() {
    let dm = DistanceMatrix::from_upper_triangle(
        3,
        vec![2.0f64.to_bits(), 1.0f64.to_bits(), 2.0f64.to_bits()],
        Metric::Euclidean,
    )
    .unwrap();
    let filt = VietorisRipsComplex::filtration(&dm);
    let radii: Vec<f64> = filt.iter().map(|c| value(c.epsilon)).collect();
    assert_eq!(radii, vec![0.0, 1.0, 2.0]);
    assert_eq!(filt[1].edges, vec![(0, 2)]);
    assert_eq!(filt[2].edges.len(), 3);
    assert_eq!(filt[2].triangles, vec![(0, 1, 2)]);
}

#[test]
fn birth_radius_of_triangle_is_longest_side() {
    let dm = DistanceMatrix::from_upper_triangle(
        3,
        vec![1.0f64.to_bits(), 3.0f64.to_bits(), 2.0f64.to_bits()],
        Metric::Euclidean,
    )
    .unwrap();
    assert_eq!(value(Simplex::Triangle(0, 1, 2).birth_radius(&dm)), 3.0);
    assert_eq!(value(Simplex::Vertex(2).birth_radius(&dm)), 0.0);
    assert_eq!(value(Simplex::Edge(2, 1).birth_radius(&dm)), 2.0);
}

#[test]
fn complexes_grow_with_the_radius() {
    let dm = compute(&[vec![0.0, 0.0], vec![1.0, 0.5], vec![2.5, 0.0], vec![0.5, 2.0], vec![3.0, 3.0]]);
    let small = VietorisRipsComplex::build(&dm, 1.5f64.to_bits());
    let large = VietorisRipsComplex::build(&dm, 2.5f64.to_bits());
    assert!(small.edges.len() < large.edges.len());
    for e in &small.edges {
        assert!(large.edges.contains(e));
    }
    for t in &small.triangles {
        assert!(large.triangles.contains(t));
    }
    assert!(small.connected_components() >= large.connected_components());
}

#[test]
fn filtration_counts_never_shrink() {
    let dm = compute(&[vec![0.0, 0.0], vec![1.0, 0.5], vec![2.5, 0.0], vec![0.5, 2.0]]);
    let filt = VietorisRipsComplex::filtration(&dm);
    for w in filt.windows(2) {
        assert_eq!(w[0].vertices, w[1].vertices);
        assert!(w[0].edges.len() <= w[1].edges.len());
        assert!(w[0].triangles.len() <= w[1].triangles.len());
        assert!(w[0].simplex_count() <= w[1].simplex_count());
    }
}

#[test]
fn largest_radius_connects_everything() {
    let dm = compute(&[vec![0.0, 0.0], vec![1.0, 0.5], vec![2.5, 0.0], vec![0.5, 2.0], vec![3.0, 3.0]]);
    let rips = VietorisRipsComplex::build(&dm, dm.max_distance());
    assert_eq!(rips.edges.len(), 10);
    assert_eq!(rips.triangles.len(), 10);
    assert_eq!(rips.connected_components(), 1);
}

#[test]
fn no_triangle_without_its_sides() {
    let data = vec![f64::NAN.to_bits(), 0.0f64.to_bits(), 0.0f64.to_bits()];
    let dm = DistanceMatrix::from_upper_triangle(3, data, Metric::Euclidean).unwrap();
    let rips = VietorisRipsComplex::build(&dm, 0.0f64.to_bits());
    assert_eq!(rips.edges, vec![(0, 2), (1, 2)]);
    assert!(rips.triangles.is_empty());
}

#[test]
fn alive_components_match_the_complex() {
    let dm = compute(&[vec![0.0, 0.0], vec![1.0, 0.5], vec![2.5, 0.0], vec![0.5, 2.0], vec![3.0, 3.0]]);
    let pd = PersistenceDiagram::compute(&dm);
    for eps in [0.0f64, 0.5, 1.2, 1.6, 2.0, 2.6, 5.0] {
        let rips = VietorisRipsComplex::build(&dm, eps.to_bits());
        let alive = pd
            .features
            .iter()
            .filter(|f| f.dim == 0 && value(f.death) > eps)
            .count();
        assert_eq!(alive, rips.connected_components(), "at radius {}", eps);
    }
}

#[test]
fn simplices_are_in_the_complex_from_their_birth_radius() {
    let dm = triangle_dm();
    let simplices = [
        Simplex::Vertex(1),
        Simplex::Edge(0, 1),
        Simplex::Edge(1, 2),
        Simplex::Triangle(0, 1, 2),
    ];
    for eps in [0.0f64, 0.9, 0.99, 1.0, 1.5] {
        let rips = VietorisRipsComplex::build(&dm, eps.to_bits());
        let present = rips.simplices();
        for s in &simplices {
            assert_eq!(present.contains(s), value(s.birth_radius(&dm)) <= eps);
        }
    }
}
