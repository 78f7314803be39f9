//! Vietoris-Rips complexes of a distance matrix.
use vstd::prelude::*;

use crate::components::{
    component_count, connected, edges_within, first_of_component, labels, lemma_edges_connected,
    lemma_labels_range, lemma_link_models, lemma_single_component, UnionFind,
};
use crate::distance::{law_sorted_values, lemma_tri_index, sorted_values, DistanceMatrix};
use crate::ieee::{self, float_eq, float_le, float_lt, float_max, is_nan, no_nan, ZERO};

verus! {

/// A simplex (vertex, edge, or triangle) in the Rips complex.
#[derive(Debug, Clone, Copy, PartialEq, Eq, Hash, Structural)]
pub enum Simplex {
    /// 0-simplex (vertex).
    Vertex(usize),
    /// 1-simplex (edge).
    Edge(usize, usize),
    /// 2-simplex (triangle).
    Triangle(usize, usize, usize),
}

/// Vietoris-Rips complex at a given radius epsilon.
#[derive(Debug, Clone, PartialEq)]
pub struct VietorisRipsComplex {
    /// The radius parameter epsilon.
    pub epsilon: u64,
    /// Vertices (all points are always included).
    pub vertices: Vec<usize>,
    /// Edges where distance <= epsilon.
    pub edges: Vec<(usize, usize)>,
    /// Triangles where all pairwise distances <= epsilon.
    pub triangles: Vec<(usize, usize, usize)>,
    /// Number of points in the point cloud the complex was built from.
    pub n_points: usize,
}

/// `p` comes before `q` in lexicographic order.
pub open spec fn pair_before(p: (usize, usize), q: (usize, usize)) -> bool {
    p.0 < q.0 || (p.0 == q.0 && p.1 < q.1)
}

/// `p` comes before `q` in lexicographic order.
pub open spec fn triple_before(p: (usize, usize, usize), q: (usize, usize, usize)) -> bool {
    p.0 < q.0 || (p.0 == q.0 && (p.1 < q.1 || (p.1 == q.1 && p.2 < q.2)))
}

/// The pair `(i, j)` is an edge of the complex at radius `eps`.
pub open spec fn rips_edge(dm: DistanceMatrix, eps: u64, i: int, j: int) -> bool {
    0 <= i < j < dm.n && float_le(dm.dist(i, j), eps)
}

/// The triple `(i, j, k)` is a triangle of the complex at radius `eps`: its three sides are at
/// most `eps`.
pub open spec fn rips_triangle(dm: DistanceMatrix, eps: u64, i: int, j: int, k: int) -> bool {
    &&& 0 <= i < j < k < dm.n
    &&& float_le(dm.dist(i, j), eps)
    &&& float_le(dm.dist(i, k), eps)
    &&& float_le(dm.dist(j, k), eps)
}

/// `c` is the Rips complex of `dm` at radius `eps`: all points as vertices, and, in lexicographic
/// order, exactly the edges and the triangles at that radius.
pub open spec fn is_rips_complex(c: VietorisRipsComplex, dm: DistanceMatrix, eps: u64) -> bool {
    &&& c.epsilon == eps
    &&& c.n_points == dm.n
    &&& c.vertices@ == Seq::new(dm.n as nat, |x: int| x as usize)
    &&& forall|p: int, q: int|
        0 <= p < q < c.edges@.len() ==> pair_before(#[trigger] c.edges@[p], #[trigger] c.edges@[q])
    &&& forall|p: int|
        0 <= p < c.edges@.len() ==> rips_edge(
            dm,
            eps,
            (#[trigger] c.edges@[p]).0 as int,
            c.edges@[p].1 as int,
        )
    &&& forall|i: usize, j: usize| #[trigger]
        rips_edge(dm, eps, i as int, j as int) ==> c.edges@.contains((i, j))
    &&& forall|p: int, q: int|
        0 <= p < q < c.triangles@.len() ==> triple_before(
            #[trigger] c.triangles@[p],
            #[trigger] c.triangles@[q],
        )
    &&& forall|p: int|
        0 <= p < c.triangles@.len() ==> rips_triangle(
            dm,
            eps,
            (#[trigger] c.triangles@[p]).0 as int,
            c.triangles@[p].1 as int,
            c.triangles@[p].2 as int,
        )
    &&& forall|i: usize, j: usize, k: usize| #[trigger]
        rips_triangle(dm, eps, i as int, j as int, k as int) ==> c.triangles@.contains((i, j, k))
}

/// The distinct values of `s`, dropping each value equal (as IEEE numbers) to the last one kept.
pub open spec fn dedup_values(s: Seq<u64>) -> Seq<u64>
    decreases s.len(),
{
    if s.len() == 0 {
        s
    } else {
        let d = dedup_values(s.drop_last());
        if d.len() > 0 && float_eq(s.last(), d.last()) {
            d
        } else {
            d.push(s.last())
        }
    }
}

/// The radii of the filtration: `+0.0`, then every distinct distance in increasing order.
pub open spec fn filtration_radii(dm: DistanceMatrix) -> Seq<u64> {
    seq![ZERO] + dedup_values(sorted_values(dm.data@))
}

/// The simplices of a complex: its vertices, then its edges, then its triangles.
pub open spec fn simplex_list(c: VietorisRipsComplex) -> Seq<Simplex> {
    c.vertices@.map_values(|v: usize| Simplex::Vertex(v)) + c.edges@.map_values(
        |e: (usize, usize)| Simplex::Edge(e.0, e.1),
    ) + c.triangles@.map_values(|t: (usize, usize, usize)| Simplex::Triangle(t.0, t.1, t.2))
}

/// The radius at which a simplex first appears: `+0.0` for a vertex, the length of an edge, the
/// longest side of a triangle.
pub open spec fn simplex_birth(s: Simplex, dm: DistanceMatrix) -> u64 {
    match s {
        Simplex::Vertex(_) => ZERO,
        Simplex::Edge(a, b) => dm.dist(a as int, b as int),
        Simplex::Triangle(a, b, c) => float_max(
            float_max(dm.dist(a as int, b as int), dm.dist(a as int, c as int)),
            dm.dist(b as int, c as int),
        ),
    }
}

/// The simplex is one the complex of `n` points can hold: its vertices in increasing order, each
/// below `n`.
pub open spec fn simplex_of(s: Simplex, n: usize) -> bool {
    match s {
        Simplex::Vertex(v) => v < n,
        Simplex::Edge(a, b) => a < b < n,
        Simplex::Triangle(a, b, c) => a < b < c < n,
    }
}

impl Simplex {
    /// The dimension of the simplex (0, 1, or 2).
    pub fn dim(&self) -> (r: usize)
        ensures
            r == match *self {
                Simplex::Vertex(_) => 0usize,
                Simplex::Edge(_, _) => 1usize,
                Simplex::Triangle(_, _, _) => 2usize,
            },
    {
        match self {
            Simplex::Vertex(_) => 0,
            Simplex::Edge(_, _) => 1,
            Simplex::Triangle(_, _, _) => 2,
        }
    }

    /// The vertex indices in the simplex.
    pub fn vertices(&self) -> (r: Vec<usize>)
        ensures
            r@ == match *self {
                Simplex::Vertex(v) => seq![v],
                Simplex::Edge(a, b) => seq![a, b],
                Simplex::Triangle(a, b, c) => seq![a, b, c],
            },
    {
        match self {
            Simplex::Vertex(v) => vec![*v],
            Simplex::Edge(a, b) => vec![*a, *b],
            Simplex::Triangle(a, b, c) => vec![*a, *b, *c],
        }
    }

    /// The radius at which this simplex first appears: `+0.0` for a vertex, the length of an edge,
    /// the longest side of a triangle.
    pub fn birth_radius(&self, dm: &DistanceMatrix) -> (r: u64)
        requires
            dm.wf(),
            match *self {
                Simplex::Vertex(_) => true,
                Simplex::Edge(a, b) => a < dm.n && b < dm.n,
                Simplex::Triangle(a, b, c) => a < dm.n && b < dm.n && c < dm.n,
            },
        ensures
            r == simplex_birth(*self, *dm),
    {
        match self {
            Simplex::Vertex(_) => ZERO,
            Simplex::Edge(a, b) => dm.get(*a, *b),
            Simplex::Triangle(a, b, c) => {
                let d_ab = dm.get(*a, *b);
                let d_ac = dm.get(*a, *c);
                let d_bc = dm.get(*b, *c);
                ieee::max(ieee::max(d_ab, d_ac), d_bc)
            },
        }
    }
}

/// Appending `x` keeps everything `s` held.
proof fn lemma_push_contains<T>(s: Seq<T>, x: T)
    ensures
        forall|y: T| s.contains(y) ==> #[trigger] s.push(x).contains(y),
        s.push(x).contains(x),
{
    assert forall|y: T| s.contains(y) implies #[trigger] s.push(x).contains(y) by {
        let q = choose|q: int| 0 <= q < s.len() && s[q] == y;
        assert(s.push(x)[q] == y);
    }
    assert(s.push(x)[s.len() as int] == x);
}

/// The edges of the complex at radius `epsilon`, in lexicographic order.
fn rips_edges(dm: &DistanceMatrix, epsilon: u64) -> (edges: Vec<(usize, usize)>)
    requires
        dm.wf(),
    ensures
        forall|p: int, q: int|
            0 <= p < q < edges@.len() ==> pair_before(#[trigger] edges@[p], #[trigger] edges@[q]),
        forall|p: int|
            0 <= p < edges@.len() ==> rips_edge(
                *dm,
                epsilon,
                (#[trigger] edges@[p]).0 as int,
                edges@[p].1 as int,
            ),
        forall|i: usize, j: usize| #[trigger]
            rips_edge(*dm, epsilon, i as int, j as int) ==> edges@.contains((i, j)),
{
    let n = dm.n;
    let mut edges: Vec<(usize, usize)> = Vec::new();
    let mut i: usize = 0;
    while i < n
        invariant
            dm.wf(),
            n == dm.n,
            i <= n,
            forall|p: int, q: int|
                0 <= p < q < edges@.len() ==> pair_before(#[trigger] edges@[p], #[trigger] edges@[q]),
            forall|p: int|
                0 <= p < edges@.len() ==> rips_edge(
                    *dm,
                    epsilon,
                    (#[trigger] edges@[p]).0 as int,
                    edges@[p].1 as int,
                ) && edges@[p].0 < i,
            forall|a: usize, b: usize| #[trigger]
                rips_edge(*dm, epsilon, a as int, b as int) && a < i ==> edges@.contains((a, b)),
        decreases n - i,
    {
        let mut j: usize = i + 1;
        while j < n
            invariant
                dm.wf(),
                n == dm.n,
                i < n,
                i + 1 <= j <= n,
                forall|p: int, q: int|
                    0 <= p < q < edges@.len() ==> pair_before(
                        #[trigger] edges@[p],
                        #[trigger] edges@[q],
                    ),
                forall|p: int|
                    0 <= p < edges@.len() ==> rips_edge(
                        *dm,
                        epsilon,
                        (#[trigger] edges@[p]).0 as int,
                        edges@[p].1 as int,
                    ) && pair_before(edges@[p], (i, j)),
                forall|a: usize, b: usize| #[trigger]
                    rips_edge(*dm, epsilon, a as int, b as int) && pair_before((a, b), (i, j))
                        ==> edges@.contains((a, b)),
            decreases n - j,
        {
            if ieee::le(dm.get(i, j), epsilon) {
                proof {
                    lemma_push_contains(edges@, (i, j));
                }
                edges.push((i, j));
            }
            j = j + 1;
        }
        i = i + 1;
    }
    edges
}

/// The triangles of the complex at radius `epsilon`, in lexicographic order.
fn rips_triangles(dm: &DistanceMatrix, epsilon: u64) -> (triangles: Vec<(usize, usize, usize)>)
    requires
        dm.wf(),
    ensures
        forall|p: int, q: int|
            0 <= p < q < triangles@.len() ==> triple_before(
                #[trigger] triangles@[p],
                #[trigger] triangles@[q],
            ),
        forall|p: int|
            0 <= p < triangles@.len() ==> rips_triangle(
                *dm,
                epsilon,
                (#[trigger] triangles@[p]).0 as int,
                triangles@[p].1 as int,
                triangles@[p].2 as int,
            ),
        forall|i: usize, j: usize, k: usize| #[trigger]
            rips_triangle(*dm, epsilon, i as int, j as int, k as int) ==> triangles@.contains(
                (i, j, k),
            ),
{
    let n = dm.n;
    let mut triangles: Vec<(usize, usize, usize)> = Vec::new();
    let mut i: usize = 0;
    while i < n
        invariant
            dm.wf(),
            n == dm.n,
            i <= n,
            forall|p: int, q: int|
                0 <= p < q < triangles@.len() ==> triple_before(
                    #[trigger] triangles@[p],
                    #[trigger] triangles@[q],
                ),
            forall|p: int|
                0 <= p < triangles@.len() ==> rips_triangle(
                    *dm,
                    epsilon,
                    (#[trigger] triangles@[p]).0 as int,
                    triangles@[p].1 as int,
                    triangles@[p].2 as int,
                ) && triangles@[p].0 < i,
            forall|a: usize, b: usize, c: usize| #[trigger]
                rips_triangle(*dm, epsilon, a as int, b as int, c as int) && a < i
                    ==> triangles@.contains((a, b, c)),
        decreases n - i,
    {
        let mut j: usize = i + 1;
        while j < n
            invariant
                dm.wf(),
                n == dm.n,
                i < n,
                i + 1 <= j <= n,
                forall|p: int, q: int|
                    0 <= p < q < triangles@.len() ==> triple_before(
                        #[trigger] triangles@[p],
                        #[trigger] triangles@[q],
                    ),
                forall|p: int|
                    0 <= p < triangles@.len() ==> rips_triangle(
                        *dm,
                        epsilon,
                        (#[trigger] triangles@[p]).0 as int,
                        triangles@[p].1 as int,
                        triangles@[p].2 as int,
                    ) && pair_before((triangles@[p].0, triangles@[p].1), (i, j)),
                forall|a: usize, b: usize, c: usize| #[trigger]
                    rips_triangle(*dm, epsilon, a as int, b as int, c as int) && pair_before(
                        (a, b),
                        (i, j),
                    ) ==> triangles@.contains((a, b, c)),
            decreases n - j,
        {
            if !ieee::le(dm.get(i, j), epsilon) {
                j = j + 1;
                continue;
            }
            let mut k: usize = j + 1;
            while k < n
                invariant
                    dm.wf(),
                    n == dm.n,
                    i < n,
                    i < j < n,
                    j + 1 <= k <= n,
                    float_le(dm.dist(i as int, j as int), epsilon),
                    forall|p: int, q: int|
                        0 <= p < q < triangles@.len() ==> triple_before(
                            #[trigger] triangles@[p],
                            #[trigger] triangles@[q],
                        ),
                    forall|p: int|
                        0 <= p < triangles@.len() ==> rips_triangle(
                            *dm,
                            epsilon,
                            (#[trigger] triangles@[p]).0 as int,
                            triangles@[p].1 as int,
                            triangles@[p].2 as int,
                        ) && triple_before(triangles@[p], (i, j, k)),
                    forall|a: usize, b: usize, c: usize| #[trigger]
                        rips_triangle(*dm, epsilon, a as int, b as int, c as int) && triple_before(
                            (a, b, c),
                            (i, j, k),
                        ) ==> triangles@.contains((a, b, c)),
                decreases n - k,
            {
                if ieee::le(dm.get(i, k), epsilon) && ieee::le(dm.get(j, k), epsilon) {
                    proof {
                        lemma_push_contains(triangles@, (i, j, k));
                    }
                    triangles.push((i, j, k));
                }
                k = k + 1;
            }
            j = j + 1;
        }
        i = i + 1;
    }
    triangles
}

impl VietorisRipsComplex {
    /// Build the Rips complex from a distance matrix at radius epsilon.
    pub fn build(dm: &DistanceMatrix, epsilon: u64) -> (c: Self)
        requires
            dm.wf(),
        ensures
            is_rips_complex(c, *dm, epsilon),
    {
        let n = dm.n;
        let mut vertices: Vec<usize> = Vec::new();
        let mut v: usize = 0;
        while v < n
            invariant
                v <= n,
                vertices@ == Seq::new(v as nat, |x: int| x as usize),
            decreases n - v,
        {
            vertices.push(v);
            proof {
                assert(vertices@ =~= Seq::new((v + 1) as nat, |x: int| x as usize));
            }
            v = v + 1;
        }
        let edges = rips_edges(dm, epsilon);
        let triangles = rips_triangles(dm, epsilon);
        VietorisRipsComplex { epsilon, vertices, edges, triangles, n_points: n }
    }

    /// Build a filtration: Rips complexes at `+0.0` and at every distinct distance, in increasing
    /// order.
    pub fn filtration(dm: &DistanceMatrix) -> (r: Vec<Self>)
        requires
            dm.wf(),
        ensures
            r@.len() == filtration_radii(*dm).len(),
            forall|k: int|
                0 <= k < r@.len() ==> is_rips_complex(#[trigger] r@[k], *dm, filtration_radii(*dm)[k]),
    {
        let dists = dm.sorted_distances();
        let mut radii: Vec<u64> = Vec::new();
        radii.push(ZERO);
        let mut k: usize = 0;
        let ghost d = dists@;
        while k < dists.len()
            invariant
                k <= d.len(),
                d == dists@,
                radii@ == seq![ZERO] + dedup_values(d.take(k as int)),
            decreases d.len() - k,
        {
            let ghost kept = dedup_values(d.take(k as int));
            proof {
                assert(d.take(k + 1).drop_last() == d.take(k as int));
                assert(d.take(k + 1).last() == d[k as int]);
            }
            if k == 0 || !ieee::eq(dists[k], radii[radii.len() - 1]) {
                radii.push(dists[k]);
                proof {
                    if k == 0 {
                        assert(d.take(0) =~= Seq::<u64>::empty());
                    }
                    assert(radii@ =~= seq![ZERO] + dedup_values(d.take(k + 1)));
                }
            } else {
                proof {
                    assert(kept.len() > 0) by {
                        if kept.len() == 0 {
                            assert(radii@ =~= seq![ZERO]);
                        }
                    }
                    assert(radii@[radii@.len() - 1] == kept.last());
                }
            }
            k = k + 1;
        }
        proof {
            assert(d.take(d.len() as int) == d);
        }
        let mut r: Vec<Self> = Vec::new();
        let mut t: usize = 0;
        while t < radii.len()
            invariant
                dm.wf(),
                t <= radii@.len(),
                radii@ == filtration_radii(*dm),
                r@.len() == t,
                forall|q: int| 0 <= q < t ==> is_rips_complex(#[trigger] r@[q], *dm, radii@[q]),
            decreases radii@.len() - t,
        {
            r.push(Self::build(dm, radii[t]));
            t = t + 1;
        }
        r
    }

    /// Number of simplices total.
    pub fn simplex_count(&self) -> (r: usize)
        requires
            self.vertices@.len() + self.edges@.len() + self.triangles@.len() <= usize::MAX,
        ensures
            r == self.vertices@.len() + self.edges@.len() + self.triangles@.len(),
    {
        self.vertices.len() + self.edges.len() + self.triangles.len()
    }

    /// All simplices in the complex: vertices, then edges, then triangles.
    pub fn simplices(&self) -> (r: Vec<Simplex>)
        ensures
            r@ == simplex_list(*self),
    {
        let mut s: Vec<Simplex> = Vec::new();
        let ghost vs = self.vertices@.map_values(|v: usize| Simplex::Vertex(v));
        let ghost es = self.edges@.map_values(|e: (usize, usize)| Simplex::Edge(e.0, e.1));
        let ghost ts = self.triangles@.map_values(
            |t: (usize, usize, usize)| Simplex::Triangle(t.0, t.1, t.2),
        );
        let mut k: usize = 0;
        while k < self.vertices.len()
            invariant
                k <= self.vertices@.len(),
                vs == self.vertices@.map_values(|v: usize| Simplex::Vertex(v)),
                s@ == vs.take(k as int),
            decreases self.vertices@.len() - k,
        {
            s.push(Simplex::Vertex(self.vertices[k]));
            proof {
                assert(vs.take(k + 1) == vs.take(k as int).push(vs[k as int]));
            }
            k = k + 1;
        }
        proof {
            assert(vs.take(vs.len() as int) == vs);
        }
        k = 0;
        while k < self.edges.len()
            invariant
                k <= self.edges@.len(),
                es == self.edges@.map_values(|e: (usize, usize)| Simplex::Edge(e.0, e.1)),
                s@ == vs + es.take(k as int),
            decreases self.edges@.len() - k,
        {
            let (a, b) = self.edges[k];
            s.push(Simplex::Edge(a, b));
            proof {
                assert(es.take(k + 1) == es.take(k as int).push(es[k as int]));
                assert(s@ =~= vs + es.take(k + 1));
            }
            k = k + 1;
        }
        proof {
            assert(es.take(es.len() as int) == es);
        }
        k = 0;
        while k < self.triangles.len()
            invariant
                k <= self.triangles@.len(),
                ts == self.triangles@.map_values(
                    |t: (usize, usize, usize)| Simplex::Triangle(t.0, t.1, t.2),
                ),
                s@ == vs + es + ts.take(k as int),
            decreases self.triangles@.len() - k,
        {
            let (a, b, c) = self.triangles[k];
            s.push(Simplex::Triangle(a, b, c));
            proof {
                assert(ts.take(k + 1) == ts.take(k as int).push(ts[k as int]));
                assert(s@ =~= vs + es + ts.take(k + 1));
            }
            k = k + 1;
        }
        proof {
            assert(ts.take(ts.len() as int) == ts);
        }
        s
    }

    /// Euler characteristic: V - E + F, each count taken as an `i32`.
    pub fn euler_characteristic(&self) -> (r: i32)
        requires
            i32::MIN <= (self.vertices@.len() as i32) - (self.edges@.len() as i32) <= i32::MAX,
            i32::MIN <= (self.vertices@.len() as i32) - (self.edges@.len() as i32)
                + (self.triangles@.len() as i32) <= i32::MAX,
        ensures
            r == (self.vertices@.len() as i32) - (self.edges@.len() as i32)
                + (self.triangles@.len() as i32),
    {
        self.vertices.len() as i32 - self.edges.len() as i32 + self.triangles.len() as i32
    }

    /// Number of connected components of the graph of vertices and edges (by union-find).
    pub fn connected_components(&self) -> (r: usize)
        requires
            self.vertices@.len() > 0 ==> edges_within(self.n_points as nat, self.edges@),
        ensures
            r == if self.vertices@.len() == 0 {
                0
            } else {
                component_count(labels(self.n_points as nat, self.edges@), self.n_points as nat)
            },
    {
        if self.vertices.len() == 0 {
            return 0;
        }
        let n = self.n_points;
        let mut uf = UnionFind::new(n);
        let mut k: usize = 0;
        proof {
            assert(self.edges@.take(0) =~= Seq::<(usize, usize)>::empty());
        }
        while k < self.edges.len()
            invariant
                k <= self.edges@.len(),
                n == self.n_points,
                edges_within(n as nat, self.edges@),
                uf.inv(),
                uf.parent@.len() == n,
                uf.models(labels(n as nat, self.edges@.take(k as int))),
            decreases self.edges@.len() - k,
        {
            let (a, b) = self.edges[k];
            let ghost prefix = self.edges@.take(k as int);
            let ghost next = self.edges@.take(k + 1);
            let ghost l = labels(n as nat, prefix);
            proof {
                assert(next.drop_last() == prefix);
                assert(next.last() == (a, b));
                assert(edges_within(n as nat, prefix)) by {
                    assert forall|t: int| 0 <= t < prefix.len() implies (#[trigger] prefix[t]).0 < n
                        && prefix[t].1 < n by {
                        assert(prefix[t] == self.edges@[t]);
                    }
                }
                lemma_labels_range(n as nat, prefix);
                assert(self.edges@[k as int] == (a, b));
            }
            let ra = uf.find(a);
            let rb = uf.find(b);
            if ra != rb {
                let ghost root_before = uf.root@;
                uf.link(ra, rb);
                proof {
                    lemma_link_models(root_before, l, a as int, b as int, ra as int, rb as int);
                    assert(labels(n as nat, next) =~= Seq::new(
                        n as nat,
                        |x: int| if l[x] == l[a as int] { l[b as int] } else { l[x] },
                    ));
                }
            } else {
                proof {
                    assert(labels(n as nat, next) =~= l);
                }
            }
            k = k + 1;
        }
        proof {
            assert(self.edges@.take(self.edges@.len() as int) == self.edges@);
        }
        let ghost l = labels(n as nat, self.edges@);
        let mut seen: Vec<bool> = vec![false; n];
        let mut count: usize = 0;
        let mut i: usize = 0;
        while i < n
            invariant
                i <= n,
                uf.inv(),
                uf.parent@.len() == n,
                uf.models(l),
                seen@.len() == n,
                forall|r: int|
                    0 <= r < n ==> (#[trigger] seen@[r] <==> exists|x: int|
                        0 <= x < i && #[trigger] uf.root@[x] == r),
                count == component_count(l, i as nat),
                count <= i,
            decreases n - i,
        {
            let r = uf.find(i);
            proof {
                assert(first_of_component(l, i as int) <==> !seen@[r as int]) by {
                    if seen@[r as int] {
                        let x = choose|x: int| 0 <= x < i && #[trigger] uf.root@[x] == r as int;
                        assert(l[x] == l[i as int]);
                    } else {
                        assert forall|y: int| 0 <= y < i implies l[y] != #[trigger] l[i as int] by {
                            if l[y] == l[i as int] {
                                assert(uf.root@[y] == uf.root@[i as int]);
                            }
                        }
                    }
                }
            }
            if !seen[r] {
                seen.set(r, true);
                count = count + 1;
            }
            proof {
                assert forall|q: int| 0 <= q < n implies (#[trigger] seen@[q] <==> exists|x: int|
                    0 <= x < i + 1 && #[trigger] uf.root@[x] == q) by {
                    if q == r as int {
                        assert(uf.root@[i as int] == q);
                    }
                }
            }
            i = i + 1;
        }
        count
    }
}

/// The distinct values of a sorted sequence are still sorted, and each is one of its values.
proof fn lemma_dedup_sorted(s: Seq<u64>)
    requires
        no_nan(s),
        forall|p: int, q: int| 0 <= p < q < s.len() ==> float_le(#[trigger] s[p], #[trigger] s[q]),
    ensures
        forall|p: int, q: int|
            0 <= p < q < dedup_values(s).len() ==> float_le(
                #[trigger] dedup_values(s)[p],
                #[trigger] dedup_values(s)[q],
            ),
        forall|p: int| 0 <= p < dedup_values(s).len() ==> s.contains(#[trigger] dedup_values(s)[p]),
        s.len() > 0 ==> dedup_values(s).len() > 0,
    decreases s.len(),
{
    if s.len() > 0 {
        let d = s.drop_last();
        assert(no_nan(d)) by {
            assert forall|i: int| 0 <= i < d.len() implies !is_nan(#[trigger] d[i]) by {
                assert(d[i] == s[i]);
            }
        }
        assert forall|p: int, q: int| 0 <= p < q < d.len() implies float_le(
            #[trigger] d[p],
            #[trigger] d[q],
        ) by {
            assert(d[p] == s[p] && d[q] == s[q]);
        }
        lemma_dedup_sorted(d);
        let kept = dedup_values(d);
        let r = dedup_values(s);
        assert forall|p: int| 0 <= p < kept.len() implies s.contains(#[trigger] kept[p]) by {
            let t = choose|t: int| 0 <= t < d.len() && d[t] == kept[p];
            assert(s[t] == kept[p]);
        }
        assert(s[s.len() - 1] == s.last());
        assert forall|p: int| 0 <= p < kept.len() implies float_le(#[trigger] kept[p], s.last()) by {
            let t = choose|t: int| 0 <= t < d.len() && d[t] == kept[p];
            assert(d[t] == s[t]);
            assert(float_le(s[t], s[s.len() - 1]));
        }
        if !(kept.len() > 0 && float_eq(s.last(), kept.last())) {
            assert(r == kept.push(s.last()));
            assert forall|p: int, q: int| 0 <= p < q < r.len() implies float_le(
                #[trigger] r[p],
                #[trigger] r[q],
            ) by {
                if q == r.len() - 1 {
                    assert(r[p] == kept[p]);
                } else {
                    assert(r[p] == kept[p] && r[q] == kept[q]);
                }
            }
            assert forall|p: int| 0 <= p < r.len() implies s.contains(#[trigger] r[p]) by {
                if p < kept.len() {
                    assert(r[p] == kept[p]);
                } else {
                    assert(s[s.len() - 1] == r[p]);
                }
            }
        }
    }
}

/// When no distance is NaN or below zero, the radii of the filtration never decrease.
pub proof fn law_filtration_radii_increase(dm: DistanceMatrix)
    requires
        dm.wf(),
        no_nan(dm.data@),
        forall|k: int| 0 <= k < dm.data@.len() ==> float_le(ZERO, #[trigger] dm.data@[k]),
    ensures
        forall|p: int, q: int|
            0 <= p < q < filtration_radii(dm).len() ==> float_le(
                #[trigger] filtration_radii(dm)[p],
                #[trigger] filtration_radii(dm)[q],
            ),
{
    let s = sorted_values(dm.data@);
    law_sorted_values(dm.data@);
    let o = choose|o: Seq<usize>|
        crate::sorting::is_permutation(o, dm.data@.len()) && forall|q: int|
            0 <= q < dm.data@.len() ==> #[trigger] s[q] == dm.data@[o[q] as int];
    assert(no_nan(s)) by {
        assert forall|i: int| 0 <= i < s.len() implies !is_nan(#[trigger] s[i]) by {
            assert(s[i] == dm.data@[o[i] as int]);
        }
    }
    lemma_dedup_sorted(s);
    let kept = dedup_values(s);
    let r = filtration_radii(dm);
    ieee::lemma_constants();
    assert forall|p: int, q: int| 0 <= p < q < r.len() implies float_le(
        #[trigger] r[p],
        #[trigger] r[q],
    ) by {
        if p == 0 {
            assert(s.contains(kept[q - 1]));
            let t = choose|t: int| 0 <= t < s.len() && s[t] == kept[q - 1];
            assert(s[t] == dm.data@[o[t] as int]);
            assert(r[q] == kept[q - 1]);
        } else {
            assert(r[p] == kept[p - 1] && r[q] == kept[q - 1]);
        }
    }
}

/// A larger radius keeps every edge and every triangle of a smaller one: the complexes of a
/// filtration are nested.
pub proof fn law_rips_nested(
    dm: DistanceMatrix,
    e1: u64,
    e2: u64,
    c1: VietorisRipsComplex,
    c2: VietorisRipsComplex,
)
    requires
        is_rips_complex(c1, dm, e1),
        is_rips_complex(c2, dm, e2),
        float_le(e1, e2),
    ensures
        forall|p: (usize, usize)| c1.edges@.contains(p) ==> #[trigger] c2.edges@.contains(p),
        forall|t: (usize, usize, usize)| c1.triangles@.contains(t) ==> #[trigger] c2.triangles@.contains(t),
{
    assert forall|p: (usize, usize)| c1.edges@.contains(p) implies #[trigger] c2.edges@.contains(p) by {
        let q = choose|q: int| 0 <= q < c1.edges@.len() && c1.edges@[q] == p;
        assert(rips_edge(dm, e1, c1.edges@[q].0 as int, c1.edges@[q].1 as int));
        assert(rips_edge(dm, e2, p.0 as int, p.1 as int));
    }
    assert forall|t: (usize, usize, usize)| c1.triangles@.contains(t) implies #[trigger] c2.triangles@.contains(
        t,
    ) by {
        let q = choose|q: int| 0 <= q < c1.triangles@.len() && c1.triangles@[q] == t;
        assert(rips_triangle(
            dm,
            e1,
            c1.triangles@[q].0 as int,
            c1.triangles@[q].1 as int,
            c1.triangles@[q].2 as int,
        ));
        assert(rips_triangle(dm, e2, t.0 as int, t.1 as int, t.2 as int));
    }
}

/// Entries of a list strictly ordered by `pair_before` are all different.
proof fn lemma_pairs_distinct(s: Seq<(usize, usize)>)
    requires
        forall|p: int, q: int| 0 <= p < q < s.len() ==> pair_before(#[trigger] s[p], #[trigger] s[q]),
    ensures
        s.no_duplicates(),
{
    assert forall|i: int, j: int| 0 <= i < s.len() && 0 <= j < s.len() && i != j implies s[i] != s[j] by {
        if i < j {
            assert(pair_before(s[i], s[j]));
        } else {
            assert(pair_before(s[j], s[i]));
        }
    }
}

/// Entries of a list strictly ordered by `triple_before` are all different.
proof fn lemma_triples_distinct(s: Seq<(usize, usize, usize)>)
    requires
        forall|p: int, q: int| 0 <= p < q < s.len() ==> triple_before(#[trigger] s[p], #[trigger] s[q]),
    ensures
        s.no_duplicates(),
{
    assert forall|i: int, j: int| 0 <= i < s.len() && 0 <= j < s.len() && i != j implies s[i] != s[j] by {
        if i < j {
            assert(triple_before(s[i], s[j]));
        } else {
            assert(triple_before(s[j], s[i]));
        }
    }
}

/// A list without repeats whose entries all occur in another list is no longer than it.
proof fn lemma_contained_no_longer<T>(s1: Seq<T>, s2: Seq<T>)
    requires
        s1.no_duplicates(),
        forall|x: T| s1.contains(x) ==> #[trigger] s2.contains(x),
    ensures
        s1.len() <= s2.len(),
{
    s1.unique_seq_to_set();
    s2.lemma_cardinality_of_set();
    vstd::seq_lib::seq_to_set_is_finite(s2);
    assert(s1.to_set().subset_of(s2.to_set()));
    vstd::set_lib::lemma_len_subset(s1.to_set(), s2.to_set());
}

/// Along a filtration the complexes only grow: a larger radius has the same vertices and at least
/// as many edges and triangles.
pub proof fn law_filtration_counts_grow(
    dm: DistanceMatrix,
    e1: u64,
    e2: u64,
    c1: VietorisRipsComplex,
    c2: VietorisRipsComplex,
)
    requires
        is_rips_complex(c1, dm, e1),
        is_rips_complex(c2, dm, e2),
        float_le(e1, e2),
    ensures
        c1.vertices@ == c2.vertices@,
        c1.edges@.len() <= c2.edges@.len(),
        c1.triangles@.len() <= c2.triangles@.len(),
{
    law_rips_nested(dm, e1, e2, c1, c2);
    lemma_pairs_distinct(c1.edges@);
    lemma_triples_distinct(c1.triangles@);
    lemma_contained_no_longer(c1.edges@, c2.edges@);
    lemma_contained_no_longer(c1.triangles@, c2.triangles@);
}

/// At a radius no smaller than any distance, every pair of the `n >= 1` points is an edge and the
/// complex is connected: one component.
pub proof fn law_full_radius_connected(dm: DistanceMatrix, eps: u64, c: VietorisRipsComplex)
    requires
        dm.wf(),
        dm.n >= 1,
        is_rips_complex(c, dm, eps),
        forall|k: int| 0 <= k < dm.data@.len() ==> float_le(#[trigger] dm.data@[k], eps),
    ensures
        forall|i: usize, j: usize| i < j < dm.n ==> #[trigger] c.edges@.contains((i, j)),
        edges_within(c.n_points as nat, c.edges@),
        component_count(labels(c.n_points as nat, c.edges@), c.n_points as nat) == 1,
{
    let n = dm.n as nat;
    let es = c.edges@;
    assert forall|i: usize, j: usize| i < j < dm.n implies #[trigger] c.edges@.contains((i, j)) by {
        lemma_tri_index(dm.n as int, i as int, j as int);
        assert(float_le(dm.data@[crate::distance::tri_index(dm.n as int, i as int, j as int)], eps));
        assert(rips_edge(dm, eps, i as int, j as int));
    }
    assert forall|k: int| 0 <= k < es.len() implies (#[trigger] es[k]).0 < n && es[k].1 < n by {
        assert(rips_edge(dm, eps, es[k].0 as int, es[k].1 as int));
    }
    lemma_edges_connected(n, es);
    lemma_labels_range(n, es);
    let l = labels(n, es);
    assert forall|x: int| 0 <= x < l.len() implies #[trigger] l[x] == l[0] by {
        if x > 0 {
            assert(c.edges@.contains((0usize, x as usize)));
            let t = choose|t: int| 0 <= t < es.len() && es[t] == (0usize, x as usize);
            assert(connected(n, es, es[t].0 as int, es[t].1 as int));
        }
    }
    lemma_single_component(l, n);
}

/// A simplex belongs to the complex at radius `eps >= 0` exactly when its birth radius is at most
/// `eps` (no distance being a NaN).
pub proof fn law_simplex_birth(dm: DistanceMatrix, eps: u64, c: VietorisRipsComplex, s: Simplex)
    requires
        dm.wf(),
        no_nan(dm.data@),
        float_le(ZERO, eps),
        is_rips_complex(c, dm, eps),
        simplex_of(s, dm.n),
    ensures
        simplex_list(c).contains(s) <==> float_le(simplex_birth(s, dm), eps),
{
    let vs = c.vertices@.map_values(|v: usize| Simplex::Vertex(v));
    let es = c.edges@.map_values(|e: (usize, usize)| Simplex::Edge(e.0, e.1));
    let ts = c.triangles@.map_values(|t: (usize, usize, usize)| Simplex::Triangle(t.0, t.1, t.2));
    let l = simplex_list(c);
    assert(l == vs + es + ts);
    let n = dm.n as int;
    match s {
        Simplex::Vertex(v) => {
            assert(c.vertices@[v as int] == v);
            assert(l[v as int] == s);
        },
        Simplex::Edge(a, b) => {
            lemma_tri_index(n, a as int, b as int);
            if l.contains(s) {
                let q = choose|q: int| 0 <= q < l.len() && l[q] == s;
                if q < vs.len() {
                    assert(l[q] == vs[q]);
                } else if q < vs.len() + es.len() {
                    let p = q - vs.len();
                    assert(l[q] == es[p]);
                    assert(rips_edge(dm, eps, c.edges@[p].0 as int, c.edges@[p].1 as int));
                } else {
                    assert(l[q] == ts[q - vs.len() - es.len()]);
                }
            }
            if float_le(dm.dist(a as int, b as int), eps) {
                assert(rips_edge(dm, eps, a as int, b as int));
                assert(c.edges@.contains((a, b)));
                let p = choose|p: int| 0 <= p < c.edges@.len() && c.edges@[p] == (a, b);
                assert(l[vs.len() + p] == es[p]);
            }
        },
        Simplex::Triangle(a, b, t) => {
            lemma_tri_index(n, a as int, b as int);
            lemma_tri_index(n, a as int, t as int);
            lemma_tri_index(n, b as int, t as int);
            assert(!is_nan(dm.dist(a as int, b as int)));
            assert(!is_nan(dm.dist(a as int, t as int)));
            assert(!is_nan(dm.dist(b as int, t as int)));
            assert(float_le(simplex_birth(s, dm), eps) <==> rips_triangle(
                dm,
                eps,
                a as int,
                b as int,
                t as int,
            ));
            if l.contains(s) {
                let q = choose|q: int| 0 <= q < l.len() && l[q] == s;
                if q < vs.len() {
                    assert(l[q] == vs[q]);
                } else if q < vs.len() + es.len() {
                    assert(l[q] == es[q - vs.len()]);
                } else {
                    let p = q - vs.len() - es.len();
                    assert(l[q] == ts[p]);
                    assert(rips_triangle(
                        dm,
                        eps,
                        c.triangles@[p].0 as int,
                        c.triangles@[p].1 as int,
                        c.triangles@[p].2 as int,
                    ));
                }
            }
            if rips_triangle(dm, eps, a as int, b as int, t as int) {
                assert(c.triangles@.contains((a, b, t)));
                let p = choose|p: int| 0 <= p < c.triangles@.len() && c.triangles@[p] == (a, b, t);
                assert(l[vs.len() + es.len() + p] == ts[p]);
            }
        },
    }
}

} // verus!
