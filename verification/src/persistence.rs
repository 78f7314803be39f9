//! Persistent homology (H0 and H1) of the Vietoris-Rips filtration of a distance matrix.
use vstd::prelude::*;

use crate::components::{
    component_count, connected, edges_within, labels, lemma_edges_connected,
    lemma_edge_order_free, lemma_labels_range, lemma_link_models, lemma_merge_count,
    lemma_single_component,
    law_no_edges_components, UnionFind,
};
use crate::distance::{
    all_pairs, lemma_all_pairs_index, lemma_all_pairs_valid, lemma_row_end, lemma_row_step,
    lemma_tri_index, row_start, tri_index, DistanceMatrix,
};
use crate::ieee::{self, float_max, float_min, is_nan, rank, INFINITY, ZERO};
use crate::matching::{
    bottleneck_matching, is_bottleneck, law_bottleneck_of_twins, law_bottleneck_symmetric, transpose,
};
use crate::rips::{is_rips_complex, rips_edge, VietorisRipsComplex};
use crate::sorting::{is_permutation, lemma_stable_order, sorted_by_key, stable_order, stable_order_of};

verus! {

/// A persistent feature: born at some radius, dies at another.
#[derive(Debug, Clone, Copy, PartialEq, Eq, Structural)]
pub struct PersistenceFeature {
    /// Dimension of the feature (0 = connected component, 1 = loop).
    pub dim: usize,
    /// Radius at which the feature appears.
    pub birth: u64,
    /// Radius at which the feature dies (`+∞` if it persists forever).
    pub death: u64,
}

/// A persistence diagram: collection of persistent features.
#[derive(Debug, Clone, PartialEq)]
pub struct PersistenceDiagram {
    /// The features.
    pub features: Vec<PersistenceFeature>,
}

/// Barcode representation of persistence.
#[derive(Debug, Clone, PartialEq)]
pub struct Barcode {
    /// Bars sorted by birth.
    pub bars: Vec<PersistenceFeature>,
}

/// The feature of dimension `dim` living from `birth` to `death`.
pub open spec fn feature(dim: usize, birth: u64, death: u64) -> PersistenceFeature {
    PersistenceFeature { dim, birth, death }
}

/// Every pair of points with its distance, in the order of the triangle.
pub open spec fn edge_list(dm: DistanceMatrix) -> Seq<(usize, usize, u64)> {
    all_pairs(dm.n as nat).map_values(
        |p: (usize, usize)| (p.0, p.1, dm.dist(p.0 as int, p.1 as int)),
    )
}

/// The edges ordered by distance, equal distances kept in triangle order.
pub open spec fn sorted_edges(dm: DistanceMatrix) -> Seq<(usize, usize, u64)> {
    let e = edge_list(dm);
    stable_order(e.map_values(|x: (usize, usize, u64)| rank(x.2)), e.len()).map_values(
        |k: usize| e[k as int],
    )
}

/// The two ends of each edge.
pub open spec fn endpoints(s: Seq<(usize, usize, u64)>) -> Seq<(usize, usize)> {
    s.map_values(|e: (usize, usize, u64)| (e.0, e.1))
}

/// H0: a component born at `+0.0` dies at the length of each edge that joins two components
/// of the edges before it.
pub open spec fn h0_deaths(n: nat, sorted: Seq<(usize, usize, u64)>) -> Seq<PersistenceFeature>
    decreases sorted.len(),
{
    if sorted.len() == 0 {
        Seq::empty()
    } else {
        let prev = sorted.drop_last();
        let e = sorted.last();
        let rest = h0_deaths(n, prev);
        if connected(n, endpoints(prev), e.0 as int, e.1 as int) {
            rest
        } else {
            rest.push(feature(0, ZERO, e.2))
        }
    }
}

/// Vertices `u` and `v` are joined by one of the edges `es`.
pub open spec fn adjacent(es: Seq<(usize, usize)>, u: int, v: int) -> bool {
    exists|k: int|
        0 <= k < es.len() && ((#[trigger] es[k].0 == u && es[k].1 == v) || (es[k].0 == v
            && es[k].1 == u))
}

/// The radius at which a triangle on `(a, b)` fills the loop closed by that edge: over the common
/// neighbours `w < c` of `a` and `b` (other than `b`), the least radius at which the triangle
/// `(a, b, w)` appears, its longest side.
pub open spec fn fill_radius(dm: DistanceMatrix, es: Seq<(usize, usize)>, a: int, b: int, c: nat) -> u64
    decreases c,
{
    if c == 0 {
        INFINITY
    } else {
        let acc = fill_radius(dm, es, a, b, (c - 1) as nat);
        let w = c - 1;
        if w != b && adjacent(es, a, w) && adjacent(es, b, w) {
            float_min(acc, float_max(dm.dist(a, b), float_max(dm.dist(a, w), dm.dist(b, w))))
        } else {
            acc
        }
    }
}

/// H1: each edge that closes a cycle among the edges before it gives birth to a loop at its
/// length, which dies at the fill radius of the triangles present with it.
pub open spec fn h1_loops(dm: DistanceMatrix, sorted: Seq<(usize, usize, u64)>) -> Seq<
    PersistenceFeature,
>
    decreases sorted.len(),
{
    if sorted.len() == 0 {
        Seq::empty()
    } else {
        let prev = sorted.drop_last();
        let e = sorted.last();
        let rest = h1_loops(dm, prev);
        if connected(dm.n as nat, endpoints(prev), e.0 as int, e.1 as int) {
            rest.push(
                feature(1, e.2, fill_radius(dm, endpoints(sorted), e.0 as int, e.1 as int, dm.n as nat)),
            )
        } else {
            rest
        }
    }
}

/// Some feature of `fs` dies at `+∞`.
pub open spec fn has_infinite_death(fs: Seq<PersistenceFeature>) -> bool {
    exists|k: int| 0 <= k < fs.len() && (#[trigger] fs[k]).death == INFINITY
}

/// The H0 features, closed by one component that never dies unless one already does.
pub open spec fn h0_features(n: nat, sorted: Seq<(usize, usize, u64)>) -> Seq<PersistenceFeature> {
    let h0 = h0_deaths(n, sorted);
    if has_infinite_death(h0) {
        h0
    } else {
        h0.push(feature(0, ZERO, INFINITY))
    }
}

/// The persistence diagram of a distance matrix.
pub open spec fn diagram_features(dm: DistanceMatrix) -> Seq<PersistenceFeature> {
    if dm.n <= 1 {
        seq![feature(0, ZERO, INFINITY)]
    } else {
        let s = sorted_edges(dm);
        if dm.n >= 3 {
            h0_features(dm.n as nat, s) + h1_loops(dm, s)
        } else {
            h0_features(dm.n as nat, s)
        }
    }
}

/// Every listed edge joins two of the `n` points.
proof fn lemma_sorted_edges_within(dm: DistanceMatrix)
    requires
        dm.n <= usize::MAX,
        edge_list(dm).len() <= usize::MAX,
    ensures
        edges_within(dm.n as nat, endpoints(sorted_edges(dm))),
        forall|k: int|
            0 <= k < sorted_edges(dm).len() ==> (#[trigger] sorted_edges(dm)[k]).0 < sorted_edges(
                dm,
            )[k].1 < dm.n,
        forall|k: int|
            0 <= k < sorted_edges(dm).len() ==> (#[trigger] sorted_edges(dm)[k]).2 == dm.dist(
                sorted_edges(dm)[k].0 as int,
                sorted_edges(dm)[k].1 as int,
            ),
{
    let e = edge_list(dm);
    let keys = e.map_values(|x: (usize, usize, u64)| rank(x.2));
    lemma_stable_order(keys, e.len());
    lemma_all_pairs_valid(dm.n as nat);
    let s = sorted_edges(dm);
    let o = stable_order(keys, e.len());
    assert forall|k: int| 0 <= k < s.len() implies (#[trigger] s[k]).0 < s[k].1 < dm.n by {
        assert(o[k] < e.len());
        assert(s[k] == e[o[k] as int]);
    }
    assert forall|k: int| 0 <= k < s.len() implies (#[trigger] s[k]).2 == dm.dist(
        s[k].0 as int,
        s[k].1 as int,
    ) by {
        assert(o[k] < e.len());
        assert(s[k] == e[o[k] as int]);
    }
    let ep = endpoints(s);
    assert forall|k: int| 0 <= k < ep.len() implies (#[trigger] ep[k]).0 < dm.n && ep[k].1 < dm.n by {
        assert(ep[k] == (s[k].0, s[k].1));
    }
}

/// Lists every pair of points with its distance, in the order of the triangle.
fn pair_edges(dm: &DistanceMatrix) -> (r: Vec<(usize, usize, u64)>)
    requires
        dm.wf(),
    ensures
        r@ == edge_list(*dm),
{
    let n = dm.n;
    let ghost all = edge_list(*dm);
    let mut edges: Vec<(usize, usize, u64)> = Vec::new();
    let mut i: usize = 0;
    proof {
        lemma_row_end(n as int);
    }
    while i < n
        invariant
            dm.wf(),
            n == dm.n,
            i <= n,
            all == edge_list(*dm),
            all.len() == crate::distance::pair_total(n as int),
            edges@.len() == row_start(n as int, i as int),
            edges@ == all.take(edges@.len() as int),
        decreases n - i,
    {
        let mut j: usize = i + 1;
        while j < n
            invariant
                dm.wf(),
                n == dm.n,
                i < n,
                i + 1 <= j <= n,
                all == edge_list(*dm),
                all.len() == crate::distance::pair_total(n as int),
                edges@.len() == row_start(n as int, i as int) + (j - i - 1),
                edges@ == all.take(edges@.len() as int),
            decreases n - j,
        {
            let d = dm.get(i, j);
            proof {
                lemma_tri_index(n as int, i as int, j as int);
                lemma_all_pairs_index(n as nat, i as int, j as int);
                assert(all.take(edges@.len() as int + 1) == all.take(edges@.len() as int).push(
                    all[edges@.len() as int],
                ));
            }
            edges.push((i, j, d));
            j = j + 1;
        }
        proof {
            lemma_row_step(n as int, i as int);
        }
        i = i + 1;
    }
    proof {
        lemma_row_end(n as int);
        assert(all.take(all.len() as int) == all);
    }
    edges
}

/// Orders the edges by distance, keeping equal distances in their order.
fn sort_edges(edges: &Vec<(usize, usize, u64)>) -> (r: Vec<(usize, usize, u64)>)
    ensures
        r@ == stable_order(
            edges@.map_values(|x: (usize, usize, u64)| rank(x.2)),
            edges@.len(),
        ).map_values(|k: usize| edges@[k as int]),
{
    let ghost keys_spec = edges@.map_values(|x: (usize, usize, u64)| rank(x.2));
    let mut keys: Vec<u64> = Vec::new();
    let mut k: usize = 0;
    while k < edges.len()
        invariant
            k <= edges@.len(),
            keys_spec == edges@.map_values(|x: (usize, usize, u64)| rank(x.2)),
            keys@ == keys_spec.take(k as int),
        decreases edges@.len() - k,
    {
        keys.push(ieee::order_rank(edges[k].2));
        proof {
            assert(keys_spec.take(k + 1) == keys_spec.take(k as int).push(keys_spec[k as int]));
        }
        k = k + 1;
    }
    proof {
        assert(keys_spec.take(keys_spec.len() as int) == keys_spec);
    }
    let order = stable_order_of(&keys);
    proof {
        lemma_stable_order(keys@, keys@.len());
    }
    let ghost full = order@.map_values(|k: usize| edges@[k as int]);
    let mut r: Vec<(usize, usize, u64)> = Vec::new();
    let mut q: usize = 0;
    while q < order.len()
        invariant
            q <= order@.len(),
            is_permutation(order@, edges@.len()),
            full == order@.map_values(|k: usize| edges@[k as int]),
            r@ == full.take(q as int),
        decreases order@.len() - q,
    {
        r.push(edges[order[q]]);
        proof {
            assert(full.take(q + 1) == full.take(q as int).push(full[q as int]));
        }
        q = q + 1;
    }
    proof {
        assert(full.take(full.len() as int) == full);
    }
    r
}

/// The H0 deaths along the sorted edges, by union-find with union by rank.
fn h0_deaths_of(n: usize, sorted: &Vec<(usize, usize, u64)>) -> (r: Vec<PersistenceFeature>)
    requires
        edges_within(n as nat, endpoints(sorted@)),
    ensures
        r@ == h0_deaths(n as nat, sorted@),
{
    let mut uf = UnionFind::new(n);
    let mut rank_of: Vec<usize> = vec![0; n];
    let mut features: Vec<PersistenceFeature> = Vec::new();
    let mut k: usize = 0;
    proof {
        assert(sorted@.take(0) =~= Seq::<(usize, usize, u64)>::empty());
        assert(endpoints(sorted@.take(0)) =~= Seq::<(usize, usize)>::empty());
    }
    while k < sorted.len()
        invariant
            k <= sorted@.len(),
            edges_within(n as nat, endpoints(sorted@)),
            uf.inv(),
            uf.parent@.len() == n,
            uf.models(labels(n as nat, endpoints(sorted@.take(k as int)))),
            rank_of@.len() == n,
            forall|x: int| 0 <= x < n ==> #[trigger] rank_of@[x] <= k,
            features@ == h0_deaths(n as nat, sorted@.take(k as int)),
        decreases sorted@.len() - k,
    {
        let (a, b, dist) = sorted[k];
        let ghost prefix = sorted@.take(k as int);
        let ghost next = sorted@.take(k + 1);
        let ghost l = labels(n as nat, endpoints(prefix));
        proof {
            assert(endpoints(sorted@)[k as int] == (a, b));
            assert(next.drop_last() == prefix);
            assert(next.last() == (a, b, dist));
            assert(endpoints(next).drop_last() == endpoints(prefix));
            assert(endpoints(next).last() == (a, b));
            assert(edges_within(n as nat, endpoints(prefix))) by {
                assert forall|t: int| 0 <= t < endpoints(prefix).len() implies (#[trigger] endpoints(
                    prefix,
                )[t]).0 < n && endpoints(prefix)[t].1 < n by {
                    assert(endpoints(prefix)[t] == endpoints(sorted@)[t]);
                }
            }
            lemma_labels_range(n as nat, endpoints(prefix));
        }
        let ra = uf.find(a);
        let rb = uf.find(b);
        if ra != rb {
            let (survivor, dying) = if rank_of[ra] >= rank_of[rb] {
                (ra, rb)
            } else {
                (rb, ra)
            };
            features.push(PersistenceFeature { dim: 0, birth: ZERO, death: dist });
            let ghost root_before = uf.root@;
            uf.link(dying, survivor);
            proof {
                lemma_link_models(root_before, l, a as int, b as int, dying as int, survivor as int);
                assert(labels(n as nat, endpoints(next)) =~= Seq::new(
                    n as nat,
                    |x: int| if l[x] == l[a as int] { l[b as int] } else { l[x] },
                ));
            }
            if rank_of[ra] == rank_of[rb] {
                let bumped = rank_of[survivor] + 1;
                rank_of.set(survivor, bumped);
            }
        } else {
            proof {
                assert(labels(n as nat, endpoints(next)) =~= l);
            }
        }
        k = k + 1;
    }
    proof {
        assert(sorted@.take(sorted@.len() as int) == sorted@);
    }
    features
}

/// Adding the edge `(a, b)` makes exactly `a` and `b` newly adjacent.
proof fn lemma_adjacent_push(es: Seq<(usize, usize)>, a: usize, b: usize, u: int, v: int)
    ensures
        adjacent(es.push((a, b)), u, v) <==> (adjacent(es, u, v) || (u == a && v == b) || (u == b
            && v == a)),
{
    let es2 = es.push((a, b));
    if adjacent(es, u, v) {
        let k = choose|k: int|
            0 <= k < es.len() && ((#[trigger] es[k].0 == u && es[k].1 == v) || (es[k].0 == v
                && es[k].1 == u));
        assert(es2[k].0 == es[k].0 && es2[k].1 == es[k].1);
    }
    if (u == a && v == b) || (u == b && v == a) {
        assert(es2[es.len() as int].0 == a && es2[es.len() as int].1 == b);
    }
    if adjacent(es2, u, v) {
        let k = choose|k: int|
            0 <= k < es2.len() && ((#[trigger] es2[k].0 == u && es2[k].1 == v) || (es2[k].0 == v
                && es2[k].1 == u));
        if k < es.len() {
            assert(es2[k] == es[k]);
        } else {
            assert(es2[k] == (a, b));
        }
    }
}

/// `adj` is the adjacency matrix of the `n` vertices under the edges `es`.
pub open spec fn is_adjacency(adj: Seq<Vec<bool>>, n: nat, es: Seq<(usize, usize)>) -> bool {
    &&& adj.len() == n
    &&& forall|u: int| 0 <= u < n ==> (#[trigger] adj[u])@.len() == n
    &&& forall|u: int, v: int| 0 <= u < n && 0 <= v < n ==> (#[trigger] adj[u]@[v] <==> adjacent(es, u, v))
}

/// Marks `u` adjacent to `v`.
fn mark_adjacent(adj: &mut Vec<Vec<bool>>, u: usize, v: usize)
    requires
        u < old(adj)@.len(),
        v < old(adj)@[u as int]@.len(),
    ensures
        final(adj)@.len() == old(adj)@.len(),
        forall|x: int| 0 <= x < old(adj)@.len() && x != u ==> #[trigger] final(adj)@[x] == old(adj)@[x],
        final(adj)@[u as int]@ == old(adj)@[u as int]@.update(v as int, true),
{
    let mut row = adj[u].clone();
    proof {
        assert(row@ =~= adj@[u as int]@);
    }
    row.set(v, true);
    adj.set(u, row);
}

/// The death of the loop closed by the edge `(a, b)`: the least, over the common neighbours
/// `c != b` of `a` and `b`, of the longest side of the triangle `(a, b, c)`; `+∞` when none.
fn find_triangle_death(
    a: usize,
    b: usize,
    adj: &Vec<Vec<bool>>,
    dm: &DistanceMatrix,
    Ghost(es): Ghost<Seq<(usize, usize)>>,
) -> (r: u64)
    requires
        dm.wf(),
        a < dm.n,
        b < dm.n,
        is_adjacency(adj@, dm.n as nat, es),
    ensures
        r == fill_radius(*dm, es, a as int, b as int, dm.n as nat),
{
    let n = dm.n;
    let d_ab = dm.get(a, b);
    let mut acc: u64 = INFINITY;
    let mut c: usize = 0;
    while c < n
        invariant
            dm.wf(),
            n == dm.n,
            a < n,
            b < n,
            c <= n,
            is_adjacency(adj@, n as nat, es),
            d_ab == dm.dist(a as int, b as int),
            acc == fill_radius(*dm, es, a as int, b as int, c as nat),
        decreases n - c,
    {
        if c != b && adj[a][c] && adj[b][c] {
            let d_ac = dm.get(a, c);
            let d_bc = dm.get(b, c);
            acc = ieee::min(acc, ieee::max(d_ab, ieee::max(d_ac, d_bc)));
        }
        c = c + 1;
    }
    acc
}

/// The H1 features along the sorted edges.
fn compute_h1(edges: &Vec<(usize, usize, u64)>, dm: &DistanceMatrix) -> (r: Vec<PersistenceFeature>)
    requires
        dm.wf(),
        edges_within(dm.n as nat, endpoints(edges@)),
    ensures
        r@ == h1_loops(*dm, edges@),
{
    let n = dm.n;
    let mut adj: Vec<Vec<bool>> = Vec::new();
    let mut i: usize = 0;
    while i < n
        invariant
            i <= n,
            adj@.len() == i,
            forall|u: int| 0 <= u < i ==> (#[trigger] adj@[u])@.len() == n,
            forall|u: int, v: int| 0 <= u < i && 0 <= v < n ==> !(#[trigger] adj@[u]@[v]),
        decreases n - i,
    {
        adj.push(vec![false; n]);
        i = i + 1;
    }
    let mut uf = UnionFind::new(n);
    let mut features: Vec<PersistenceFeature> = Vec::new();
    let mut k: usize = 0;
    proof {
        assert(edges@.take(0) =~= Seq::<(usize, usize, u64)>::empty());
        assert(endpoints(edges@.take(0)) =~= Seq::<(usize, usize)>::empty());
    }
    while k < edges.len()
        invariant
            dm.wf(),
            n == dm.n,
            k <= edges@.len(),
            edges_within(n as nat, endpoints(edges@)),
            uf.inv(),
            uf.parent@.len() == n,
            uf.models(labels(n as nat, endpoints(edges@.take(k as int)))),
            is_adjacency(adj@, n as nat, endpoints(edges@.take(k as int))),
            features@ == h1_loops(*dm, edges@.take(k as int)),
        decreases edges@.len() - k,
    {
        let (a, b, dist) = edges[k];
        let ghost prefix = edges@.take(k as int);
        let ghost next = edges@.take(k + 1);
        let ghost l = labels(n as nat, endpoints(prefix));
        proof {
            assert(endpoints(edges@)[k as int] == (a, b));
            assert(next.drop_last() == prefix);
            assert(next.last() == (a, b, dist));
            assert(endpoints(next) == endpoints(prefix).push((a, b)));
            assert(endpoints(next).drop_last() == endpoints(prefix));
            assert(endpoints(next).last() == (a, b));
            assert(edges_within(n as nat, endpoints(prefix))) by {
                assert forall|t: int| 0 <= t < endpoints(prefix).len() implies (#[trigger] endpoints(
                    prefix,
                )[t]).0 < n && endpoints(prefix)[t].1 < n by {
                    assert(endpoints(prefix)[t] == endpoints(edges@)[t]);
                }
            }
            lemma_labels_range(n as nat, endpoints(prefix));
        }
        let ghost adj_before = adj@;
        mark_adjacent(&mut adj, a, b);
        mark_adjacent(&mut adj, b, a);
        proof {
            assert forall|u: int, v: int| 0 <= u < n && 0 <= v < n implies (#[trigger] adj@[u]@[v]
                <==> adjacent(endpoints(next), u, v)) by {
                lemma_adjacent_push(endpoints(prefix), a, b, u, v);
                assert(adj_before[u]@[v] <==> adjacent(endpoints(prefix), u, v));
            }
        }
        let ra = uf.find(a);
        let rb = uf.find(b);
        if ra == rb {
            let death = find_triangle_death(a, b, &adj, dm, Ghost(endpoints(next)));
            features.push(PersistenceFeature { dim: 1, birth: dist, death });
            proof {
                assert(labels(n as nat, endpoints(next)) =~= l);
            }
        } else {
            let ghost root_before = uf.root@;
            uf.link(ra, rb);
            proof {
                lemma_link_models(root_before, l, a as int, b as int, ra as int, rb as int);
                assert(labels(n as nat, endpoints(next)) =~= Seq::new(
                    n as nat,
                    |x: int| if l[x] == l[a as int] { l[b as int] } else { l[x] },
                ));
            }
        }
        k = k + 1;
    }
    proof {
        assert(edges@.take(edges@.len() as int) == edges@);
    }
    features
}

impl PersistenceDiagram {
    /// Create an empty diagram.
    pub fn empty() -> (pd: Self)
        ensures
            pd.features@ == Seq::<PersistenceFeature>::empty(),
    {
        PersistenceDiagram { features: Vec::new() }
    }

    /// Compute persistence from a distance matrix.
    ///
    /// H0: connected components merge as the radius grows (one component never dies).
    /// H1: loops form when an edge closes a cycle and fill in when a triangle covers them.
    pub fn compute(dm: &DistanceMatrix) -> (pd: Self)
        requires
            dm.wf(),
        ensures
            pd.features@ == diagram_features(*dm),
    {
        let n = dm.n;
        if n <= 1 {
            let mut features: Vec<PersistenceFeature> = Vec::new();
            features.push(PersistenceFeature { dim: 0, birth: ZERO, death: INFINITY });
            proof {
                assert(features@ =~= seq![feature(0, ZERO, INFINITY)]);
            }
            return PersistenceDiagram { features };
        }
        let edges = pair_edges(dm);
        let sorted = sort_edges(&edges);
        proof {
            lemma_sorted_edges_within(*dm);
        }
        let mut features = h0_deaths_of(n, &sorted);
        proof {
            lemma_h0_dims(n as nat, sorted@);
        }
        let mut any_infinite = false;
        let mut k: usize = 0;
        while k < features.len()
            invariant
                k <= features@.len(),
                forall|t: int| 0 <= t < features@.len() ==> (#[trigger] features@[t]).dim == 0,
                any_infinite <==> exists|t: int| 0 <= t < k && (#[trigger] features@[t]).death == INFINITY,
            decreases features@.len() - k,
        {
            if features[k].dim == 0 && features[k].death == INFINITY {
                any_infinite = true;
            }
            k = k + 1;
        }
        if !any_infinite {
            features.push(PersistenceFeature { dim: 0, birth: ZERO, death: INFINITY });
        }
        if n >= 3 {
            let mut h1 = compute_h1(&sorted, dm);
            features.append(&mut h1);
        }
        PersistenceDiagram { features }
    }
}

/// The features of dimension `dim`.
pub open spec fn of_dim(fs: Seq<PersistenceFeature>, dim: usize) -> Seq<PersistenceFeature> {
    fs.filter(|f: PersistenceFeature| f.dim == dim)
}

/// The features ordered by birth, equal births kept in their order.
pub open spec fn by_birth(fs: Seq<PersistenceFeature>) -> Seq<PersistenceFeature> {
    stable_order(fs.map_values(|f: PersistenceFeature| rank(f.birth)), fs.len()).map_values(
        |k: usize| fs[k as int],
    )
}

/// `Iterator::max_by` over the features whose death is not `+∞`, comparing the given persistence
/// values with `partial_cmp` (incomparable counts as equal, and a later maximum wins).
pub open spec fn most_persistent_index(
    fs: Seq<PersistenceFeature>,
    persistence: Seq<u64>,
    k: nat,
) -> Option<int>
    decreases k,
{
    if k == 0 {
        None
    } else {
        let acc = most_persistent_index(fs, persistence, (k - 1) as nat);
        let x = k - 1;
        if fs[x].death == INFINITY {
            acc
        } else {
            match acc {
                None => Some(x),
                Some(m) => if ieee::float_lt(persistence[x], persistence[m]) {
                    Some(m)
                } else {
                    Some(x)
                },
            }
        }
    }
}

/// `t` holds what a bottleneck matching of `a` against `b` works from: `t.0[i][j]`, a distance that
/// `point_dist` returns for `a[i]` and `b[j]`; `t.1[i]` and `t.2[j]`, a distance to the diagonal
/// that `diag_dist` returns for `a[i]` and for `b[j]`.
pub open spec fn matching_tables<P, D>(
    a: Seq<PersistenceFeature>,
    b: Seq<PersistenceFeature>,
    t: (Seq<Seq<u64>>, Seq<u64>, Seq<u64>),
    point_dist: &P,
    diag_dist: &D,
) -> bool where
    P: Fn(&PersistenceFeature, &PersistenceFeature) -> u64,
    D: Fn(&PersistenceFeature) -> u64,
 {
    &&& t.0.len() == a.len()
    &&& t.1.len() == a.len()
    &&& t.2.len() == b.len()
    &&& forall|i: int| 0 <= i < a.len() ==> (#[trigger] t.0[i]).len() == b.len()
    &&& forall|i: int, j: int|
        0 <= i < a.len() && 0 <= j < b.len() ==> point_dist.ensures(
            (&a[i], &b[j]),
            #[trigger] t.0[i][j],
        )
    &&& forall|i: int| 0 <= i < a.len() ==> diag_dist.ensures((&a[i],), #[trigger] t.1[i])
    &&& forall|j: int| 0 <= j < b.len() ==> diag_dist.ensures((&b[j],), #[trigger] t.2[j])
}

/// The bottleneck distance between the features `a` and `b`, given the bottleneck distances `r0`
/// and `r1` of their features of dimensions 0 and 1: `f64::max`, from `+0.0`, of those of the two
/// dimensions in which `a` or `b` has a feature.
pub open spec fn bottleneck_value(
    a: Seq<PersistenceFeature>,
    b: Seq<PersistenceFeature>,
    r0: u64,
    r1: u64,
) -> u64 {
    let m0 = if of_dim(a, 0).len() == 0 && of_dim(b, 0).len() == 0 {
        ZERO
    } else {
        float_max(ZERO, r0)
    };
    if of_dim(a, 1).len() == 0 && of_dim(b, 1).len() == 0 {
        m0
    } else {
        float_max(m0, r1)
    }
}

/// The matching tables of `a` against `b`.
fn matching_tables_of<P, D>(
    a: &Vec<PersistenceFeature>,
    b: &Vec<PersistenceFeature>,
    point_dist: &P,
    diag_dist: &D,
) -> (t: (Vec<Vec<u64>>, Vec<u64>, Vec<u64>)) where
    P: Fn(&PersistenceFeature, &PersistenceFeature) -> u64,
    D: Fn(&PersistenceFeature) -> u64,

    requires
        forall|x: &PersistenceFeature, y: &PersistenceFeature| #[trigger] point_dist.requires((x, y)),
        forall|x: &PersistenceFeature| #[trigger] diag_dist.requires((x,)),
    ensures
        matching_tables(
            a@,
            b@,
            (t.0@.map_values(|row: Vec<u64>| row@), t.1@, t.2@),
            point_dist,
            diag_dist,
        ),
        t.0@.len() == a@.len(),
        t.1@.len() == a@.len(),
        t.2@.len() == b@.len(),
        forall|i: int| 0 <= i < t.0@.len() ==> (#[trigger] t.0@[i])@.len() == b@.len(),
{
    let mut dists: Vec<Vec<u64>> = Vec::new();
    let mut diag_a: Vec<u64> = Vec::new();
    let mut i: usize = 0;
    while i < a.len()
        invariant
            i <= a@.len(),
            dists@.len() == i,
            diag_a@.len() == i,
            forall|x: &PersistenceFeature, y: &PersistenceFeature| #[trigger] point_dist.requires((x, y)),
            forall|x: &PersistenceFeature| #[trigger] diag_dist.requires((x,)),
            forall|r: int| 0 <= r < i ==> (#[trigger] dists@[r])@.len() == b@.len(),
            forall|r: int, q: int|
                0 <= r < i && 0 <= q < b@.len() ==> point_dist.ensures(
                    (&a@[r], &b@[q]),
                    #[trigger] dists@[r]@[q],
                ),
            forall|r: int| 0 <= r < i ==> diag_dist.ensures((&a@[r],), #[trigger] diag_a@[r]),
        decreases a@.len() - i,
    {
        let mut row: Vec<u64> = Vec::new();
        let mut j: usize = 0;
        while j < b.len()
            invariant
                i < a@.len(),
                j <= b@.len(),
                row@.len() == j,
                forall|x: &PersistenceFeature, y: &PersistenceFeature| #[trigger] point_dist.requires((x, y)),
                forall|q: int| 0 <= q < j ==> point_dist.ensures((&a@[i as int], &b@[q]), #[trigger] row@[q]),
            decreases b@.len() - j,
        {
            let d = (*point_dist)(&a[i], &b[j]);
            row.push(d);
            j = j + 1;
        }
        let g = (*diag_dist)(&a[i]);
        dists.push(row);
        diag_a.push(g);
        i = i + 1;
    }
    let mut diag_b: Vec<u64> = Vec::new();
    let mut j: usize = 0;
    while j < b.len()
        invariant
            j <= b@.len(),
            diag_b@.len() == j,
            forall|x: &PersistenceFeature| #[trigger] diag_dist.requires((x,)),
            forall|q: int| 0 <= q < j ==> diag_dist.ensures((&b@[q],), #[trigger] diag_b@[q]),
        decreases b@.len() - j,
    {
        let g = (*diag_dist)(&b[j]);
        diag_b.push(g);
        j = j + 1;
    }
    proof {
        let rows = dists@.map_values(|row: Vec<u64>| row@);
        assert forall|r: int| 0 <= r < a@.len() implies (#[trigger] rows[r]).len() == b@.len() by {
            assert(rows[r] == dists@[r]@);
        }
        assert forall|r: int, q: int|
            0 <= r < a@.len() && 0 <= q < b@.len() implies point_dist.ensures(
            (&a@[r], &b@[q]),
            #[trigger] rows[r][q],
        ) by {
            assert(rows[r] == dists@[r]@);
        }
    }
    (dists, diag_a, diag_b)
}

impl PersistenceDiagram {
    /// Bottleneck distance to another diagram.
    ///
    /// For each dimension (0, then 1) in which either diagram has a feature, the bottleneck
    /// distance between the features of that dimension: the least, over all matchings (see
    /// [`bottleneck_matching`]), of the largest distance the matching uses, with `point_dist` the
    /// distance between two features and `diag_dist` a feature's distance to the diagonal. The
    /// result is the largest of these values (`f64::max` from `+0.0`).
    pub fn bottleneck_distance<P, D>(
        &self,
        other: &PersistenceDiagram,
        point_dist: &P,
        diag_dist: &D,
    ) -> (r: u64) where
        P: Fn(&PersistenceFeature, &PersistenceFeature) -> u64,
        D: Fn(&PersistenceFeature) -> u64,

        requires
            forall|x: &PersistenceFeature, y: &PersistenceFeature| #[trigger] point_dist.requires((x, y)),
            forall|x: &PersistenceFeature| #[trigger] diag_dist.requires((x,)),
        ensures
            exists|
                t0: (Seq<Seq<u64>>, Seq<u64>, Seq<u64>),
                t1: (Seq<Seq<u64>>, Seq<u64>, Seq<u64>),
                r0: u64,
                r1: u64,
            |
                {
                    &&& #[trigger] matching_tables(
                        of_dim(self.features@, 0),
                        of_dim(other.features@, 0),
                        t0,
                        point_dist,
                        diag_dist,
                    )
                    &&& #[trigger] matching_tables(
                        of_dim(self.features@, 1),
                        of_dim(other.features@, 1),
                        t1,
                        point_dist,
                        diag_dist,
                    )
                    &&& #[trigger] is_bottleneck(r0, t0.0, t0.1, t0.2)
                    &&& #[trigger] is_bottleneck(r1, t1.0, t1.1, t1.2)
                    &&& r == bottleneck_value(self.features@, other.features@, r0, r1)
                },
    {
        let a0 = self.features_by_dim(0);
        let b0 = other.features_by_dim(0);
        let t0 = matching_tables_of(&a0, &b0, point_dist, diag_dist);
        let a1 = self.features_by_dim(1);
        let b1 = other.features_by_dim(1);
        let t1 = matching_tables_of(&a1, &b1, point_dist, diag_dist);
        let ghost g0 = (t0.0@.map_values(|row: Vec<u64>| row@), t0.1@, t0.2@);
        let ghost g1 = (t1.0@.map_values(|row: Vec<u64>| row@), t1.1@, t1.2@);
        let d0 = bottleneck_matching(&t0.0, &t0.1, &t0.2);
        let d1 = bottleneck_matching(&t1.0, &t1.1, &t1.2);
        let mut max_dist: u64 = ZERO;
        if !(a0.len() == 0 && b0.len() == 0) {
            max_dist = ieee::max(max_dist, d0);
        }
        if !(a1.len() == 0 && b1.len() == 0) {
            max_dist = ieee::max(max_dist, d1);
        }
        proof {
            assert(matching_tables(
                of_dim(self.features@, 0),
                of_dim(other.features@, 0),
                g0,
                point_dist,
                diag_dist,
            ));
            assert(matching_tables(
                of_dim(self.features@, 1),
                of_dim(other.features@, 1),
                g1,
                point_dist,
                diag_dist,
            ));
            assert(max_dist == bottleneck_value(self.features@, other.features@, d0, d1));
        }
        max_dist
    }
}

impl PersistenceDiagram {
    /// The features of dimension `dim`.
    pub fn features_by_dim(&self, dim: usize) -> (r: Vec<PersistenceFeature>)
        ensures
            r@ == of_dim(self.features@, dim),
    {
        let mut r: Vec<PersistenceFeature> = Vec::new();
        let mut k: usize = 0;
        while k < self.features.len()
            invariant
                k <= self.features@.len(),
                r@ == of_dim(self.features@.take(k as int), dim),
            decreases self.features@.len() - k,
        {
            proof {
                assert(self.features@.take(k + 1) == self.features@.take(k as int).push(
                    self.features@[k as int],
                ));
                self.features@.take(k as int).lemma_filter_push(
                    self.features@[k as int],
                    |f: PersistenceFeature| f.dim == dim,
                );
            }
            if self.features[k].dim == dim {
                r.push(self.features[k]);
            }
            k = k + 1;
        }
        proof {
            assert(self.features@.take(self.features@.len() as int) == self.features@);
        }
        r
    }

    fn count_dim(&self, dim: usize) -> (r: usize)
        ensures
            r == of_dim(self.features@, dim).len(),
    {
        let mut r: usize = 0;
        let mut k: usize = 0;
        while k < self.features.len()
            invariant
                k <= self.features@.len(),
                r == of_dim(self.features@.take(k as int), dim).len(),
                r <= k,
            decreases self.features@.len() - k,
        {
            proof {
                assert(self.features@.take(k + 1) == self.features@.take(k as int).push(
                    self.features@[k as int],
                ));
                self.features@.take(k as int).lemma_filter_push(
                    self.features@[k as int],
                    |f: PersistenceFeature| f.dim == dim,
                );
            }
            if self.features[k].dim == dim {
                r = r + 1;
            }
            k = k + 1;
        }
        proof {
            assert(self.features@.take(self.features@.len() as int) == self.features@);
        }
        r
    }

    /// Number of H0 features (connected components over the filtration).
    pub fn h0_count(&self) -> (r: usize)
        ensures
            r == of_dim(self.features@, 0).len(),
    {
        self.count_dim(0)
    }

    /// Number of H1 features (loops).
    pub fn h1_count(&self) -> (r: usize)
        ensures
            r == of_dim(self.features@, 1).len(),
    {
        self.count_dim(1)
    }

    /// Convert to barcode representation: the features ordered by birth.
    pub fn barcode(&self) -> (b: Barcode)
        ensures
            b.bars@ == by_birth(self.features@),
    {
        let ghost fs = self.features@;
        let ghost keys_spec = fs.map_values(|f: PersistenceFeature| rank(f.birth));
        let mut keys: Vec<u64> = Vec::new();
        let mut k: usize = 0;
        while k < self.features.len()
            invariant
                k <= fs.len(),
                fs == self.features@,
                keys_spec == fs.map_values(|f: PersistenceFeature| rank(f.birth)),
                keys@ == keys_spec.take(k as int),
            decreases fs.len() - k,
        {
            keys.push(ieee::order_rank(self.features[k].birth));
            proof {
                assert(keys_spec.take(k + 1) == keys_spec.take(k as int).push(keys_spec[k as int]));
            }
            k = k + 1;
        }
        proof {
            assert(keys_spec.take(keys_spec.len() as int) == keys_spec);
        }
        let order = stable_order_of(&keys);
        proof {
            lemma_stable_order(keys@, keys@.len());
        }
        let ghost full = order@.map_values(|k: usize| fs[k as int]);
        let mut bars: Vec<PersistenceFeature> = Vec::new();
        let mut q: usize = 0;
        while q < order.len()
            invariant
                q <= order@.len(),
                fs == self.features@,
                is_permutation(order@, fs.len()),
                full == order@.map_values(|k: usize| fs[k as int]),
                bars@ == full.take(q as int),
            decreases order@.len() - q,
        {
            bars.push(self.features[order[q]]);
            proof {
                assert(full.take(q + 1) == full.take(q as int).push(full[q as int]));
            }
            q = q + 1;
        }
        proof {
            assert(full.take(full.len() as int) == full);
        }
        Barcode { bars }
    }

    /// Most persistent feature among those that die: `persistence[k]` is the persistence
    /// (`death - birth`) of `features[k]`. On ties the later feature is kept.
    pub fn most_persistent(&self, persistence: &Vec<u64>) -> (r: Option<PersistenceFeature>)
        requires
            persistence@.len() == self.features@.len(),
        ensures
            r == (match most_persistent_index(self.features@, persistence@, self.features@.len()) {
                Some(k) => Some(self.features@[k]),
                None => None,
            }),
    {
        let ghost fs = self.features@;
        let mut best: Option<usize> = None;
        let mut k: usize = 0;
        while k < self.features.len()
            invariant
                k <= fs.len(),
                fs == self.features@,
                persistence@.len() == fs.len(),
                (match best {
                    Some(m) => Some(m as int),
                    None => None,
                }) == most_persistent_index(fs, persistence@, k as nat),
                best matches Some(m) ==> m < k,
            decreases fs.len() - k,
        {
            if self.features[k].death != INFINITY {
                best = match best {
                    None => Some(k),
                    Some(m) => if ieee::lt(persistence[k], persistence[m]) {
                        Some(m)
                    } else {
                        Some(k)
                    },
                };
            }
            k = k + 1;
        }
        match best {
            Some(m) => Some(self.features[m]),
            None => None,
        }
    }
}

/// Every H0 death is of dimension 0.
proof fn lemma_h0_dims(n: nat, sorted: Seq<(usize, usize, u64)>)
    ensures
        forall|k: int| 0 <= k < h0_deaths(n, sorted).len() ==> (#[trigger] h0_deaths(n, sorted)[k]).dim == 0,
    decreases sorted.len(),
{
    if sorted.len() > 0 {
        let prev = sorted.drop_last();
        lemma_h0_dims(n, prev);
        let rest = h0_deaths(n, prev);
        let e = sorted.last();
        if !connected(n, endpoints(prev), e.0 as int, e.1 as int) {
            assert(h0_deaths(n, sorted) == rest.push(feature(0, ZERO, e.2)));
            assert forall|k: int| 0 <= k < h0_deaths(n, sorted).len() implies (#[trigger] h0_deaths(
                n,
                sorted,
            )[k]).dim == 0 by {
                if k < rest.len() {
                    assert(h0_deaths(n, sorted)[k] == rest[k]);
                }
            }
        }
    }
}

impl PersistenceFeature {
    /// Whether this feature persists to infinity (never dies).
    pub fn is_infinite(&self) -> (r: bool)
        ensures
            r == (self.death == INFINITY),
    {
        self.death == INFINITY
    }
}

/// Each H0 death is a component born at `+0.0` that dies at the length of one of the edges.
proof fn lemma_h0_facts(n: nat, sorted: Seq<(usize, usize, u64)>)
    ensures
        forall|k: int|
            0 <= k < h0_deaths(n, sorted).len() ==> {
                &&& (#[trigger] h0_deaths(n, sorted)[k]).dim == 0
                &&& h0_deaths(n, sorted)[k].birth == ZERO
                &&& exists|t: int| 0 <= t < sorted.len() && h0_deaths(n, sorted)[k].death == #[trigger] sorted[t].2
            },
    decreases sorted.len(),
{
    if sorted.len() > 0 {
        let prev = sorted.drop_last();
        lemma_h0_facts(n, prev);
        let rest = h0_deaths(n, prev);
        let h = h0_deaths(n, sorted);
        assert forall|k: int| 0 <= k < h.len() implies {
            &&& (#[trigger] h[k]).dim == 0
            &&& h[k].birth == ZERO
            &&& exists|t: int| 0 <= t < sorted.len() && h[k].death == #[trigger] sorted[t].2
        } by {
            if k < rest.len() {
                assert(h[k] == rest[k]);
                let t = choose|t: int| 0 <= t < prev.len() && rest[k].death == #[trigger] prev[t].2;
                assert(sorted[t] == prev[t]);
            } else {
                assert(h[k] == feature(0, ZERO, sorted.last().2));
                assert(sorted[sorted.len() - 1] == sorted.last());
            }
        }
    }
}

/// Every H1 feature is of dimension 1.
proof fn lemma_h1_dims(dm: DistanceMatrix, sorted: Seq<(usize, usize, u64)>)
    ensures
        forall|k: int| 0 <= k < h1_loops(dm, sorted).len() ==> (#[trigger] h1_loops(dm, sorted)[k]).dim == 1,
    decreases sorted.len(),
{
    if sorted.len() > 0 {
        let prev = sorted.drop_last();
        lemma_h1_dims(dm, prev);
        let rest = h1_loops(dm, prev);
        let h = h1_loops(dm, sorted);
        assert forall|k: int| 0 <= k < h.len() implies (#[trigger] h[k]).dim == 1 by {
            if k < rest.len() {
                assert(h[k] == rest[k]);
            }
        }
    }
}

/// Each merge along the edges removes one component: the deaths and the remaining components
/// add up to the number of points.
proof fn lemma_h0_count(n: nat, sorted: Seq<(usize, usize, u64)>)
    requires
        edges_within(n, endpoints(sorted)),
    ensures
        h0_deaths(n, sorted).len() + component_count(labels(n, endpoints(sorted)), n) == n,
    decreases sorted.len(),
{
    if sorted.len() == 0 {
        law_no_edges_components(n);
        assert(endpoints(sorted) =~= Seq::<(usize, usize)>::empty());
    } else {
        let prev = sorted.drop_last();
        let e = sorted.last();
        assert(endpoints(prev) == endpoints(sorted).drop_last());
        assert(endpoints(sorted) == endpoints(prev).push((e.0, e.1)));
        assert(endpoints(sorted)[sorted.len() - 1] == (e.0, e.1));
        assert(edges_within(n, endpoints(prev))) by {
            assert forall|t: int| 0 <= t < endpoints(prev).len() implies (#[trigger] endpoints(
                prev,
            )[t]).0 < n && endpoints(prev)[t].1 < n by {
                assert(endpoints(prev)[t] == endpoints(sorted)[t]);
            }
        }
        lemma_h0_count(n, prev);
        if !connected(n, endpoints(prev), e.0 as int, e.1 as int) {
            lemma_merge_count(n, endpoints(prev), e.0, e.1);
        } else {
            assert(labels(n, endpoints(sorted)) =~= labels(n, endpoints(prev))) by {
                lemma_labels_range(n, endpoints(prev));
            }
        }
    }
}

/// The sorted edges hold every pair `(i, j)`, `i < j`, with its distance.
proof fn lemma_sorted_edges_complete(dm: DistanceMatrix, i: int, j: int)
    requires
        dm.wf(),
        0 <= i < j < dm.n,
    ensures
        exists|t: int|
            0 <= t < sorted_edges(dm).len() && (#[trigger] sorted_edges(dm)[t]).0 == i
                && sorted_edges(dm)[t].1 == j,
{
    let e = edge_list(dm);
    let keys = e.map_values(|x: (usize, usize, u64)| rank(x.2));
    lemma_row_end(dm.n as int);
    lemma_stable_order(keys, e.len());
    let o = stable_order(keys, e.len());
    lemma_all_pairs_index(dm.n as nat, i, j);
    let m = tri_index(dm.n as int, i, j);
    assert(e[m] == (i as usize, j as usize, dm.dist(i, j)));
    assert(o.contains(m as usize));
    let t = choose|t: int| 0 <= t < o.len() && o[t] == m as usize;
    assert(sorted_edges(dm)[t] == e[m]);
}

/// Every sorted edge's length is one of the stored distances.
proof fn lemma_sorted_edge_lengths(dm: DistanceMatrix)
    requires
        dm.wf(),
    ensures
        forall|t: int|
            0 <= t < sorted_edges(dm).len() ==> dm.data@.contains(#[trigger] sorted_edges(dm)[t].2),
{
    lemma_row_end(dm.n as int);
    lemma_sorted_edges_within(dm);
    let s = sorted_edges(dm);
    assert forall|t: int| 0 <= t < s.len() implies dm.data@.contains(#[trigger] s[t].2) by {
        lemma_tri_index(dm.n as int, s[t].0 as int, s[t].1 as int);
        assert(dm.data@[tri_index(dm.n as int, s[t].0 as int, s[t].1 as int)] == s[t].2);
    }
}

proof fn lemma_filter_all<A>(s: Seq<A>, pred: spec_fn(A) -> bool)
    requires
        forall|k: int| 0 <= k < s.len() ==> pred(#[trigger] s[k]),
    ensures
        s.filter(pred) == s,
    decreases s.len(),
{
    reveal(Seq::filter);
    if s.len() > 0 {
        let d = s.drop_last();
        assert forall|k: int| 0 <= k < d.len() implies pred(#[trigger] d[k]) by {
            assert(d[k] == s[k]);
        }
        lemma_filter_all(d, pred);
        assert(pred(s[s.len() - 1]));
        assert(d.push(s.last()) =~= s);
    }
}

/// With no distance of `+∞`, exactly one H0 feature never dies, and every H0 feature is born
/// at `+0.0`.
pub proof fn law_one_lasting_component(dm: DistanceMatrix)
    requires
        dm.wf(),
        forall|k: int| 0 <= k < dm.data@.len() ==> #[trigger] dm.data@[k] != INFINITY,
    ensures
        exists|k: int|
            0 <= k < diagram_features(dm).len() && (#[trigger] diagram_features(dm)[k]).dim == 0
                && diagram_features(dm)[k].death == INFINITY,
        forall|p: int, q: int|
            0 <= p < diagram_features(dm).len() && 0 <= q < diagram_features(dm).len()
                && (#[trigger] diagram_features(dm)[p]).dim == 0 && diagram_features(dm)[p].death
                == INFINITY && (#[trigger] diagram_features(dm)[q]).dim == 0
                && diagram_features(dm)[q].death == INFINITY ==> p == q,
        forall|k: int|
            0 <= k < diagram_features(dm).len() && (#[trigger] diagram_features(dm)[k]).dim == 0
                ==> diagram_features(dm)[k].birth == ZERO,
{
    let fs = diagram_features(dm);
    if dm.n <= 1 {
        assert(fs[0] == feature(0, ZERO, INFINITY));
    } else {
        let s = sorted_edges(dm);
        let h0 = h0_deaths(dm.n as nat, s);
        lemma_h0_facts(dm.n as nat, s);
        lemma_sorted_edge_lengths(dm);
        lemma_h1_dims(dm, s);
        assert forall|k: int| 0 <= k < h0.len() implies #[trigger] h0[k].death != INFINITY by {
            let t = choose|t: int| 0 <= t < s.len() && h0[k].death == #[trigger] s[t].2;
            assert(dm.data@.contains(s[t].2));
        }
        assert(!has_infinite_death(h0));
        let h0f = h0_features(dm.n as nat, s);
        assert(h0f == h0.push(feature(0, ZERO, INFINITY)));
        assert(fs[h0.len() as int] == feature(0, ZERO, INFINITY));
        assert forall|p: int, q: int|
            0 <= p < fs.len() && 0 <= q < fs.len() && (#[trigger] fs[p]).dim == 0 && fs[p].death
                == INFINITY && (#[trigger] fs[q]).dim == 0 && fs[q].death == INFINITY implies p == q by {
            assert(p == h0.len()) by {
                if p < h0.len() {
                    assert(fs[p] == h0[p]);
                } else if p > h0.len() {
                    assert(fs[p] == h1_loops(dm, s)[p - h0f.len()]);
                }
            }
            assert(q == h0.len()) by {
                if q < h0.len() {
                    assert(fs[q] == h0[q]);
                } else if q > h0.len() {
                    assert(fs[q] == h1_loops(dm, s)[q - h0f.len()]);
                }
            }
        }
        assert forall|k: int| 0 <= k < fs.len() && (#[trigger] fs[k]).dim == 0 implies fs[k].birth
            == ZERO by {
            if k < h0.len() {
                assert(fs[k] == h0[k]);
            } else if k > h0.len() {
                assert(fs[k] == h1_loops(dm, s)[k - h0f.len()]);
            }
        }
    }
}

/// `n >= 1` points with no distance of `+∞` give `n` H0 features: `n - 1` components die as the
/// radius grows and one never does.
pub proof fn law_h0_count(dm: DistanceMatrix)
    requires
        dm.wf(),
        dm.n >= 1,
        forall|k: int| 0 <= k < dm.data@.len() ==> #[trigger] dm.data@[k] != INFINITY,
    ensures
        of_dim(diagram_features(dm), 0).len() == dm.n,
{
    let fs = diagram_features(dm);
    let pred = |f: PersistenceFeature| f.dim == 0;
    if dm.n == 1 {
        reveal_with_fuel(Seq::filter, 2);
        assert(fs == seq![feature(0, ZERO, INFINITY)]);
        assert(fs.drop_last() =~= Seq::<PersistenceFeature>::empty());
    } else {
        let n = dm.n as nat;
        let s = sorted_edges(dm);
        lemma_row_end(dm.n as int);
        lemma_sorted_edges_within(dm);
        let es = endpoints(s);
        lemma_h0_count(n, s);
        lemma_edges_connected(n, es);
        lemma_labels_range(n, es);
        let l = labels(n, es);
        assert forall|x: int| 0 <= x < l.len() implies #[trigger] l[x] == l[0] by {
            if x > 0 {
                lemma_sorted_edges_complete(dm, 0, x);
                let t = choose|t: int| 0 <= t < s.len() && (#[trigger] s[t]).0 == 0 && s[t].1 == x;
                assert(es[t] == (s[t].0, s[t].1));
            }
        }
        lemma_single_component(l, n);
        law_one_lasting_component(dm);
        let h0 = h0_deaths(n, s);
        lemma_h0_facts(n, s);
        lemma_sorted_edge_lengths(dm);
        lemma_h1_dims(dm, s);
        assert forall|k: int| 0 <= k < h0.len() implies #[trigger] h0[k].death != INFINITY by {
            let t = choose|t: int| 0 <= t < s.len() && h0[k].death == #[trigger] s[t].2;
            assert(dm.data@.contains(s[t].2));
        }
        assert(!has_infinite_death(h0));
        let h0f = h0_features(n, s);
        assert(h0f == h0.push(feature(0, ZERO, INFINITY)));
        assert forall|k: int| 0 <= k < h0f.len() implies pred(#[trigger] h0f[k]) by {
            if k < h0.len() {
                assert(h0f[k] == h0[k]);
            }
        }
        lemma_filter_all(h0f, pred);
        if dm.n >= 3 {
            let h1 = h1_loops(dm, s);
            assert(fs == h0f + h1);
            Seq::filter_distributes_over_add(h0f, h1, pred);
            h1.lemma_all_neg_filter_empty(pred);
        }
    }
}

/// The bars of a barcode are the features of the diagram, rearranged into non-decreasing order of
/// birth.
pub proof fn law_barcode_sorted(fs: Seq<PersistenceFeature>)
    requires
        fs.len() <= usize::MAX,
        forall|k: int| 0 <= k < fs.len() ==> !is_nan(#[trigger] fs[k].birth),
    ensures
        by_birth(fs).len() == fs.len(),
        forall|p: int, q: int|
            0 <= p < q < fs.len() ==> ieee::float_le(
                (#[trigger] by_birth(fs)[p]).birth,
                (#[trigger] by_birth(fs)[q]).birth,
            ),
        exists|o: Seq<usize>|
            is_permutation(o, fs.len()) && forall|q: int|
                0 <= q < fs.len() ==> #[trigger] by_birth(fs)[q] == fs[o[q] as int],
{
    let keys = fs.map_values(|f: PersistenceFeature| rank(f.birth));
    let o = stable_order(keys, fs.len());
    lemma_stable_order(keys, fs.len());
    let r = by_birth(fs);
    assert forall|p: int, q: int| 0 <= p < q < fs.len() implies ieee::float_le(
        (#[trigger] r[p]).birth,
        (#[trigger] r[q]).birth,
    ) by {
        assert(keys[o[p] as int] <= keys[o[q] as int]);
        assert(r[p] == fs[o[p] as int]);
        assert(r[q] == fs[o[q] as int]);
    }
    assert(forall|q: int| 0 <= q < fs.len() ==> #[trigger] r[q] == fs[o[q] as int]);
}

/// With no NaN among the distances, no distance between two points is a NaN.
proof fn lemma_dist_numbers(dm: DistanceMatrix)
    requires
        dm.wf(),
        ieee::no_nan(dm.data@),
    ensures
        forall|x: int, y: int| 0 <= x < dm.n && 0 <= y < dm.n ==> !is_nan(#[trigger] dm.dist(x, y)),
{
    ieee::lemma_constants();
    assert forall|x: int, y: int| 0 <= x < dm.n && 0 <= y < dm.n implies !is_nan(
        #[trigger] dm.dist(x, y),
    ) by {
        if x < y {
            lemma_tri_index(dm.n as int, x, y);
        } else if y < x {
            lemma_tri_index(dm.n as int, y, x);
        }
    }
}

/// The fill radius of the loop closed by `(a, b)` is a number no smaller than that edge's length.
proof fn lemma_fill_radius_bound(dm: DistanceMatrix, es: Seq<(usize, usize)>, a: int, b: int, c: nat)
    requires
        0 <= a < dm.n,
        0 <= b < dm.n,
        c <= dm.n,
        forall|x: int, y: int| 0 <= x < dm.n && 0 <= y < dm.n ==> !is_nan(#[trigger] dm.dist(x, y)),
    ensures
        !is_nan(fill_radius(dm, es, a, b, c)),
        ieee::float_le(dm.dist(a, b), fill_radius(dm, es, a, b, c)),
    decreases c,
{
    ieee::lemma_constants();
    ieee::lemma_infinity_is_top(dm.dist(a, b));
    if c > 0 {
        lemma_fill_radius_bound(dm, es, a, b, (c - 1) as nat);
        let w = c - 1;
        assert(!is_nan(dm.dist(a, w)) && !is_nan(dm.dist(b, w)));
    }
}

/// Each loop dies no earlier than it is born.
proof fn lemma_h1_order(dm: DistanceMatrix, sorted: Seq<(usize, usize, u64)>)
    requires
        forall|t: int| 0 <= t < sorted.len() ==> (#[trigger] sorted[t]).0 < dm.n && sorted[t].1 < dm.n
            && sorted[t].2 == dm.dist(sorted[t].0 as int, sorted[t].1 as int),
        forall|x: int, y: int| 0 <= x < dm.n && 0 <= y < dm.n ==> !is_nan(#[trigger] dm.dist(x, y)),
    ensures
        forall|k: int|
            0 <= k < h1_loops(dm, sorted).len() ==> ieee::float_le(
                (#[trigger] h1_loops(dm, sorted)[k]).birth,
                h1_loops(dm, sorted)[k].death,
            ),
    decreases sorted.len(),
{
    if sorted.len() > 0 {
        let prev = sorted.drop_last();
        lemma_h1_order(dm, prev);
        let e = sorted.last();
        assert(sorted[sorted.len() - 1] == e);
        let rest = h1_loops(dm, prev);
        let h = h1_loops(dm, sorted);
        lemma_fill_radius_bound(dm, endpoints(sorted), e.0 as int, e.1 as int, dm.n as nat);
        assert forall|k: int| 0 <= k < h.len() implies ieee::float_le(
            (#[trigger] h[k]).birth,
            h[k].death,
        ) by {
            if k < rest.len() {
                assert(h[k] == rest[k]);
            }
        }
    }
}

/// With no NaN and nothing below zero among the distances, no feature dies before it is born.
pub proof fn law_birth_before_death(dm: DistanceMatrix)
    requires
        dm.wf(),
        ieee::no_nan(dm.data@),
        forall|k: int| 0 <= k < dm.data@.len() ==> ieee::float_le(ZERO, #[trigger] dm.data@[k]),
    ensures
        forall|k: int|
            0 <= k < diagram_features(dm).len() ==> ieee::float_le(
                (#[trigger] diagram_features(dm)[k]).birth,
                diagram_features(dm)[k].death,
            ),
{
    ieee::lemma_constants();
    let fs = diagram_features(dm);
    if dm.n <= 1 {
        assert(fs[0] == feature(0, ZERO, INFINITY));
    } else {
        let s = sorted_edges(dm);
        lemma_row_end(dm.n as int);
        lemma_sorted_edges_within(dm);
        lemma_sorted_edge_lengths(dm);
        lemma_dist_numbers(dm);
        let h0 = h0_deaths(dm.n as nat, s);
        lemma_h0_facts(dm.n as nat, s);
        lemma_h1_order(dm, s);
        let h0f = h0_features(dm.n as nat, s);
        assert forall|k: int| 0 <= k < h0f.len() implies ieee::float_le(
            (#[trigger] h0f[k]).birth,
            h0f[k].death,
        ) by {
            if k < h0.len() {
                assert(h0f[k] == h0[k]);
                let t = choose|t: int| 0 <= t < s.len() && h0[k].death == #[trigger] s[t].2;
                let q = choose|q: int| 0 <= q < dm.data@.len() && dm.data@[q] == s[t].2;
                assert(ieee::float_le(ZERO, dm.data@[q]));
            } else {
                assert(h0f[k] == feature(0, ZERO, INFINITY));
            }
        }
        if dm.n >= 3 {
            let h1 = h1_loops(dm, s);
            assert forall|k: int| 0 <= k < fs.len() implies ieee::float_le(
                (#[trigger] fs[k]).birth,
                fs[k].death,
            ) by {
                if k < h0f.len() {
                    assert(fs[k] == h0f[k]);
                } else {
                    assert(fs[k] == h1[k - h0f.len()]);
                }
            }
        }
    }
}

/// The features of `fs` still alive at radius `eps`: those whose death lies above it.
pub open spec fn alive_at(fs: Seq<PersistenceFeature>, eps: u64) -> Seq<PersistenceFeature> {
    fs.filter(|f: PersistenceFeature| ieee::float_lt(eps, f.death))
}

/// The sorted edges come by non-decreasing length.
proof fn lemma_sorted_edges_ranked(dm: DistanceMatrix)
    requires
        dm.wf(),
    ensures
        forall|i: int, j: int|
            0 <= i < j < sorted_edges(dm).len() ==> rank((#[trigger] sorted_edges(dm)[i]).2) <= rank(
                (#[trigger] sorted_edges(dm)[j]).2,
            ),
{
    let e = edge_list(dm);
    let keys = e.map_values(|x: (usize, usize, u64)| rank(x.2));
    lemma_row_end(dm.n as int);
    lemma_all_pairs_valid(dm.n as nat);
    lemma_stable_order(keys, e.len());
    let o = stable_order(keys, e.len());
    let s = sorted_edges(dm);
    assert forall|i: int, j: int| 0 <= i < j < s.len() implies rank((#[trigger] s[i]).2) <= rank(
        (#[trigger] s[j]).2,
    ) by {
        assert(keys[o[i] as int] <= keys[o[j] as int]);
        assert(s[i] == e[o[i] as int]);
        assert(s[j] == e[o[j] as int]);
    }
}

/// In edges sorted by length, those no longer than `eps` come first: the first `p` of the first
/// `m`.
proof fn lemma_split(s: Seq<(usize, usize, u64)>, eps: u64, m: nat) -> (p: nat)
    requires
        m <= s.len(),
        !is_nan(eps),
        forall|t: int| 0 <= t < s.len() ==> !is_nan(#[trigger] s[t].2),
        forall|i: int, j: int| 0 <= i < j < s.len() ==> rank((#[trigger] s[i]).2) <= rank((#[trigger] s[j]).2),
    ensures
        p <= m,
        forall|t: int| 0 <= t < p ==> ieee::float_le((#[trigger] s[t]).2, eps),
        forall|t: int| p <= t < m ==> ieee::float_lt(eps, (#[trigger] s[t]).2),
    decreases m,
{
    if m == 0 {
        0
    } else {
        let q = lemma_split(s, eps, (m - 1) as nat);
        if ieee::float_le(s[m - 1].2, eps) {
            if q < m - 1 {
                assert(ieee::float_lt(eps, s[q as int].2));
                assert(rank(s[q as int].2) <= rank(s[m - 1].2));
            }
            m
        } else {
            assert(!is_nan(s[m - 1].2));
            q
        }
    }
}

/// Along the sorted edges, a death at an edge no longer than `eps` is not alive at `eps`, and a
/// death at a longer edge is.
proof fn lemma_alive_prefix(n: nat, s: Seq<(usize, usize, u64)>, eps: u64, p: nat, m: nat)
    requires
        p <= s.len(),
        m <= s.len(),
        forall|t: int| 0 <= t < p ==> ieee::float_le((#[trigger] s[t]).2, eps),
        forall|t: int| p <= t < s.len() ==> ieee::float_lt(eps, (#[trigger] s[t]).2),
    ensures
        m <= p ==> alive_at(h0_deaths(n, s.take(m as int)), eps).len() == 0,
        m >= p ==> alive_at(h0_deaths(n, s.take(m as int)), eps).len() + h0_deaths(
            n,
            s.take(p as int),
        ).len() == h0_deaths(n, s.take(m as int)).len(),
    decreases m,
{
    let pred = |f: PersistenceFeature| ieee::float_lt(eps, f.death);
    if m == 0 {
        reveal(Seq::filter);
        assert(s.take(0) =~= Seq::<(usize, usize, u64)>::empty());
        assert(alive_at(h0_deaths(n, s.take(0)), eps) =~= Seq::<PersistenceFeature>::empty());
    } else {
        lemma_alive_prefix(n, s, eps, p, (m - 1) as nat);
        let sm = s.take(m as int);
        assert(sm.drop_last() == s.take(m - 1));
        assert(sm.last() == s[m - 1]);
        let prev = h0_deaths(n, s.take(m - 1));
        let x = feature(0, ZERO, s[m - 1].2);
        prev.lemma_filter_push(x, pred);
        if m <= p {
            assert(ieee::float_le(s[m - 1].2, eps));
        }
    }
}

/// At a radius `eps` below `+∞`, with every distance a number other than `+∞`, the H0 features
/// still alive are as many as the connected components of the Rips complex at `eps`.
pub proof fn law_alive_components(dm: DistanceMatrix, eps: u64, c: VietorisRipsComplex)
    requires
        dm.wf(),
        dm.n >= 1,
        ieee::no_nan(dm.data@),
        forall|k: int| 0 <= k < dm.data@.len() ==> #[trigger] dm.data@[k] != INFINITY,
        ieee::float_lt(eps, INFINITY),
        is_rips_complex(c, dm, eps),
    ensures
        alive_at(of_dim(diagram_features(dm), 0), eps).len() == component_count(
            labels(c.n_points as nat, c.edges@),
            c.n_points as nat,
        ),
{
    let n = dm.n as nat;
    let fs = diagram_features(dm);
    let pred0 = |f: PersistenceFeature| f.dim == 0;
    let alive = |f: PersistenceFeature| ieee::float_lt(eps, f.death);
    ieee::lemma_constants();
    assert(edges_within(n, c.edges@)) by {
        assert forall|k: int| 0 <= k < c.edges@.len() implies (#[trigger] c.edges@[k]).0 < n
            && c.edges@[k].1 < n by {
            assert(rips_edge(dm, eps, c.edges@[k].0 as int, c.edges@[k].1 as int));
        }
    }
    if dm.n == 1 {
        reveal_with_fuel(Seq::filter, 2);
        assert(fs == seq![feature(0, ZERO, INFINITY)]);
        assert(fs.drop_last() =~= Seq::<PersistenceFeature>::empty());
        assert(of_dim(fs, 0) == fs);
        assert(alive_at(fs, eps) == fs);
        assert(c.edges@ =~= Seq::<(usize, usize)>::empty()) by {
            if c.edges@.len() > 0 {
                assert(rips_edge(dm, eps, c.edges@[0].0 as int, c.edges@[0].1 as int));
            }
        }
        law_no_edges_components(n);
    } else {
        let s = sorted_edges(dm);
        lemma_row_end(dm.n as int);
        lemma_sorted_edges_within(dm);
        lemma_sorted_edge_lengths(dm);
        lemma_sorted_edges_ranked(dm);
        assert forall|t: int| 0 <= t < s.len() implies !is_nan(#[trigger] s[t].2) && s[t].2 != INFINITY by {
            let q = choose|q: int| 0 <= q < dm.data@.len() && dm.data@[q] == s[t].2;
        }
        let p = lemma_split(s, eps, s.len());
        lemma_alive_prefix(n, s, eps, p, s.len());
        assert(s.take(s.len() as int) == s);
        let es = endpoints(s);
        let sp = s.take(p as int);
        let esp = endpoints(sp);
        assert(edges_within(n, esp)) by {
            assert forall|k: int| 0 <= k < esp.len() implies (#[trigger] esp[k]).0 < n && esp[k].1 < n by {
                assert(esp[k] == (s[k].0, s[k].1));
            }
        }
        lemma_h0_count(n, s);
        lemma_h0_count(n, sp);
        // all points end up in one component
        lemma_edges_connected(n, es);
        lemma_labels_range(n, es);
        let l = labels(n, es);
        assert forall|x: int| 0 <= x < l.len() implies #[trigger] l[x] == l[0] by {
            if x > 0 {
                lemma_sorted_edges_complete(dm, 0, x);
                let t = choose|t: int| 0 <= t < s.len() && (#[trigger] s[t]).0 == 0 && s[t].1 == x;
                assert(es[t] == (s[t].0, s[t].1));
            }
        }
        lemma_single_component(l, n);
        // the H0 features are the deaths and one lasting component
        let h0 = h0_deaths(n, s);
        lemma_h0_facts(n, s);
        lemma_h1_dims(dm, s);
        assert forall|k: int| 0 <= k < h0.len() implies #[trigger] h0[k].death != INFINITY by {
            let t = choose|t: int| 0 <= t < s.len() && h0[k].death == #[trigger] s[t].2;
        }
        assert(!has_infinite_death(h0));
        let h0f = h0_features(n, s);
        assert(h0f == h0.push(feature(0, ZERO, INFINITY)));
        assert forall|k: int| 0 <= k < h0f.len() implies pred0(#[trigger] h0f[k]) by {
            if k < h0.len() {
                assert(h0f[k] == h0[k]);
            }
        }
        lemma_filter_all(h0f, pred0);
        if dm.n >= 3 {
            let h1 = h1_loops(dm, s);
            assert(fs == h0f + h1);
            Seq::filter_distributes_over_add(h0f, h1, pred0);
            h1.lemma_all_neg_filter_empty(pred0);
            assert(h1.filter(pred0) =~= Seq::<PersistenceFeature>::empty());
            assert(of_dim(fs, 0) =~= h0f);
        }
        assert(of_dim(fs, 0) == h0f);
        h0.lemma_filter_push(feature(0, ZERO, INFINITY), alive);
        // the short edges and the complex's edges are the same pairs
        assert forall|e: (usize, usize)| esp.contains(e) <==> #[trigger] c.edges@.contains(e) by {
            if esp.contains(e) {
                let k = choose|k: int| 0 <= k < esp.len() && esp[k] == e;
                assert(esp[k] == (s[k].0, s[k].1));
                assert(ieee::float_le(s[k].2, eps));
                assert(rips_edge(dm, eps, e.0 as int, e.1 as int));
            }
            if c.edges@.contains(e) {
                let q = choose|q: int| 0 <= q < c.edges@.len() && c.edges@[q] == e;
                assert(rips_edge(dm, eps, e.0 as int, e.1 as int));
                lemma_sorted_edges_complete(dm, e.0 as int, e.1 as int);
                let t = choose|t: int|
                    0 <= t < s.len() && (#[trigger] s[t]).0 == e.0 as int && s[t].1 == e.1 as int;
                assert(s[t].2 == dm.dist(e.0 as int, e.1 as int));
                if t >= p {
                    assert(ieee::float_lt(eps, s[t].2));
                }
                assert(esp[t] == e);
            }
        }
        lemma_edge_order_free(n, esp, c.edges@);
    }
}

/// The matching tables of a list of features against itself have `+0.0` on their diagonal when a
/// feature is at distance `+0.0` from itself, so their bottleneck distance is zero.
proof fn lemma_twin_tables<P, D>(
    a: Seq<PersistenceFeature>,
    t: (Seq<Seq<u64>>, Seq<u64>, Seq<u64>),
    r: u64,
    point_dist: &P,
    diag_dist: &D,
) where
    P: Fn(&PersistenceFeature, &PersistenceFeature) -> u64,
    D: Fn(&PersistenceFeature) -> u64,

    requires
        a.len() <= usize::MAX,
        matching_tables(a, a, t, point_dist, diag_dist),
        is_bottleneck(r, t.0, t.1, t.2),
        forall|x: &PersistenceFeature, d: u64| #[trigger] point_dist.ensures((x, x), d) ==> d == ZERO,
    ensures
        r == ZERO,
{
    assert forall|i: int| 0 <= i < t.0.len() implies #[trigger] t.0[i][i] == ZERO by {
        assert(point_dist.ensures((&a[i], &a[i]), t.0[i][i]));
    }
    law_bottleneck_of_twins(t.0, t.1, t.2, r);
}

/// A diagram is at bottleneck distance `+0.0` from itself, when the distance between a feature and
/// itself is `+0.0`.
pub proof fn law_bottleneck_to_itself<P, D>(
    fs: Seq<PersistenceFeature>,
    t0: (Seq<Seq<u64>>, Seq<u64>, Seq<u64>),
    t1: (Seq<Seq<u64>>, Seq<u64>, Seq<u64>),
    r0: u64,
    r1: u64,
    point_dist: &P,
    diag_dist: &D,
) where
    P: Fn(&PersistenceFeature, &PersistenceFeature) -> u64,
    D: Fn(&PersistenceFeature) -> u64,

    requires
        fs.len() <= usize::MAX,
        matching_tables(of_dim(fs, 0), of_dim(fs, 0), t0, point_dist, diag_dist),
        matching_tables(of_dim(fs, 1), of_dim(fs, 1), t1, point_dist, diag_dist),
        is_bottleneck(r0, t0.0, t0.1, t0.2),
        is_bottleneck(r1, t1.0, t1.1, t1.2),
        forall|x: &PersistenceFeature, d: u64| #[trigger] point_dist.ensures((x, x), d) ==> d == ZERO,
    ensures
        bottleneck_value(fs, fs, r0, r1) == ZERO,
{
    ieee::lemma_constants();
    fs.lemma_filter_len(|f: PersistenceFeature| f.dim == 0);
    fs.lemma_filter_len(|f: PersistenceFeature| f.dim == 1);
    lemma_twin_tables(of_dim(fs, 0), t0, r0, point_dist, diag_dist);
    lemma_twin_tables(of_dim(fs, 1), t1, r1, point_dist, diag_dist);
}

/// Two diagrams are at the same bottleneck distance whichever comes first, when the distances
/// between their features are read the other way round (`u0`, `u1` are `t0`, `t1` seen from `b`).
pub proof fn law_bottleneck_distance_symmetric(
    a: Seq<PersistenceFeature>,
    b: Seq<PersistenceFeature>,
    t0: (Seq<Seq<u64>>, Seq<u64>, Seq<u64>),
    t1: (Seq<Seq<u64>>, Seq<u64>, Seq<u64>),
    r0: u64,
    r1: u64,
    s0: u64,
    s1: u64,
)
    requires
        t0.0.len() == t0.1.len(),
        forall|i: int| 0 <= i < t0.0.len() ==> (#[trigger] t0.0[i]).len() == t0.2.len(),
        t0.1.len() <= usize::MAX,
        t0.2.len() <= usize::MAX,
        t1.0.len() == t1.1.len(),
        forall|i: int| 0 <= i < t1.0.len() ==> (#[trigger] t1.0[i]).len() == t1.2.len(),
        t1.1.len() <= usize::MAX,
        t1.2.len() <= usize::MAX,
        is_bottleneck(r0, t0.0, t0.1, t0.2),
        is_bottleneck(r1, t1.0, t1.1, t1.2),
        is_bottleneck(s0, transpose(t0.0, t0.1.len(), t0.2.len()), t0.2, t0.1),
        is_bottleneck(s1, transpose(t1.0, t1.1.len(), t1.2.len()), t1.2, t1.1),
    ensures
        bottleneck_value(a, b, r0, r1) == bottleneck_value(b, a, s0, s1),
{
    law_bottleneck_symmetric(t0.0, t0.1, t0.2, r0, s0);
    law_bottleneck_symmetric(t1.0, t1.1, t1.2, r1, s1);
}

/// Each H1 feature along the edges `sorted` is born at the length of an edge `sorted[t]` that closes
/// a cycle, and dies at the fill radius of that edge among the edges up to it.
proof fn lemma_h1_origin(dm: DistanceMatrix, sorted: Seq<(usize, usize, u64)>)
    ensures
        forall|k: int|
            0 <= k < h1_loops(dm, sorted).len() ==> exists|t: int|
                0 <= t < sorted.len() && #[trigger] h1_loops(dm, sorted)[k] == feature(
                    1,
                    sorted[t].2,
                    fill_radius(
                        dm,
                        endpoints(sorted.take(t + 1)),
                        sorted[t].0 as int,
                        sorted[t].1 as int,
                        dm.n as nat,
                    ),
                ),
    decreases sorted.len(),
{
    if sorted.len() > 0 {
        let prev = sorted.drop_last();
        lemma_h1_origin(dm, prev);
        let rest = h1_loops(dm, prev);
        let h = h1_loops(dm, sorted);
        let e = sorted.last();
        assert(sorted.take(sorted.len() as int) == sorted);
        assert(sorted[sorted.len() - 1] == e);
        assert forall|k: int| 0 <= k < h.len() implies exists|t: int|
            0 <= t < sorted.len() && #[trigger] h1_loops(dm, sorted)[k] == feature(
                1,
                sorted[t].2,
                fill_radius(
                    dm,
                    endpoints(sorted.take(t + 1)),
                    sorted[t].0 as int,
                    sorted[t].1 as int,
                    dm.n as nat,
                ),
            ) by {
            if k < rest.len() {
                assert(h[k] == rest[k]);
                let t = choose|t: int|
                    0 <= t < prev.len() && #[trigger] h1_loops(dm, prev)[k] == feature(
                        1,
                        prev[t].2,
                        fill_radius(
                            dm,
                            endpoints(prev.take(t + 1)),
                            prev[t].0 as int,
                            prev[t].1 as int,
                            dm.n as nat,
                        ),
                    );
                assert(prev.take(t + 1) == sorted.take(t + 1));
                assert(prev[t] == sorted[t]);
            } else {
                let t = sorted.len() - 1;
                assert(h[k] == feature(
                    1,
                    e.2,
                    fill_radius(dm, endpoints(sorted), e.0 as int, e.1 as int, dm.n as nat),
                ));
            }
        }
    }
}

/// The fill radius is no larger than the longest side of any triangle on the edge.
proof fn lemma_fill_radius_at_most(
    dm: DistanceMatrix,
    es: Seq<(usize, usize)>,
    a: int,
    b: int,
    c: nat,
    w: int,
)
    requires
        0 <= a < dm.n,
        0 <= b < dm.n,
        0 <= w < c <= dm.n,
        w != b,
        adjacent(es, a, w),
        adjacent(es, b, w),
        forall|x: int, y: int| 0 <= x < dm.n && 0 <= y < dm.n ==> !is_nan(#[trigger] dm.dist(x, y)),
    ensures
        ieee::float_le(
            fill_radius(dm, es, a, b, c),
            float_max(dm.dist(a, b), float_max(dm.dist(a, w), dm.dist(b, w))),
        ),
    decreases c,
{
    ieee::lemma_constants();
    lemma_fill_radius_bound(dm, es, a, b, c);
    lemma_fill_radius_bound(dm, es, a, b, (c - 1) as nat);
    assert(!is_nan(dm.dist(a, w)) && !is_nan(dm.dist(b, w)) && !is_nan(dm.dist(a, b)));
    if w < c - 1 {
        lemma_fill_radius_at_most(dm, es, a, b, (c - 1) as nat, w);
        let v = c - 1;
        assert(!is_nan(dm.dist(a, v)) && !is_nan(dm.dist(b, v)));
    }
}

/// A triangle fills a loop: every H1 feature is born at the length of an edge `(a, b)` (the edge
/// that closes it), and any third point `w` nearer than that length to both `a` and `b` makes a
/// triangle present with the edge, so the loop dies no later than its birth, whatever the points'
/// labels.
pub proof fn law_triangle_fills_loop(dm: DistanceMatrix)
    requires
        dm.wf(),
        ieee::no_nan(dm.data@),
    ensures
        forall|k: int|
            0 <= k < diagram_features(dm).len() && (#[trigger] diagram_features(dm)[k]).dim == 1
                ==> exists|a: int, b: int|
                {
                    &&& 0 <= a < b < dm.n
                    &&& diagram_features(dm)[k].birth == #[trigger] dm.dist(a, b)
                    &&& ieee::float_le(dm.dist(a, b), diagram_features(dm)[k].death)
                    &&& forall|w: int|
                        0 <= w < dm.n && w != a && w != b && ieee::float_lt(
                            #[trigger] dm.dist(a, w),
                            dm.dist(a, b),
                        ) && ieee::float_lt(dm.dist(b, w), dm.dist(a, b)) ==> ieee::float_le(
                            diagram_features(dm)[k].death,
                            dm.dist(a, b),
                        )
                    &&& (forall|w: int|
                        0 <= w < dm.n && w != a && w != b ==> ieee::float_lt(
                            dm.dist(a, b),
                            #[trigger] dm.dist(a, w),
                        ) || ieee::float_lt(dm.dist(a, b), dm.dist(b, w))) ==> diagram_features(dm)[k].death
                        == INFINITY
                },
{
    let fs = diagram_features(dm);
    if dm.n >= 3 {
        let n = dm.n as nat;
        let s = sorted_edges(dm);
        lemma_row_end(dm.n as int);
        lemma_sorted_edges_within(dm);
        lemma_sorted_edges_ranked(dm);
        lemma_dist_numbers(dm);
        lemma_h0_facts(n, s);
        let h0f = h0_features(n, s);
        let h1 = h1_loops(dm, s);
        lemma_h1_origin(dm, s);
        assert(fs == h0f + h1);
        assert forall|k: int| 0 <= k < h0f.len() implies (#[trigger] h0f[k]).dim == 0 by {
            let h0 = h0_deaths(n, s);
            if k < h0.len() {
                assert(h0f[k] == h0[k]);
            } else {
                assert(h0f[k] == feature(0, ZERO, INFINITY));
            }
        }
        assert forall|k: int| 0 <= k < fs.len() && (#[trigger] fs[k]).dim == 1 implies exists|a: int, b: int|
            {
                &&& 0 <= a < b < dm.n
                &&& fs[k].birth == #[trigger] dm.dist(a, b)
                &&& ieee::float_le(dm.dist(a, b), fs[k].death)
                &&& forall|w: int|
                    0 <= w < dm.n && w != a && w != b && ieee::float_lt(
                        #[trigger] dm.dist(a, w),
                        dm.dist(a, b),
                    ) && ieee::float_lt(dm.dist(b, w), dm.dist(a, b)) ==> ieee::float_le(
                        fs[k].death,
                        dm.dist(a, b),
                    )
                &&& (forall|w: int|
                    0 <= w < dm.n && w != a && w != b ==> ieee::float_lt(
                        dm.dist(a, b),
                        #[trigger] dm.dist(a, w),
                    ) || ieee::float_lt(dm.dist(a, b), dm.dist(b, w))) ==> fs[k].death == INFINITY
            } by {
            if k < h0f.len() {
                assert(fs[k] == h0f[k]);
            }
            let q = k - h0f.len();
            assert(fs[k] == h1[q]);
            let t = choose|t: int|
                0 <= t < s.len() && #[trigger] h1_loops(dm, s)[q] == feature(
                    1,
                    s[t].2,
                    fill_radius(dm, endpoints(s.take(t + 1)), s[t].0 as int, s[t].1 as int, n),
                );
            let a = s[t].0 as int;
            let b = s[t].1 as int;
            let es = endpoints(s.take(t + 1));
            assert(s[t].2 == dm.dist(a, b));
            assert forall|w: int|
                0 <= w < dm.n && w != a && w != b && ieee::float_lt(
                    #[trigger] dm.dist(a, w),
                    dm.dist(a, b),
                ) && ieee::float_lt(dm.dist(b, w), dm.dist(a, b)) implies ieee::float_le(
                fs[k].death,
                dm.dist(a, b),
            ) by {
                lemma_edge_before(dm, t, a, w);
                lemma_edge_before(dm, t, b, w);
                lemma_fill_radius_at_most(dm, es, a, b, n, w);
            }
            lemma_fill_radius_bound(dm, es, a, b, n);
            if forall|w: int|
                0 <= w < dm.n && w != a && w != b ==> ieee::float_lt(
                    dm.dist(a, b),
                    #[trigger] dm.dist(a, w),
                ) || ieee::float_lt(dm.dist(a, b), dm.dist(b, w)) {
                assert forall|w: int| 0 <= w < n && w != b implies !(adjacent(es, a, w) && #[trigger] adjacent(
                    es,
                    b,
                    w,
                )) by {
                    if adjacent(es, a, w) && adjacent(es, b, w) {
                        lemma_edge_no_later(dm, t, a, w);
                        lemma_edge_no_later(dm, t, b, w);
                        assert(w != a);
                        assert(ieee::float_lt(dm.dist(a, b), dm.dist(a, w)) || ieee::float_lt(
                            dm.dist(a, b),
                            dm.dist(b, w),
                        ));
                    }
                }
                lemma_fill_radius_none(dm, es, a, b, n);
            }
        }
    } else if dm.n == 2 {
        let s = sorted_edges(dm);
        let h0 = h0_deaths(dm.n as nat, s);
        lemma_h0_facts(dm.n as nat, s);
        let h0f = h0_features(dm.n as nat, s);
        assert forall|k: int| 0 <= k < fs.len() implies (#[trigger] fs[k]).dim == 0 by {
            if k < h0.len() {
                assert(h0f[k] == h0[k]);
            } else {
                assert(h0f[k] == feature(0, ZERO, INFINITY));
            }
        }
    } else {
        assert(fs[0] == feature(0, ZERO, INFINITY));
    }
}

/// An edge at `u`, `w` shorter than the sorted edge `t` lies among the edges up to `t`.
proof fn lemma_edge_before(dm: DistanceMatrix, t: int, u: int, w: int)
    requires
        dm.wf(),
        0 <= t < sorted_edges(dm).len(),
        sorted_edges(dm)[t].2 == dm.dist(sorted_edges(dm)[t].0 as int, sorted_edges(dm)[t].1 as int),
        0 <= u < dm.n,
        0 <= w < dm.n,
        u != w,
        ieee::float_lt(dm.dist(u, w), sorted_edges(dm)[t].2),
        forall|i: int, j: int|
            0 <= i < j < sorted_edges(dm).len() ==> rank((#[trigger] sorted_edges(dm)[i]).2) <= rank(
                (#[trigger] sorted_edges(dm)[j]).2,
            ),
        forall|q: int|
            0 <= q < sorted_edges(dm).len() ==> (#[trigger] sorted_edges(dm)[q]).2 == dm.dist(
                sorted_edges(dm)[q].0 as int,
                sorted_edges(dm)[q].1 as int,
            ),
    ensures
        adjacent(endpoints(sorted_edges(dm).take(t + 1)), u, w),
{
    let s = sorted_edges(dm);
    let (x, y) = if u < w {
        (u, w)
    } else {
        (w, u)
    };
    lemma_sorted_edges_complete(dm, x, y);
    let q = choose|q: int| 0 <= q < s.len() && (#[trigger] s[q]).0 == x && s[q].1 == y;
    assert(dm.dist(x, y) == dm.dist(u, w));
    if q >= t {
        if q > t {
            assert(rank(s[t].2) <= rank(s[q].2));
        }
        assert(s[q].2 == dm.dist(x, y));
    }
    let es = endpoints(s.take(t + 1));
    assert(es[q] == (s[q].0, s[q].1));
}

/// With no common neighbour of `a` and `b` (other than `b`) among the first `c` points, the fill
/// radius is `+∞`.
proof fn lemma_fill_radius_none(dm: DistanceMatrix, es: Seq<(usize, usize)>, a: int, b: int, c: nat)
    requires
        forall|w: int| 0 <= w < c && w != b ==> !(adjacent(es, a, w) && #[trigger] adjacent(es, b, w)),
    ensures
        fill_radius(dm, es, a, b, c) == INFINITY,
    decreases c,
{
    if c > 0 {
        lemma_fill_radius_none(dm, es, a, b, (c - 1) as nat);
    }
}

/// Two points joined by one of the sorted edges up to `t` are no farther apart than that edge,
/// and are two different points.
proof fn lemma_edge_no_later(dm: DistanceMatrix, t: int, u: int, w: int)
    requires
        dm.wf(),
        0 <= t < sorted_edges(dm).len(),
        adjacent(endpoints(sorted_edges(dm).take(t + 1)), u, w),
        forall|i: int, j: int|
            0 <= i < j < sorted_edges(dm).len() ==> rank((#[trigger] sorted_edges(dm)[i]).2) <= rank(
                (#[trigger] sorted_edges(dm)[j]).2,
            ),
        forall|q: int|
            0 <= q < sorted_edges(dm).len() ==> (#[trigger] sorted_edges(dm)[q]).0 < sorted_edges(dm)[q].1
                && (sorted_edges(dm)[q]).2 == dm.dist(
                sorted_edges(dm)[q].0 as int,
                sorted_edges(dm)[q].1 as int,
            ),
    ensures
        u != w,
        rank(dm.dist(u, w)) <= rank(sorted_edges(dm)[t].2),
{
    let s = sorted_edges(dm);
    let es = endpoints(s.take(t + 1));
    let q = choose|q: int|
        0 <= q < es.len() && ((#[trigger] es[q].0 == u && es[q].1 == w) || (es[q].0 == w && es[q].1 == u));
    assert(es[q] == (s[q].0, s[q].1));
    if q < t {
        assert(rank(s[q].2) <= rank(s[t].2));
    }
}

} // verus!
