//! Connected components of a graph whose edges arrive one at a time.
//!
//! The model is a labelling of the vertices: every vertex starts with its own
//! label, and an edge `(a, b)` gives every vertex labelled like `a` the label of `b`.
//! Two vertices are connected exactly when they carry the same label.
//! The executable side is a disjoint-set forest with path compression.
use vstd::prelude::*;

verus! {

/// The labelling of `n` vertices after the edges `edges`, in order.
pub open spec fn labels(n: nat, edges: Seq<(usize, usize)>) -> Seq<int>
    decreases edges.len(),
{
    if edges.len() == 0 {
        Seq::new(n, |x: int| x)
    } else {
        let l = labels(n, edges.drop_last());
        let a = edges.last().0 as int;
        let b = edges.last().1 as int;
        Seq::new(n, |x: int| if l[x] == l[a] { l[b] } else { l[x] })
    }
}

/// Vertices `a` and `b` are joined by a path of `edges`.
pub open spec fn connected(n: nat, edges: Seq<(usize, usize)>, a: int, b: int) -> bool {
    labels(n, edges)[a] == labels(n, edges)[b]
}

/// Every edge joins two of the `n` vertices.
pub open spec fn edges_within(n: nat, edges: Seq<(usize, usize)>) -> bool {
    forall|k: int| 0 <= k < edges.len() ==> (#[trigger] edges[k]).0 < n && edges[k].1 < n
}

/// Vertex `x` carries a label that no vertex before it carries: it is the first of its component.
pub open spec fn first_of_component(l: Seq<int>, x: int) -> bool {
    forall|y: int| 0 <= y < x ==> #[trigger] l[y] != l[x]
}

/// The number of components among the first `k` vertices of the labelling `l`.
pub open spec fn component_count(l: Seq<int>, k: nat) -> nat
    decreases k,
{
    if k == 0 {
        0
    } else {
        component_count(l, (k - 1) as nat) + if first_of_component(l, k - 1) {
            1nat
        } else {
            0nat
        }
    }
}

/// Labels stay among the vertex names.
pub proof fn lemma_labels_range(n: nat, edges: Seq<(usize, usize)>)
    requires
        edges_within(n, edges),
    ensures
        labels(n, edges).len() == n,
        forall|x: int| 0 <= x < n ==> 0 <= #[trigger] labels(n, edges)[x] < n,
    decreases edges.len(),
{
    if edges.len() > 0 {
        let d = edges.drop_last();
        assert(edges_within(n, d)) by {
            assert forall|k: int| 0 <= k < d.len() implies (#[trigger] d[k]).0 < n && d[k].1 < n by {
                assert(d[k] == edges[k]);
            }
        }
        lemma_labels_range(n, d);
        assert(edges[edges.len() - 1] == edges.last());
    }
}

/// Before any edge, each of the `n` vertices is a component of its own.
pub proof fn law_no_edges_components(n: nat)
    ensures
        forall|k: nat| k <= n ==> #[trigger] component_count(labels(n, Seq::empty()), k) == k,
{
    let l = labels(n, Seq::empty());
    assert forall|k: nat| k <= n implies #[trigger] component_count(l, k) == k by {
        lemma_identity_count(n, k);
    }
}

proof fn lemma_identity_count(n: nat, k: nat)
    requires
        k <= n,
    ensures
        component_count(labels(n, Seq::empty()), k) == k,
    decreases k,
{
    if k > 0 {
        lemma_identity_count(n, (k - 1) as nat);
        let l = labels(n, Seq::empty());
        assert(first_of_component(l, k - 1));
    }
}

/// An index of `x`'s component that is the first of that component.
proof fn lemma_first_of_exists(l: Seq<int>, x: int) -> (m: int)
    requires
        0 <= x < l.len(),
    ensures
        0 <= m <= x,
        l[m] == l[x],
        first_of_component(l, m),
    decreases x,
{
    if first_of_component(l, x) {
        x
    } else {
        let y = choose|y: int| 0 <= y < x && l[y] == l[x];
        lemma_first_of_exists(l, y)
    }
}

proof fn lemma_count_step(l: Seq<int>, l2: Seq<int>, k: nat, hi: int)
    requires
        k <= l.len(),
        l2.len() == l.len(),
        0 <= hi < l.len(),
        first_of_component(l, hi),
        !first_of_component(l2, hi),
        forall|x: int| 0 <= x < l.len() && x != hi ==> (first_of_component(l2, x) <==> first_of_component(l, x)),
    ensures
        component_count(l2, k) + (if k > hi { 1int } else { 0int }) == component_count(l, k),
    decreases k,
{
    if k > 0 {
        lemma_count_step(l, l2, (k - 1) as nat, hi);
    }
}

/// An edge between two components merges them: one component fewer.
pub proof fn lemma_merge_count(n: nat, edges: Seq<(usize, usize)>, ua: usize, ub: usize)
    requires
        edges_within(n, edges),
        ua < n,
        ub < n,
        !connected(n, edges, ua as int, ub as int),
    ensures
        component_count(labels(n, edges.push((ua, ub))), n) + 1 == component_count(
            labels(n, edges),
            n,
        ),
{
    let a = ua as int;
    let b = ub as int;
    let l = labels(n, edges);
    let e2 = edges.push((ua, ub));
    assert(e2.drop_last() == edges);
    let l2 = labels(n, e2);
    lemma_labels_range(n, edges);
    let ma = lemma_first_of_exists(l, a);
    let mb = lemma_first_of_exists(l, b);
    assert(ma != mb);
    let lo = if ma < mb {
        ma
    } else {
        mb
    };
    let hi = if ma < mb {
        mb
    } else {
        ma
    };
    // every member of a's or b's component lies at or after its first index
    assert forall|y: int| 0 <= y < n && l[y] == l[a] implies y >= ma by {
        if y < ma {
            assert(l[y] == l[ma]);
        }
    }
    assert forall|y: int| 0 <= y < n && l[y] == l[b] implies y >= mb by {
        if y < mb {
            assert(l[y] == l[mb]);
        }
    }
    assert forall|x: int| 0 <= x < n && x != hi implies (first_of_component(l2, x)
        <==> first_of_component(l, x)) by {
        let merged = l[x] == l[a] || l[x] == l[b];
        if !merged {
            assert(l2[x] == l[x]);
            if first_of_component(l, x) {
                assert forall|y: int| 0 <= y < x implies #[trigger] l2[y] != l2[x] by {
                    assert(l[y] != l[x]);
                }
            }
            if first_of_component(l2, x) {
                assert forall|y: int| 0 <= y < x implies #[trigger] l[y] != l[x] by {
                    assert(l2[y] != l2[x]);
                }
            }
        } else if x == lo {
            assert(first_of_component(l, x));
            assert forall|y: int| 0 <= y < x implies #[trigger] l2[y] != l2[x] by {
                if l2[y] == l2[x] {
                    assert(l[y] == l[a] || l[y] == l[b]);
                }
            }
        } else {
            if l[x] == l[a] {
                assert(x >= ma);
                if x != ma {
                    assert(l[ma] == l[x]);
                }
            } else {
                assert(x >= mb);
                if x != mb {
                    assert(l[mb] == l[x]);
                }
            }
            assert(!first_of_component(l, x));
            assert(lo < x);
            assert(l2[lo] == l2[x]);
            assert(!first_of_component(l2, x));
        }
    }
    assert(!first_of_component(l2, hi)) by {
        assert(l2[lo] == l2[hi]);
    }
    lemma_count_step(l, l2, n, hi);
}

/// Adding an edge keeps connected vertices connected, and connects the edge's ends.
pub proof fn lemma_connected_grows(n: nat, edges: Seq<(usize, usize)>, a: usize, b: usize)
    requires
        edges_within(n, edges),
        a < n,
        b < n,
    ensures
        forall|x: int, y: int|
            0 <= x < n && 0 <= y < n && connected(n, edges, x, y) ==> #[trigger] connected(
                n,
                edges.push((a, b)),
                x,
                y,
            ),
        connected(n, edges.push((a, b)), a as int, b as int),
{
    let e2 = edges.push((a, b));
    assert(e2.drop_last() == edges);
    lemma_labels_range(n, edges);
}

/// After all the edges, the two ends of every edge are connected.
pub proof fn lemma_edges_connected(n: nat, es: Seq<(usize, usize)>)
    requires
        edges_within(n, es),
    ensures
        forall|t: int| 0 <= t < es.len() ==> connected(n, es, (#[trigger] es[t]).0 as int, es[t].1 as int),
    decreases es.len(),
{
    if es.len() > 0 {
        let prev = es.drop_last();
        assert(edges_within(n, prev)) by {
            assert forall|t: int| 0 <= t < prev.len() implies (#[trigger] prev[t]).0 < n && prev[t].1 < n by {
                assert(prev[t] == es[t]);
            }
        }
        lemma_edges_connected(n, prev);
        let e = es.last();
        assert(es == prev.push(e));
        assert(es[es.len() - 1] == e);
        lemma_connected_grows(n, prev, e.0, e.1);
        assert forall|t: int| 0 <= t < es.len() implies connected(
            n,
            es,
            (#[trigger] es[t]).0 as int,
            es[t].1 as int,
        ) by {
            if t < prev.len() {
                assert(es[t] == prev[t]);
                assert(connected(n, prev, prev[t].0 as int, prev[t].1 as int));
            }
        }
    }
}

/// A labelling `l2` under which the two ends of every edge of `es` share a label gives a shared
/// label to any two vertices connected by `es`.
pub proof fn lemma_labels_refine(n: nat, es: Seq<(usize, usize)>, l2: Seq<int>)
    requires
        edges_within(n, es),
        l2.len() == n,
        forall|t: int| 0 <= t < es.len() ==> l2[(#[trigger] es[t]).0 as int] == l2[es[t].1 as int],
    ensures
        forall|x: int, y: int|
            0 <= x < n && 0 <= y < n && #[trigger] labels(n, es)[x] == #[trigger] labels(n, es)[y]
                ==> l2[x] == l2[y],
    decreases es.len(),
{
    if es.len() > 0 {
        let prev = es.drop_last();
        assert(edges_within(n, prev)) by {
            assert forall|k: int| 0 <= k < prev.len() implies (#[trigger] prev[k]).0 < n && prev[k].1 < n by {
                assert(prev[k] == es[k]);
            }
        }
        assert forall|t: int| 0 <= t < prev.len() implies l2[(#[trigger] prev[t]).0 as int]
            == l2[prev[t].1 as int] by {
            assert(prev[t] == es[t]);
        }
        lemma_labels_refine(n, prev, l2);
        let l = labels(n, prev);
        let e = es.last();
        assert(es[es.len() - 1] == e);
        let a = e.0 as int;
        let b = e.1 as int;
        lemma_labels_range(n, prev);
        assert forall|x: int, y: int|
            0 <= x < n && 0 <= y < n && #[trigger] labels(n, es)[x] == #[trigger] labels(n, es)[y]
                implies l2[x] == l2[y] by {
            let nl = labels(n, es);
            assert(nl[x] == if l[x] == l[a] { l[b] } else { l[x] });
            assert(nl[y] == if l[y] == l[a] { l[b] } else { l[y] });
            if l[x] == l[a] && l[y] != l[a] {
                assert(l[y] == l[b]);
                assert(l2[x] == l2[a]);
                assert(l2[y] == l2[b]);
            } else if l[y] == l[a] && l[x] != l[a] {
                assert(l[x] == l[b]);
                assert(l2[y] == l2[a]);
                assert(l2[x] == l2[b]);
            } else if l[x] == l[a] && l[y] == l[a] {
                assert(l2[x] == l2[a]);
                assert(l2[y] == l2[a]);
            }
        }
    }
}

/// Two labellings that join the same vertices count the same components.
pub proof fn lemma_same_partition_count(l1: Seq<int>, l2: Seq<int>, k: nat)
    requires
        l1.len() == l2.len(),
        k <= l1.len(),
        forall|x: int, y: int| 0 <= x < l1.len() && 0 <= y < l1.len() ==> (l1[x] == l1[y] <==> l2[x] == l2[y]),
    ensures
        component_count(l1, k) == component_count(l2, k),
    decreases k,
{
    if k > 0 {
        lemma_same_partition_count(l1, l2, (k - 1) as nat);
        assert(first_of_component(l1, k - 1) == first_of_component(l2, k - 1));
    }
}

/// Two lists holding the same edges, in any order, count the same components.
pub proof fn lemma_edge_order_free(n: nat, es1: Seq<(usize, usize)>, es2: Seq<(usize, usize)>)
    requires
        edges_within(n, es1),
        edges_within(n, es2),
        forall|e: (usize, usize)| es1.contains(e) <==> #[trigger] es2.contains(e),
    ensures
        component_count(labels(n, es1), n) == component_count(labels(n, es2), n),
{
    lemma_labels_range(n, es1);
    lemma_labels_range(n, es2);
    lemma_edges_connected(n, es1);
    lemma_edges_connected(n, es2);
    let l1 = labels(n, es1);
    let l2 = labels(n, es2);
    assert forall|t: int| 0 <= t < es1.len() implies l2[(#[trigger] es1[t]).0 as int] == l2[es1[t].1 as int] by {
        assert(es1.contains(es1[t]));
        assert(es2.contains(es1[t]));
        let q = choose|q: int| 0 <= q < es2.len() && es2[q] == es1[t];
        assert(connected(n, es2, es2[q].0 as int, es2[q].1 as int));
    }
    assert forall|t: int| 0 <= t < es2.len() implies l1[(#[trigger] es2[t]).0 as int] == l1[es2[t].1 as int] by {
        assert(es2.contains(es2[t]));
        assert(es1.contains(es2[t]));
        let q = choose|q: int| 0 <= q < es1.len() && es1[q] == es2[t];
        assert(connected(n, es1, es1[q].0 as int, es1[q].1 as int));
    }
    lemma_labels_refine(n, es1, l2);
    lemma_labels_refine(n, es2, l1);
    assert forall|x: int, y: int| 0 <= x < l1.len() && 0 <= y < l1.len() implies (l1[x] == l1[y] <==> l2[x]
        == l2[y]) by {
        if l1[x] == l1[y] {
            assert(l2[x] == l2[y]);
        }
        if l2[x] == l2[y] {
            assert(l1[x] == l1[y]);
        }
    }
    lemma_same_partition_count(l1, l2, n);
}

/// When every vertex is connected to vertex 0, there is a single component.
pub proof fn lemma_single_component(l: Seq<int>, k: nat)
    requires
        1 <= k <= l.len(),
        forall|x: int| 0 <= x < l.len() ==> #[trigger] l[x] == l[0],
    ensures
        component_count(l, k) == 1,
    decreases k,
{
    if k > 1 {
        lemma_single_component(l, (k - 1) as nat);
        assert(l[0] == l[k - 1]);
    } else {
        assert(component_count(l, 0) == 0);
    }
}

/// A disjoint-set forest over `parent.len()` vertices.
pub struct UnionFind {
    /// Parent links; a root is its own parent.
    pub parent: Vec<usize>,
    /// The root each vertex leads to.
    pub root: Ghost<Seq<int>>,
    /// A height that strictly grows along parent links.
    pub height: Ghost<Seq<nat>>,
}

impl UnionFind {
    /// The forest is well formed: links stay inside, every vertex reaches its root, and heights
    /// grow towards the roots.
    pub open spec fn inv(&self) -> bool {
        let n = self.parent@.len();
        &&& self.root@.len() == n
        &&& self.height@.len() == n
        &&& forall|x: int| 0 <= x < n ==> #[trigger] self.parent@[x] < n
        &&& forall|x: int| 0 <= x < n ==> 0 <= #[trigger] self.root@[x] < n
        &&& forall|x: int|
            0 <= x < n ==> self.parent@[#[trigger] self.root@[x]] as int == self.root@[x]
        &&& forall|x: int|
            0 <= x < n ==> (#[trigger] self.parent@[x] as int == x ==> self.root@[x] == x)
        &&& forall|x: int|
            0 <= x < n ==> self.root@[#[trigger] self.parent@[x] as int] == self.root@[x]
        &&& forall|x: int|
            0 <= x < n && #[trigger] self.parent@[x] as int != x ==> self.height@[x]
                < self.height@[self.parent@[x] as int]
        &&& forall|x: int|
            0 <= x < n ==> self.height@[x] <= self.height@[#[trigger] self.root@[x]]
    }

    /// Same root exactly when same label: the forest and the labelling agree on the components.
    pub open spec fn models(&self, l: Seq<int>) -> bool {
        &&& l.len() == self.parent@.len()
        &&& forall|x: int, y: int|
            0 <= x < l.len() && 0 <= y < l.len() ==> (#[trigger] self.root@[x] == #[trigger] self.root@[y]
                <==> l[x] == l[y])
    }

    /// `n` singleton components.
    pub fn new(n: usize) -> (uf: Self)
        ensures
            uf.inv(),
            uf.parent@.len() == n,
            uf.models(labels(n as nat, Seq::empty())),
    {
        let mut parent: Vec<usize> = Vec::new();
        let mut i: usize = 0;
        while i < n
            invariant
                i <= n,
                parent@.len() == i,
                forall|x: int| 0 <= x < i ==> #[trigger] parent@[x] == x,
            decreases n - i,
        {
            parent.push(i);
            i = i + 1;
        }
        let uf = UnionFind {
            parent,
            root: Ghost(Seq::new(n as nat, |x: int| x)),
            height: Ghost(Seq::new(n as nat, |x: int| 0nat)),
        };
        uf
    }

    /// The root of `x`; links on the way are pointed straight at the root.
    pub fn find(&mut self, x: usize) -> (r: usize)
        requires
            old(self).inv(),
            x < old(self).parent@.len(),
        ensures
            final(self).inv(),
            final(self).parent@.len() == old(self).parent@.len(),
            final(self).root@ == old(self).root@,
            final(self).height@ == old(self).height@,
            r as int == old(self).root@[x as int],
        decreases old(self).height@[old(self).root@[x as int]] - old(self).height@[x as int],
    {
        let p = self.parent[x];
        if p != x {
            let r = self.find(p);
            self.parent.set(x, r);
            proof {
                let n = self.parent@.len();
                assert forall|y: int| 0 <= y < n && #[trigger] self.parent@[y] as int != y implies self.height@[y]
                    < self.height@[self.parent@[y] as int] by {
                    if y == x {
                        assert(self.height@[p as int] <= self.height@[self.root@[p as int]]);
                    }
                }
                assert forall|y: int| 0 <= y < n implies self.root@[#[trigger] self.parent@[y] as int]
                    == self.root@[y] by {
                }
                assert forall|y: int|
                    0 <= y < n implies self.parent@[#[trigger] self.root@[y]] as int
                    == self.root@[y] by {
                    if self.root@[y] == x as int {
                        assert(self.parent@[x as int] as int == old(self).parent@[x as int]
                            || self.root@[x as int] == x as int);
                    }
                }
            }
            r
        } else {
            x
        }
    }

    /// Hangs the root `ra` under the root `rb`.
    pub fn link(&mut self, ra: usize, rb: usize)
        requires
            old(self).inv(),
            ra < old(self).parent@.len(),
            rb < old(self).parent@.len(),
            old(self).parent@[ra as int] == ra,
            old(self).parent@[rb as int] == rb,
            ra != rb,
        ensures
            final(self).inv(),
            final(self).parent@.len() == old(self).parent@.len(),
            final(self).root@ == Seq::new(
                old(self).root@.len(),
                |x: int|
                    if old(self).root@[x] == ra as int {
                        rb as int
                    } else {
                        old(self).root@[x]
                    },
            ),
    {
        let ghost old_root = self.root@;
        let ghost old_height = self.height@;
        let ghost n = self.parent@.len();
        self.parent.set(ra, rb);
        self.root = Ghost(
            Seq::new(n, |x: int| if old_root[x] == ra as int { rb as int } else { old_root[x] }),
        );
        let ghost hb = if old_height[rb as int] > old_height[ra as int] {
            old_height[rb as int]
        } else {
            old_height[ra as int] + 1
        };
        self.height = Ghost(old_height.update(rb as int, hb));
        proof {
            assert(old_root[ra as int] == ra as int);
            assert(old_root[rb as int] == rb as int);
            assert forall|x: int|
                0 <= x < n && #[trigger] self.parent@[x] as int != x implies self.height@[x]
                < self.height@[self.parent@[x] as int] by {
                if x != ra as int {
                    assert(self.parent@[x] == old(self).parent@[x]);
                }
            }
            assert forall|x: int|
                0 <= x < n implies self.height@[x] <= self.height@[#[trigger] self.root@[x]] by {
                if old_root[x] == ra as int {
                    assert(old_height[x] <= old_height[ra as int]);
                } else {
                    assert(old_height[x] <= old_height[old_root[x]]);
                }
            }
            assert forall|x: int|
                0 <= x < n implies self.root@[#[trigger] self.parent@[x] as int] == self.root@[x] by {
                if x != ra as int {
                    assert(old_root[old(self).parent@[x] as int] == old_root[x]);
                }
            }
            assert forall|x: int|
                0 <= x < n implies self.parent@[#[trigger] self.root@[x]] as int == self.root@[x] by {
                assert(old(self).parent@[old_root[x]] as int == old_root[x]);
            }
            assert forall|x: int|
                0 <= x < n && (#[trigger] self.parent@[x]) as int == x implies self.root@[x] == x by {
                if x != ra as int && old(self).parent@[x] as int == x {
                    assert(old_root[x] == x);
                }
            }
        }
    }
}

/// Hanging the root of `a` under the root of `b`, or the other way round, keeps the forest in
/// step with the labelling extended by the edge `(a, b)`.
pub proof fn lemma_link_models(root: Seq<int>, l: Seq<int>, a: int, b: int, from: int, to: int)
    requires
        root.len() == l.len(),
        0 <= a < l.len(),
        0 <= b < l.len(),
        (from == root[a] && to == root[b]) || (from == root[b] && to == root[a]),
        forall|x: int, y: int|
            0 <= x < l.len() && 0 <= y < l.len() ==> (#[trigger] root[x] == #[trigger] root[y] <==> l[x]
                == l[y]),
    ensures
        ({
            let root2 = Seq::new(root.len(), |x: int| if root[x] == from { to } else { root[x] });
            let l2 = Seq::new(l.len(), |x: int| if l[x] == l[a] { l[b] } else { l[x] });
            forall|x: int, y: int|
                0 <= x < l.len() && 0 <= y < l.len() ==> (#[trigger] root2[x] == #[trigger] root2[y]
                    <==> l2[x] == l2[y])
        }),
{
    let root2 = Seq::new(root.len(), |x: int| if root[x] == from { to } else { root[x] });
    let l2 = Seq::new(l.len(), |x: int| if l[x] == l[a] { l[b] } else { l[x] });
    assert forall|x: int, y: int|
        0 <= x < l.len() && 0 <= y < l.len() implies (#[trigger] root2[x] == #[trigger] root2[y]
        <==> l2[x] == l2[y]) by {
        assert(root[x] == root[a] <==> l[x] == l[a]);
        assert(root[y] == root[a] <==> l[y] == l[a]);
        assert(root[x] == root[b] <==> l[x] == l[b]);
        assert(root[y] == root[b] <==> l[y] == l[b]);
        assert(root[x] == root[y] <==> l[x] == l[y]);
        assert(root[a] == root[b] <==> l[a] == l[b]);
    }
}

} // verus!
