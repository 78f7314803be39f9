//! Pairwise distances between the points of a cloud, stored as an upper triangle.
use vstd::prelude::*;

use crate::ieee::{self, float_le, float_max, float_min, is_nan, no_nan, rank, INFINITY, ZERO};
use crate::sorting::{is_permutation, lemma_stable_order, stable_order, stable_order_of};

verus! {

/// Supported distance metrics.
#[derive(Debug, Clone, Copy, PartialEq, Eq, Structural)]
pub enum Metric {
    /// Euclidean (L2) distance.
    Euclidean,
    /// Cosine distance: 1 - cos(a, b).
    Cosine,
}

/// A symmetric distance matrix stored in upper-triangle form.
///
/// For `n` points it stores the `n * (n - 1) / 2` distances `dist(i, j)` with `i < j`,
/// row by row; each distance is the bit pattern of a binary64 value.
#[derive(Debug, Clone, PartialEq)]
pub struct DistanceMatrix {
    /// Number of points.
    pub n: usize,
    /// Upper-triangle distances, row-major: `dist(i, j)` for `i < j`
    /// at index `i * n - i * (i + 1) / 2 + j - i - 1`.
    pub data: Vec<u64>,
    /// The metric used.
    pub metric: Metric,
}

/// Errors for distance matrix operations.
#[derive(Debug, Clone, PartialEq, Eq, Structural)]
pub enum DistanceError {
    /// A point does not have the dimension of the first point.
    DimensionMismatch { index: usize, expected: usize, actual: usize },
    /// A flat upper triangle does not hold `n * (n - 1) / 2` distances.
    InvalidSize { expected: usize, actual: usize },
}

/// Number of unordered pairs of `n` points.
pub open spec fn pair_total(n: int) -> int {
    n * (n - 1) / 2
}

/// Index in the flat upper triangle of the first pair `(a, a + 1)` of row `a`.
pub open spec fn row_start(n: int, a: int) -> int {
    a * n - a * (a + 1) / 2
}

/// Index in the flat upper triangle of the pair `(a, b)`, `a < b`.
pub open spec fn tri_index(n: int, a: int, b: int) -> int {
    row_start(n, a) + b - a - 1
}

/// All `coords` have the dimension of the first one.
pub open spec fn uniform_dimension(coords: Seq<Vec<u64>>) -> bool {
    forall|k: int| 0 <= k < coords.len() ==> #[trigger] coords[k].len() == coords[0].len()
}

/// `dm` holds, for each pair of `coords`, a distance that the kernel `distance` returns for it
/// under `metric`.
pub open spec fn kernel_matrix<F: Fn(Metric, &Vec<u64>, &Vec<u64>) -> u64>(
    dm: DistanceMatrix,
    coords: Seq<Vec<u64>>,
    metric: Metric,
    distance: &F,
) -> bool {
    &&& dm.wf()
    &&& dm.n == coords.len()
    &&& dm.metric == metric
    &&& forall|i: int, j: int|
        0 <= i < j < coords.len() ==> distance.ensures(
            (metric, &coords[i], &coords[j]),
            #[trigger] dm.dist(i, j),
        )
}

/// The sorted form of `s`: its values ordered by IEEE order, equal values kept in input order.
pub open spec fn sorted_values(s: Seq<u64>) -> Seq<u64> {
    stable_order(s.map_values(|x: u64| rank(x)), s.len()).map_values(|k: usize| s[k as int])
}

/// The fold of `f64::max` over `s`, starting from `+0.0`.
pub open spec fn max_of(s: Seq<u64>) -> u64 {
    s.fold_left(ZERO, |acc: u64, x: u64| float_max(acc, x))
}

/// The fold of `f64::min` over `s`, starting from `+∞`.
pub open spec fn min_of(s: Seq<u64>) -> u64 {
    s.fold_left(INFINITY, |acc: u64, x: u64| float_min(acc, x))
}

proof fn lemma_consecutive_even(x: nat) -> (q: nat)
    ensures
        x * (x + 1) == 2 * q,
    decreases x,
{
    if x == 0 {
        0
    } else {
        let p = (x - 1) as nat;
        let h = lemma_consecutive_even(p);
        assert(x * (x + 1) == p * (p + 1) + 2 * x) by (nonlinear_arith)
            requires
                p + 1 == x,
        ;
        h + x
    }
}

/// Moving to the next row skips the `n - a - 1` pairs of row `a`.
pub proof fn lemma_row_step(n: int, a: int)
    requires
        0 <= a,
    ensures
        row_start(n, a + 1) == row_start(n, a) + n - a - 1,
{
    let t = a * (a + 1);
    assert((a + 1) * (a + 2) == a * (a + 1) + 2 * (a + 1)) by (nonlinear_arith);
    assert((a + 1) * n == a * n + n) by (nonlinear_arith);
    assert((t + 2 * (a + 1)) / 2 == t / 2 + (a + 1));
}

/// After the last row every pair has been counted.
pub proof fn lemma_row_end(n: int)
    requires
        0 <= n,
    ensures
        row_start(n, n) == pair_total(n),
        pair_total(n) >= 0,
{
    if n > 0 {
        let u = n * (n - 1);
        let h = lemma_consecutive_even((n - 1) as nat);
        assert(u == 2 * h) by (nonlinear_arith)
            requires
                u == n * (n - 1),
                (n - 1) * ((n - 1) + 1) == 2 * h,
        ;
        assert(n * (n + 1) == n * (n - 1) + 2 * n) by (nonlinear_arith);
        assert(n * n == n * (n - 1) + n) by (nonlinear_arith);
        assert(n * (n - 1) >= 0) by (nonlinear_arith)
            requires
                n >= 1,
        ;
        assert((u + 2 * n) / 2 == u / 2 + n);
    }
}

proof fn lemma_row_start_monotone(n: int, a: int, c: int)
    requires
        0 <= a <= c <= n,
    ensures
        c < n ==> row_start(n, a) + (c - a) <= row_start(n, c),
        row_start(n, a) <= row_start(n, c),
    decreases c - a,
{
    if a < c {
        lemma_row_start_monotone(n, a + 1, c);
        lemma_row_step(n, a);
    }
}

/// The flat index of a pair lies inside the triangle, and follows the lexicographic order of pairs.
pub proof fn lemma_tri_index(n: int, a: int, b: int)
    requires
        0 <= a < b < n,
    ensures
        0 <= row_start(n, a) <= tri_index(n, a, b) < pair_total(n),
        tri_index(n, a, b) + 1 <= row_start(n, a + 1),
        a * n <= (n - 1) * n,
        a * (a + 1) <= a * n,
        a * n + b <= n * (n - 1),
        row_start(n, a) >= 0,
        a * (a + 1) / 2 <= a * n,
{
    lemma_row_start_monotone(n, 0, a);
    lemma_row_step(n, a);
    lemma_row_start_monotone(n, a + 1, n);
    lemma_row_end(n);
    assert(a * n <= (n - 1) * n) by (nonlinear_arith)
        requires
            0 <= a < n,
    ;
    assert(a * (a + 1) <= a * n) by (nonlinear_arith)
        requires
            0 <= a < n,
    ;
    assert(a * n + b <= n * (n - 1)) by (nonlinear_arith)
        requires
            0 <= a < b < n,
    ;
    assert(a * (a + 1) >= 0) by (nonlinear_arith)
        requires
            0 <= a,
    ;
}

/// Distinct pairs have distinct flat indices: the index grows with the lexicographic order.
pub proof fn lemma_tri_index_lex(n: int, a: int, b: int, c: int, d: int)
    requires
        0 <= a < b < n,
        0 <= c < d < n,
        a < c || (a == c && b < d),
    ensures
        tri_index(n, a, b) < tri_index(n, c, d),
{
    if a < c {
        lemma_tri_index(n, a, b);
        lemma_tri_index(n, c, d);
        lemma_row_start_monotone(n, a + 1, c);
    }
}

/// The pair stored at offset `k` of the triangle, counting from the start of row `i`.
pub open spec fn pair_at(n: int, i: int, k: int) -> (usize, usize)
    decreases n - i,
{
    if i >= n - 1 || k < 0 {
        (0, 0)
    } else if k < n - i - 1 {
        (i as usize, (i + 1 + k) as usize)
    } else {
        pair_at(n, i + 1, k - (n - i - 1))
    }
}

/// Every pair `(i, j)`, `i < j < n`, in lexicographic order: the layout of the triangle.
pub open spec fn all_pairs(n: nat) -> Seq<(usize, usize)> {
    Seq::new(pair_total(n as int) as nat, |k: int| pair_at(n as int, 0, k))
}

proof fn lemma_pair_at_from(n: int, i: int, a: int, b: int)
    requires
        0 <= i <= a < b < n,
        n <= usize::MAX,
    ensures
        pair_at(n, i, tri_index(n, a, b) - row_start(n, i)) == (a as usize, b as usize),
    decreases a - i,
{
    lemma_tri_index(n, a, b);
    if i < a {
        lemma_row_step(n, i);
        lemma_row_start_monotone(n, i + 1, a);
        lemma_pair_at_from(n, i + 1, a, b);
    }
}

proof fn lemma_pair_at_range(n: int, i: int, k: int)
    requires
        0 <= i <= n - 1,
        n <= usize::MAX,
        0 <= k < pair_total(n) - row_start(n, i),
    ensures
        i <= pair_at(n, i, k).0 < pair_at(n, i, k).1 < n,
    decreases n - i,
{
    lemma_row_step(n, i);
    lemma_row_end(n);
    if i == n - 1 {
        assert(row_start(n, n - 1) == pair_total(n));
    } else if k >= n - i - 1 {
        lemma_pair_at_range(n, i + 1, k - (n - i - 1));
    }
}

/// Every listed pair `(i, j)` has `i < j < n`.
pub proof fn lemma_all_pairs_valid(n: nat)
    requires
        n <= usize::MAX,
    ensures
        forall|k: int|
            0 <= k < all_pairs(n).len() ==> (#[trigger] all_pairs(n)[k]).0 < all_pairs(n)[k].1 < n,
{
    assert forall|k: int| 0 <= k < all_pairs(n).len() implies (#[trigger] all_pairs(n)[k]).0
        < all_pairs(n)[k].1 < n by {
        if n == 0 {
            assert(pair_total(0) == 0) by (nonlinear_arith);
        }
        lemma_pair_at_range(n as int, 0, k);
    }
}

/// The triangle's entry for the pair `(a, b)` sits at its flat index.
pub proof fn lemma_all_pairs_index(n: nat, a: int, b: int)
    requires
        0 <= a < b < n,
        n <= usize::MAX,
    ensures
        0 <= tri_index(n as int, a, b) < all_pairs(n).len(),
        all_pairs(n)[tri_index(n as int, a, b)] == (a as usize, b as usize),
{
    lemma_tri_index(n as int, a, b);
    lemma_pair_at_from(n as int, 0, a, b);
}

impl DistanceMatrix {
    /// The triangle holds one distance per pair, and its flat indices fit in a `usize`.
    pub open spec fn wf(&self) -> bool {
        &&& self.data@.len() == pair_total(self.n as int)
        &&& self.n * (self.n - 1) <= usize::MAX
    }

    /// The distance between points `i` and `j`: `+0.0` on the diagonal, the stored value otherwise.
    pub open spec fn dist(&self, i: int, j: int) -> u64 {
        if i == j {
            ZERO
        } else if i < j {
            self.data@[tri_index(self.n as int, i, j)]
        } else {
            self.data@[tri_index(self.n as int, j, i)]
        }
    }

    /// Compute the distance matrix of a list of points.
    ///
    /// `distance` is the metric's kernel: it is given two points and returns their distance.
    /// The points must all have the dimension of the first one.
    pub fn compute<F: Fn(Metric, &Vec<u64>, &Vec<u64>) -> u64>(
        coords: &[Vec<u64>],
        metric: Metric,
        distance: &F,
    ) -> (r: Result<Self, DistanceError>)
        requires
            coords@.len() * (coords@.len() - 1) <= usize::MAX,
            forall|m: Metric, a: &Vec<u64>, b: &Vec<u64>| #[trigger] distance.requires((m, a, b)),
        ensures
            r is Ok <==> uniform_dimension(coords@),
            r matches Ok(dm) ==> kernel_matrix(dm, coords@, metric, distance),
            r matches Err(e) ==> exists|k: int|
                {
                    &&& 0 < k < coords@.len()
                    &&& #[trigger] coords@[k].len() != coords@[0].len()
                    &&& forall|t: int| 0 <= t < k ==> #[trigger] coords@[t].len() == coords@[0].len()
                    &&& e == DistanceError::DimensionMismatch {
                        index: k as usize,
                        expected: coords@[0].len(),
                        actual: coords@[k].len(),
                    }
                },
    {
        if coords.len() == 0 {
            let dm = DistanceMatrix { n: 0, data: Vec::new(), metric };
            assert(dm.wf()) by (nonlinear_arith)
                requires
                    dm.n == 0,
                    dm.data@.len() == 0,
            ;
            return Ok(dm);
        }
        let dim = coords[0].len();
        let mut k: usize = 0;
        while k < coords.len()
            invariant
                k <= coords@.len(),
                coords@.len() > 0,
                dim == coords@[0].len(),
                forall|t: int| 0 <= t < k ==> #[trigger] coords@[t].len() == coords@[0].len(),
            decreases coords@.len() - k,
        {
            if coords[k].len() != dim {
                return Err(
                    DistanceError::DimensionMismatch {
                        index: k,
                        expected: dim,
                        actual: coords[k].len(),
                    },
                );
            }
            k = k + 1;
        }
        let n = coords.len();
        proof {
            lemma_row_end(n as int);
            assert(n * (n - 1) >= 0) by (nonlinear_arith)
                requires
                    n >= 1,
            ;
        }
        let mut data: Vec<u64> = Vec::with_capacity(n * (n - 1) / 2);
        let mut i: usize = 0;
        while i < n
            invariant
                n == coords@.len(),
                n >= 1,
                n * (n - 1) <= usize::MAX,
                i <= n,
                forall|m: Metric, a: &Vec<u64>, b: &Vec<u64>| #[trigger] distance.requires((m, a, b)),
                data@.len() == row_start(n as int, i as int),
                forall|a: int, b: int|
                    0 <= a < b < n && a < i ==> distance.ensures(
                        (metric, &coords@[a], &coords@[b]),
                        #[trigger] data@[tri_index(n as int, a, b)],
                    ),
            decreases n - i,
        {
            let mut j: usize = i + 1;
            while j < n
                invariant
                    n == coords@.len(),
                    n >= 1,
                    n * (n - 1) <= usize::MAX,
                    i < n,
                    i + 1 <= j <= n,
                    forall|m: Metric, a: &Vec<u64>, b: &Vec<u64>| #[trigger] distance.requires((m, a, b)),
                    data@.len() == row_start(n as int, i as int) + (j - i - 1),
                    forall|a: int, b: int|
                        0 <= a < b < n && (a < i || (a == i && b < j)) ==> distance.ensures(
                            (metric, &coords@[a], &coords@[b]),
                            #[trigger] data@[tri_index(n as int, a, b)],
                        ),
                decreases n - j,
            {
                let d = (*distance)(metric, &coords[i], &coords[j]);
                proof {
                    lemma_tri_index(n as int, i as int, j as int);
                }
                let ghost before = data@;
                data.push(d);
                proof {
                    assert forall|a: int, b: int|
                        0 <= a < b < n && (a < i || (a == i && b < j + 1)) implies distance.ensures(
                        (metric, &coords@[a], &coords@[b]),
                        #[trigger] data@[tri_index(n as int, a, b)],
                    ) by {
                        if !(a == i && b == j) {
                            lemma_tri_index_lex(n as int, a, b, i as int, j as int);
                            lemma_tri_index(n as int, a, b);
                            assert(data@[tri_index(n as int, a, b)] == before[tri_index(
                                n as int,
                                a,
                                b,
                            )]);
                        }
                    }
                }
                j = j + 1;
            }
            proof {
                lemma_row_step(n as int, i as int);
            }
            i = i + 1;
        }
        proof {
            lemma_row_end(n as int);
        }
        Ok(DistanceMatrix { n, data, metric })
    }

    /// Build from an upper-triangle flat array (must have exactly `n * (n - 1) / 2` entries; none for
    /// `n == 0`).
    pub fn from_upper_triangle(n: usize, data: Vec<u64>, metric: Metric) -> (r: Result<
        Self,
        DistanceError,
    >)
        requires
            n * (n - 1) <= usize::MAX,
        ensures
            r is Ok <==> data@.len() == pair_total(n as int),
            r matches Ok(dm) ==> dm.wf() && dm.n == n && dm.data@ == data@ && dm.metric == metric,
            r matches Err(e) ==> e == (DistanceError::InvalidSize {
                expected: pair_total(n as int) as usize,
                actual: data@.len() as usize,
            }),
    {
        proof {
            lemma_row_end(n as int);
        }
        let expected = if n == 0 {
            0
        } else {
            proof {
                assert(n * (n - 1) >= 0) by (nonlinear_arith)
                    requires
                        n >= 1,
                ;
            }
            n * (n - 1) / 2
        };
        if data.len() != expected {
            return Err(DistanceError::InvalidSize { expected, actual: data.len() });
        }
        Ok(DistanceMatrix { n, data, metric })
    }

    /// Get the distance between points `i` and `j`; `+0.0` when `i == j`.
    pub fn get(&self, i: usize, j: usize) -> (d: u64)
        requires
            self.wf(),
            i == j || (i < self.n && j < self.n),
        ensures
            d == self.dist(i as int, j as int),
    {
        if i == j {
            return ZERO;
        }
        let (a, b) = if i < j {
            (i, j)
        } else {
            (j, i)
        };
        proof {
            lemma_tri_index(self.n as int, a as int, b as int);
        }
        let idx = a * self.n - a * (a + 1) / 2 + b - a - 1;
        self.data[idx]
    }

    /// Set the distance between points `i` and `j` (`i != j`).
    pub fn set(&mut self, i: usize, j: usize, val: u64)
        requires
            old(self).wf(),
            i < old(self).n,
            j < old(self).n,
            i != j,
        ensures
            final(self).wf(),
            final(self).n == old(self).n,
            final(self).metric == old(self).metric,
            final(self).data@ == old(self).data@.update(
                if i < j {
                    tri_index(old(self).n as int, i as int, j as int)
                } else {
                    tri_index(old(self).n as int, j as int, i as int)
                },
                val,
            ),
    {
        let (a, b) = if i < j {
            (i, j)
        } else {
            (j, i)
        };
        proof {
            lemma_tri_index(self.n as int, a as int, b as int);
        }
        let idx = a * self.n - a * (a + 1) / 2 + b - a - 1;
        self.data.set(idx, val);
    }

    /// All distances, sorted by IEEE order (equal distances keep their order).
    pub fn sorted_distances(&self) -> (r: Vec<u64>)
        ensures
            r@ == sorted_values(self.data@),
    {
        let mut ranks: Vec<u64> = Vec::new();
        let mut k: usize = 0;
        while k < self.data.len()
            invariant
                k <= self.data@.len(),
                ranks@ == self.data@.take(k as int).map_values(|x: u64| rank(x)),
            decreases self.data@.len() - k,
        {
            ranks.push(ieee::order_rank(self.data[k]));
            proof {
                assert(self.data@.take(k + 1) == self.data@.take(k as int).push(self.data@[k as int]));
            }
            k = k + 1;
        }
        proof {
            assert(self.data@.take(self.data@.len() as int) == self.data@);
        }
        let order = stable_order_of(&ranks);
        let mut r: Vec<u64> = Vec::new();
        let mut q: usize = 0;
        proof {
            lemma_stable_order(ranks@, ranks@.len());
        }
        while q < order.len()
            invariant
                q <= order@.len(),
                order@ == stable_order(ranks@, ranks@.len()),
                ranks@ == self.data@.map_values(|x: u64| rank(x)),
                is_permutation(order@, ranks@.len()),
                r@ == order@.take(q as int).map_values(|k: usize| self.data@[k as int]),
            decreases order@.len() - q,
        {
            r.push(self.data[order[q]]);
            proof {
                assert(order@.take(q + 1) == order@.take(q as int).push(order@[q as int]));
            }
            q = q + 1;
        }
        proof {
            assert(order@.take(order@.len() as int) == order@);
        }
        r
    }

    /// Maximum distance: `f64::max` folded over the distances from `+0.0`.
    pub fn max_distance(&self) -> (r: u64)
        ensures
            r == max_of(self.data@),
    {
        let mut acc: u64 = ZERO;
        let mut k: usize = 0;
        while k < self.data.len()
            invariant
                k <= self.data@.len(),
                acc == max_of(self.data@.take(k as int)),
            decreases self.data@.len() - k,
        {
            proof {
                let s = self.data@.take(k + 1);
                assert(s.drop_last() == self.data@.take(k as int));
            }
            acc = ieee::max(acc, self.data[k]);
            k = k + 1;
        }
        proof {
            assert(self.data@.take(self.data@.len() as int) == self.data@);
        }
        acc
    }

    /// Minimum distance: `f64::min` folded over the distances from `+∞`.
    pub fn min_distance(&self) -> (r: u64)
        ensures
            r == min_of(self.data@),
    {
        let mut acc: u64 = INFINITY;
        let mut k: usize = 0;
        while k < self.data.len()
            invariant
                k <= self.data@.len(),
                acc == min_of(self.data@.take(k as int)),
            decreases self.data@.len() - k,
        {
            proof {
                let s = self.data@.take(k + 1);
                assert(s.drop_last() == self.data@.take(k as int));
            }
            acc = ieee::min(acc, self.data[k]);
            k = k + 1;
        }
        proof {
            assert(self.data@.take(self.data@.len() as int) == self.data@);
        }
        acc
    }

    /// Number of point pairs.
    pub fn pair_count(&self) -> (r: usize)
        ensures
            r == self.data@.len(),
    {
        self.data.len()
    }
}

/// The distance is symmetric, and the distance of a point to itself is `+0.0`.
pub proof fn law_distance_symmetric(dm: DistanceMatrix, i: int, j: int)
    ensures
        dm.dist(i, j) == dm.dist(j, i),
        dm.dist(i, i) == ZERO,
{
}

/// Setting the distance of a pair reads back from both orders of the pair, and leaves every
/// other pair unchanged.
pub proof fn law_set_then_get(before: DistanceMatrix, after: DistanceMatrix, i: int, j: int, v: u64)
    requires
        before.wf(),
        0 <= i < before.n,
        0 <= j < before.n,
        i != j,
        after.n == before.n,
        after.data@ == before.data@.update(
            if i < j {
                tri_index(before.n as int, i, j)
            } else {
                tri_index(before.n as int, j, i)
            },
            v,
        ),
    ensures
        after.dist(i, j) == v,
        after.dist(j, i) == v,
        forall|a: int, b: int|
            0 <= a < before.n && 0 <= b < before.n && !((a == i && b == j) || (a == j && b == i))
                ==> #[trigger] after.dist(a, b) == before.dist(a, b),
{
    let n = before.n as int;
    let (lo, hi) = if i < j {
        (i, j)
    } else {
        (j, i)
    };
    lemma_tri_index(n, lo, hi);
    assert forall|a: int, b: int|
        0 <= a < before.n && 0 <= b < before.n && !((a == i && b == j) || (a == j && b == i))
            implies #[trigger] after.dist(a, b) == before.dist(a, b) by {
        if a != b {
            let (x, y) = if a < b {
                (a, b)
            } else {
                (b, a)
            };
            lemma_tri_index(n, x, y);
            if x < lo || (x == lo && y < hi) {
                lemma_tri_index_lex(n, x, y, lo, hi);
            } else {
                lemma_tri_index_lex(n, lo, hi, x, y);
            }
        }
    }
}

/// The sorted distances are the distances, rearranged into non-decreasing order.
pub proof fn law_sorted_values(s: Seq<u64>)
    requires
        no_nan(s),
        s.len() <= usize::MAX,
    ensures
        sorted_values(s).len() == s.len(),
        forall|p: int, q: int|
            0 <= p < q < s.len() ==> float_le(#[trigger] sorted_values(s)[p], #[trigger] sorted_values(s)[q]),
        exists|o: Seq<usize>|
            is_permutation(o, s.len()) && forall|q: int|
                0 <= q < s.len() ==> #[trigger] sorted_values(s)[q] == s[o[q] as int],
{
    let keys = s.map_values(|x: u64| rank(x));
    let o = stable_order(keys, s.len());
    lemma_stable_order(keys, s.len());
    let r = sorted_values(s);
    assert forall|p: int, q: int| 0 <= p < q < s.len() implies float_le(
        #[trigger] r[p],
        #[trigger] r[q],
    ) by {
        assert(keys[o[p] as int] <= keys[o[q] as int]);
        assert(r[p] == s[o[p] as int]);
        assert(r[q] == s[o[q] as int]);
    }
    assert(forall|q: int| 0 <= q < s.len() ==> #[trigger] r[q] == s[o[q] as int]);
}

/// Folding `f64::max` from `+0.0` gives a value at least every number folded in and at least zero;
/// folding `f64::min` from `+∞` gives a value at most every number folded in.
pub proof fn law_max_min_bounds(s: Seq<u64>)
    requires
        no_nan(s),
    ensures
        !is_nan(max_of(s)),
        !is_nan(min_of(s)),
        float_le(ZERO, max_of(s)),
        forall|k: int| 0 <= k < s.len() ==> float_le(#[trigger] s[k], max_of(s)),
        forall|k: int| 0 <= k < s.len() ==> float_le(min_of(s), #[trigger] s[k]),
    decreases s.len(),
{
    ieee::lemma_constants();
    if s.len() > 0 {
        let d = s.drop_last();
        assert(no_nan(d)) by {
            assert forall|i: int| 0 <= i < d.len() implies !is_nan(#[trigger] d[i]) by {
                assert(d[i] == s[i]);
            }
        }
        law_max_min_bounds(d);
        assert forall|k: int| 0 <= k < s.len() implies float_le(#[trigger] s[k], max_of(s)) by {
            if k < d.len() {
                assert(d[k] == s[k]);
            }
        }
        assert forall|k: int| 0 <= k < s.len() implies float_le(min_of(s), #[trigger] s[k]) by {
            if k < d.len() {
                assert(d[k] == s[k]);
            }
        }
    }
}

} // verus!
