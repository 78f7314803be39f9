//! Bottleneck matchings between two lists of features, given the distances between them.
//!
//! A matching pairs some features of `a` with features of `b`, each at most once; every feature
//! left without a partner goes to the diagonal. Its cost is the largest distance it uses
//! (`f64::max` from `+0.0`): `dists[i][j]` for a matched pair, `diag_a[i]` or `diag_b[j]` for a
//! feature sent to the diagonal. The bottleneck distance is the least cost of a matching.
use vstd::prelude::*;

use crate::ieee::{self, float_le, float_max, is_nan, rank, ZERO};

verus! {

/// `mt[i]` is the feature of `b` matched with feature `i` of `a`, or `None` when that feature goes
/// to the diagonal; `a` has `m` features, `b` has `k`, and no feature of `b` is matched twice.
pub open spec fn is_matching(mt: Seq<Option<usize>>, m: nat, k: nat) -> bool {
    &&& mt.len() == m
    &&& valid_partners(mt, k)
}

/// Every partner named in `mt` is one of the `k` features of `b`, and none is named twice.
pub open spec fn valid_partners(mt: Seq<Option<usize>>, k: nat) -> bool {
    &&& forall|i: int| 0 <= i < mt.len() && (#[trigger] mt[i]) is Some ==> mt[i]->0 < k
    &&& forall|i: int, t: int|
        0 <= i < mt.len() && 0 <= t < mt.len() && i != t && (#[trigger] mt[i]) is Some ==> mt[i]
            != #[trigger] mt[t]
}

/// Feature `j` of `b` is matched in `mt`.
pub open spec fn matched(mt: Seq<Option<usize>>, j: int) -> bool {
    exists|t: int| 0 <= t < mt.len() && #[trigger] mt[t] == Some(j as usize)
}

/// The distance that feature `i` of `a` uses in `mt`.
pub open spec fn row_term(rows: Seq<Seq<u64>>, diag_a: Seq<u64>, mt: Seq<Option<usize>>, i: int) -> u64 {
    match mt[i] {
        Some(j) => rows[i][j as int],
        None => diag_a[i],
    }
}

/// `f64::max`, from `+0.0`, of the distances that the first `i` features of `a` use in `mt`.
pub open spec fn rows_cost(rows: Seq<Seq<u64>>, diag_a: Seq<u64>, mt: Seq<Option<usize>>, i: nat) -> u64
    decreases i,
{
    if i == 0 {
        ZERO
    } else {
        float_max(rows_cost(rows, diag_a, mt, (i - 1) as nat), row_term(rows, diag_a, mt, i - 1))
    }
}

/// `acc` raised, with `f64::max`, to the diagonal distance of each of the first `j` features of `b`
/// that `mt` leaves unmatched.
pub open spec fn unmatched_cost(mt: Seq<Option<usize>>, diag_b: Seq<u64>, acc: u64, j: nat) -> u64
    decreases j,
{
    if j == 0 {
        acc
    } else {
        let prev = unmatched_cost(mt, diag_b, acc, (j - 1) as nat);
        if matched(mt, j - 1) {
            prev
        } else {
            float_max(prev, diag_b[j - 1])
        }
    }
}

/// The cost of the matching `mt`: the largest distance it uses, from `+0.0`.
pub open spec fn matching_cost(
    rows: Seq<Seq<u64>>,
    diag_a: Seq<u64>,
    diag_b: Seq<u64>,
    mt: Seq<Option<usize>>,
) -> u64 {
    unmatched_cost(mt, diag_b, rows_cost(rows, diag_a, mt, mt.len()), diag_b.len())
}

/// `r` is the bottleneck distance: the cost of some matching, and no matching costs less.
pub open spec fn is_bottleneck(r: u64, rows: Seq<Seq<u64>>, diag_a: Seq<u64>, diag_b: Seq<u64>) -> bool {
    &&& exists|mt: Seq<Option<usize>>|
        #[trigger] is_matching(mt, diag_a.len(), diag_b.len()) && r == matching_cost(
            rows,
            diag_a,
            diag_b,
            mt,
        )
    &&& forall|mt: Seq<Option<usize>>|
        #[trigger] is_matching(mt, diag_a.len(), diag_b.len()) ==> float_le(
            r,
            matching_cost(rows, diag_a, diag_b, mt),
        )
}

/// `mt` is a matching that begins with the choices `prefix`.
pub open spec fn completes(mt: Seq<Option<usize>>, prefix: Seq<Option<usize>>, m: nat, k: nat) -> bool {
    &&& is_matching(mt, m, k)
    &&& prefix.len() <= m
    &&& forall|t: int| 0 <= t < prefix.len() ==> #[trigger] mt[t] == prefix[t]
}

/// Every cost is `+0.0` or a number above it.
pub proof fn lemma_cost_floor(rows: Seq<Seq<u64>>, diag_a: Seq<u64>, diag_b: Seq<u64>, mt: Seq<Option<usize>>)
    ensures
        !is_nan(matching_cost(rows, diag_a, diag_b, mt)),
        matching_cost(rows, diag_a, diag_b, mt) == ZERO || rank(ZERO) < rank(
            matching_cost(rows, diag_a, diag_b, mt),
        ),
{
    ieee::lemma_constants();
    lemma_rows_floor(rows, diag_a, mt, mt.len());
    lemma_unmatched_floor(mt, diag_b, rows_cost(rows, diag_a, mt, mt.len()), diag_b.len());
}

proof fn lemma_rows_floor(rows: Seq<Seq<u64>>, diag_a: Seq<u64>, mt: Seq<Option<usize>>, i: nat)
    ensures
        !is_nan(rows_cost(rows, diag_a, mt, i)),
        rows_cost(rows, diag_a, mt, i) == ZERO || rank(ZERO) < rank(rows_cost(rows, diag_a, mt, i)),
    decreases i,
{
    ieee::lemma_constants();
    if i > 0 {
        lemma_rows_floor(rows, diag_a, mt, (i - 1) as nat);
    }
}

proof fn lemma_unmatched_floor(mt: Seq<Option<usize>>, diag_b: Seq<u64>, acc: u64, j: nat)
    requires
        !is_nan(acc),
        acc == ZERO || rank(ZERO) < rank(acc),
    ensures
        !is_nan(unmatched_cost(mt, diag_b, acc, j)),
        unmatched_cost(mt, diag_b, acc, j) == ZERO || rank(ZERO) < rank(unmatched_cost(mt, diag_b, acc, j)),
    decreases j,
{
    ieee::lemma_constants();
    if j > 0 {
        lemma_unmatched_floor(mt, diag_b, acc, (j - 1) as nat);
    }
}

/// The cost of a complete matching, the features of `b` it uses being marked in `used`.
fn cost_of(
    dists: &Vec<Vec<u64>>,
    diag_a: &Vec<u64>,
    diag_b: &Vec<u64>,
    pr: &Vec<Option<usize>>,
    used: &Vec<bool>,
) -> (r: u64)
    requires
        dists@.len() == diag_a@.len(),
        forall|i: int| 0 <= i < dists@.len() ==> (#[trigger] dists@[i])@.len() == diag_b@.len(),
        is_matching(pr@, diag_a@.len(), diag_b@.len()),
        used@.len() == diag_b@.len(),
        forall|j: int| 0 <= j < diag_b@.len() ==> (#[trigger] used@[j] <==> matched(pr@, j)),
    ensures
        r == matching_cost(dists@.map_values(|row: Vec<u64>| row@), diag_a@, diag_b@, pr@),
{
    let ghost rows = dists@.map_values(|row: Vec<u64>| row@);
    let mut acc: u64 = ZERO;
    let mut i: usize = 0;
    while i < pr.len()
        invariant
            i <= pr@.len(),
            rows == dists@.map_values(|row: Vec<u64>| row@),
            dists@.len() == diag_a@.len(),
            forall|t: int| 0 <= t < dists@.len() ==> (#[trigger] dists@[t])@.len() == diag_b@.len(),
            is_matching(pr@, diag_a@.len(), diag_b@.len()),
            acc == rows_cost(rows, diag_a@, pr@, i as nat),
        decreases pr@.len() - i,
    {
        let term = match pr[i] {
            Some(j) => {
                assert(pr@[i as int] is Some);
                dists[i][j]
            },
            None => diag_a[i],
        };
        proof {
            assert(rows[i as int] == dists@[i as int]@);
        }
        acc = ieee::max(acc, term);
        i = i + 1;
    }
    let ghost base = acc;
    let mut j: usize = 0;
    while j < diag_b.len()
        invariant
            j <= diag_b@.len(),
            used@.len() == diag_b@.len(),
            forall|q: int| 0 <= q < diag_b@.len() ==> (#[trigger] used@[q] <==> matched(pr@, q)),
            acc == unmatched_cost(pr@, diag_b@, base, j as nat),
        decreases diag_b@.len() - j,
    {
        if !used[j] {
            acc = ieee::max(acc, diag_b[j]);
        }
        j = j + 1;
    }
    acc
}

/// The least cost of a matching that begins with the choices in `pr` (the features of `b` they
/// use being marked in `used`): each next feature of `a` tries the diagonal, then every feature
/// of `b` still free.
fn search(
    dists: &Vec<Vec<u64>>,
    diag_a: &Vec<u64>,
    diag_b: &Vec<u64>,
    pr: &mut Vec<Option<usize>>,
    used: &mut Vec<bool>,
) -> (r: u64)
    requires
        dists@.len() == diag_a@.len(),
        forall|i: int| 0 <= i < dists@.len() ==> (#[trigger] dists@[i])@.len() == diag_b@.len(),
        old(pr)@.len() <= diag_a@.len(),
        valid_partners(old(pr)@, diag_b@.len()),
        old(used)@.len() == diag_b@.len(),
        forall|j: int| 0 <= j < diag_b@.len() ==> (#[trigger] old(used)@[j] <==> matched(old(pr)@, j)),
    ensures
        final(pr)@ == old(pr)@,
        final(used)@ == old(used)@,
        exists|mt: Seq<Option<usize>>|
            #[trigger] completes(mt, old(pr)@, diag_a@.len(), diag_b@.len()) && r == matching_cost(
                dists@.map_values(|row: Vec<u64>| row@),
                diag_a@,
                diag_b@,
                mt,
            ),
        forall|mt: Seq<Option<usize>>|
            #[trigger] completes(mt, old(pr)@, diag_a@.len(), diag_b@.len()) ==> float_le(
                r,
                matching_cost(dists@.map_values(|row: Vec<u64>| row@), diag_a@, diag_b@, mt),
            ),
    decreases diag_a@.len() - old(pr)@.len(),
{
    let ghost rows = dists@.map_values(|row: Vec<u64>| row@);
    let ghost m = diag_a@.len();
    let ghost k = diag_b@.len();
    let ghost p0 = pr@;
    let ghost u0 = used@;
    if pr.len() == diag_a.len() {
        let c = cost_of(dists, diag_a, diag_b, pr, used);
        proof {
            assert(completes(p0, p0, m, k));
            assert forall|mt: Seq<Option<usize>>| #[trigger] completes(mt, p0, m, k) implies float_le(
                c,
                matching_cost(rows, diag_a@, diag_b@, mt),
            ) by {
                assert(mt =~= p0);
                lemma_cost_floor(rows, diag_a@, diag_b@, p0);
            }
        }
        return c;
    }
    let i = pr.len();
    pr.push(None);
    proof {
        assert forall|j: int| 0 <= j < k implies (#[trigger] used@[j] <==> matched(pr@, j)) by {
            if matched(p0, j) {
                let t = choose|t: int| 0 <= t < p0.len() && #[trigger] p0[t] == Some(j as usize);
                assert(pr@[t] == p0[t]);
            }
            if matched(pr@, j) {
                let t = choose|t: int| 0 <= t < pr@.len() && #[trigger] pr@[t] == Some(j as usize);
                assert(t < p0.len());
                assert(p0[t] == pr@[t]);
            }
        }
        assert(valid_partners(pr@, k)) by {
            assert forall|a: int, b: int|
                0 <= a < pr@.len() && 0 <= b < pr@.len() && a != b && (#[trigger] pr@[a]) is Some
                    implies pr@[a] != #[trigger] pr@[b] by {
                if a < p0.len() && b < p0.len() {
                    assert(pr@[a] == p0[a] && pr@[b] == p0[b]);
                }
            }
        }
    }
    let mut best = search(dists, diag_a, diag_b, pr, used);
    pr.pop();
    proof {
        assert(pr@ =~= p0);
        let w = choose|mt: Seq<Option<usize>>|
            #[trigger] completes(mt, p0.push(None), m, k) && best == matching_cost(rows, diag_a@, diag_b@, mt);
        assert(completes(w, p0, m, k));
        assert forall|mt: Seq<Option<usize>>|
            #[trigger] completes(mt, p0, m, k) && mt[i as int] is None implies float_le(
                best,
                matching_cost(rows, diag_a@, diag_b@, mt),
            ) by {
            assert(completes(mt, p0.push(None), m, k));
        }
    }
    let mut j: usize = 0;
    while j < diag_b.len()
        invariant
            dists@.len() == diag_a@.len(),
            forall|t: int| 0 <= t < dists@.len() ==> (#[trigger] dists@[t])@.len() == diag_b@.len(),
            rows == dists@.map_values(|row: Vec<u64>| row@),
            m == diag_a@.len(),
            k == diag_b@.len(),
            i == p0.len(),
            p0 == old(pr)@,
            i < m,
            j <= k,
            pr@ == p0,
            used@ == u0,
            valid_partners(p0, k),
            u0.len() == k,
            forall|q: int| 0 <= q < k ==> (#[trigger] u0[q] <==> matched(p0, q)),
            exists|mt: Seq<Option<usize>>|
                #[trigger] completes(mt, p0, m, k) && best == matching_cost(rows, diag_a@, diag_b@, mt),
            forall|mt: Seq<Option<usize>>|
                #[trigger] completes(mt, p0, m, k) && (mt[i as int] is None || mt[i as int]->0 < j)
                    ==> float_le(best, matching_cost(rows, diag_a@, diag_b@, mt)),
        decreases k - j,
    {
        if !used[j] {
            let ghost pj = p0.push(Some(j));
            pr.push(Some(j));
            used.set(j, true);
            proof {
                assert(pr@ == pj);
                assert(!matched(p0, j as int));
                assert forall|q: int| 0 <= q < k implies (#[trigger] used@[q] <==> matched(pj, q)) by {
                    if q == j {
                        assert(pj[i as int] == Some(j));
                    } else {
                        if matched(p0, q) {
                            let t = choose|t: int| 0 <= t < p0.len() && #[trigger] p0[t] == Some(q as usize);
                            assert(pj[t] == p0[t]);
                        }
                        if matched(pj, q) {
                            let t = choose|t: int| 0 <= t < pj.len() && #[trigger] pj[t] == Some(q as usize);
                            assert(t < p0.len());
                            assert(p0[t] == pj[t]);
                        }
                    }
                }
                assert(valid_partners(pj, k)) by {
                    assert forall|a: int, b: int|
                        0 <= a < pj.len() && 0 <= b < pj.len() && a != b && (#[trigger] pj[a]) is Some
                            implies pj[a] != #[trigger] pj[b] by {
                        if a < p0.len() && b < p0.len() {
                            assert(pj[a] == p0[a] && pj[b] == p0[b]);
                        } else if a == i {
                            if b < p0.len() && pj[b] == Some(j) {
                                assert(p0[b] == Some(j));
                            }
                        } else {
                            if a < p0.len() && pj[a] == Some(j) {
                                assert(p0[a] == Some(j));
                            }
                        }
                    }
                }
            }
            let c = search(dists, diag_a, diag_b, pr, used);
            pr.pop();
            used.set(j, false);
            proof {
                assert(pr@ =~= p0);
                assert(used@ =~= u0);
                let w = choose|mt: Seq<Option<usize>>|
                    #[trigger] completes(mt, pj, m, k) && c == matching_cost(rows, diag_a@, diag_b@, mt);
                assert(completes(w, p0, m, k));
                lemma_cost_floor(rows, diag_a@, diag_b@, w);
                let wb = choose|mt: Seq<Option<usize>>|
                    #[trigger] completes(mt, p0, m, k) && best == matching_cost(rows, diag_a@, diag_b@, mt);
                lemma_cost_floor(rows, diag_a@, diag_b@, wb);
            }
            let ghost old_best = best;
            if ieee::lt(c, best) {
                best = c;
            }
            proof {
                assert forall|mt: Seq<Option<usize>>|
                    #[trigger] completes(mt, p0, m, k) && (mt[i as int] is None || mt[i as int]->0 < j + 1)
                        implies float_le(best, matching_cost(rows, diag_a@, diag_b@, mt)) by {
                    lemma_cost_floor(rows, diag_a@, diag_b@, mt);
                    if mt[i as int] is Some && mt[i as int]->0 == j {
                        assert(completes(mt, pj, m, k));
                    }
                }
            }
        } else {
            proof {
                assert forall|mt: Seq<Option<usize>>|
                    #[trigger] completes(mt, p0, m, k) && (mt[i as int] is None || mt[i as int]->0 < j + 1)
                        implies float_le(best, matching_cost(rows, diag_a@, diag_b@, mt)) by {
                    if mt[i as int] is Some && mt[i as int]->0 == j {
                        assert(matched(p0, j as int));
                        let t = choose|t: int| 0 <= t < p0.len() && #[trigger] p0[t] == Some(j);
                        assert(mt[t] == p0[t]);
                        assert(mt[i as int] != mt[t]);
                    }
                }
            }
        }
        j = j + 1;
    }
    proof {
        assert forall|mt: Seq<Option<usize>>| #[trigger] completes(mt, p0, m, k) implies float_le(
            best,
            matching_cost(rows, diag_a@, diag_b@, mt),
        ) by {
            if mt[i as int] is Some {
                assert(mt[i as int]->0 < k);
            }
        }
    }
    best
}

/// The bottleneck distance between the features `a` and `b` of one dimension: the least, over
/// all matchings, of the largest distance the matching uses. `dists[i][j]` is the distance between
/// `a[i]` and `b[j]`; `diag_a[i]` and `diag_b[j]` are the distances of each feature to the
/// diagonal. Every matching is tried, so the time grows exponentially with the features.
pub fn bottleneck_matching(dists: &Vec<Vec<u64>>, diag_a: &Vec<u64>, diag_b: &Vec<u64>) -> (r: u64)
    requires
        dists@.len() == diag_a@.len(),
        forall|i: int| 0 <= i < dists@.len() ==> (#[trigger] dists@[i])@.len() == diag_b@.len(),
    ensures
        is_bottleneck(r, dists@.map_values(|row: Vec<u64>| row@), diag_a@, diag_b@),
{
    let ghost rows = dists@.map_values(|row: Vec<u64>| row@);
    let mut pr: Vec<Option<usize>> = Vec::new();
    let mut used: Vec<bool> = vec![false; diag_b.len()];
    proof {
        assert forall|j: int| 0 <= j < diag_b@.len() implies (#[trigger] used@[j] <==> matched(pr@, j)) by {}
    }
    let r = search(dists, diag_a, diag_b, &mut pr, &mut used);
    proof {
        let e = Seq::<Option<usize>>::empty();
        let w = choose|mt: Seq<Option<usize>>|
            #[trigger] completes(mt, e, diag_a@.len(), diag_b@.len()) && r == matching_cost(
                rows,
                diag_a@,
                diag_b@,
                mt,
            );
        assert(is_matching(w, diag_a@.len(), diag_b@.len()));
        assert forall|mt: Seq<Option<usize>>| #[trigger] is_matching(mt, diag_a@.len(), diag_b@.len()) implies float_le(
            r,
            matching_cost(rows, diag_a@, diag_b@, mt),
        ) by {
            assert(completes(mt, e, diag_a@.len(), diag_b@.len()));
        }
    }
    r
}

proof fn lemma_identity_rows(rows: Seq<Seq<u64>>, diag_a: Seq<u64>, id: Seq<Option<usize>>, i: nat)
    requires
        i <= id.len(),
        i <= rows.len(),
        id.len() <= usize::MAX,
        forall|t: int| 0 <= t < id.len() ==> #[trigger] id[t] == Some(t as usize),
        forall|t: int| 0 <= t < rows.len() ==> #[trigger] rows[t][t] == ZERO,
    ensures
        rows_cost(rows, diag_a, id, i) == ZERO,
    decreases i,
{
    ieee::lemma_constants();
    if i > 0 {
        lemma_identity_rows(rows, diag_a, id, (i - 1) as nat);
        assert(row_term(rows, diag_a, id, i - 1) == rows[i - 1][i - 1]);
    }
}

proof fn lemma_all_matched(mt: Seq<Option<usize>>, diag_b: Seq<u64>, acc: u64, j: nat)
    requires
        forall|q: int| 0 <= q < j ==> #[trigger] matched(mt, q),
    ensures
        unmatched_cost(mt, diag_b, acc, j) == acc,
    decreases j,
{
    if j > 0 {
        assert(matched(mt, j - 1));
        lemma_all_matched(mt, diag_b, acc, (j - 1) as nat);
    }
}

/// Two lists of features at distance `+0.0` from each other, position by position, are at
/// bottleneck distance `+0.0`: each feature is matched with its twin.
pub proof fn law_bottleneck_of_twins(rows: Seq<Seq<u64>>, diag_a: Seq<u64>, diag_b: Seq<u64>, r: u64)
    requires
        rows.len() == diag_a.len(),
        diag_b.len() == diag_a.len(),
        diag_a.len() <= usize::MAX,
        forall|i: int| 0 <= i < rows.len() ==> (#[trigger] rows[i]).len() == diag_b.len(),
        forall|i: int| 0 <= i < rows.len() ==> #[trigger] rows[i][i] == ZERO,
        is_bottleneck(r, rows, diag_a, diag_b),
    ensures
        r == ZERO,
{
    ieee::lemma_constants();
    let n = diag_a.len();
    let id = Seq::new(n, |i: int| Some(i as usize));
    assert forall|i: int| 0 <= i < n implies (#[trigger] id[i])->0 == i by {}
    assert(valid_partners(id, n));
    assert(is_matching(id, n, n));
    lemma_identity_rows(rows, diag_a, id, n);
    assert forall|q: int| 0 <= q < n implies #[trigger] matched(id, q) by {
        assert(id[q] == Some(q as usize));
    }
    lemma_all_matched(id, diag_b, ZERO, n);
    assert(matching_cost(rows, diag_a, diag_b, id) == ZERO);
    let w = choose|mt: Seq<Option<usize>>|
        #[trigger] is_matching(mt, n, n) && r == matching_cost(rows, diag_a, diag_b, mt);
    lemma_cost_floor(rows, diag_a, diag_b, w);
}

/// The distances of `rows`, read the other way round: `b` against `a`.
pub open spec fn transpose(rows: Seq<Seq<u64>>, m: nat, k: nat) -> Seq<Seq<u64>> {
    Seq::new(k, |j: int| Seq::new(m, |i: int| rows[i][j]))
}

/// `mt` (of `a` against `b`) and `nt` (of `b` against `a`) pair the same features.
pub open spec fn inverse_of(mt: Seq<Option<usize>>, nt: Seq<Option<usize>>) -> bool {
    forall|i: int, j: int|
        0 <= i < mt.len() && 0 <= j < nt.len() ==> (#[trigger] mt[i] == Some(j as usize) <==> #[trigger] nt[j]
            == Some(i as usize))
}

/// The matching of `b` against `a` that pairs the features `mt` pairs.
pub open spec fn inverse(mt: Seq<Option<usize>>, k: nat) -> Seq<Option<usize>> {
    Seq::new(
        k,
        |j: int|
            if matched(mt, j) {
                Some((choose|t: int| 0 <= t < mt.len() && #[trigger] mt[t] == Some(j as usize)) as usize)
            } else {
                None
            },
    )
}

proof fn lemma_inverse(mt: Seq<Option<usize>>, m: nat, k: nat)
    requires
        is_matching(mt, m, k),
        m <= usize::MAX,
        k <= usize::MAX,
    ensures
        is_matching(inverse(mt, k), k, m),
        inverse_of(mt, inverse(mt, k)),
{
    let nt = inverse(mt, k);
    assert forall|j: int| 0 <= j < k && matched(mt, j) implies (#[trigger] nt[j]) is Some && mt[nt[j]->0 as int]
        == Some(j as usize) && nt[j]->0 < m by {
        let t = choose|t: int| 0 <= t < mt.len() && #[trigger] mt[t] == Some(j as usize);
    }
    assert forall|i: int, j: int| 0 <= i < m && 0 <= j < k implies (#[trigger] mt[i] == Some(j as usize)
        <==> #[trigger] nt[j] == Some(i as usize)) by {
        if mt[i] == Some(j as usize) {
            assert(matched(mt, j));
            let t = nt[j]->0 as int;
            if t != i {
                assert(mt[i] != mt[t]);
            }
        }
    }
    assert(valid_partners(nt, m)) by {
        assert forall|a: int, b: int|
            0 <= a < nt.len() && 0 <= b < nt.len() && a != b && (#[trigger] nt[a]) is Some implies nt[a]
                != #[trigger] nt[b] by {
            if nt[a] == nt[b] {
                assert(matched(mt, a));
                assert(matched(mt, b));
            }
        }
    }
}

/// `v` is one of the distances that `mt` uses.
pub open spec fn uses(rows: Seq<Seq<u64>>, diag_a: Seq<u64>, diag_b: Seq<u64>, mt: Seq<Option<usize>>, v: u64) -> bool {
    ||| exists|i: int| 0 <= i < mt.len() && #[trigger] row_term(rows, diag_a, mt, i) == v
    ||| exists|j: int| 0 <= j < diag_b.len() && !matched(mt, j) && #[trigger] diag_b[j] == v
}

proof fn lemma_rows_max(rows: Seq<Seq<u64>>, diag_a: Seq<u64>, mt: Seq<Option<usize>>, i: nat)
    requires
        i <= mt.len(),
    ensures
        !is_nan(rows_cost(rows, diag_a, mt, i)),
        forall|t: int|
            0 <= t < i && !is_nan(row_term(rows, diag_a, mt, t)) ==> rank(
                #[trigger] row_term(rows, diag_a, mt, t),
            ) <= rank(rows_cost(rows, diag_a, mt, i)),
        rows_cost(rows, diag_a, mt, i) == ZERO || exists|t: int|
            0 <= t < i && #[trigger] row_term(rows, diag_a, mt, t) == rows_cost(rows, diag_a, mt, i),
    decreases i,
{
    ieee::lemma_constants();
    if i > 0 {
        lemma_rows_max(rows, diag_a, mt, (i - 1) as nat);
    }
}

proof fn lemma_unmatched_max(mt: Seq<Option<usize>>, diag_b: Seq<u64>, acc: u64, j: nat)
    requires
        !is_nan(acc),
        j <= diag_b.len(),
    ensures
        !is_nan(unmatched_cost(mt, diag_b, acc, j)),
        rank(acc) <= rank(unmatched_cost(mt, diag_b, acc, j)),
        forall|q: int|
            0 <= q < j && !matched(mt, q) && !is_nan(diag_b[q]) ==> rank(#[trigger] diag_b[q]) <= rank(
                unmatched_cost(mt, diag_b, acc, j),
            ),
        unmatched_cost(mt, diag_b, acc, j) == acc || exists|q: int|
            0 <= q < j && !matched(mt, q) && #[trigger] diag_b[q] == unmatched_cost(mt, diag_b, acc, j),
    decreases j,
{
    if j > 0 {
        lemma_unmatched_max(mt, diag_b, acc, (j - 1) as nat);
    }
}

/// The cost of a matching is the largest number among the distances it uses (or `+0.0`).
proof fn lemma_cost_max(rows: Seq<Seq<u64>>, diag_a: Seq<u64>, diag_b: Seq<u64>, mt: Seq<Option<usize>>)
    ensures
        forall|v: u64|
            #[trigger] uses(rows, diag_a, diag_b, mt, v) && !is_nan(v) ==> rank(v) <= rank(
                matching_cost(rows, diag_a, diag_b, mt),
            ),
        matching_cost(rows, diag_a, diag_b, mt) == ZERO || uses(
            rows,
            diag_a,
            diag_b,
            mt,
            matching_cost(rows, diag_a, diag_b, mt),
        ),
{
    let rc = rows_cost(rows, diag_a, mt, mt.len());
    lemma_rows_max(rows, diag_a, mt, mt.len());
    lemma_unmatched_max(mt, diag_b, rc, diag_b.len());
}

/// Two matchings that pair the same features, one read each way, cost the same.
proof fn lemma_inverse_cost(
    rows: Seq<Seq<u64>>,
    diag_a: Seq<u64>,
    diag_b: Seq<u64>,
    mt: Seq<Option<usize>>,
    nt: Seq<Option<usize>>,
)
    requires
        rows.len() == diag_a.len(),
        forall|i: int| 0 <= i < rows.len() ==> (#[trigger] rows[i]).len() == diag_b.len(),
        is_matching(mt, diag_a.len(), diag_b.len()),
        is_matching(nt, diag_b.len(), diag_a.len()),
        inverse_of(mt, nt),
        diag_a.len() <= usize::MAX,
        diag_b.len() <= usize::MAX,
    ensures
        rank(matching_cost(rows, diag_a, diag_b, mt)) == rank(
            matching_cost(transpose(rows, diag_a.len(), diag_b.len()), diag_b, diag_a, nt),
        ),
{
    let m = diag_a.len();
    let k = diag_b.len();
    let rt = transpose(rows, m, k);
    let c1 = matching_cost(rows, diag_a, diag_b, mt);
    let c2 = matching_cost(rt, diag_b, diag_a, nt);
    lemma_cost_max(rows, diag_a, diag_b, mt);
    lemma_cost_max(rt, diag_b, diag_a, nt);
    lemma_cost_floor(rows, diag_a, diag_b, mt);
    lemma_cost_floor(rt, diag_b, diag_a, nt);
    ieee::lemma_constants();
    // every distance that mt uses, nt uses too
    assert forall|v: u64| #[trigger] uses(rows, diag_a, diag_b, mt, v) implies uses(rt, diag_b, diag_a, nt, v) by {
        if exists|i: int| 0 <= i < mt.len() && #[trigger] row_term(rows, diag_a, mt, i) == v {
            let i = choose|i: int| 0 <= i < mt.len() && #[trigger] row_term(rows, diag_a, mt, i) == v;
            if mt[i] is Some {
                let j = mt[i]->0 as int;
                assert(nt[j] == Some(i as usize));
                assert(rt[j][i] == rows[i][j]);
                assert(row_term(rt, diag_b, nt, j) == v);
            } else {
                if matched(nt, i) {
                    let j = choose|j: int| 0 <= j < nt.len() && #[trigger] nt[j] == Some(i as usize);
                    assert(mt[i] == Some(j as usize));
                }
                assert(diag_a[i] == v);
            }
        } else {
            let j = choose|j: int| 0 <= j < k && !matched(mt, j) && #[trigger] diag_b[j] == v;
            if nt[j] is Some {
                let i = nt[j]->0 as int;
                assert(mt[i] == Some(j as usize));
            }
            assert(row_term(rt, diag_b, nt, j) == v);
        }
    }
    // and every distance that nt uses, mt uses too
    assert forall|v: u64| #[trigger] uses(rt, diag_b, diag_a, nt, v) implies uses(rows, diag_a, diag_b, mt, v) by {
        if exists|j: int| 0 <= j < nt.len() && #[trigger] row_term(rt, diag_b, nt, j) == v {
            let j = choose|j: int| 0 <= j < nt.len() && #[trigger] row_term(rt, diag_b, nt, j) == v;
            if nt[j] is Some {
                let i = nt[j]->0 as int;
                assert(mt[i] == Some(j as usize));
                assert(rt[j][i] == rows[i][j]);
                assert(row_term(rows, diag_a, mt, i) == v);
            } else {
                if matched(mt, j) {
                    let i = choose|i: int| 0 <= i < mt.len() && #[trigger] mt[i] == Some(j as usize);
                    assert(nt[j] == Some(i as usize));
                }
                assert(diag_b[j] == v);
            }
        } else {
            let i = choose|i: int| 0 <= i < m && !matched(nt, i) && #[trigger] diag_a[i] == v;
            if mt[i] is Some {
                let j = mt[i]->0 as int;
                assert(nt[j] == Some(i as usize));
            }
            assert(row_term(rows, diag_a, mt, i) == v);
        }
    }
    if c1 != ZERO {
        assert(uses(rt, diag_b, diag_a, nt, c1));
    }
    if c2 != ZERO {
        assert(uses(rows, diag_a, diag_b, mt, c2));
    }
}

proof fn lemma_rank_injective(x: u64, y: u64)
    requires
        rank(x) == rank(y),
        rank(ZERO) < rank(x),
    ensures
        x == y,
{
    assert(rank(x) == rank(y) && rank(0u64) < rank(x) ==> x == y) by (bit_vector);
}

/// The bottleneck distance does not depend on the order of the two lists: reading every distance
/// the other way round (`b` against `a`) gives the same value.
pub proof fn law_bottleneck_symmetric(rows: Seq<Seq<u64>>, diag_a: Seq<u64>, diag_b: Seq<u64>, r1: u64, r2: u64)
    requires
        rows.len() == diag_a.len(),
        forall|i: int| 0 <= i < rows.len() ==> (#[trigger] rows[i]).len() == diag_b.len(),
        diag_a.len() <= usize::MAX,
        diag_b.len() <= usize::MAX,
        is_bottleneck(r1, rows, diag_a, diag_b),
        is_bottleneck(r2, transpose(rows, diag_a.len(), diag_b.len()), diag_b, diag_a),
    ensures
        r1 == r2,
{
    let m = diag_a.len();
    let k = diag_b.len();
    let rt = transpose(rows, m, k);
    assert forall|j: int| 0 <= j < rt.len() implies (#[trigger] rt[j]).len() == m by {}
    let w1 = choose|mt: Seq<Option<usize>>| #[trigger] is_matching(mt, m, k) && r1 == matching_cost(rows, diag_a, diag_b, mt);
    let w2 = choose|mt: Seq<Option<usize>>| #[trigger] is_matching(mt, k, m) && r2 == matching_cost(rt, diag_b, diag_a, mt);
    lemma_inverse(w1, m, k);
    let n1 = inverse(w1, k);
    lemma_inverse_cost(rows, diag_a, diag_b, w1, n1);
    assert(float_le(r2, matching_cost(rt, diag_b, diag_a, n1)));
    lemma_inverse(w2, k, m);
    let n2 = inverse(w2, m);
    assert(inverse_of(n2, w2)) by {
        assert forall|i: int, j: int| 0 <= i < n2.len() && 0 <= j < w2.len() implies (#[trigger] n2[i]
            == Some(j as usize) <==> #[trigger] w2[j] == Some(i as usize)) by {
            assert(w2[j] == Some(i as usize) <==> n2[i] == Some(j as usize));
        }
    }
    lemma_inverse_cost(rows, diag_a, diag_b, n2, w2);
    assert(float_le(r1, matching_cost(rows, diag_a, diag_b, n2)));
    lemma_cost_floor(rows, diag_a, diag_b, w1);
    lemma_cost_floor(rt, diag_b, diag_a, w2);
    ieee::lemma_constants();
    if r1 != ZERO && r2 != ZERO {
        lemma_rank_injective(r1, r2);
    }
}

} // verus!
