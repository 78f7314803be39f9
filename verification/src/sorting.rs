//! Stable ordering of positions by an integer key.
//!
//! Sorting a list of values by a comparison that is a total preorder, keeping
//! equal values in their input order, has exactly one result. It is
//! described here as the insertion of each position, in turn, after every
//! earlier position whose key is not greater.
use vstd::prelude::*;

verus! {

/// Inserts position `x` into `order`, behind every entry whose key is at most `keys[x]`
/// and in front of the trailing entries whose keys are greater.
pub open spec fn insert_by_key(order: Seq<usize>, keys: Seq<u64>, x: usize) -> Seq<usize>
    decreases order.len(),
{
    if order.len() == 0 || keys[order.last() as int] <= keys[x as int] {
        order.push(x)
    } else {
        insert_by_key(order.drop_last(), keys, x).push(order.last())
    }
}

/// The stable order of the first `k` positions of `keys`.
pub open spec fn stable_order(keys: Seq<u64>, k: nat) -> Seq<usize>
    decreases k,
{
    if k == 0 {
        Seq::empty()
    } else {
        insert_by_key(stable_order(keys, (k - 1) as nat), keys, (k - 1) as usize)
    }
}

/// The positions of `order` are listed with non-decreasing keys.
pub open spec fn sorted_by_key(order: Seq<usize>, keys: Seq<u64>) -> bool {
    forall|p: int, q: int|
        0 <= p < q < order.len() ==> keys[#[trigger] order[p] as int] <= keys[#[trigger] order[q]
            as int]
}

/// `order` lists each of the positions `0..k` exactly once.
pub open spec fn is_permutation(order: Seq<usize>, k: nat) -> bool {
    &&& order.len() == k
    &&& forall|q: int| 0 <= q < order.len() ==> #[trigger] order[q] < k
    &&& forall|p: int, q: int| 0 <= p < q < order.len() ==> #[trigger] order[p] != #[trigger] order[q]
}

proof fn lemma_insert_at(order: Seq<usize>, keys: Seq<u64>, x: usize, pos: int)
    requires
        0 <= pos <= order.len(),
        pos == 0 || keys[order[pos - 1] as int] <= keys[x as int],
        forall|q: int| pos <= q < order.len() ==> keys[#[trigger] order[q] as int] > keys[x as int],
    ensures
        insert_by_key(order, keys, x) == order.insert(pos, x),
    decreases order.len(),
{
    if order.len() == 0 || keys[order.last() as int] <= keys[x as int] {
        assert(pos == order.len());
        assert(order.push(x) =~= order.insert(pos, x));
    } else {
        let d = order.drop_last();
        lemma_insert_at(d, keys, x, pos);
        assert(d.insert(pos, x).push(order.last()) =~= order.insert(pos, x));
    }
}

proof fn lemma_insert_sorted(order: Seq<usize>, keys: Seq<u64>, x: usize)
    requires
        sorted_by_key(order, keys),
    ensures
        sorted_by_key(insert_by_key(order, keys, x), keys),
        insert_by_key(order, keys, x).len() == order.len() + 1,
        forall|i: usize| #[trigger]
            insert_by_key(order, keys, x).contains(i) <==> (order.contains(i) || i == x),
    decreases order.len(),
{
    let r = insert_by_key(order, keys, x);
    if order.len() == 0 || keys[order.last() as int] <= keys[x as int] {
        assert forall|i: usize| (#[trigger] r.contains(i)) == (order.contains(i) || i == x) by {
            if r.contains(i) {
                let q = choose|q: int| 0 <= q < r.len() && r[q] == i;
                if q < order.len() {
                    assert(order[q] == i);
                }
            }
            if order.contains(i) {
                let q = choose|q: int| 0 <= q < order.len() && order[q] == i;
                assert(r[q] == i);
            }
            if i == x {
                assert(r[order.len() as int] == i);
            }
        }
    } else {
        let d = order.drop_last();
        let last = order.last();
        assert(sorted_by_key(d, keys));
        lemma_insert_sorted(d, keys, x);
        let rd = insert_by_key(d, keys, x);
        assert(r == rd.push(last));
        assert forall|i: usize| (#[trigger] r.contains(i)) == (order.contains(i) || i == x) by {
            if r.contains(i) {
                let q = choose|q: int| 0 <= q < r.len() && r[q] == i;
                if q < rd.len() {
                    assert(rd.contains(i));
                    if d.contains(i) {
                        let t = choose|t: int| 0 <= t < d.len() && d[t] == i;
                        assert(order[t] == i);
                    }
                } else {
                    assert(order[order.len() - 1] == i);
                }
            }
            if order.contains(i) {
                let q = choose|q: int| 0 <= q < order.len() && order[q] == i;
                if q < d.len() {
                    assert(d[q] == i);
                    assert(rd.contains(i));
                    let t = choose|t: int| 0 <= t < rd.len() && rd[t] == i;
                    assert(r[t] == i);
                } else {
                    assert(r[rd.len() as int] == i);
                }
            }
            if i == x {
                assert(rd.contains(i));
                let t = choose|t: int| 0 <= t < rd.len() && rd[t] == i;
                assert(r[t] == i);
            }
        }
        assert forall|p: int, q: int| 0 <= p < q < r.len() implies keys[#[trigger] r[p] as int]
            <= keys[#[trigger] r[q] as int] by {
            if q == r.len() - 1 {
                let v = rd[p];
                assert(rd.contains(v));
                if v != x {
                    assert(d.contains(v));
                    let t = choose|t: int| 0 <= t < d.len() && d[t] == v;
                    assert(order[t] == v);
                    assert(order[order.len() - 1] == last);
                }
            } else {
                assert(r[p] == rd[p] && r[q] == rd[q]);
            }
        }
    }
}

/// The stable order of the first `k` positions lists each of them once, by non-decreasing key.
pub proof fn lemma_stable_order(keys: Seq<u64>, k: nat)
    requires
        k <= keys.len(),
        keys.len() <= usize::MAX,
    ensures
        sorted_by_key(stable_order(keys, k), keys),
        is_permutation(stable_order(keys, k), k),
        forall|i: usize| i < k ==> #[trigger] stable_order(keys, k).contains(i),
    decreases k,
{
    if k > 0 {
        let prev = stable_order(keys, (k - 1) as nat);
        lemma_stable_order(keys, (k - 1) as nat);
        lemma_insert_sorted(prev, keys, (k - 1) as usize);
        let r = stable_order(keys, k);
        assert forall|i: usize| i < k implies #[trigger] r.contains(i) by {
            if i < k - 1 {
                assert(prev.contains(i));
            }
        }
        assert forall|q: int| 0 <= q < r.len() implies #[trigger] r[q] < k by {
            assert(r.contains(r[q]));
        }
        assert forall|p: int, q: int| 0 <= p < q < r.len() implies #[trigger] r[p] != #[trigger] r[q] by {
            if r[p] == r[q] {
                // every value below k occurs in r, and r has exactly k entries
                lemma_distinct_count(r, k, p, q);
            }
        }
    }
}

/// A sequence of length `k` holding every value below `k` cannot repeat an entry.
proof fn lemma_distinct_count(r: Seq<usize>, k: nat, p: int, q: int)
    requires
        k <= usize::MAX,
        r.len() == k,
        forall|i: usize| i < k ==> #[trigger] r.contains(i),
        forall|t: int| 0 <= t < r.len() ==> #[trigger] r[t] < k,
        0 <= p < q < r.len(),
    ensures
        r[p] != r[q],
{
    if r[p] == r[q] {
        let rest = r.remove(q);
        assert forall|i: usize| i < k implies #[trigger] rest.contains(i) by {
            assert(r.contains(i));
            let t = choose|t: int| 0 <= t < r.len() && r[t] == i;
            if t < q {
                assert(rest[t] == i);
            } else if t > q {
                assert(rest[t - 1] == i);
            } else {
                assert(rest[p] == i);
            }
        }
        let s = Set::new(|i: usize| i < k);
        lemma_values_below_is_finite(k);
        assert(rest.to_set().len() <= rest.len()) by {
            rest.lemma_cardinality_of_set();
        }
        assert(s.subset_of(rest.to_set())) by {
            assert forall|i: usize| s.contains(i) implies rest.to_set().contains(i) by {
                assert(rest.contains(i));
            }
        }
        vstd::set_lib::lemma_len_subset(s, rest.to_set());
    }
}

/// There are exactly `k` values below `k`.
proof fn lemma_values_below_is_finite(k: nat)
    requires
        k <= usize::MAX,
    ensures
        Set::new(|i: usize| i < k).finite(),
        Set::new(|i: usize| i < k).len() == k,
    decreases k,
{
    let s = Set::new(|i: usize| i < k);
    if k == 0 {
        assert(s =~= Set::empty());
    } else {
        lemma_values_below_is_finite((k - 1) as nat);
        let t = Set::new(|i: usize| i < (k - 1) as nat);
        assert(s =~= t.insert((k - 1) as usize));
    }
}

/// Orders the positions of `keys` stably by key.
pub fn stable_order_of(keys: &Vec<u64>) -> (order: Vec<usize>)
    ensures
        order@ == stable_order(keys@, keys@.len()),
{
    let mut order: Vec<usize> = Vec::new();
    let mut x: usize = 0;
    while x < keys.len()
        invariant
            x <= keys.len(),
            order@ == stable_order(keys@, x as nat),
            order.len() == x,
            forall|q: int| 0 <= q < order.len() ==> #[trigger] order@[q] < x,
        decreases keys.len() - x,
    {
        let mut pos: usize = order.len();
        while pos > 0 && keys[order[pos - 1]] > keys[x]
            invariant
                pos <= order.len(),
                order.len() == x,
                x < keys.len(),
                forall|q: int| 0 <= q < order.len() ==> #[trigger] order@[q] < x,
                forall|q: int|
                    pos <= q < order.len() ==> keys@[#[trigger] order@[q] as int] > keys@[x as int],
            decreases pos,
        {
            pos = pos - 1;
        }
        proof {
            lemma_insert_at(order@, keys@, x, pos as int);
        }
        order.insert(pos, x);
        x = x + 1;
    }
    order
}

} // verus!
