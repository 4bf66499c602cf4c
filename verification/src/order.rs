//! Stable ordering by integer keys — the `sort_by_key` the transcript passes
//! use to put chunks in `(start_ms, source)` order and speakers in number
//! order.
use vstd::prelude::*;

verus! {

/// Where stable insertion puts an element with key `k` into `order`, which
/// is already sorted by `keys`: after every element whose key is `<= k`.
pub open spec fn ins_pos(order: Seq<usize>, keys: Seq<int>, k: int) -> int
    decreases order.len(),
{
    if order.len() == 0 {
        0
    } else if keys[order.last() as int] > k {
        ins_pos(order.drop_last(), keys, k)
    } else {
        order.len() as int
    }
}

/// The indices `0..n` in stable order of `keys` (insertion sort).
pub open spec fn sort_prefix(keys: Seq<int>, n: nat) -> Seq<usize>
    decreases n,
{
    if n == 0 {
        seq![]
    } else {
        let o = sort_prefix(keys, (n - 1) as nat);
        o.insert(ins_pos(o, keys, keys[n - 1]), (n - 1) as usize)
    }
}

/// The indices of `keys` in stable ascending key order.
pub open spec fn stable_order(keys: Seq<int>) -> Seq<usize> {
    sort_prefix(keys, keys.len())
}

pub proof fn lemma_ins_pos_bound(order: Seq<usize>, keys: Seq<int>, k: int)
    ensures
        0 <= ins_pos(order, keys, k) <= order.len(),
    decreases order.len(),
{
    if order.len() > 0 {
        lemma_ins_pos_bound(order.drop_last(), keys, k);
    }
}

pub proof fn lemma_sort_prefix_len(keys: Seq<int>, n: nat)
    ensures
        sort_prefix(keys, n).len() == n,
        forall|j: int| 0 <= j < n ==> (#[trigger] sort_prefix(keys, n)[j]) < n,
    decreases n,
{
    if n > 0 {
        let o = sort_prefix(keys, (n - 1) as nat);
        lemma_sort_prefix_len(keys, (n - 1) as nat);
        lemma_ins_pos_bound(o, keys, keys[n - 1]);
        let p = ins_pos(o, keys, keys[n - 1]);
        let r = o.insert(p, (n - 1) as usize);
        assert forall|j: int| 0 <= j < n implies (#[trigger] sort_prefix(keys, n)[j]) < n by {
            if j < p {
                assert(r[j] == o[j]);
            } else if j > p {
                assert(r[j] == o[j - 1]);
            }
        }
    }
}

/// Indices of `keys` in stable ascending order.
pub fn stable_order_exec(keys: &Vec<u128>) -> (r: Vec<usize>)
    ensures
        r@ == stable_order(keys@.map_values(|k: u128| k as int)),
        r.len() == keys.len(),
        forall|j: int| 0 <= j < r.len() ==> (#[trigger] r@[j]) < keys.len(),
{
    let ghost ks = keys@.map_values(|k: u128| k as int);
    let mut order: Vec<usize> = Vec::new();
    let mut i: usize = 0;
    while i < keys.len()
        invariant
            i <= keys.len(),
            ks == keys@.map_values(|k: u128| k as int),
            order@ == sort_prefix(ks, i as nat),
            order.len() == i,
            forall|j: int| 0 <= j < order.len() ==> (#[trigger] order@[j]) < i,
        decreases keys.len() - i,
    {
        let k = keys[i];
        let mut p: usize = order.len();
        proof {
            assert(order@.take(p as int) =~= order@);
        }
        while p > 0 && keys[order[p - 1]] > k
            invariant
                p <= order.len(),
                order.len() == i,
                i < keys.len(),
                k == keys@[i as int],
                ks == keys@.map_values(|k: u128| k as int),
                forall|j: int| 0 <= j < order.len() ==> (#[trigger] order@[j]) < i,
                ins_pos(order@, ks, ks[i as int]) == ins_pos(order@.take(p as int), ks, ks[i as int]),
            decreases p,
        {
            assert(order@.take(p as int).drop_last() =~= order@.take(p - 1));
            assert(order@.take(p as int).last() == order@[p - 1]);
            p -= 1;
        }
        proof {
            if p > 0 {
                assert(order@.take(p as int).last() == order@[p - 1]);
            }
            assert(ins_pos(order@.take(p as int), ks, ks[i as int]) == p);
        }
        let ghost before = order@;
        order.insert(p, i);
        proof {
            assert forall|j: int| 0 <= j < order.len() implies (#[trigger] order@[j]) < i + 1 by {
                if j < p {
                    assert(order@[j] == before[j]);
                } else if j > p {
                    assert(order@[j] == before[j - 1]);
                }
            }
        }
        i += 1;
    }
    order
}

/// `o` lists indices in ascending key order, ties in ascending index order.
pub open spec fn ordered_by(o: Seq<usize>, keys: Seq<int>) -> bool {
    forall|i: int, j: int|
        0 <= i < j < o.len() ==> keys[#[trigger] o[i] as int] < keys[#[trigger] o[j] as int] || (
        keys[o[i] as int] == keys[o[j] as int] && o[i] < o[j])
}

proof fn lemma_ins_pos_props(order: Seq<usize>, keys: Seq<int>, k: int)
    ensures
        forall|j: int|
            ins_pos(order, keys, k) <= j < order.len() ==> keys[#[trigger] order[j] as int] > k,
        ins_pos(order, keys, k) > 0 ==> keys[order[ins_pos(order, keys, k) - 1] as int] <= k,
    decreases order.len(),
{
    if order.len() > 0 && keys[order.last() as int] > k {
        let d = order.drop_last();
        lemma_ins_pos_props(d, keys, k);
        lemma_ins_pos_bound(d, keys, k);
        assert(ins_pos(order, keys, k) == ins_pos(d, keys, k));
        assert forall|j: int| ins_pos(order, keys, k) <= j < order.len() implies keys[#[trigger] order[j] as int]
            > k by {
            if j < d.len() {
                assert(order[j] == d[j]);
            }
        }
        if ins_pos(order, keys, k) > 0 {
            assert(order[ins_pos(order, keys, k) - 1] == d[ins_pos(d, keys, k) - 1]);
        }
    }
}

/// The stable order lists every index once, in ascending key order, and
/// keeps the input order among equal keys.
pub proof fn law_stable_order_sorted(keys: Seq<int>)
    requires
        keys.len() <= usize::MAX,
    ensures
        stable_order(keys).len() == keys.len(),
        stable_order(keys).no_duplicates(),
        forall|i: usize| i < keys.len() ==> #[trigger] stable_order(keys).contains(i),
        ordered_by(stable_order(keys), keys),
{
    lemma_sort_prefix_len(keys, keys.len());
    lemma_sort_prefix_sorted(keys, keys.len());
}

proof fn lemma_sort_prefix_sorted(keys: Seq<int>, n: nat)
    requires
        n <= keys.len(),
        keys.len() <= usize::MAX,
    ensures
        sort_prefix(keys, n).no_duplicates(),
        forall|i: usize| i < n ==> #[trigger] sort_prefix(keys, n).contains(i),
        ordered_by(sort_prefix(keys, n), keys),
    decreases n,
{
    lemma_sort_prefix_len(keys, n);
    if n > 0 {
        let o = sort_prefix(keys, (n - 1) as nat);
        lemma_sort_prefix_sorted(keys, (n - 1) as nat);
        lemma_sort_prefix_len(keys, (n - 1) as nat);
        let k = keys[n - 1];
        lemma_ins_pos_bound(o, keys, k);
        lemma_ins_pos_props(o, keys, k);
        let p = ins_pos(o, keys, k);
        let x = (n - 1) as usize;
        let r = o.insert(p, x);
        assert(r == sort_prefix(keys, n));
        assert forall|a: int, b: int| 0 <= a < r.len() && 0 <= b < r.len() && a != b implies r[a] != r[b] by {
            let aa = if a < p { a } else if a == p { -1 } else { a - 1 };
            let bb = if b < p { b } else if b == p { -1 } else { b - 1 };
            if aa >= 0 {
                assert(r[a] == o[aa]);
                assert(o[aa] < n - 1);
            }
            if bb >= 0 {
                assert(r[b] == o[bb]);
                assert(o[bb] < n - 1);
            }
        }
        assert forall|i: usize| i < n implies #[trigger] r.contains(i) by {
            if i == n - 1 {
                assert(r[p] == x);
            } else {
                assert(o.contains(i));
                let q = choose|q: int| 0 <= q < o.len() && o[q] == i;
                if q < p {
                    assert(r[q] == o[q]);
                } else {
                    assert(r[q + 1] == o[q]);
                }
            }
        }
        assert forall|a: int, b: int| 0 <= a < b < r.len() implies keys[#[trigger] r[a] as int]
            < keys[#[trigger] r[b] as int] || (keys[r[a] as int] == keys[r[b] as int] && r[a] < r[b]) by {
            if b < p {
                assert(r[a] == o[a] && r[b] == o[b]);
            } else if b == p {
                assert(r[a] == o[a]);
                assert(o[a] < n - 1);
                if a < p - 1 {
                    assert(keys[o[a] as int] < keys[o[p - 1] as int] || (keys[o[a] as int] == keys[o[p - 1] as int]));
                }
            } else if a < p {
                assert(r[a] == o[a] && r[b] == o[b - 1]);
            } else if a == p {
                assert(r[b] == o[b - 1]);
                assert(keys[o[b - 1] as int] > k);
            } else {
                assert(r[a] == o[a - 1] && r[b] == o[b - 1]);
            }
        }
    }
}

} // verus!
