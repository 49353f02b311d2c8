//! Stable ranking of a list by descending key.
use vstd::prelude::*;

verus! {

/// How many of the first `m` positions in `order` have a key of at least `key`.
pub open spec fn outranking(keys: Seq<u32>, order: Seq<usize>, key: u32, m: int) -> int
    decreases m,
{
    if m <= 0 {
        0
    } else {
        outranking(keys, order, key, m - 1) + if keys[order[m - 1] as int] >= key {
            1int
        } else {
            0
        }
    }
}

/// The positions of the first `n` keys, the largest key first, and positions of
/// equal keys in ascending order.
pub open spec fn ranking(keys: Seq<u32>, n: int) -> Seq<usize>
    decreases n,
{
    if n <= 0 {
        Seq::empty()
    } else {
        let before = ranking(keys, n - 1);
        before.insert(
            outranking(keys, before, keys[n - 1], before.len() as int),
            (n - 1) as usize,
        )
    }
}

/// Position `a` comes before position `b`: its key is larger, or equal and `a`
/// is the smaller position.
pub open spec fn outranks(keys: Seq<u32>, a: usize, b: usize) -> bool {
    keys[a as int] > keys[b as int] || (keys[a as int] == keys[b as int] && a < b)
}

/// `order` holds the positions below `n` once each, in order of rank.
pub open spec fn is_ranking(keys: Seq<u32>, n: int, order: Seq<usize>) -> bool {
    &&& order.len() == n
    &&& forall|a: int| 0 <= a < n ==> #[trigger] order[a] < n
    &&& forall|a: int, b: int|
        0 <= a < b < n ==> outranks(keys, #[trigger] order[a], #[trigger] order[b])
    &&& forall|k: int| 0 <= k < n ==> #[trigger] order.contains(k as usize)
}

/// Where keys of at least `key` come first, their number is how many outrank it.
proof fn lemma_outranking(keys: Seq<u32>, order: Seq<usize>, key: u32, at: int, m: int)
    requires
        0 <= at,
        0 <= m <= order.len(),
        forall|a: int| 0 <= a < at && a < m ==> keys[#[trigger] order[a] as int] >= key,
        forall|a: int| at <= a < m ==> keys[#[trigger] order[a] as int] < key,
    ensures
        outranking(keys, order, key, m) == if at < m {
            at
        } else {
            m
        },
    decreases m,
{
    if m > 0 {
        lemma_outranking(keys, order, key, at, m - 1);
        assert(order[m - 1] == order[m - 1]);
    }
}

/// In a ranking, the keys of at least `key` are as many at the front.
proof fn lemma_outranking_prefix(keys: Seq<u32>, order: Seq<usize>, key: u32, m: int)
    requires
        0 <= m <= order.len(),
        forall|a: int, b: int|
            0 <= a < b < order.len() ==> outranks(keys, #[trigger] order[a], #[trigger] order[b]),
    ensures
        0 <= outranking(keys, order, key, m) <= m,
        forall|a: int|
            0 <= a < outranking(keys, order, key, m) ==> keys[#[trigger] order[a] as int] >= key,
        forall|a: int|
            outranking(keys, order, key, m) <= a < m ==> keys[#[trigger] order[a] as int] < key,
    decreases m,
{
    if m > 0 {
        lemma_outranking_prefix(keys, order, key, m - 1);
        let c = outranking(keys, order, key, m - 1);
        if keys[order[m - 1] as int] >= key && c < m - 1 {
            assert(outranks(keys, order[c], order[m - 1]));
        }
    }
}

/// Ranking is stable sorting by descending key: every position occurs once, a
/// larger key comes first, and equal keys stay in their order.
pub proof fn law_ranking_is_stable_sort(keys: Seq<u32>, n: int)
    requires
        0 <= n <= keys.len(),
        n <= usize::MAX,
    ensures
        is_ranking(keys, n, ranking(keys, n)),
    decreases n,
{
    if n > 0 {
        law_ranking_is_stable_sort(keys, n - 1);
        let before = ranking(keys, n - 1);
        let key = keys[n - 1];
        let at = outranking(keys, before, key, before.len() as int);
        lemma_outranking_prefix(keys, before, key, before.len() as int);
        let order = ranking(keys, n);
        assert(order == before.insert(at, (n - 1) as usize));
        assert forall|a: int| 0 <= a < n implies #[trigger] order[a] < n by {
            if a < at {
                assert(order[a] == before[a]);
            } else if a > at {
                assert(order[a] == before[a - 1]);
            }
        }
        assert forall|a: int, b: int| 0 <= a < b < n implies outranks(
            keys,
            #[trigger] order[a],
            #[trigger] order[b],
        ) by {
            if b < at {
                assert(outranks(keys, before[a], before[b]));
            } else if b == at {
                assert(order[a] == before[a]);
                assert(before[a] < n - 1);
            } else if a < at {
                assert(outranks(keys, before[a], before[b - 1]));
            } else if a == at {
                assert(order[b] == before[b - 1]);
            } else {
                assert(outranks(keys, before[a - 1], before[b - 1]));
            }
        }
        assert forall|k: int| 0 <= k < n implies #[trigger] order.contains(k as usize) by {
            if k < n - 1 {
                assert(before.contains(k as usize));
                let p = choose|p: int| 0 <= p < before.len() && before[p] == k as usize;
                if p < at {
                    assert(order[p] == k as usize);
                } else {
                    assert(order[p + 1] == k as usize);
                }
            } else {
                assert(order[at] == k as usize);
            }
        }
    }
}

/// There is one ranking only.
pub proof fn law_ranking_is_unique(keys: Seq<u32>, n: int, order: Seq<usize>)
    requires
        0 <= n <= keys.len(),
        n <= usize::MAX,
        is_ranking(keys, n, order),
    ensures
        order == ranking(keys, n),
{
    law_ranking_is_stable_sort(keys, n);
    lemma_same_order(keys, n, order, ranking(keys, n), n);
    assert(order =~= ranking(keys, n));
}

proof fn lemma_same_order(keys: Seq<u32>, n: int, x: Seq<usize>, y: Seq<usize>, m: int)
    requires
        is_ranking(keys, n, x),
        is_ranking(keys, n, y),
        0 <= m <= n,
    ensures
        forall|a: int| 0 <= a < m ==> #[trigger] x[a] == y[a],
    decreases m,
{
    if m > 0 {
        let c = m - 1;
        lemma_same_order(keys, n, x, y, c);
        if x[c] != y[c] {
            assert(y.contains(x[c] as int as usize));
            let p = choose|p: int| 0 <= p < y.len() && y[p] == x[c];
            assert(x.contains(y[c] as int as usize));
            let q = choose|q: int| 0 <= q < x.len() && x[q] == y[c];
            if p < c {
                assert(x[p] == y[p]);
                assert(outranks(keys, x[p], x[c]));
            }
            if q < c {
                assert(x[q] == y[q]);
                assert(outranks(keys, y[q], y[c]));
            }
            assert(outranks(keys, x[c], x[q]));
            assert(outranks(keys, y[c], y[p]));
        }
    }
}

/// The positions of `keys`, the largest key first; equal keys keep their order.
pub fn ranking_of(keys: &Vec<u32>) -> (order: Vec<usize>)
    ensures
        order@ == ranking(keys@, keys@.len() as int),
        is_ranking(keys@, keys@.len() as int, order@),
{
    let mut order: Vec<usize> = Vec::new();
    let mut k: usize = 0;
    while k < keys.len()
        invariant
            k <= keys@.len(),
            order@ == ranking(keys@, k as int),
        decreases keys.len() - k,
    {
        let key: u32 = keys[k];
        assert(k < keys.len());
        proof {
            law_ranking_is_stable_sort(keys@, k as int);
        }
        let mut at: usize = 0;
        while at < order.len() && keys[order[at]] >= key
            invariant
                at <= order@.len(),
                is_ranking(keys@, k as int, order@),
                k <= keys@.len(),
                forall|a: int| 0 <= a < at ==> keys@[#[trigger] order@[a] as int] >= key,
            decreases order.len() - at,
        {
            at += 1;
        }
        proof {
            assert forall|a: int| at <= a < order@.len() implies keys@[#[trigger] order@[a] as int]
                < key by {
                if at < a {
                    assert(outranks(keys@, order@[at as int], order@[a]));
                }
            }
            lemma_outranking(keys@, order@, key, at as int, order@.len() as int);
        }
        order.insert(at, k);
        k += 1;
    }
    proof {
        assert(keys@.len() == keys.len());
        law_ranking_is_stable_sort(keys@, k as int);
    }
    order
}

} // verus!
