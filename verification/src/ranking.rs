//! Ranking players by a score: a stable sort of player indices by key.
//!
//! The scores themselves (rating, rating minus or plus deviation, deviation)
//! are floating point and are turned into order-preserving integer keys by
//! the caller; here only their order matters.

use vstd::prelude::*;

verus! {

/// Player `a` is listed before player `b`: its key is better (higher when
/// `descending`, lower otherwise), or the keys tie and `a` came first.
pub open spec fn ranks_before(keys: Seq<u64>, a: int, b: int, descending: bool) -> bool {
    if descending {
        keys[a] > keys[b] || (keys[a] == keys[b] && a < b)
    } else {
        keys[a] < keys[b] || (keys[a] == keys[b] && a < b)
    }
}

/// `order` lists every index of `keys` exactly once, best first, ties in
/// their original order: what a stable sort of the players by key gives.
pub open spec fn is_ranking(keys: Seq<u64>, order: Seq<usize>, descending: bool) -> bool {
    &&& order.len() == keys.len()
    &&& forall|i: int| 0 <= i < order.len() ==> #[trigger] order[i] < keys.len()
    &&& forall|i: int, j: int|
        0 <= i < j < order.len() ==> ranks_before(keys, #[trigger] order[i] as int, #[trigger] order[j] as int, descending)
}

fn ranks_before_exec(keys: &Vec<u64>, a: usize, b: usize, descending: bool) -> (r: bool)
    requires
        a < keys.len(),
        b < keys.len(),
    ensures
        r == ranks_before(keys@, a as int, b as int, descending),
{
    if descending {
        keys[a] > keys[b] || (keys[a] == keys[b] && a < b)
    } else {
        keys[a] < keys[b] || (keys[a] == keys[b] && a < b)
    }
}

/// Orders the players by their keys, best first (highest first when
/// `descending`), keeping players with equal keys in their original order.
/// Returns the player indices in ranking order.
pub fn rank_order(keys: &Vec<u64>, descending: bool) -> (order: Vec<usize>)
    ensures
        is_ranking(keys@, order@, descending),
        follows_keys(keys@, order@, descending),
{
    let n = keys.len();
    let mut order: Vec<usize> = Vec::new();
    let mut k: usize = 0;
    while k < n
        invariant
            n == keys.len(),
            k <= n,
            order@.len() == k,
            forall|i: int| 0 <= i < order@.len() ==> #[trigger] order@[i] < k,
            forall|i: int, j: int|
                0 <= i < j < order@.len() ==> ranks_before(keys@, #[trigger] order@[i] as int, #[trigger] order@[j] as int, descending),
        decreases n - k,
    {
        let mut p: usize = 0;
        while p < order.len() && ranks_before_exec(keys, order[p], k, descending)
            invariant
                n == keys.len(),
                k < n,
                p <= order@.len(),
                forall|i: int| 0 <= i < order@.len() ==> #[trigger] order@[i] < k,
                forall|i: int| 0 <= i < p ==> ranks_before(keys@, #[trigger] order@[i] as int, k as int, descending),
            decreases order@.len() - p,
        {
            p = p + 1;
        }
        let ghost old_order = order@;
        proof {
            assert forall|q: int| p <= q < old_order.len() implies
                ranks_before(keys@, k as int, #[trigger] old_order[q] as int, descending) by {
                assert(!ranks_before(keys@, old_order[p as int] as int, k as int, descending));
                if q > p {
                    assert(ranks_before(keys@, old_order[p as int] as int, old_order[q] as int, descending));
                }
            }
        }
        order.insert(p, k);
        assert forall|i: int, j: int|
            0 <= i < j < order@.len() implies ranks_before(keys@, #[trigger] order@[i] as int, #[trigger] order@[j] as int, descending) by {
            if j < p {
                assert(order@[i] == old_order[i] && order@[j] == old_order[j]);
            } else if j == p {
                assert(order@[i] == old_order[i]);
            } else if i == p {
                assert(order@[j] == old_order[j - 1]);
            } else if i < p {
                assert(order@[i] == old_order[i] && order@[j] == old_order[j - 1]);
            } else {
                assert(order@[i] == old_order[i - 1] && order@[j] == old_order[j - 1]);
            }
        }
        assert forall|i: int| 0 <= i < order@.len() implies #[trigger] order@[i] < k + 1 by {
            if i < p {
                assert(order@[i] == old_order[i]);
            } else if i > p {
                assert(order@[i] == old_order[i - 1]);
            }
        }
        k = k + 1;
    }
    proof {
        lemma_ranking_follows_keys(keys@, order@, descending);
    }
    order
}

/// A ranking lists every player exactly once.
pub proof fn lemma_ranking_lists_everyone(keys: Seq<u64>, order: Seq<usize>, descending: bool)
    requires
        is_ranking(keys, order, descending),
    ensures
        forall|a: int, b: int| 0 <= a < b < order.len() ==> order[a] != order[b],
        forall|p: usize| p < keys.len() ==> #[trigger] order.contains(p),
{
    let ints = order.map_values(|x: usize| x as int);
    assert forall|a: int, b: int| 0 <= a < b < order.len() implies order[a] != order[b] by {
        assert(ranks_before(keys, order[a] as int, order[b] as int, descending));
    }
    assert(ints.no_duplicates()) by {
        assert forall|a: int, b: int| 0 <= a < ints.len() && 0 <= b < ints.len() && a != b
            implies ints[a] != ints[b] by {
            if a < b {
                assert(ranks_before(keys, order[a] as int, order[b] as int, descending));
            } else {
                assert(ranks_before(keys, order[b] as int, order[a] as int, descending));
            }
        }
    }
    ints.unique_seq_to_set();
    let range = vstd::set_lib::set_int_range(0, keys.len() as int);
    vstd::set_lib::lemma_int_range(0, keys.len() as int);
    assert(ints.to_set().subset_of(range)) by {
        assert forall|x: int| ints.to_set().contains(x) implies range.contains(x) by {
            assert(ints.contains(x));
            let j = choose|j: int| 0 <= j < ints.len() && ints[j] == x;
            assert(order[j] < keys.len());
        }
    }
    vstd::seq_lib::seq_to_set_is_finite(ints);
    vstd::set_lib::lemma_subset_equality(ints.to_set(), range);
    assert forall|p: usize| p < keys.len() implies #[trigger] order.contains(p) by {
        assert(range.contains(p as int));
        assert(ints.to_set().contains(p as int));
        assert(ints.contains(p as int));
        let j = choose|j: int| 0 <= j < ints.len() && ints[j] == p as int;
        assert(order[j] == p);
    }
}

proof fn lemma_rankings_agree_before(keys: Seq<u64>, o1: Seq<usize>, o2: Seq<usize>, descending: bool, i: int)
    requires
        is_ranking(keys, o1, descending),
        is_ranking(keys, o2, descending),
        0 <= i <= o1.len(),
    ensures
        forall|k: int| 0 <= k < i ==> o1[k] == o2[k],
    decreases i,
{
    if i > 0 {
        lemma_rankings_agree_before(keys, o1, o2, descending, i - 1);
        let k = i - 1;
        let (a, b) = (o1[k], o2[k]);
        if a != b {
            lemma_ranking_lists_everyone(keys, o1, descending);
            lemma_ranking_lists_everyone(keys, o2, descending);
            assert(o2.contains(a));
            let j = choose|j: int| 0 <= j < o2.len() && o2[j] == a;
            if j < k {
                assert(o1[j] == a);
            }
            assert(ranks_before(keys, b as int, a as int, descending));
            assert(o1.contains(b));
            let j2 = choose|j: int| 0 <= j < o1.len() && o1[j] == b;
            if j2 < k {
                assert(o2[j2] == b);
            }
            assert(ranks_before(keys, a as int, b as int, descending));
        }
    }
}

/// Ranking is deterministic: the same keys always give the same order.
pub proof fn lemma_ranking_unique(keys: Seq<u64>, o1: Seq<usize>, o2: Seq<usize>, descending: bool)
    requires
        is_ranking(keys, o1, descending),
        is_ranking(keys, o2, descending),
    ensures
        o1 == o2,
{
    lemma_rankings_agree_before(keys, o1, o2, descending, o1.len() as int);
    assert(o1 =~= o2);
}

/// Along `order`, the keys (compared as whole `u64` values) never get
/// better: they fall when `descending`, rise otherwise; equal keys keep the
/// players' list order.
pub open spec fn follows_keys(keys: Seq<u64>, order: Seq<usize>, descending: bool) -> bool {
    forall|i: int, j: int|
        0 <= i < j < order.len() ==> {
            &&& descending ==> keys[#[trigger] order[i] as int] >= keys[#[trigger] order[j] as int]
            &&& !descending ==> keys[order[i] as int] <= keys[order[j] as int]
            &&& keys[order[i] as int] == keys[order[j] as int] ==> order[i] < order[j]
        }
}

/// A ranking follows the keys: a player with a strictly better key is
/// listed before one with a worse key, and players with equal keys keep
/// their list order.
pub proof fn lemma_ranking_follows_keys(keys: Seq<u64>, order: Seq<usize>, descending: bool)
    requires
        is_ranking(keys, order, descending),
    ensures
        follows_keys(keys, order, descending),
        forall|a: int, b: int|
            0 <= a < order.len() && 0 <= b < order.len() && (if descending {
                keys[order[a] as int] > keys[order[b] as int]
            } else {
                keys[order[a] as int] < keys[order[b] as int]
            }) ==> a < b,
        forall|a: int, b: int|
            0 <= a < order.len() && 0 <= b < order.len() && keys[order[a] as int] == keys[order[b] as int]
                && order[a] < order[b] ==> a < b,
{
    assert forall|i: int, j: int| 0 <= i < j < order.len() implies {
        &&& descending ==> keys[#[trigger] order[i] as int] >= keys[#[trigger] order[j] as int]
        &&& !descending ==> keys[order[i] as int] <= keys[order[j] as int]
        &&& keys[order[i] as int] == keys[order[j] as int] ==> order[i] < order[j]
    } by {
        assert(ranks_before(keys, order[i] as int, order[j] as int, descending));
    }
    assert forall|a: int, b: int|
        0 <= a < order.len() && 0 <= b < order.len() && (if descending {
            keys[order[a] as int] > keys[order[b] as int]
        } else {
            keys[order[a] as int] < keys[order[b] as int]
        }) implies a < b by {
        if b < a {
            assert(ranks_before(keys, order[b] as int, order[a] as int, descending));
        } else if a == b {
        }
    }
    assert forall|a: int, b: int|
        0 <= a < order.len() && 0 <= b < order.len() && keys[order[a] as int] == keys[order[b] as int]
            && order[a] < order[b] implies a < b by {
        if b < a {
            assert(ranks_before(keys, order[b] as int, order[a] as int, descending));
        }
    }
}

} // verus!
