//! Ranking by weight: the order of a stable sort, and the heaviest few.

use vstd::prelude::*;

verus! {

/// `order` lists the positions of `keys` as a stable ascending sort leaves them: by key, and
/// by position where keys are equal. There is exactly one such order.
pub open spec fn is_ascending(order: Seq<usize>, keys: Seq<u64>) -> bool {
    &&& order.len() == keys.len()
    &&& is_ascending_part(order, keys)
}

/// `order` names positions of `keys`, each at most once, in ascending order of key and position.
pub open spec fn is_ascending_part(order: Seq<usize>, keys: Seq<u64>) -> bool {
    &&& forall|i: int| 0 <= i < order.len() ==> #[trigger] order[i] < keys.len()
    &&& forall|i: int, j: int|
        0 <= i < j < order.len() ==> precedes(keys, #[trigger] order[i], #[trigger] order[j])
}

/// Position `a` comes before position `b` in a stable ascending sort of `keys`.
pub open spec fn precedes(keys: Seq<u64>, a: usize, b: usize) -> bool {
    keys[a as int] < keys[b as int] || (keys[a as int] == keys[b as int] && a < b)
}

/// `order` picks, of the positions that weigh at least `least`, the `n` heaviest (all of them if
/// there are fewer), the heaviest first. Which of two equally heavy positions comes first, or is
/// left out, is open.
pub open spec fn is_heaviest(order: Seq<usize>, weights: Seq<u64>, least: u64, n: nat) -> bool {
    &&& order.no_duplicates()
    &&& order.len() <= n
    &&& forall|i: int|
        0 <= i < order.len() ==> (#[trigger] order[i]) < weights.len() && weights[order[i] as int]
            >= least
    &&& forall|i: int, j: int|
        0 <= i < j < order.len() ==> weights[#[trigger] order[i] as int] >= weights[#[trigger] order[j] as int]
    &&& forall|p: int|
        0 <= p < weights.len() && #[trigger] weights[p] >= least && !order.contains(p as usize)
            ==> order.len() == n && no_lighter(order, weights, weights[p])
}

/// No position in `order` weighs less than `weight`.
pub open spec fn no_lighter(order: Seq<usize>, weights: Seq<u64>, weight: u64) -> bool {
    forall|i: int| 0 <= i < order.len() ==> weight <= weights[#[trigger] order[i] as int]
}

/// The positions of `keys` in the order of a stable ascending sort.
pub fn ascending(keys: &Vec<u64>) -> (order: Vec<usize>)
    ensures
        is_ascending(order@, keys@),
{
    let mut order: Vec<usize> = Vec::new();
    let mut next: usize = 0;
    while next < keys.len()
        invariant
            next <= keys.len(),
            order.len() == next,
            forall|i: int| 0 <= i < order.len() ==> #[trigger] order[i] < next,
            is_ascending_part(order@, keys@),
        decreases keys.len() - next,
    {
        let key = keys[next];
        let mut low: usize = 0;
        let mut high: usize = order.len();
        while low < high
            invariant
                low <= high <= order.len(),
                next < keys.len(),
                order.len() == next,
                key == keys[next as int],
                forall|i: int| 0 <= i < order.len() ==> #[trigger] order[i] < next,
                is_ascending_part(order@, keys@),
                forall|i: int| 0 <= i < low ==> keys@[#[trigger] order@[i] as int] <= key,
                forall|i: int| high <= i < order.len() ==> keys@[#[trigger] order@[i] as int] > key,
            decreases high - low,
        {
            let mid: usize = low + (high - low) / 2;
            if keys[order[mid]] <= key {
                low = mid + 1;
            } else {
                high = mid;
            }
        }
        let ghost before = order@;
        order.insert(low, next);
        assert forall|i: int, j: int| 0 <= i < j < order.len() implies precedes(
            keys@,
            #[trigger] order@[i],
            #[trigger] order@[j],
        ) by {
            if i < low {
                assert(order@[i] == before[i]);
            } else if i > low {
                assert(order@[i] == before[i - 1]);
            }
            if j < low {
                assert(order@[j] == before[j]);
            } else if j > low {
                assert(order@[j] == before[j - 1]);
            }
        }
        assert forall|i: int| 0 <= i < order.len() implies #[trigger] order@[i] < next + 1 by {
            if i < low {
                assert(order@[i] == before[i]);
            } else if i > low {
                assert(order@[i] == before[i - 1]);
            }
        }
        next += 1;
    }
    order
}

/// A sequence of `len` different numbers below `len` holds every one of them.
pub proof fn lemma_covers(order: Seq<usize>, len: nat)
    requires
        order.len() == len,
        order.no_duplicates(),
        forall|i: int| 0 <= i < order.len() ==> #[trigger] order[i] < len,
        len <= usize::MAX,
    ensures
        forall|p: usize| p < len ==> #[trigger] order.contains(p),
{
    let all = Set::<usize>::range(0, len as usize);
    let named = order.to_set();
    vstd::set_lib::range_set_properties::<usize>(0, len as usize);
    order.unique_seq_to_set();
    vstd::seq_lib::seq_to_set_is_finite(order);
    assert(named.subset_of(all));
    vstd::set_lib::lemma_subset_equality(named, all);
    assert forall|p: usize| p < len implies #[trigger] order.contains(p) by {
        assert(all.contains(p));
        assert(named.contains(p));
    }
}

/// The `n` heaviest positions of `weights` among those that weigh at least `least`, the heaviest
/// first; equals keep their order.
pub fn heaviest(weights: &Vec<u64>, least: u64, n: usize) -> (order: Vec<usize>)
    ensures
        is_heaviest(order@, weights@, least, n as nat),
{
    let mut places: Vec<usize> = Vec::new();
    let mut keys: Vec<u64> = Vec::new();
    let mut i: usize = 0;
    while i < weights.len()
        invariant
            i <= weights.len(),
            places.len() == keys.len(),
            forall|k: int|
                0 <= k < places.len() ==> (#[trigger] places@[k]) < i && weights@[places@[k] as int]
                    >= least && keys@[k] == u64::MAX - weights@[places@[k] as int],
            forall|k: int, m: int|
                0 <= k < m < places.len() ==> #[trigger] places@[k] < #[trigger] places@[m],
            forall|p: int|
                0 <= p < i && weights@[p] >= least ==> #[trigger] places@.contains(p as usize),
        decreases weights.len() - i,
    {
        let ghost before = places@;
        if weights[i] >= least {
            places.push(i);
            keys.push(u64::MAX - weights[i]);
        }
        assert forall|p: int| 0 <= p < i + 1 && weights@[p] >= least implies #[trigger] places@.contains(
            p as usize,
        ) by {
            if p < i {
                assert(before.contains(p as usize));
                let k = choose|k: int| 0 <= k < before.len() && before[k] == p as usize;
                assert(places@[k] == p as usize);
            } else {
                assert(places@[before.len() as int] == p as usize);
            }
        }
        i += 1;
    }
    let ranks = ascending(&keys);
    assert(ranks@.no_duplicates());
    proof {
        lemma_covers(ranks@, keys@.len());
    }
    let count: usize = if n < ranks.len() {
        n
    } else {
        ranks.len()
    };
    let mut order: Vec<usize> = Vec::new();
    let mut k: usize = 0;
    while k < count
        invariant
            k <= count <= ranks.len(),
            places.len() == keys.len(),
            forall|m: int| 0 <= m < ranks.len() ==> (#[trigger] ranks@[m]) < places.len(),
            order.len() == k,
            forall|m: int| 0 <= m < k ==> #[trigger] order@[m] == places@[ranks@[m] as int],
        decreases count - k,
    {
        order.push(places[ranks[k]]);
        k += 1;
    }
    proof {
        assert forall|a: int, b: int| 0 <= a < b < order.len() implies weights@[#[trigger] order@[a] as int]
            >= weights@[#[trigger] order@[b] as int] && order@[a] != order@[b] by {
            assert(precedes(keys@, ranks@[a], ranks@[b]));
            assert(places@[ranks@[a] as int] != places@[ranks@[b] as int]);
        }
        assert forall|p: int|
            0 <= p < weights.len() && #[trigger] weights@[p] >= least && !order@.contains(
                p as usize,
            ) implies order.len() == n && no_lighter(order@, weights@, weights@[p]) by {
            assert(places@.contains(p as usize));
            let c = choose|c: int| 0 <= c < places@.len() && places@[c] == p as usize;
            assert(ranks@.contains(c as usize));
            let r = choose|r: int| 0 <= r < ranks@.len() && ranks@[r] == c as usize;
            if r < order.len() {
                assert(order@[r] == p as usize);
            }
            assert forall|m: int| 0 <= m < order.len() implies weights@[p] <= weights@[#[trigger] order@[m] as int] by {
                assert(precedes(keys@, ranks@[m], ranks@[r]));
            }
        }
    }
    order
}

} // verus!
