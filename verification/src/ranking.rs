//! Ranking the positions of a list of keys from the highest key down.

use vstd::prelude::*;
use crate::permutation::is_permutation;

verus! {

/// Position `a` comes before position `b`: it has the higher key, or the
/// same key and, of the two positions, the earlier one (the later one if
/// `latest_first`).
pub open spec fn ranks_before(keys: Seq<u128>, latest_first: bool, a: int, b: int) -> bool {
    keys[a] > keys[b] || (keys[a] == keys[b] && if latest_first {
        a > b
    } else {
        a < b
    })
}

/// `order` lists the positions of `keys` from the highest key down, equal
/// keys in the order that `latest_first` asks for.
pub open spec fn is_ranking(keys: Seq<u128>, latest_first: bool, order: Seq<usize>) -> bool {
    &&& is_permutation(order, keys.len())
    &&& forall|i: int, j: int|
        0 <= i < j < order.len() ==> ranks_before(
            keys,
            latest_first,
            order[i] as int,
            order[j] as int,
        )
}

/// Lists the positions of `keys` from the highest key down. Positions with
/// equal keys keep their order, or come latest first if `latest_first`.
pub fn rank_descending(keys: &Vec<u128>, latest_first: bool) -> (order: Vec<usize>)
    ensures
        is_ranking(keys@, latest_first, order@),
{
    let mut order: Vec<usize> = Vec::new();
    let mut x: usize = 0;
    while x < keys.len()
        invariant
            x <= keys.len(),
            is_ranking(keys@.take(x as int), latest_first, order@),
        decreases keys.len() - x,
    {
        let key = keys[x];
        let mut at: usize = 0;
        while at < order.len() && (keys[order[at]] > key || (!latest_first && keys[order[at]]
            == key))
            invariant
                at <= order.len(),
                x < keys.len(),
                key == keys@[x as int],
                is_ranking(keys@.take(x as int), latest_first, order@),
                forall|i: int|
                    0 <= i < at ==> ranks_before(keys@, latest_first, order@[i] as int, x as int),
            decreases order.len() - at,
        {
            at += 1;
        }
        let ghost before = order@;
        order.insert(at, x);
        proof {
            let list = keys@.take(x + 1);
            let after = order@;
            assert forall|i: int| 0 <= i < after.len() implies (#[trigger] after[i])
                < list.len() by {
                if i < at {
                    assert(after[i] == before[i]);
                } else if i > at {
                    assert(after[i] == before[i - 1]);
                }
            }
            assert forall|i: int, j: int| 0 <= i < j < after.len() implies after[i] != after[j]
                && ranks_before(list, latest_first, after[i] as int, after[j] as int) by {
                let a = if i < at { i } else { i - 1 };
                let b = if j < at { j } else { j - 1 };
                if i == at {
                    if at < before.len() {
                        assert(b == at || ranks_before(
                            keys@.take(x as int),
                            latest_first,
                            before[at as int] as int,
                            before[b] as int,
                        ));
                    }
                } else if j == at {
                    assert(after[i] == before[a]);
                } else {
                    assert(ranks_before(
                        keys@.take(x as int),
                        latest_first,
                        before[a] as int,
                        before[b] as int,
                    ));
                }
            }
        }
        x += 1;
    }
    assert(keys@.take(x as int) =~= keys@);
    order
}

} // verus!
