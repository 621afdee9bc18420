//! Rewriting the block layout of a function to follow a block order.
//!
//! A layout is the list of a function's block handles in the order in which
//! the blocks appear; the first handle is the entry block's. The only
//! operation on a layout is to move one block to the place right after
//! another, which is what a provider of modules offers.

use vstd::prelude::*;
use crate::permutation::is_permutation;

verus! {

/// The first position of `block` in `layout`; zero if there is none.
pub open spec fn position_of(layout: Seq<usize>, block: usize) -> int {
    match layout.index_of_first(block) {
        Some(i) => i,
        None => 0,
    }
}

/// The layout after `block` has been taken out and put back right after
/// `anchor`.
pub open spec fn moved_after(layout: Seq<usize>, block: usize, anchor: usize) -> Seq<usize> {
    let without = layout.remove(position_of(layout, block));
    without.insert(position_of(without, anchor) + 1, block)
}

/// The layout that keeps the entry block of `layout` first and lets the
/// other blocks follow in the order `order`: the `k`-th of them is the one
/// that was at place `order[k]` among the non-entry blocks.
pub open spec fn reordered(layout: Seq<usize>, order: Seq<usize>) -> Seq<usize> {
    seq![layout[0]] + Seq::new(order.len(), |k: int| layout[1 + order[k]])
}

/// The blocks to move right after the entry block, one after the other, so
/// that the non-entry blocks end up in the order `order`: the places named by
/// `order`, last first.
pub open spec fn plan_of(order: Seq<usize>) -> Seq<usize> {
    order.reverse()
}

/// Finds the first position of `block` in `layout`.
pub fn find_block(layout: &Vec<usize>, block: usize) -> (at: Option<usize>)
    ensures
        match at {
            Some(i) => i < layout@.len() && layout@[i as int] == block && position_of(
                layout@,
                block,
            ) == i && forall|k: int| 0 <= k < i ==> layout@[k] != block,
            None => !layout@.contains(block),
        },
{
    let mut i: usize = 0;
    while i < layout.len()
        invariant
            i <= layout@.len(),
            forall|k: int| 0 <= k < i ==> layout@[k] != block,
        decreases layout@.len() - i,
    {
        if layout[i] == block {
            proof {
                layout@.index_of_first_ensures(block);
            }
            return Some(i);
        }
        i += 1;
    }
    None
}

/// Moves `block` to the place right after `anchor`.
pub fn move_block_after(layout: &mut Vec<usize>, block: usize, anchor: usize)
    requires
        old(layout)@.contains(block),
        old(layout)@.contains(anchor),
        block != anchor,
    ensures
        final(layout)@ == moved_after(old(layout)@, block, anchor),
        final(layout)@.len() == old(layout)@.len(),
{
    let ghost before = layout@;
    match find_block(layout, block) {
        Some(from) => {
            layout.remove(from);
            let ghost without = layout@;
            proof {
                let a = choose|a: int| 0 <= a < before.len() && before[a] == anchor;
                assert(without[if a < from { a } else { a - 1 }] == anchor);
            }
            match find_block(layout, anchor) {
                Some(to) => {
                    assert(to < layout.len());
                    layout.insert(to + 1, block);
                },
                None => {},
            }
        },
        None => {},
    }
}

/// Lists the places to move right after the entry block, in the order of
/// the moves, so that the layout follows `order`.
pub fn reorder_plan(order: &[usize]) -> (plan: Vec<usize>)
    ensures
        plan@ == plan_of(order@),
{
    let mut plan: Vec<usize> = Vec::new();
    let mut k: usize = order.len();
    while k > 0
        invariant
            k <= order@.len(),
            plan@.len() == order@.len() - k,
            forall|i: int| 0 <= i < plan@.len() ==> plan@[i] == order@[order@.len() - 1 - i],
        decreases k,
    {
        k -= 1;
        plan.push(order[k]);
    }
    plan
}

/// Reorders the blocks of `layout` by `order`, a permutation of the places
/// of the non-entry blocks.
///
/// The non-entry blocks are moved right after the entry block one by one,
/// the last of `order` first. Afterwards the entry block is still first, and
/// the block that was at place `order[k]` among the others is at place `k`.
pub fn reorder_blocks(layout: &mut Vec<usize>, order: &[usize])
    requires
        old(layout)@.len() >= 1,
        old(layout)@.no_duplicates(),
        is_permutation(order@, (old(layout)@.len() - 1) as nat),
    ensures
        final(layout)@ == reordered(old(layout)@, order@),
{
    let ghost start = layout@;
    let n = order.len();
    let entry = layout[0];
    let mut bbs: Vec<usize> = Vec::new();
    let mut i: usize = 1;
    while i < layout.len()
        invariant
            1 <= i <= layout@.len(),
            bbs@.len() == i - 1,
            forall|k: int| 0 <= k < i - 1 ==> bbs@[k] == layout@[k + 1],
        decreases layout@.len() - i,
    {
        bbs.push(layout[i]);
        i += 1;
    }
    let plan = reorder_plan(order);
    let mut done: usize = 0;
    while done < n
        invariant
            done <= n,
            n == order@.len(),
            n + 1 == start.len(),
            start.no_duplicates(),
            is_permutation(order@, n as nat),
            plan@ == plan_of(order@),
            entry == start[0],
            bbs@.len() == n,
            forall|k: int| 0 <= k < n ==> bbs@[k] == start[k + 1],
            layout@.len() == start.len(),
            layout@[0] == entry,
            forall|x: usize| start.contains(x) ==> layout@.contains(x),
            forall|j: int|
                1 <= j <= done ==> #[trigger] layout@[j] == bbs@[order@[n - done + j - 1] as int],
        decreases n - done,
    {
        let place = plan[done];
        let block = bbs[place];
        let ghost before = layout@;
        proof {
            assert(start.contains(block));
            assert forall|j: int| 1 <= j <= done implies #[trigger] before[j] != block by {}
        }
        move_block_after(layout, block, entry);
        proof {
            before.index_of_first_ensures(block);
            let from = position_of(before, block);
            let without = before.remove(from);
            assert(without[0] == entry);
            without.index_of_first_ensures(entry);
            let after = without.insert(1, block);
            assert forall|j: int| 1 <= j <= done + 1 implies #[trigger] layout@[j] == bbs@[order@[n
                - (done + 1) + j - 1] as int] by {}
            assert forall|x: usize| start.contains(x) implies layout@.contains(x) by {
                if x == block {
                    assert(after[1] == x);
                } else {
                    let a = choose|a: int| 0 <= a < before.len() && before[a] == x;
                    let b = if a < from { a } else { a - 1 };
                    assert(after[if b < 1 { b } else { b + 1 }] == x);
                }
            }
        }
        done += 1;
    }
}

} // verus!
