//! Branch pruning: trims short spurs off a skeleton by removing its
//! endpoints round by round, within a budget of cells.

use vstd::prelude::*;
use crate::endpoints::{endpoints, find_endpoints, lemma_endpoints_listed};
use crate::raster::{cell_index, count_foreground, foreground_count, lemma_count_cleared};
use crate::thinning::is_interior;

verus! {

/// `mask` with the cells `cells`, given as `(x, y)`, set to background.
pub open spec fn cleared(mask: Seq<bool>, width: int, cells: Seq<(usize, usize)>) -> Seq<bool>
    decreases cells.len(),
{
    if cells.len() == 0 {
        mask
    } else {
        cleared(mask, width, cells.drop_last()).update(
            cells.last().1 * width + cells.last().0,
            false,
        )
    }
}

/// The number of cells that pruning may remove from a skeleton of `initial`
/// foreground cells: `percent` hundredths of them, rounded down. It never
/// exceeds `initial`, since no more than that can be removed.
pub open spec fn removal_budget(initial: nat, percent: nat) -> nat {
    if (initial * percent) / 100 <= initial {
        (initial * percent) / 100
    } else {
        initial
    }
}

/// `mask` after at most `rounds` rounds of pruning with `budget` cells left
/// to remove. A round removes the endpoints of the mask as it stands, in
/// row-major order, but no more of them than the budget allows. Pruning
/// stops when the budget is used up or no endpoint is left.
pub open spec fn pruned(mask: Seq<bool>, width: int, height: int, rounds: nat, budget: nat) -> Seq<
    bool,
>
    decreases rounds,
{
    let ends = endpoints(mask, width, height);
    if rounds == 0 || budget == 0 || ends.len() == 0 {
        mask
    } else {
        let count = if ends.len() <= budget {
            ends.len()
        } else {
            budget
        };
        pruned(
            cleared(mask, width, ends.take(count as int)),
            width,
            height,
            (rounds - 1) as nat,
            (budget - count) as nat,
        )
    }
}

/// Clearing the first `count` endpoints of a mask lowers its number of
/// foreground cells by `count`, and changes no other cell.
pub proof fn lemma_endpoints_cleared(mask: Seq<bool>, width: int, height: int, count: int)
    requires
        0 <= width,
        0 <= height,
        mask.len() == width * height,
        mask.len() <= usize::MAX,
        0 <= count <= endpoints(mask, width, height).len(),
    ensures
        cleared(mask, width, endpoints(mask, width, height).take(count)).len() == mask.len(),
        foreground_count(cleared(mask, width, endpoints(mask, width, height).take(count))) + count
            == foreground_count(mask),
        forall|i: int|
            0 <= i < mask.len() && cleared(mask, width, endpoints(mask, width, height).take(count))[i]
                ==> mask[i],
        forall|j: int|
            count <= j < endpoints(mask, width, height).len() ==> {
                let e = #[trigger] endpoints(mask, width, height)[j];
                cleared(mask, width, endpoints(mask, width, height).take(count))[e.1 * width + e.0]
            },
    decreases count,
{
    let ends = endpoints(mask, width, height);
    lemma_endpoints_listed(mask, width, height, mask.len() as int);
    if count > 0 {
        lemma_endpoints_cleared(mask, width, height, count - 1);
        let before = cleared(mask, width, ends.take(count - 1));
        let e = ends[count - 1];
        let idx = e.1 * width + e.0;
        assert(ends.take(count).drop_last() =~= ends.take(count - 1));
        assert(ends.take(count).last() == e);
        assert(before[idx]);
        lemma_count_cleared(before, idx);
        assert forall|j: int| count <= j < ends.len() implies {
            let f = #[trigger] ends[j];
            before.update(idx, false)[f.1 * width + f.0]
        } by {
            let f = ends[j];
            assert(e.1 * width + e.0 < f.1 * width + f.0);
        }
    }
}

/// Pruning only removes foreground, and no more cells than the budget.
pub proof fn lemma_pruned_within_budget(
    mask: Seq<bool>,
    width: int,
    height: int,
    rounds: nat,
    budget: nat,
)
    requires
        0 <= width,
        0 <= height,
        mask.len() == width * height,
        mask.len() <= usize::MAX,
    ensures
        pruned(mask, width, height, rounds, budget).len() == mask.len(),
        forall|i: int|
            0 <= i < mask.len() && pruned(mask, width, height, rounds, budget)[i] ==> mask[i],
        foreground_count(pruned(mask, width, height, rounds, budget)) <= foreground_count(mask),
        foreground_count(mask) - foreground_count(pruned(mask, width, height, rounds, budget))
            <= budget,
    decreases rounds,
{
    let ends = endpoints(mask, width, height);
    if rounds == 0 || budget == 0 || ends.len() == 0 {
    } else {
        let count = if ends.len() <= budget {
            ends.len()
        } else {
            budget
        };
        lemma_endpoints_cleared(mask, width, height, count as int);
        lemma_pruned_within_budget(
            cleared(mask, width, ends.take(count as int)),
            width,
            height,
            (rounds - 1) as nat,
            (budget - count) as nat,
        );
    }
}

/// Prunes `skeleton` in at most `rounds` rounds, removing at most `budget`
/// cells in all. Each round removes the endpoints that the skeleton has at
/// that moment; the round that would go over the budget removes only as
/// many endpoints, in row-major order, as the budget still allows.
pub fn prune_to_budget(
    skeleton: &mut Vec<bool>,
    width: usize,
    height: usize,
    rounds: u32,
    budget: usize,
)
    requires
        old(skeleton)@.len() == width * height,
    ensures
        final(skeleton)@ == pruned(
            old(skeleton)@,
            width as int,
            height as int,
            rounds as nat,
            budget as nat,
        ),
        final(skeleton)@.len() == old(skeleton)@.len(),
        forall|i: int| 0 <= i < old(skeleton)@.len() && final(skeleton)@[i] ==> old(skeleton)@[i],
        foreground_count(final(skeleton)@) <= foreground_count(old(skeleton)@),
        foreground_count(old(skeleton)@) - foreground_count(final(skeleton)@) <= budget,
{
    let ghost w = width as int;
    let ghost h = height as int;
    let ghost start = skeleton@;
    let n: usize = skeleton.len();
    let mut left: usize = budget;
    let mut round: u32 = 0;
    let mut active: bool = true;
    while active && round < rounds && left > 0
        invariant
            w == width,
            h == height,
            n == width * height,
            skeleton@.len() == n,
            round <= rounds,
            pruned(skeleton@, w, h, (rounds - round) as nat, left as nat) == pruned(
                start,
                w,
                h,
                rounds as nat,
                budget as nat,
            ),
            !active ==> endpoints(skeleton@, w, h).len() == 0,
        decreases rounds - round + (if active { 1int } else { 0int }),
    {
        let ghost before = skeleton@;
        let ends: Vec<(usize, usize)> = find_endpoints(skeleton.as_slice(), width, height);
        if ends.len() == 0 {
            active = false;
        } else {
            let count: usize = if ends.len() <= left {
                ends.len()
            } else {
                left
            };
            proof {
                lemma_endpoints_listed(before, w, h, n as int);
            }
            let mut j: usize = 0;
            while j < count
                invariant
                    j <= count <= ends.len(),
                    w == width,
                    h == height,
                    n == width * height,
                    before.len() == n,
                    skeleton@.len() == n,
                    ends@ == endpoints(before, w, h),
                    forall|m: int|
                        0 <= m < ends@.len() ==> is_interior(
                            w,
                            h,
                            (#[trigger] ends@[m]).0 as int,
                            ends@[m].1 as int,
                        ),
                    skeleton@ == cleared(before, w, ends@.take(j as int)),
                decreases count - j,
            {
                let (x, y) = ends[j];
                proof {
                    assert(is_interior(w, h, ends@[j as int].0 as int, ends@[j as int].1 as int));
                    assert(ends@.take(j + 1).drop_last() =~= ends@.take(j as int));
                    assert(ends@.take(j + 1).last() == ends@[j as int]);
                }
                let idx: usize = cell_index(width, height, x, y);
                skeleton.set(idx, false);
                j = j + 1;
            }
            left = left - count;
            round = round + 1;
        }
    }
    proof {
        lemma_pruned_within_budget(start, w, h, rounds as nat, budget as nat);
    }
}

/// Prunes short branches from `skeleton`: for at most `prune_length` rounds
/// it removes the endpoints that the skeleton has at that moment. In all it
/// removes at most `max_removal_percent` hundredths of the foreground cells
/// that the skeleton had at the start, rounded down; the round that would
/// go over this removes only as many endpoints as still fit.
pub fn prune_branches(
    skeleton: &mut Vec<bool>,
    width: usize,
    height: usize,
    prune_length: u32,
    max_removal_percent: u32,
)
    requires
        old(skeleton)@.len() == width * height,
    ensures
        final(skeleton)@ == pruned(
            old(skeleton)@,
            width as int,
            height as int,
            prune_length as nat,
            removal_budget(foreground_count(old(skeleton)@), max_removal_percent as nat),
        ),
        final(skeleton)@.len() == old(skeleton)@.len(),
        forall|i: int| 0 <= i < old(skeleton)@.len() && final(skeleton)@[i] ==> old(skeleton)@[i],
        foreground_count(final(skeleton)@) <= foreground_count(old(skeleton)@),
        (foreground_count(old(skeleton)@) - foreground_count(final(skeleton)@)) * 100
            <= foreground_count(old(skeleton)@) * max_removal_percent,
{
    let initial: usize = count_foreground(skeleton.as_slice());
    assert(initial * max_removal_percent <= 0xffff_ffff_ffff_ffff * 0xffff_ffff) by (nonlinear_arith)
        requires
            0 <= initial <= 0xffff_ffff_ffff_ffff,
            0 <= max_removal_percent <= 0xffff_ffff,
    ;
    let share: u128 = (initial as u128) * (max_removal_percent as u128) / 100;
    let budget: usize = if share <= initial as u128 {
        share as usize
    } else {
        initial
    };
    prune_to_budget(skeleton, width, height, prune_length, budget);
}

} // verus!
