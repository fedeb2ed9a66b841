//! Pruning: the bounds that tell, before a branch is walked, that no path
//! under it can be accepted.
//!
//! The numbers are in ascending order. A branch has taken some numbers and may
//! take up to `slots_left` more, all from position `start` on. The smallest of
//! those is the one at `start` and the largest is the last one, so each number
//! still to come adds at least the former, where that is negative, and at most
//! the latter, where that is positive. A branch is out of reach when even the
//! least sum it can come to lies above the tolerance window, or even the
//! greatest lies below it.
use vstd::prelude::*;
use crate::paths::SearchBounds;
use crate::paths::is_ascending;
use crate::paths::path_sum;
use crate::paths::solutions_at;
use crate::paths::solutions_after;
use crate::paths::lemma_path_sum_push;

verus! {

/// How many more numbers a path of `length` numbers can take from position
/// `start` on: as many as the length bound leaves, and no more than there are.
pub open spec fn slots_left(count: int, bounds: SearchBounds, start: int, length: int) -> int {
    let by_length = bounds.max_length - length;
    let by_numbers = count - start;
    let fewer = if by_length <= by_numbers {
        by_length
    } else {
        by_numbers
    };
    if fewer < 0 {
        0
    } else {
        fewer
    }
}

/// The least sum that a path with sum `sum` can come to by taking numbers from
/// position `start` on.
pub open spec fn least_reach(
    nums: Seq<i64>,
    bounds: SearchBounds,
    start: int,
    length: int,
    sum: int,
) -> int {
    if 0 <= start < nums.len() && nums[start] < 0 {
        sum + slots_left(nums.len() as int, bounds, start, length) * nums[start]
    } else {
        sum
    }
}

/// The greatest sum that a path with sum `sum` can come to by taking numbers
/// from position `start` on.
pub open spec fn most_reach(
    nums: Seq<i64>,
    bounds: SearchBounds,
    start: int,
    length: int,
    sum: int,
) -> int {
    if 0 <= start < nums.len() && nums.last() > 0 {
        sum + slots_left(nums.len() as int, bounds, start, length) * nums.last()
    } else {
        sum
    }
}

/// The lower-bound prune or the upper-bound prune applies: whatever the path
/// takes from position `start` on, its sum overshoots the window or falls
/// short of it.
pub open spec fn out_of_reach(
    nums: Seq<i64>,
    bounds: SearchBounds,
    start: int,
    length: int,
    sum: int,
) -> bool {
    ||| least_reach(nums, bounds, start, length, sum) > bounds.target + bounds.tolerance
    ||| most_reach(nums, bounds, start, length, sum) < bounds.target - bounds.tolerance
}

/// Taking the number at `from` leaves a branch whose reach lies within the
/// reach of the path that took it.
proof fn lemma_reach_narrows(
    nums: Seq<i64>,
    bounds: SearchBounds,
    start: int,
    from: int,
    length: int,
    sum: int,
)
    requires
        is_ascending(nums),
        0 <= start <= from < nums.len(),
        0 <= length < bounds.max_length,
    ensures
        least_reach(nums, bounds, start, length, sum) <= least_reach(
            nums,
            bounds,
            from + 1,
            length + 1,
            sum + nums[from],
        ),
        most_reach(nums, bounds, from + 1, length + 1, sum + nums[from]) <= most_reach(
            nums,
            bounds,
            start,
            length,
            sum,
        ),
{
    let count = nums.len() as int;
    let slots = slots_left(count, bounds, start, length);
    let fewer = slots_left(count, bounds, from + 1, length + 1);
    let low = nums[start] as int;
    let high = nums.last() as int;
    if low < 0 {
        let next = if from + 1 < count && nums[from + 1] < 0 {
            nums[from + 1] as int
        } else {
            0
        };
        assert(fewer * next >= fewer * low) by (nonlinear_arith)
            requires
                fewer >= 0,
                next >= low,
        ;
        assert((1 + fewer) * low >= slots * low) by (nonlinear_arith)
            requires
                1 + fewer <= slots,
                low < 0,
        ;
        assert((1 + fewer) * low == low + fewer * low) by (nonlinear_arith);
    }
    if high > 0 {
        let next = if from + 1 < count {
            high
        } else {
            0
        };
        assert(fewer * next <= fewer * high) by (nonlinear_arith)
            requires
                fewer >= 0,
                next <= high,
        ;
        assert((1 + fewer) * high <= slots * high) by (nonlinear_arith)
            requires
                1 + fewer <= slots,
                high > 0,
        ;
        assert((1 + fewer) * high == high + fewer * high) by (nonlinear_arith);
    }
}

/// Pruning is sound: a branch that is out of reach holds no solution.
pub proof fn lemma_out_of_reach_is_empty(
    nums: Seq<i64>,
    bounds: SearchBounds,
    start: int,
    path: Seq<i64>,
)
    requires
        is_ascending(nums),
        0 <= start <= nums.len(),
        out_of_reach(nums, bounds, start, path.len() as int, path_sum(path)),
    ensures
        solutions_at(nums, bounds, start, path) == Seq::<Seq<i64>>::empty(),
    decreases nums.len() - start, 1int,
{
    let count = nums.len() as int;
    let slots = slots_left(count, bounds, start, path.len() as int);
    if 0 <= start < count && nums[start] < 0 {
        assert(slots * nums[start] <= 0) by (nonlinear_arith)
            requires
                slots >= 0,
                nums[start] < 0,
        ;
    }
    if 0 <= start < count && nums.last() > 0 {
        assert(slots * nums.last() >= 0) by (nonlinear_arith)
            requires
                slots >= 0,
                nums.last() > 0,
        ;
    }
    if path.len() < bounds.max_length {
        lemma_out_of_reach_leaves_none(nums, bounds, start, start, path);
    }
}

/// Below a path that is out of reach, no branch holds a solution.
proof fn lemma_out_of_reach_leaves_none(
    nums: Seq<i64>,
    bounds: SearchBounds,
    start: int,
    from: int,
    path: Seq<i64>,
)
    requires
        is_ascending(nums),
        0 <= start <= from <= nums.len(),
        path.len() < bounds.max_length,
        out_of_reach(nums, bounds, start, path.len() as int, path_sum(path)),
    ensures
        solutions_after(nums, bounds, from, path) == Seq::<Seq<i64>>::empty(),
    decreases nums.len() - from, 0int,
{
    if from < nums.len() {
        let longer = path.push(nums[from]);
        lemma_path_sum_push(path, nums[from]);
        lemma_reach_narrows(nums, bounds, start, from, path.len() as int, path_sum(path));
        lemma_out_of_reach_is_empty(nums, bounds, from + 1, longer);
        lemma_out_of_reach_leaves_none(nums, bounds, start, from + 1, path);
    }
}

/// Tells whether a path of `length` numbers with sum `sum`, which goes on from
/// position `start`, is out of reach of the tolerance window.
pub fn is_out_of_reach(
    nums: &Vec<i64>,
    bounds: &SearchBounds,
    start: usize,
    length: usize,
    sum: i128,
) -> (pruned: bool)
    requires
        start <= nums.len(),
        length <= start,
        length <= bounds.max_length,
        -0x8000_0000_0000_0000 * length <= sum <= 0x7fff_ffff_ffff_ffff * length,
    ensures
        pruned == out_of_reach(nums@, *bounds, start as int, length as int, sum as int),
{
    let count: usize = nums.len();
    let by_length: usize = bounds.max_length - length;
    let by_numbers: usize = count - start;
    let slots: usize = if by_length <= by_numbers {
        by_length
    } else {
        by_numbers
    };
    let upper: i128 = bounds.target as i128 + bounds.tolerance as i128;
    let lower: i128 = bounds.target as i128 - bounds.tolerance as i128;
    let mut least: i128 = sum;
    let mut most: i128 = sum;
    if start < count {
        let smallest: i64 = nums[start];
        let largest: i64 = nums[count - 1];
        if smallest < 0 {
            assert(-0x8000_0000_0000_0000 * slots <= slots * smallest <= 0) by (nonlinear_arith)
                requires
                    slots >= 0,
                    -0x8000_0000_0000_0000 <= smallest < 0,
            ;
            assert(-0x8000_0000_0000_0000 * length + -0x8000_0000_0000_0000 * slots
                >= -0x8000_0000_0000_0000 * 0xffff_ffff_ffff_ffff) by (nonlinear_arith)
                requires
                    length + slots <= 0xffff_ffff_ffff_ffff,
            ;
            least = sum + (slots as i128) * (smallest as i128);
        }
        if largest > 0 {
            assert(0 <= slots * largest <= 0x7fff_ffff_ffff_ffff * slots) by (nonlinear_arith)
                requires
                    slots >= 0,
                    0 < largest <= 0x7fff_ffff_ffff_ffff,
            ;
            assert(0x7fff_ffff_ffff_ffff * length + 0x7fff_ffff_ffff_ffff * slots
                <= 0x7fff_ffff_ffff_ffff * 0xffff_ffff_ffff_ffff) by (nonlinear_arith)
                requires
                    length + slots <= 0xffff_ffff_ffff_ffff,
            ;
            most = sum + (slots as i128) * (largest as i128);
        }
    }
    least > upper || most < lower
}

} // verus!
