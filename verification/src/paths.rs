//! The mathematical model of the search: what a path is, when it is accepted,
//! and which paths a search over a sorted sequence of numbers finds.
//!
//! Numbers are fixed-point: an `i64` counts millionths. Sums are taken in
//! `int`, so nothing here can overflow.
use vstd::prelude::*;

verus! {

/// The largest number of paths that a result set may hold.
pub const MAX_RESULTS: usize = 1000;

/// What a path must meet: its sum lies within `tolerance` of `target`, and it
/// holds at most `max_length` numbers.
#[derive(Clone, Copy, Debug)]
pub struct SearchBounds {
    pub target: i64,
    pub tolerance: i64,
    pub max_length: usize,
}

/// The sum of the numbers of a path.
pub open spec fn path_sum(path: Seq<i64>) -> int
    decreases path.len(),
{
    if path.len() == 0 {
        0
    } else {
        path_sum(path.drop_last()) + path.last()
    }
}

/// `|sum(path) - target| <= tolerance`.
pub open spec fn within_tolerance(path: Seq<i64>, bounds: SearchBounds) -> bool {
    -bounds.tolerance <= path_sum(path) - bounds.target <= bounds.tolerance
}

/// A path is accepted when it is not empty and its sum is within tolerance.
pub open spec fn accepted(path: Seq<i64>, bounds: SearchBounds) -> bool {
    path.len() > 0 && within_tolerance(path, bounds)
}

/// `s` is in ascending order.
pub open spec fn is_ascending(s: Seq<i64>) -> bool {
    forall|i: int, j: int| 0 <= i <= j < s.len() ==> s[i] <= s[j]
}

/// `indices` picks `path` out of `nums`: positions in strictly increasing
/// order, one for each number of the path.
pub open spec fn picks(nums: Seq<i64>, indices: Seq<int>, path: Seq<i64>) -> bool {
    &&& indices.len() == path.len()
    &&& forall|k: int| 0 <= k < indices.len() ==> 0 <= #[trigger] indices[k] < nums.len()
    &&& forall|k: int, l: int| 0 <= k < l < indices.len() ==> indices[k] < indices[l]
    &&& forall|k: int| 0 <= k < indices.len() ==> path[k] == nums[#[trigger] indices[k]]
}

/// `path` is a subset of `nums`, in the order of `nums`.
pub open spec fn drawn_from(nums: Seq<i64>, path: Seq<i64>) -> bool {
    exists|indices: Seq<int>| picks(nums, indices, path)
}

/// A solution is a non-empty subset of `nums`, in the order of `nums`, of at
/// most `max_length` numbers, whose sum is within tolerance of the target.
pub open spec fn is_solution(nums: Seq<i64>, bounds: SearchBounds, path: Seq<i64>) -> bool {
    &&& 1 <= path.len() <= bounds.max_length
    &&& within_tolerance(path, bounds)
    &&& drawn_from(nums, path)
}

/// The path itself where it is accepted, nothing where it is not.
pub open spec fn own_solution(path: Seq<i64>, bounds: SearchBounds) -> Seq<Seq<i64>> {
    if accepted(path, bounds) {
        seq![path]
    } else {
        Seq::empty()
    }
}

/// The solutions that begin with `path` and go on with numbers at positions
/// `start` and later: first `path` itself, then those of each branch in turn.
pub open spec fn solutions_at(
    nums: Seq<i64>,
    bounds: SearchBounds,
    start: int,
    path: Seq<i64>,
) -> Seq<Seq<i64>>
    decreases nums.len() - start, 1int,
{
    own_solution(path, bounds) + if path.len() < bounds.max_length {
        solutions_after(nums, bounds, start, path)
    } else {
        Seq::empty()
    }
}

/// The solutions of the branches of `path` that take their next number at
/// position `from` or later, branch by branch.
pub open spec fn solutions_after(
    nums: Seq<i64>,
    bounds: SearchBounds,
    from: int,
    path: Seq<i64>,
) -> Seq<Seq<i64>>
    decreases nums.len() - from, 0int,
{
    if 0 <= from < nums.len() {
        solutions_at(nums, bounds, from + 1, path.push(nums[from])) + solutions_after(
            nums,
            bounds,
            from + 1,
            path,
        )
    } else {
        Seq::empty()
    }
}

/// Every solution over `nums`, in the order in which a walk by position meets
/// them.
pub open spec fn all_solutions(nums: Seq<i64>, bounds: SearchBounds) -> Seq<Seq<i64>> {
    solutions_at(nums, bounds, 0, Seq::empty())
}

/// The paths that a vector of vectors holds.
pub open spec fn path_views(found: Seq<Vec<i64>>) -> Seq<Seq<i64>> {
    Seq::new(found.len(), |k: int| found[k]@)
}

/// What every result set is: at most `MAX_RESULTS` paths, none of them empty.
pub open spec fn is_result_set(paths: Seq<Seq<i64>>) -> bool {
    &&& paths.len() <= MAX_RESULTS
    &&& forall|k: int| 0 <= k < paths.len() ==> (#[trigger] paths[k]).len() > 0
}

/// Tells whether `paths` is a result set.
pub fn holds_result_set(paths: &Vec<Vec<i64>>) -> (valid: bool)
    ensures
        valid == is_result_set(path_views(paths@)),
{
    if paths.len() > MAX_RESULTS {
        return false;
    }
    let mut k: usize = 0;
    while k < paths.len()
        invariant
            k <= paths.len(),
            forall|j: int| 0 <= j < k ==> (#[trigger] path_views(paths@)[j]).len() > 0,
        decreases paths.len() - k,
    {
        if paths[k].len() == 0 {
            assert(path_views(paths@)[k as int].len() == 0);
            return false;
        }
        k += 1;
    }
    true
}

/// The first `limit` items of `s`, or all of `s` where it has fewer.
pub open spec fn first_up_to(s: Seq<Seq<i64>>, limit: int) -> Seq<Seq<i64>> {
    if s.len() <= limit {
        s
    } else if limit <= 0 {
        Seq::empty()
    } else {
        s.take(limit)
    }
}

pub proof fn lemma_path_sum_push(path: Seq<i64>, x: i64)
    ensures
        path_sum(path.push(x)) == path_sum(path) + x,
{
    assert(path.push(x).drop_last() =~= path);
}

/// A sum of `n` numbers lies within `n` times the range of one number.
pub proof fn lemma_path_sum_range(path: Seq<i64>)
    ensures
        -0x8000_0000_0000_0000 * path.len() <= path_sum(path) <= 0x7fff_ffff_ffff_ffff * path.len(),
    decreases path.len(),
{
    if path.len() > 0 {
        lemma_path_sum_range(path.drop_last());
    }
}

/// A path that takes one more number, at a position behind all that it took
/// before, is still drawn from `nums`.
proof fn lemma_picks_push(nums: Seq<i64>, indices: Seq<int>, path: Seq<i64>, at: int)
    requires
        picks(nums, indices, path),
        0 <= at < nums.len(),
        forall|k: int| 0 <= k < indices.len() ==> indices[k] < at,
    ensures
        picks(nums, indices.push(at), path.push(nums[at])),
{
}

/// Every path that the walk from `path` finds is a solution.
pub proof fn lemma_found_is_solution(
    nums: Seq<i64>,
    bounds: SearchBounds,
    start: int,
    path: Seq<i64>,
    indices: Seq<int>,
    k: int,
)
    requires
        0 <= start <= nums.len(),
        path.len() <= bounds.max_length,
        picks(nums, indices, path),
        forall|j: int| 0 <= j < indices.len() ==> indices[j] < start,
        0 <= k < solutions_at(nums, bounds, start, path).len(),
    ensures
        is_solution(nums, bounds, solutions_at(nums, bounds, start, path)[k]),
    decreases nums.len() - start, 1int,
{
    let own = own_solution(path, bounds);
    if k >= own.len() {
        lemma_branch_found_is_solution(nums, bounds, start, path, indices, k - own.len());
    }
}

/// Every path that the walk finds in the branches of `path` is a solution.
proof fn lemma_branch_found_is_solution(
    nums: Seq<i64>,
    bounds: SearchBounds,
    from: int,
    path: Seq<i64>,
    indices: Seq<int>,
    k: int,
)
    requires
        0 <= from <= nums.len(),
        path.len() < bounds.max_length,
        picks(nums, indices, path),
        forall|j: int| 0 <= j < indices.len() ==> indices[j] < from,
        0 <= k < solutions_after(nums, bounds, from, path).len(),
    ensures
        is_solution(nums, bounds, solutions_after(nums, bounds, from, path)[k]),
    decreases nums.len() - from, 0int,
{
    let branch = solutions_at(nums, bounds, from + 1, path.push(nums[from]));
    if k < branch.len() {
        lemma_picks_push(nums, indices, path, from);
        lemma_found_is_solution(
            nums,
            bounds,
            from + 1,
            path.push(nums[from]),
            indices.push(from),
            k,
        );
    } else {
        lemma_branch_found_is_solution(nums, bounds, from + 1, path, indices, k - branch.len());
    }
}

/// What a branch holds, the branches of the path hold too.
proof fn lemma_branches_hold(
    nums: Seq<i64>,
    bounds: SearchBounds,
    from: int,
    at: int,
    path: Seq<i64>,
    found: Seq<i64>,
)
    requires
        0 <= from <= at < nums.len(),
        solutions_at(nums, bounds, at + 1, path.push(nums[at])).contains(found),
    ensures
        solutions_after(nums, bounds, from, path).contains(found),
    decreases at - from,
{
    let branch = solutions_at(nums, bounds, from + 1, path.push(nums[from]));
    let rest = solutions_after(nums, bounds, from + 1, path);
    if from == at {
        let k = choose|k: int| 0 <= k < branch.len() && branch[k] == found;
        assert((branch + rest)[k] == found);
    } else {
        lemma_branches_hold(nums, bounds, from + 1, at, path, found);
        let k = choose|k: int| 0 <= k < rest.len() && rest[k] == found;
        assert((branch + rest)[branch.len() + k] == found);
    }
}

/// The walk from `path` finds every accepted path that goes on from `path`
/// with numbers picked at `more`, positions from `start` on in increasing
/// order, within the length bound.
proof fn lemma_extension_is_found(
    nums: Seq<i64>,
    bounds: SearchBounds,
    start: int,
    path: Seq<i64>,
    more: Seq<int>,
    tail: Seq<i64>,
)
    requires
        0 <= start <= nums.len(),
        picks(nums, more, tail),
        forall|j: int| 0 <= j < more.len() ==> start <= more[j],
        path.len() + tail.len() <= bounds.max_length,
        accepted(path + tail, bounds),
    ensures
        solutions_at(nums, bounds, start, path).contains(path + tail),
    decreases tail.len(),
{
    let all = solutions_at(nums, bounds, start, path);
    if tail.len() == 0 {
        assert(all[0] == path);
    } else {
        let at = more[0];
        let longer = path.push(nums[at]);
        let later = more.drop_first();
        assert(picks(nums, later, tail.drop_first())) by {
            assert forall|k: int, l: int| 0 <= k < l < later.len() implies later[k] < later[l] by {
                assert(more[k + 1] < more[l + 1]);
            }
        }
        assert forall|j: int| 0 <= j < later.len() implies at + 1 <= #[trigger] later[j] by {
            assert(more[0] < more[j + 1]);
        }
        assert(longer + tail.drop_first() =~= path + tail);
        lemma_extension_is_found(nums, bounds, at + 1, longer, later, tail.drop_first());
        lemma_branches_hold(nums, bounds, start, at, path, path + tail);
        let after = solutions_after(nums, bounds, start, path);
        let own = own_solution(path, bounds);
        let k = choose|k: int| 0 <= k < after.len() && after[k] == path + tail;
        assert(all[own.len() + k] == path + tail);
    }
}

/// The walk finds the solutions and nothing else: a path occurs in
/// `all_solutions` if and only if it is a solution.
pub proof fn lemma_all_solutions_are_the_solutions(
    nums: Seq<i64>,
    bounds: SearchBounds,
    path: Seq<i64>,
)
    ensures
        all_solutions(nums, bounds).contains(path) <==> is_solution(nums, bounds, path),
{
    let all = all_solutions(nums, bounds);
    let nothing = Seq::<i64>::empty();
    if all.contains(path) {
        let k = choose|k: int| 0 <= k < all.len() && all[k] == path;
        lemma_found_is_solution(nums, bounds, 0, nothing, Seq::<int>::empty(), k);
    }
    if is_solution(nums, bounds, path) {
        let indices = choose|indices: Seq<int>| picks(nums, indices, path);
        lemma_extension_is_found(nums, bounds, 0, nothing, indices, path);
    }
}

} // verus!
