//! The backtracking engine: the walk over the branches of a sorted sequence of
//! numbers that collects the accepted paths.
//!
//! A search node is a path and the position from which it goes on. The walk
//! of a node takes the path if it is accepted, and then tries every later
//! position as a branch. The branches of the root are walked concurrently,
//! each into a collection of its own; the collections are put together in
//! the order of the branches, so that the result does not depend on how the
//! threads were scheduled.
use vstd::prelude::*;
use std::sync::atomic::AtomicBool;
use crossbeam_channel::Sender;
use rayon::iter::IntoParallelIterator;
use rayon::iter::ParallelIterator;
use crate::order::ascending_order;
use crate::order::lemma_ascending_is_unique;
use crate::order::lemma_ascending_order;
use crate::order::sort_numbers;
use crate::paths::MAX_RESULTS;
use crate::paths::SearchBounds;
use crate::paths::all_solutions;
use crate::paths::first_up_to;
use crate::paths::is_ascending;
use crate::paths::is_solution;
use crate::paths::lemma_found_is_solution;
use crate::paths::lemma_path_sum_push;
use crate::paths::lemma_path_sum_range;
use crate::paths::own_solution;
use crate::paths::path_sum;
use crate::paths::path_views;
use crate::paths::picks;
use crate::paths::solutions_after;
use crate::paths::solutions_at;
use crate::paths::within_tolerance;
use crate::progress::Progress;
use crate::progress::estimated_total;
use crate::pruning::is_out_of_reach;
use crate::pruning::lemma_out_of_reach_is_empty;
use crate::signals::Monitor;
use crate::signals::new_counter;
use crate::signals::new_counts;

verus! {

/// What the walk of one branch has collected.
pub struct Walk {
    /// The accepted paths, in the order in which the walk met them.
    pub found: Vec<Vec<i64>>,
    /// Whether the walk left off before its end: it saw the cancellation
    /// signal, or it learned that the result set is full without it.
    pub stopped: bool,
}

/// How a collection of paths grows when a walk goes over a branch whose
/// solutions are `from`: it takes them in order, from the first on, and never
/// grows beyond `MAX_RESULTS`. A walk that went over the `whole` of the branch
/// has taken every solution unless the collection is full.
pub open spec fn grown_by(
    before: Seq<Seq<i64>>,
    after: Seq<Seq<i64>>,
    from: Seq<Seq<i64>>,
    whole: bool,
) -> bool {
    let taken = after.len() - before.len();
    &&& 0 <= taken <= from.len()
    &&& after.len() <= MAX_RESULTS
    &&& after == before + from.take(taken)
    &&& whole ==> taken == from.len() || after.len() == MAX_RESULTS
}

/// Taking a path into the collection adds its view at the end.
proof fn lemma_path_views_push(found: Seq<Vec<i64>>, path: Vec<i64>)
    ensures
        path_views(found.push(path)) == path_views(found).push(path@),
{
    assert(path_views(found.push(path)) =~= path_views(found).push(path@));
}

/// Whether the sum of a path lies within the tolerance of the target.
fn sum_within_tolerance(sum: i128, bounds: &SearchBounds) -> (within: bool)
    requires
        -0x8000_0000_0000_0000 * 0xffff_ffff_ffff_ffff <= sum <= 0x7fff_ffff_ffff_ffff
            * 0xffff_ffff_ffff_ffff,
    ensures
        within == (-bounds.tolerance <= sum - bounds.target <= bounds.tolerance),
{
    let diff: i128 = sum - bounds.target as i128;
    -(bounds.tolerance as i128) <= diff && diff <= bounds.tolerance as i128
}

/// A copy of `path`.
fn copy_of(path: &Vec<i64>) -> (copy: Vec<i64>)
    ensures
        copy@ == path@,
{
    let mut copy: Vec<i64> = Vec::with_capacity(path.len());
    let mut k: usize = 0;
    while k < path.len()
        invariant
            k <= path.len(),
            copy@ == path@.take(k as int),
        decreases path.len() - k,
    {
        copy.push(path[k]);
        k += 1;
    }
    copy
}

/// Walks the search node at `path`, which goes on from position `start`, and
/// the whole of the tree under it: asks whether the walk must stop, and visits
/// the node with the answer.
pub fn explore(
    nums: &Vec<i64>,
    bounds: &SearchBounds,
    start: usize,
    path: &mut Vec<i64>,
    sum: i128,
    walk: &mut Walk,
    monitor: &Monitor,
)
    requires
        is_ascending(nums@),
        start <= nums.len(),
        old(path)@.len() <= start,
        sum == path_sum(old(path)@),
        old(walk).found.len() <= MAX_RESULTS,
        !old(walk).stopped,
        monitor.total > 0,
    ensures
        final(path)@ == old(path)@,
        grown_by(
            path_views(old(walk).found@),
            path_views(final(walk).found@),
            solutions_at(nums@, *bounds, start as int, old(path)@),
            !final(walk).stopped,
        ),
        monitor.cancel is None && monitor.found_by is None ==> !final(walk).stopped,
    decreases nums.len() - start, 1int,
{
    let cancelled: bool = monitor.must_stop();
    visit(nums, bounds, start, path, sum, walk, monitor, cancelled);
}

/// Visits the search node at `path`, which goes on from position `start`,
/// after the walk was told whether it is `cancelled` here.
///
/// A cancelled node leaves off at once. Any other takes `path` into the
/// collection if it is accepted and there is room. It goes no deeper where the
/// collection is full, where the cancellation signal is set by now, or where
/// the path has reached the length bound. Else it tries each position from
/// `start` on as a branch: one that is out of reach is dropped, every other is
/// counted as an attempt and explored in turn, until one of them is stopped or
/// the collection is full.
pub fn visit(
    nums: &Vec<i64>,
    bounds: &SearchBounds,
    start: usize,
    path: &mut Vec<i64>,
    sum: i128,
    walk: &mut Walk,
    monitor: &Monitor,
    cancelled: bool,
)
    requires
        is_ascending(nums@),
        start <= nums.len(),
        old(path)@.len() <= start,
        sum == path_sum(old(path)@),
        old(walk).found.len() <= MAX_RESULTS,
        !old(walk).stopped,
        monitor.total > 0,
    ensures
        final(path)@ == old(path)@,
        grown_by(
            path_views(old(walk).found@),
            path_views(final(walk).found@),
            solutions_at(nums@, *bounds, start as int, old(path)@),
            !final(walk).stopped,
        ),
        cancelled ==> final(walk).stopped && final(walk).found@ == old(walk).found@,
        !cancelled && monitor.cancel is None && monitor.found_by is None ==> !final(walk).stopped,
    decreases nums.len() - start, 0int,
{
    let ghost before = path_views(walk.found@);
    let ghost here = path@;
    let ghost all = solutions_at(nums@, *bounds, start as int, here);
    let ghost own = own_solution(here, *bounds);
    proof {
        lemma_path_sum_range(here);
    }
    if cancelled {
        walk.stopped = true;
        return ;
    }
    assert(-0x8000_0000_0000_0000 * 0xffff_ffff_ffff_ffff <= sum <= 0x7fff_ffff_ffff_ffff
        * 0xffff_ffff_ffff_ffff) by (nonlinear_arith)
        requires
            -0x8000_0000_0000_0000 * here.len() <= sum <= 0x7fff_ffff_ffff_ffff * here.len(),
            here.len() <= 0xffff_ffff_ffff_ffff,
    ;
    if path.len() > 0 && sum_within_tolerance(sum, bounds) {
        if walk.found.len() < MAX_RESULTS {
            let copy = copy_of(path);
            proof {
                lemma_path_views_push(walk.found@, copy);
            }
            walk.found.push(copy);
            monitor.count_found();
            assert(all.take(1) =~= own);
            assert(path_views(walk.found@) =~= before + own);
        }
    }
    if walk.found.len() >= MAX_RESULTS {
        return ;
    }
    if monitor.cancelled() {
        walk.stopped = true;
        return ;
    }
    if path.len() >= bounds.max_length {
        return ;
    }
    let count: usize = nums.len();
    let mut at: usize = start;
    let ghost mut done = own;
    while at < count
        invariant
            is_ascending(nums@),
            count == nums.len(),
            start <= at <= count,
            path@ == here,
            here == old(path)@,
            before == path_views(old(walk).found@),
            all == solutions_at(nums@, *bounds, start as int, here),
            here.len() <= start,
            here.len() < bounds.max_length,
            sum == path_sum(here),
            -0x8000_0000_0000_0000 * here.len() <= sum <= 0x7fff_ffff_ffff_ffff * here.len(),
            monitor.total > 0,
            all == done + solutions_after(nums@, *bounds, at as int, here),
            path_views(walk.found@) == before + done,
            walk.found.len() < MAX_RESULTS,
            !walk.stopped,
            !cancelled,
        decreases count - at,
    {
        let value: i64 = nums[at];
        let ghost longer = here.push(value);
        let ghost branch = solutions_at(nums@, *bounds, at + 1, longer);
        proof {
            lemma_path_sum_push(here, value);
            lemma_path_sum_range(longer);
        }
        let longer_sum: i128 = sum + value as i128;
        if is_out_of_reach(nums, bounds, at + 1, path.len() + 1, longer_sum) {
            proof {
                lemma_out_of_reach_is_empty(nums@, *bounds, at + 1, longer);
            }
        } else {
            monitor.tick();
            path.push(value);
            let ghost earlier = path_views(walk.found@);
            explore(nums, bounds, at + 1, path, longer_sum, walk, monitor);
            path.pop();
            let ghost taken = path_views(walk.found@).len() - earlier.len();
            proof {
                assert(path_views(walk.found@) =~= before + all.take(done.len() + taken));
            }
            if walk.stopped {
                return ;
            }
            if walk.found.len() >= MAX_RESULTS {
                return ;
            }
        }
        proof {
            done = done + branch;
        }
        at += 1;
    }
    assert(all.take(all.len() as int) =~= all);
}

/// What `explore_branch` returns for the branch that takes the number at
/// position `at` first: the walk has gone over the solutions of that branch as
/// `grown_by` says, beginning with nothing. It is stopped only where the
/// search `can_stop`, that is where it has a cancellation signal or the
/// counts of the other branches.
pub open spec fn branch_walked(
    nums: Seq<i64>,
    bounds: SearchBounds,
    at: int,
    can_stop: bool,
    walk: Walk,
) -> bool {
    &&& grown_by(
        Seq::empty(),
        path_views(walk.found@),
        solutions_at(nums, bounds, at + 1, seq![nums[at]]),
        !walk.stopped,
    )
    &&& walk.stopped ==> can_stop
}

/// Walks the branch from the root that takes the number at position `at`
/// first, into a collection of its own. A branch that is out of reach is
/// dropped; any other is counted as an attempt and walked.
pub fn explore_branch(nums: &Vec<i64>, bounds: &SearchBounds, at: usize, monitor: &Monitor) -> (walk:
    Walk)
    requires
        is_ascending(nums@),
        at < nums.len(),
        bounds.max_length > 0,
        monitor.total > 0,
    ensures
        branch_walked(
            nums@,
            *bounds,
            at as int,
            monitor.cancel is Some || monitor.found_by is Some,
            walk,
        ),
{
    let own = monitor.for_branch(at);
    let value: i64 = nums[at];
    let mut walk = Walk { found: Vec::new(), stopped: false };
    let ghost first = seq![value];
    let ghost branch = solutions_at(nums@, *bounds, at + 1, first);
    proof {
        lemma_path_sum_push(Seq::<i64>::empty(), value);
        assert(path_views(walk.found@) =~= Seq::<Seq<i64>>::empty() + branch.take(0));
    }
    if is_out_of_reach(nums, bounds, at + 1, 1, value as i128) {
        proof {
            lemma_out_of_reach_is_empty(nums@, *bounds, at + 1, first);
        }
        return walk;
    }
    own.tick();
    let mut path: Vec<i64> = Vec::new();
    path.push(value);
    explore(nums, bounds, at + 1, &mut path, value as i128, &mut walk, &own);
    walk
}

/// Runs `explore_branch` on every position of `nums`, on rayon's thread pool,
/// through `into_par_iter`, `map` and `collect`. The contract claims that the
/// result holds one walk for each position, in the order of the positions,
/// and that the walk at place `at` is the one that `explore_branch` returned
/// for position `at`, so that what `explore_branch` ensures holds of it:
/// `collect` keeps the order of a range.
#[verifier::external_body]
fn fan_out(nums: &Vec<i64>, bounds: &SearchBounds, monitor: &Monitor) -> (walks: Vec<Walk>)
    requires
        is_ascending(nums@),
        bounds.max_length > 0,
        monitor.total > 0,
    ensures
        walks@.len() == nums@.len(),
        forall|at: int|
            0 <= at < nums@.len() ==> branch_walked(
                nums@,
                *bounds,
                at,
                monitor.cancel is Some || monitor.found_by is Some,
                #[trigger] walks@[at],
            ),
{
    (0..nums.len()).into_par_iter().map(|at| explore_branch(nums, bounds, at, monitor)).collect()
}

/// Adds the paths of `more` to `paths`, in their order, as far as there is
/// room for them.
pub fn append_up_to_limit(paths: &mut Vec<Vec<i64>>, more: &Vec<Vec<i64>>)
    requires
        old(paths).len() <= MAX_RESULTS,
    ensures
        final(paths).len() <= MAX_RESULTS,
        path_views(final(paths)@) == path_views(old(paths)@) + first_up_to(
            path_views(more@),
            MAX_RESULTS - old(paths).len(),
        ),
{
    let ghost before = path_views(paths@);
    let ghost room = MAX_RESULTS - paths.len();
    let ghost added = path_views(more@);
    let mut k: usize = 0;
    while k < more.len() && paths.len() < MAX_RESULTS
        invariant
            k <= more.len(),
            paths.len() == before.len() + k,
            paths.len() <= MAX_RESULTS,
            room == MAX_RESULTS - before.len(),
            added == path_views(more@),
            path_views(paths@) == before + added.take(k as int),
        decreases more.len() - k,
    {
        let copy = copy_of(&more[k]);
        proof {
            lemma_path_views_push(paths@, copy);
        }
        paths.push(copy);
        k += 1;
    }
}

/// The result of a search.
pub struct SearchOutcome {
    /// The result set: accepted paths, at most `MAX_RESULTS` of them.
    pub paths: Vec<Vec<i64>>,
    /// Whether the search ran to its end. It did not where it saw the
    /// cancellation signal; the result set then holds what was found until
    /// then.
    pub complete: bool,
}

/// What a search over the ascending numbers `nums` may return: at most
/// `MAX_RESULTS` paths, each of them a solution; and, where the search ran to
/// its end, the solutions from the first on, in the order of `all_solutions`,
/// all of them unless there are more than `MAX_RESULTS`.
pub open spec fn is_outcome_of(nums: Seq<i64>, bounds: SearchBounds, outcome: SearchOutcome) -> bool {
    &&& outcome.paths.len() <= MAX_RESULTS
    &&& forall|k: int|
        0 <= k < outcome.paths.len() ==> is_solution(nums, bounds, #[trigger] outcome.paths[k]@)
    &&& outcome.complete ==> path_views(outcome.paths@) == first_up_to(
        all_solutions(nums, bounds),
        MAX_RESULTS as int,
    )
}

/// Takes what the walk of the branch at `at` found into the result set, as
/// far as there is room, and tells whether the branch was gone over as a
/// whole.
///
/// A walk that left off with less than the result set has room for is done
/// again where `again` allows it, this time without the counts of the other
/// branches: nothing is proved of those counts, so nothing may hang on them.
fn take_branch(
    paths: &mut Vec<Vec<i64>>,
    nums: &Vec<i64>,
    bounds: &SearchBounds,
    at: usize,
    monitor: &Monitor,
    walk: &Walk,
    again: bool,
) -> (whole: bool)
    requires
        is_ascending(nums@),
        at < nums.len(),
        bounds.max_length > 0,
        monitor.total > 0,
        monitor.found_by is None,
        branch_walked(nums@, *bounds, at as int, true, *walk),
        old(paths).len() < MAX_RESULTS,
    ensures
        grown_by(
            path_views(old(paths)@),
            path_views(final(paths)@),
            solutions_at(nums@, *bounds, at + 1, seq![nums@[at as int]]),
            whole,
        ),
        again && monitor.cancel is None ==> whole,
{
    let ghost branch = solutions_at(nums@, *bounds, at + 1, seq![nums@[at as int]]);
    let room: usize = MAX_RESULTS - paths.len();
    if again && walk.stopped && walk.found.len() < room {
        let second = explore_branch(nums, bounds, at, monitor);
        if second.found.len() >= walk.found.len() {
            let ghost found = path_views(second.found@);
            assert(found =~= branch.take(found.len() as int));
            append_up_to_limit(paths, &second.found);
            assert(first_up_to(found, room as int) =~= branch.take(
                first_up_to(found, room as int).len() as int,
            ));
            return !second.stopped || paths.len() >= MAX_RESULTS;
        }
        // A second walk that found less than the first was stopped as well.
        assert(second.stopped) by {
            assert(path_views(second.found@).len() == second.found.len());
            assert(path_views(walk.found@).len() == walk.found.len());
        }
    }
    let ghost found = path_views(walk.found@);
    assert(found =~= branch.take(found.len() as int));
    append_up_to_limit(paths, &walk.found);
    assert(first_up_to(found, room as int) =~= branch.take(
        first_up_to(found, room as int).len() as int,
    ));
    !walk.stopped || paths.len() >= MAX_RESULTS
}

/// Puts the walks of the branches together, in the order of the branches,
/// until the result set is full. A branch that was not gone over as a whole
/// leaves the result incomplete.
fn gather(nums: &Vec<i64>, bounds: &SearchBounds, monitor: &Monitor, walks: &Vec<Walk>) -> (outcome:
    SearchOutcome)
    requires
        is_ascending(nums@),
        bounds.max_length > 0,
        monitor.total > 0,
        monitor.found_by is None,
        walks.len() == nums.len(),
        forall|at: int|
            0 <= at < nums.len() ==> branch_walked(nums@, *bounds, at, true, #[trigger] walks@[at]),
    ensures
        is_outcome_of(nums@, *bounds, outcome),
        monitor.cancel is None || walks.len() == 0 ==> outcome.complete,
{
    let ghost nothing = Seq::<i64>::empty();
    let ghost all = solutions_after(nums@, *bounds, 0, nothing);
    let mut paths: Vec<Vec<i64>> = Vec::new();
    let mut complete: bool = true;
    let mut at: usize = 0;
    let ghost mut done = Seq::<Seq<i64>>::empty();
    assert(path_views(paths@) =~= done.take(0));
    while at < walks.len() && paths.len() < MAX_RESULTS
        invariant
            is_ascending(nums@),
            bounds.max_length > 0,
            monitor.total > 0,
            monitor.found_by is None,
            walks.len() == nums.len(),
            forall|at: int|
                0 <= at < nums.len() ==> branch_walked(nums@, *bounds, at, true, #[trigger] walks@[at]),
            at <= walks.len(),
            nothing == Seq::<i64>::empty(),
            all == solutions_after(nums@, *bounds, 0, nothing),
            all == done + solutions_after(nums@, *bounds, at as int, nothing),
            paths.len() <= MAX_RESULTS,
            forall|k: int| 0 <= k < paths.len() ==> is_solution(nums@, *bounds, #[trigger] paths[k]@),
            monitor.cancel is None || at == 0 ==> complete,
            complete ==> grown_by(Seq::empty(), path_views(paths@), done, true),
        decreases walks.len() - at,
    {
        let ghost first = seq![nums@[at as int]];
        let ghost branch = solutions_at(nums@, *bounds, at + 1, first);
        let ghost earlier = path_views(paths@);
        assert(nothing.push(nums@[at as int]) =~= first);
        let whole = take_branch(&mut paths, nums, bounds, at, monitor, &walks[at], complete);
        proof {
            let taken = path_views(paths@).len() - earlier.len();
            assert forall|k: int| 0 <= k < paths.len() implies is_solution(
                nums@,
                *bounds,
                #[trigger] paths[k]@,
            ) by {
                assert(paths[k]@ == path_views(paths@)[k]);
                if k >= earlier.len() {
                    lemma_found_is_solution(
                        nums@,
                        *bounds,
                        at + 1,
                        first,
                        seq![at as int],
                        k - earlier.len(),
                    );
                }
            }
            if complete && whole {
                assert(path_views(paths@) =~= (done + branch).take(done.len() + taken));
            }
            done = done + branch;
        }
        if !whole {
            complete = false;
        }
        at += 1;
    }
    proof {
        if complete {
            let rest = solutions_after(nums@, *bounds, at as int, nothing);
            let taken = path_views(paths@).len() as int;
            assert((done + rest).take(taken) =~= done.take(taken));
            assert(done.take(done.len() as int) =~= done);
        }
    }
    SearchOutcome { paths, complete }
}

/// Walks the search tree over the ascending numbers `nums` from its root,
/// after the cancellation signal was polled and found `cancelled`.
///
/// A cancelled root returns nothing. Else, unless the length bound is zero,
/// every position of `nums` starts a branch. The branches are walked
/// concurrently; each counts what it finds, so that a branch can leave off
/// once those before it have filled the result set. Their results are put
/// together in the order of the branches. A walk that ran to its end sends a
/// closing report to the sink.
pub fn walk_from_root(nums: &Vec<i64>, bounds: &SearchBounds, monitor: &Monitor, cancelled: bool) -> (outcome:
    SearchOutcome)
    requires
        is_ascending(nums@),
        monitor.total > 0,
    ensures
        is_outcome_of(nums@, *bounds, outcome),
        cancelled ==> outcome.paths@.len() == 0 && !outcome.complete,
        !cancelled && (monitor.cancel is None || bounds.max_length == 0 || nums@.len() == 0)
            ==> outcome.complete,
{
    proof {
        assert(all_solutions(nums@, *bounds) =~= if 0 < bounds.max_length {
            solutions_after(nums@, *bounds, 0, Seq::<i64>::empty())
        } else {
            Seq::<Seq<i64>>::empty()
        });
    }
    if cancelled {
        return SearchOutcome { paths: Vec::new(), complete: false };
    }
    if bounds.max_length == 0 {
        monitor.close();
        let paths: Vec<Vec<i64>> = Vec::new();
        assert(path_views(paths@) =~= Seq::<Seq<i64>>::empty());
        return SearchOutcome { paths, complete: true };
    }
    let counts = new_counts(nums.len());
    let counting = Monitor {
        cancel: monitor.cancel,
        sink: monitor.sink,
        attempts: monitor.attempts,
        total: monitor.total,
        found_by: Some(&counts),
        branch: 0,
    };
    let walks = fan_out(nums, bounds, &counting);
    let plain = monitor.without_counts();
    let outcome = gather(nums, bounds, &plain, &walks);
    if outcome.complete {
        monitor.close();
    }
    outcome
}

/// Searches `numbers` for the subsets whose sum lies within the tolerance of
/// the target: sorts the numbers, polls the cancellation signal, and walks the
/// search tree from its root. Progress reports go to `sink`, and the walk
/// leaves off when it sees `cancel` set.
pub fn search(
    numbers: &Vec<i64>,
    bounds: SearchBounds,
    sink: Option<&Sender<Progress>>,
    cancel: Option<&AtomicBool>,
) -> (outcome: SearchOutcome)
    ensures
        is_outcome_of(ascending_order(numbers@), bounds, outcome),
        outcome.paths@.len() <= MAX_RESULTS,
        forall|k: int|
            0 <= k < outcome.paths@.len() ==> {
                &&& within_tolerance(#[trigger] outcome.paths@[k]@, bounds)
                &&& 1 <= outcome.paths@[k]@.len() <= bounds.max_length
            },
        numbers@.len() == 0 ==> outcome.paths@.len() == 0,
        cancel is None ==> outcome.complete,
{
    let sorted = sort_numbers(numbers);
    let attempts = new_counter();
    let total: u64 = estimated_total(sorted.len());
    let monitor = Monitor { cancel, sink, attempts: &attempts, total, found_by: None, branch: 0 };
    let cancelled: bool = monitor.cancelled();
    let outcome = walk_from_root(&sorted, &bounds, &monitor, cancelled);
    proof {
        if numbers@.len() == 0 {
            lemma_nothing_from_nothing(sorted@, bounds, outcome);
        }
    }
    outcome
}

/// A search over no numbers finds nothing.
pub proof fn lemma_nothing_from_nothing(nums: Seq<i64>, bounds: SearchBounds, outcome: SearchOutcome)
    requires
        is_outcome_of(nums, bounds, outcome),
        nums.len() == 0,
    ensures
        outcome.paths@.len() == 0,
{
    if outcome.paths@.len() > 0 {
        let path = outcome.paths[0]@;
        let indices = choose|indices: Seq<int>| picks(nums, indices, path);
        assert(indices[0] < nums.len());
    }
}

/// Which paths a search finds does not depend on the run, nor on the order in
/// which the numbers were given: two searches that ran to their ends, over the
/// same numbers and with the same bounds, return the same paths as often.
pub proof fn lemma_complete_searches_agree(
    numbers: Seq<i64>,
    reordered: Seq<i64>,
    bounds: SearchBounds,
    first: SearchOutcome,
    second: SearchOutcome,
)
    requires
        numbers.to_multiset() == reordered.to_multiset(),
        is_outcome_of(ascending_order(numbers), bounds, first),
        is_outcome_of(ascending_order(reordered), bounds, second),
        first.complete,
        second.complete,
    ensures
        path_views(first.paths@).to_multiset() == path_views(second.paths@).to_multiset(),
        path_views(first.paths@) == path_views(second.paths@),
{
    lemma_ascending_order(reordered);
    lemma_ascending_is_unique(numbers, ascending_order(reordered));
}

} // verus!
