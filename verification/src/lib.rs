//! A solver for bounded subset sums: it searches a collection of numbers for
//! the subsets, of a bounded length, whose sum lies within a tolerance of a
//! target, and returns at most a thousand of them.
//!
//! The search runs on fixed-point numbers (`fixed`), which it sorts (`order`)
//! and walks branch by branch (`engine`), dropping the branches that cannot
//! come to the target (`pruning`). What it finds is stated against a model of
//! all the solutions (`paths`). While it runs it counts its branch attempts
//! and reports progress (`progress`, `signals`), and it leaves off when a
//! cancellation signal is set. Results can be kept in a bounded cache
//! (`cache`).
use vstd::prelude::*;

pub mod cache;
pub mod engine;
pub mod fixed;
pub mod order;
pub mod paths;
pub mod progress;
pub mod pruning;
pub mod signals;

use std::sync::Arc;
use std::sync::atomic::AtomicBool;
use crossbeam_channel::Sender;
use crate::cache::Entry;
use crate::cache::ResultCache;
use crate::cache::after_get;
use crate::cache::after_put;
use crate::cache::key_of;
use crate::cache::lookup;
use crate::engine::SearchOutcome;
use crate::engine::append_up_to_limit;
use crate::engine::is_outcome_of;
use crate::engine::search;
use crate::fixed::InvalidInput;
use crate::fixed::decoded;
use crate::fixed::decoded_all;
use crate::fixed::number_from_bits;
use crate::fixed::numbers_from_bits;
use crate::order::ascending_order;
use crate::paths::MAX_RESULTS;
use crate::paths::SearchBounds;
use crate::paths::all_solutions;
use crate::paths::first_up_to;
use crate::paths::is_result_set;
use crate::paths::is_solution;
use crate::paths::path_views;
use crate::progress::Progress;
use crate::progress::closing_report;
use crate::progress::estimated_total;
use crate::signals::report_to;

verus! {

/// Where a result set came from.
#[derive(Clone, Copy, Debug, PartialEq, Eq, Structural)]
pub enum Source {
    /// It was stored in the cache under the key of this target and tolerance.
    Cache,
    /// A search found it and ran to its end.
    Search,
    /// A search found it and left off when it saw the cancellation signal.
    CancelledSearch,
}

/// What `find_combinations` returns: a result set, and where it came from.
pub struct Combinations {
    pub paths: Vec<Vec<i64>>,
    pub source: Source,
}

/// A query as the search takes it: the numbers, the target and the tolerance.
pub struct Query {
    pub numbers: Seq<i64>,
    pub target: i64,
    pub tolerance: i64,
}

/// The query that the doubles of a call stand for, or why the first of them
/// that stands for no number does so: the numbers are looked at first, in
/// their order, then the target, then the tolerance.
pub open spec fn decoded_query(numbers: Seq<u64>, target: u64, tolerance: u64) -> Result<
    Query,
    InvalidInput,
> {
    match decoded_all(numbers) {
        Err(reason) => Err(reason),
        Ok(decoded_numbers) => match decoded(target) {
            Err(reason) => Err(reason),
            Ok(decoded_target) => match decoded(tolerance) {
                Err(reason) => Err(reason),
                Ok(decoded_tolerance) => Ok(
                    Query {
                        numbers: decoded_numbers,
                        target: decoded_target,
                        tolerance: decoded_tolerance,
                    },
                ),
            },
        },
    }
}

/// What is owed of the result set for a query, by where it came from. It is a
/// result set in any case: at most `MAX_RESULTS` paths, none of them empty.
/// One that a search found holds solutions only: subsets of the numbers
/// within the tolerance and the length bound. One of a search that ran to its
/// end holds the solutions over the sorted numbers from the first on, in the
/// order of `all_solutions`, all of them unless there are more than
/// `MAX_RESULTS`. Of one that came from the cache no more is known than that
/// it is a result set: the key of the cache holds neither the numbers nor the
/// length bound, and target and tolerance only in hundredths.
pub open spec fn answers(query: Query, max_length: usize, combinations: Combinations) -> bool {
    let nums = ascending_order(query.numbers);
    let bounds = SearchBounds { target: query.target, tolerance: query.tolerance, max_length };
    let paths = path_views(combinations.paths@);
    &&& is_result_set(paths)
    &&& combinations.source != Source::Cache ==> forall|k: int|
        0 <= k < paths.len() ==> is_solution(nums, bounds, #[trigger] paths[k])
    &&& combinations.source == Source::Search ==> paths == first_up_to(
        all_solutions(nums, bounds),
        MAX_RESULTS as int,
    )
}

/// How a call with a cache uses it. A result set stored under the key of the
/// query is returned, whatever it holds, and becomes the most recently used;
/// the source is then `Cache`, and only then. Else the result set that the
/// search found is stored under that key.
pub open spec fn kept_in_cache(
    query: Query,
    before: Seq<Entry>,
    limit: nat,
    combinations: Combinations,
    after: Seq<Entry>,
) -> bool {
    let key = key_of(query.target, query.tolerance);
    let paths = path_views(combinations.paths@);
    match lookup(before, key) {
        Some(stored) => {
            &&& combinations.source == Source::Cache
            &&& paths == stored
            &&& after == after_get(before, key)
        },
        None => {
            &&& combinations.source != Source::Cache
            &&& after == after_put(before, limit, key, paths)
        },
    }
}

/// What a search returns is a result set.
pub proof fn lemma_outcome_is_result_set(nums: Seq<i64>, bounds: SearchBounds, outcome: SearchOutcome)
    requires
        is_outcome_of(nums, bounds, outcome),
    ensures
        is_result_set(path_views(outcome.paths@)),
{
    let paths = path_views(outcome.paths@);
    assert forall|k: int| 0 <= k < paths.len() implies (#[trigger] paths[k]).len() > 0 by {
        assert(is_solution(nums, bounds, outcome.paths[k]@));
    }
}

/// The outcome of a search as `find_combinations` returns it.
fn combinations_of(outcome: SearchOutcome) -> (combinations: Combinations)
    ensures
        combinations.paths == outcome.paths,
        combinations.source == if outcome.complete {
            Source::Search
        } else {
            Source::CancelledSearch
        },
{
    let source = if outcome.complete {
        Source::Search
    } else {
        Source::CancelledSearch
    };
    Combinations { paths: outcome.paths, source }
}

/// Finds the subsets of `numbers`, of at most `max_length` numbers, whose sum
/// lies within `tolerance` of `target`.
///
/// The numbers, the target and the tolerance are IEEE 754 doubles, handed over
/// as their bit patterns. A double that is not finite, or too large, makes the
/// call fail before anything else happens. With a cache, a result set stored
/// under the key of this target and tolerance is returned as it is; else the
/// search runs, and its result set is stored. Progress reports go to
/// `progress_tx`; a result set that is final is followed by a closing report.
/// The search leaves off when it sees `stop_flag` set.
pub fn find_combinations(
    numbers: &[u64],
    target: u64,
    tolerance: u64,
    progress_tx: Option<Sender<Progress>>,
    max_length: usize,
    stop_flag: Arc<AtomicBool>,
    cache: Option<&mut ResultCache>,
) -> (found: Result<Combinations, InvalidInput>)
    ensures
        cache matches Some(store) ==> final(store).limit() == store.limit(),
        match found {
            Err(reason) => {
                &&& decoded_query(numbers@, target, tolerance) == Err::<Query, InvalidInput>(reason)
                &&& cache matches Some(store) ==> final(store).entries() == store.entries()
            },
            Ok(combinations) => {
                &&& decoded_query(numbers@, target, tolerance) is Ok
                &&& answers(
                    decoded_query(numbers@, target, tolerance)->Ok_0,
                    max_length,
                    combinations,
                )
                &&& numbers@.len() == 0 && combinations.source != Source::Cache
                    ==> combinations.paths@.len() == 0
                &&& match cache {
                    Some(store) => kept_in_cache(
                        decoded_query(numbers@, target, tolerance)->Ok_0,
                        store.entries(),
                        store.limit(),
                        combinations,
                        final(store).entries(),
                    ),
                    None => combinations.source != Source::Cache,
                }
            },
        },
{
    let decoded_numbers = match numbers_from_bits(numbers) {
        Ok(decoded_numbers) => decoded_numbers,
        Err(reason) => {
            return Err(reason);
        },
    };
    let decoded_target = match number_from_bits(target) {
        Ok(decoded_target) => decoded_target,
        Err(reason) => {
            return Err(reason);
        },
    };
    let decoded_tolerance = match number_from_bits(tolerance) {
        Ok(decoded_tolerance) => decoded_tolerance,
        Err(reason) => {
            return Err(reason);
        },
    };
    let bounds = SearchBounds { target: decoded_target, tolerance: decoded_tolerance, max_length };
    let sink: Option<&Sender<Progress>> = progress_tx.as_ref();
    let signal: &AtomicBool = &stop_flag;
    match cache {
        Some(store) => {
            match store.get(decoded_target, decoded_tolerance) {
                Some(paths) => {
                    report_to(sink, closing_report(estimated_total(decoded_numbers.len())));
                    Ok(Combinations { paths, source: Source::Cache })
                },
                None => {
                    let outcome = search(&decoded_numbers, bounds, sink, Some(signal));
                    let mut copy: Vec<Vec<i64>> = Vec::new();
                    append_up_to_limit(&mut copy, &outcome.paths);
                    proof {
                        assert(path_views(Seq::<Vec<i64>>::empty()) + path_views(outcome.paths@)
                            =~= path_views(outcome.paths@));
                        lemma_outcome_is_result_set(
                            ascending_order(decoded_numbers@),
                            bounds,
                            outcome,
                        );
                    }
                    store.put(decoded_target, decoded_tolerance, copy);
                    Ok(combinations_of(outcome))
                },
            }
        },
        None => {
            let outcome = search(&decoded_numbers, bounds, sink, Some(signal));
            proof {
                lemma_outcome_is_result_set(ascending_order(decoded_numbers@), bounds, outcome);
            }
            Ok(combinations_of(outcome))
        },
    }
}

} // verus!
