//! What the branches of a running search share with each other and with the
//! outside: the cancellation signal that they poll, the counter of branch
//! attempts, the sink for progress reports, and the counts of what each
//! branch has found.
//!
//! All of it is read and written by several threads at once. Nothing is
//! proved of a value that is read here; what the search does with each value
//! is proved where the value is used.
use vstd::prelude::*;
use std::sync::atomic::AtomicBool;
use std::sync::atomic::AtomicU64;
use std::sync::atomic::AtomicUsize;
use std::sync::atomic::Ordering;
use crossbeam_channel::Sender;
use crate::paths::MAX_RESULTS;
use crate::progress::Progress;
use crate::progress::report_due;
use crate::progress::closing_report;

verus! {

/// `crossbeam_channel::Sender`, the sending side of a channel, taken as it
/// is: nothing is known of what is inside a value.
#[verifier::external_type_specification]
#[verifier::external_body]
#[verifier::reject_recursive_types(T)]
pub struct ExSender<T>(Sender<T>);

/// The shared state of one search, as one branch of it sees it.
pub struct Monitor<'a> {
    /// The cancellation signal, if the search can be cancelled.
    pub cancel: Option<&'a AtomicBool>,
    /// Where progress reports go, if anybody listens.
    pub sink: Option<&'a Sender<Progress>>,
    /// The number of branch attempts so far.
    pub attempts: &'a AtomicU64,
    /// The estimated number of branch attempts of the whole search.
    pub total: u64,
    /// How many paths each branch from the root has found so far, if the
    /// branches tell each other.
    pub found_by: Option<&'a Vec<AtomicUsize>>,
    /// The branch from the root that this walk belongs to.
    pub branch: usize,
}

/// `Sender::try_send`: offers `report` to the channel without waiting, and
/// tells whether the channel took it. That depends on the receiving side, so
/// the contract claims nothing of the result. What is offered must be a
/// fraction between zero and one: no other value reaches a sink.
#[verifier::external_body]
fn offer(sink: &Sender<Progress>, report: Progress) -> (taken: bool)
    requires
        report.wf(),
{
    sink.try_send(report).is_ok()
}

/// A counter of branch attempts that stands at zero.
pub fn new_counter() -> (attempts: AtomicU64) {
    AtomicU64::new(0)
}

/// Reads the cancellation signal. Another thread may set it at any moment, so
/// nothing is known of the value.
fn read_signal(signal: &AtomicBool) -> (set: bool) {
    signal.load(Ordering::Relaxed)
}

/// Counts one more branch attempt and returns the count that this attempt
/// got: one more than the counter held, so at least one. Other branches count
/// at the same time, so no more is known of the value.
fn count_attempt(attempts: &AtomicU64) -> (count: u64)
    ensures
        count >= 1,
{
    let earlier: u64 = attempts.fetch_add(1, Ordering::Relaxed);
    if earlier < u64::MAX {
        earlier + 1
    } else {
        earlier
    }
}

/// Reads how many paths a branch has found so far.
fn read_count(count: &AtomicUsize) -> (found: usize) {
    count.load(Ordering::Relaxed)
}

/// Counts one more path for a branch.
fn count_one_more(count: &AtomicUsize) {
    let _ = count.fetch_add(1, Ordering::Relaxed);
}

/// A count of zero for each of `branches` branches.
pub fn new_counts(branches: usize) -> (counts: Vec<AtomicUsize>)
    ensures
        counts.len() == branches,
{
    let mut counts: Vec<AtomicUsize> = Vec::new();
    while counts.len() < branches
        invariant
            counts.len() <= branches,
        decreases branches - counts.len(),
    {
        counts.push(AtomicUsize::new(0));
    }
    counts
}

/// Sends `report`, a fraction between zero and one, to the sink, if there is
/// one.
pub fn report_to(sink: Option<&Sender<Progress>>, report: Progress)
    requires
        report.wf(),
{
    match sink {
        Some(sink) => {
            let _ = offer(sink, report);
        },
        None => {},
    }
}

impl<'a> Monitor<'a> {
    /// Whether this branch has counts to look at: those of branches from the
    /// root that come before it.
    pub open spec fn has_counts_before(&self) -> bool {
        self.found_by matches Some(counts) && self.branch > 0 && counts.len() > 0
    }

    /// Polls the cancellation signal. A search without a signal is never
    /// cancelled.
    pub fn cancelled(&self) -> (set: bool)
        ensures
            self.cancel is None ==> !set,
    {
        match self.cancel {
            Some(signal) => read_signal(signal),
            None => false,
        }
    }

    /// This state as the branch `branch` sees it.
    pub fn for_branch(&self, branch: usize) -> (own: Monitor<'a>)
        ensures
            own == (Monitor { branch, ..*self }),
    {
        Monitor {
            cancel: self.cancel,
            sink: self.sink,
            attempts: self.attempts,
            total: self.total,
            found_by: self.found_by,
            branch,
        }
    }

    /// This state without the counts of what the branches have found.
    pub fn without_counts(&self) -> (plain: Monitor<'a>)
        ensures
            plain == (Monitor { found_by: None, ..*self }),
    {
        Monitor {
            cancel: self.cancel,
            sink: self.sink,
            attempts: self.attempts,
            total: self.total,
            found_by: None,
            branch: self.branch,
        }
    }

    /// Tells the other branches that this branch has found one more path.
    pub fn count_found(&self) {
        match self.found_by {
            Some(counts) => {
                if self.branch < counts.len() {
                    count_one_more(&counts[self.branch]);
                }
            },
            None => {},
        }
    }

    /// Whether the branches before this one have, by their counts, found
    /// enough to fill the result set, so that nothing this branch finds can
    /// come into it. The counts of the branches before this one are added up
    /// until they reach `MAX_RESULTS`. Where there is no count to add, for
    /// want of counts or of a branch before this one, the answer is no.
    pub fn full_without_us(&self) -> (full: bool)
        ensures
            full ==> self.has_counts_before(),
            self.found_by is None ==> !full,
    {
        match self.found_by {
            Some(counts) => {
                let mut found: usize = 0;
                let mut before: usize = 0;
                while before < self.branch && before < counts.len() && found < MAX_RESULTS
                    invariant
                        found <= MAX_RESULTS,
                        self.found_by == Some(counts),
                        before == 0 ==> found == 0,
                        before > 0 ==> self.has_counts_before(),
                    decreases counts.len() - before,
                {
                    let more: usize = read_count(&counts[before]);
                    found = if more >= MAX_RESULTS - found {
                        MAX_RESULTS
                    } else {
                        found + more
                    };
                    before += 1;
                }
                found >= MAX_RESULTS
            },
            None => false,
        }
    }

    /// Whether a walk must leave off here: the cancellation signal is set, or
    /// the result set is full without this branch. A walk that has neither a
    /// signal nor counts to look at goes on.
    pub fn must_stop(&self) -> (stop: bool)
        ensures
            stop ==> self.cancel is Some || self.has_counts_before(),
            self.cancel is None && self.found_by is None ==> !stop,
    {
        self.cancelled() || self.full_without_us()
    }

    /// Sends `report`, a fraction of the estimate of this search, to the
    /// sink, if there is one.
    pub fn send(&self, report: Progress)
        requires
            report.wf(),
            report.total == self.total,
    {
        report_to(self.sink, report);
    }

    /// Counts one branch attempt, and reports progress where this attempt is
    /// one that is reported.
    pub fn tick(&self)
        requires
            self.total > 0,
    {
        let count: u64 = count_attempt(self.attempts);
        match report_due(count, self.total) {
            Some(report) => self.send(report),
            None => {},
        }
    }

    /// Reports that the search ran to its end.
    pub fn close(&self)
        requires
            self.total > 0,
    {
        self.send(closing_report(self.total));
    }
}

} // verus!
