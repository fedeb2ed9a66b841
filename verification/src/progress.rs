//! Progress accounting: how branch attempts become reports of the fraction of
//! the work that is done.
use vstd::prelude::*;

verus! {

/// A report is due at every `REPORT_INTERVAL`-th branch attempt.
pub const REPORT_INTERVAL: u64 = 100;

/// No estimate of the number of branch attempts is larger than this.
pub const MAX_ESTIMATE: u64 = 100_000;

/// A fraction of the work: `done` out of `total`, with `done <= total` and
/// `total > 0`, so that it stands for a value between zero and one.
#[derive(Clone, Copy, Debug, PartialEq, Eq, Structural)]
pub struct Progress {
    pub done: u64,
    pub total: u64,
}

impl Progress {
    /// The fraction lies between zero and one.
    pub open spec fn wf(self) -> bool {
        self.done <= self.total && self.total > 0
    }
}

/// The estimated number of branch attempts of a search over `count` numbers:
/// the square of `count`, at most `MAX_ESTIMATE` and at least one.
pub open spec fn estimate_for(count: nat) -> nat {
    if count == 0 {
        1
    } else if count * count >= MAX_ESTIMATE {
        MAX_ESTIMATE as nat
    } else {
        count * count
    }
}

/// The progress after `attempts` branch attempts out of an estimated `total`:
/// their quotient, held at one where the estimate was too low.
pub open spec fn progress_at(attempts: u64, total: u64) -> Progress {
    Progress { done: if attempts <= total { attempts } else { total }, total }
}

/// Whether the `attempts`-th branch attempt is one that is reported.
pub open spec fn is_reported(attempts: u64) -> bool {
    attempts > 0 && attempts % REPORT_INTERVAL == 0
}

/// The estimate of the number of branch attempts for `count` numbers.
pub fn estimated_total(count: usize) -> (total: u64)
    ensures
        total == estimate_for(count as nat),
        0 < total <= MAX_ESTIMATE,
{
    if count == 0 {
        1
    } else if count >= 317 {
        assert(count * count >= MAX_ESTIMATE) by (nonlinear_arith)
            requires
                count >= 317,
        ;
        MAX_ESTIMATE
    } else {
        assert(0 < count * count < MAX_ESTIMATE) by (nonlinear_arith)
            requires
                0 < count < 317,
        ;
        let n: u64 = count as u64;
        n * n
    }
}

/// The report that the `attempts`-th branch attempt calls for, if it calls for
/// one.
pub fn report_due(attempts: u64, total: u64) -> (report: Option<Progress>)
    requires
        total > 0,
    ensures
        report == if is_reported(attempts) {
            Some(progress_at(attempts, total))
        } else {
            None
        },
        report matches Some(p) ==> p.wf(),
{
    if attempts > 0 && attempts % REPORT_INTERVAL == 0 {
        Some(Progress { done: if attempts <= total { attempts } else { total }, total })
    } else {
        None
    }
}

/// The report that closes a search that ran to its end: all of the work is
/// done.
pub fn closing_report(total: u64) -> (report: Progress)
    requires
        total > 0,
    ensures
        report == (Progress { done: total, total }),
        report.wf(),
{
    Progress { done: total, total }
}

/// Reports never go back: a later branch attempt reports no smaller a
/// fraction than an earlier one, and every fraction lies between zero and
/// one.
pub proof fn lemma_progress_is_monotone(earlier: u64, later: u64, total: u64)
    requires
        earlier <= later,
        total > 0,
    ensures
        progress_at(earlier, total).wf(),
        progress_at(later, total).wf(),
        progress_at(earlier, total).total == progress_at(later, total).total,
        progress_at(earlier, total).done <= progress_at(later, total).done,
{
}

} // verus!
