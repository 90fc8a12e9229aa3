use vstd::prelude::*;
use std::sync::Arc;
use std::sync::Mutex;
use std::sync::atomic::AtomicBool;
use std::time::Duration;
use std::time::Instant;
use crate::limits::SearchLimits;

verus! {

#[verifier::external_type_specification]
#[verifier::external_body]
#[verifier::reject_recursive_types(T)]
pub struct ExMutex<T: ?Sized>(Mutex<T>);

#[verifier::external_type_specification]
#[verifier::external_body]
pub struct ExInstant(Instant);

/// The instant behind the lock (`Mutex::lock`, copying the guarded value
/// out); `None` when the lock is poisoned. Another thread may reset the
/// instant at any time, so nothing is stated of the result.
#[verifier::external_body]
fn locked_instant(start: &Arc<Mutex<Instant>>) -> Option<Instant> {
    match start.lock() {
        Ok(s) => Some(*s),
        Err(_) => None,
    }
}

/// The time since an instant (`Instant::elapsed`). It depends on the clock,
/// so nothing is stated of it.
#[verifier::external_body]
fn time_since(start: Instant) -> Duration {
    start.elapsed()
}

/// The whole milliseconds of a duration (`Duration::as_millis`). A duration
/// is opaque here, so nothing is stated of the result.
#[verifier::external_body]
fn whole_millis(d: Duration) -> u128 {
    d.as_millis()
}

/// Reads a shared flag (`AtomicBool::load`, relaxed). Another thread may
/// set it at any time, so nothing is stated of the result.
#[verifier::external_body]
fn read_flag(flag: &Arc<AtomicBool>) -> bool {
    flag.load(std::sync::atomic::Ordering::Relaxed)
}

/// Whether a search must stop: when told to; never while pondering or
/// searching without limits; otherwise once the node or time budget is used up.
pub open spec fn spec_stop_decision(
    stopped: bool,
    pondering: bool,
    limits: SearchLimits,
    nodes: u64,
    elapsed_ms: u64,
) -> bool {
    if stopped {
        true
    } else if pondering || limits.infinite {
        false
    } else {
        (limits.max_nodes matches Some(n) && nodes >= n) || (limits.max_time_ms matches Some(t)
            && elapsed_ms >= t)
    }
}

/// The estimated duration of the next, deeper iteration: two and a half
/// times the last one (rounded down, saturating).
pub open spec fn spec_next_iteration_estimate(last_ms: u64) -> int {
    let e = (last_ms as int) * 5 / 2;
    if e > u64::MAX {
        u64::MAX as int
    } else {
        e
    }
}

/// Whether another iteration fits the time budget: always while pondering
/// or without a time limit, otherwise when the remaining time covers the
/// estimated iteration.
pub open spec fn spec_iteration_fits(
    pondering: bool,
    limits: SearchLimits,
    elapsed_ms: u64,
    last_ms: u64,
) -> bool {
    if pondering || limits.infinite {
        true
    } else {
        match limits.max_time_ms {
            Some(t) => (if t >= elapsed_ms {
                t - elapsed_ms
            } else {
                0
            }) >= spec_next_iteration_estimate(last_ms),
            None => true,
        }
    }
}

/// Decides whether a search must stop, from the stop flag, the ponder flag,
/// the limits, the node count and the elapsed time.
pub fn stop_decision(stopped: bool, pondering: bool, limits: &SearchLimits, nodes: u64, elapsed_ms: u64) -> (r: bool)
    ensures
        r == spec_stop_decision(stopped, pondering, *limits, nodes, elapsed_ms),
{
    if stopped {
        return true;
    }
    if pondering || limits.infinite {
        return false;
    }
    if let Some(max_nodes) = limits.max_nodes {
        if nodes >= max_nodes {
            return true;
        }
    }
    if let Some(max_time_ms) = limits.max_time_ms {
        if elapsed_ms >= max_time_ms {
            return true;
        }
    }
    false
}

/// The estimated duration of the next iteration.
pub fn next_iteration_estimate(last_ms: u64) -> (r: u64)
    ensures
        r == spec_next_iteration_estimate(last_ms),
{
    let half = last_ms / 2;
    if half > (u64::MAX - 5) / 5 {
        return u64::MAX;
    }
    let e = half * 5 + (last_ms % 2) * 5 / 2;
    e
}

/// Decides whether another iteration fits the time budget.
pub fn iteration_fits(pondering: bool, limits: &SearchLimits, elapsed_ms: u64, last_ms: u64) -> (r: bool)
    ensures
        r == spec_iteration_fits(pondering, *limits, elapsed_ms, last_ms),
{
    if pondering || limits.infinite {
        return true;
    }
    match limits.max_time_ms {
        Some(max_time_ms) => {
            let remaining = max_time_ms.saturating_sub(elapsed_ms);
            remaining >= next_iteration_estimate(last_ms)
        },
        None => true,
    }
}

/// Statistics of a running search.
pub struct SearchStats {
    pub nodes: u64,
    pub search_start: Arc<Mutex<Instant>>,
    pub ponder_flag: Arc<AtomicBool>,
    pub current_depth: u64,
}

impl SearchStats {
    /// Fresh statistics for a search that started at `search_start`.
    pub fn new(search_start: Arc<Mutex<Instant>>, ponder_flag: Arc<AtomicBool>) -> (r: Self)
        ensures
            r.nodes == 0,
            r.current_depth == 0,
            r.search_start == search_start,
            r.ponder_flag == ponder_flag,
    {
        SearchStats { nodes: 0, search_start, ponder_flag, current_depth: 0 }
    }

    /// Counts one more node.
    pub fn increment_nodes(&mut self)
        requires
            old(self).nodes < u64::MAX,
        ensures
            final(self).nodes == old(self).nodes + 1,
            final(self).current_depth == old(self).current_depth,
            final(self).search_start == old(self).search_start,
            final(self).ponder_flag == old(self).ponder_flag,
    {
        self.nodes = self.nodes + 1;
    }

    /// Milliseconds since the search started (0 when the lock on its start
    /// is poisoned).
    pub fn get_elapsed_ms(&self) -> u64 {
        match locked_instant(&self.search_start) {
            Some(start) => whole_millis(time_since(start)) as u64,
            None => 0,
        }
    }

    /// Whether the search is pondering.
    pub fn is_pondering(&self) -> bool {
        read_flag(&self.ponder_flag)
    }

    /// Whether the search must stop now (see `stop_decision`, applied to the
    /// flags and the clock as read here).
    pub fn should_stop(&self, limits: &SearchLimits, stop_flag: &Arc<AtomicBool>) -> (r: bool)
        ensures
            exists|stopped: bool, pondering: bool, elapsed: u64|
                r == #[trigger] spec_stop_decision(stopped, pondering, *limits, self.nodes, elapsed),
    {
        let stopped = read_flag(stop_flag);
        if stopped {
            assert(spec_stop_decision(true, false, *limits, self.nodes, 0));
            return true;
        }
        let pondering = self.is_pondering();
        let elapsed = if pondering || limits.infinite || limits.max_time_ms.is_none() {
            0
        } else {
            self.get_elapsed_ms()
        };
        stop_decision(stopped, pondering, limits, self.nodes, elapsed)
    }

    /// Whether another, deeper iteration fits the time budget (see
    /// `iteration_fits`, applied to the ponder flag and the clock as read here).
    pub fn has_time_for_iteration(&self, limits: &SearchLimits, last_iteration_ms: u64) -> (r: bool)
        ensures
            exists|pondering: bool, elapsed: u64|
                r == #[trigger] spec_iteration_fits(pondering, *limits, elapsed, last_iteration_ms),
            limits.infinite || limits.max_time_ms is None ==> r,
    {
        let pondering = self.is_pondering();
        let elapsed = if pondering || limits.infinite || limits.max_time_ms.is_none() {
            0
        } else {
            self.get_elapsed_ms()
        };
        iteration_fits(pondering, limits, elapsed, last_iteration_ms)
    }
}


/// A stop request always stops the search.
pub proof fn lemma_stop_requested(pondering: bool, limits: SearchLimits, nodes: u64, elapsed_ms: u64)
    ensures
        spec_stop_decision(true, pondering, limits, nodes, elapsed_ms),
{
}

/// Without a stop request, a pondering or infinite search never stops on
/// its limits.
pub proof fn lemma_no_limits_while_pondering(pondering: bool, limits: SearchLimits, nodes: u64, elapsed_ms: u64)
    requires
        pondering || limits.infinite,
    ensures
        !spec_stop_decision(false, pondering, limits, nodes, elapsed_ms),
{
}

/// A used-up time budget stops a limited search, whatever its node limit.
pub proof fn lemma_time_budget_stops(limits: SearchLimits, nodes: u64, elapsed_ms: u64)
    requires
        !limits.infinite,
        limits.max_time_ms matches Some(t) && elapsed_ms >= t,
    ensures
        spec_stop_decision(false, false, limits, nodes, elapsed_ms),
{
}

/// A used-up node budget stops a limited search, whatever its time limit.
pub proof fn lemma_node_budget_stops(limits: SearchLimits, nodes: u64, elapsed_ms: u64)
    requires
        !limits.infinite,
        limits.max_nodes matches Some(n) && nodes >= n,
    ensures
        spec_stop_decision(false, false, limits, nodes, elapsed_ms),
{
}

/// A limited search with neither budget used up goes on.
pub proof fn lemma_budgets_left_continue(limits: SearchLimits, nodes: u64, elapsed_ms: u64)
    requires
        limits.max_nodes matches Some(n) ==> nodes < n,
        limits.max_time_ms matches Some(t) ==> elapsed_ms < t,
    ensures
        !spec_stop_decision(false, false, limits, nodes, elapsed_ms),
{
}

} // verus!
