//! The index queue: its rows, its health summary, and the failure rule.
//!
//! Each failed attempt increments a row's attempt count; the row is flagged
//! permanently failed once the count reaches the ceiling, after which it is
//! no longer drained.

use vstd::prelude::*;

verus! {

/// One row of the index queue.
#[derive(Debug, Clone, PartialEq, Eq)]
pub struct IndexQueueRow {
    pub message_id: String,
    pub attempts: u32,
    pub last_error: Option<String>,
    pub queued_at: i64,
    pub failed_permanent: bool,
}

/// Aggregate health of the queue.
#[derive(Debug, Clone, PartialEq, Eq)]
pub struct QueueHealth {
    /// Rows still drainable.
    pub depth: i64,
    /// Rows that reached the permanent-failure ceiling.
    pub failed_permanent: i64,
    /// The most recent per-item failure, if any.
    pub last_error: Option<QueueLastError>,
}

/// The most recently failed row.
#[derive(Debug, Clone, PartialEq, Eq)]
pub struct QueueLastError {
    pub message_id: String,
    pub error: String,
    pub attempts: u32,
}

impl QueueHealth {
    pub fn empty() -> (h: QueueHealth)
        ensures
            h.depth == 0,
            h.failed_permanent == 0,
            h.last_error is None,
    {
        QueueHealth { depth: 0, failed_permanent: 0, last_error: None }
    }
}

/// A failed attempt on a row with `prev_attempts` attempts: the new count,
/// and whether the row is now permanently failed.
pub open spec fn failure_step(prev_attempts: int, max_attempts: int) -> (int, bool) {
    (prev_attempts + 1, prev_attempts + 1 >= max_attempts)
}

/// Records one failed attempt: the new attempt count and whether it
/// reaches `max_attempts`.
pub fn record_failure(prev_attempts: i64, max_attempts: u32) -> (r: (i64, bool))
    requires
        prev_attempts < i64::MAX,
    ensures
        (r.0 as int, r.1) == failure_step(prev_attempts as int, max_attempts as int),
{
    let new_attempts = prev_attempts + 1;
    (new_attempts, new_attempts >= max_attempts as i64)
}

/// The attempt count after `k` failures of a fresh row.
pub open spec fn attempts_after(k: nat, max_attempts: int) -> int
    decreases k,
{
    if k == 0 { 0 } else { failure_step(attempts_after((k - 1) as nat, max_attempts), max_attempts).0 }
}

/// A fresh row becomes permanently failed exactly at its
/// `max_attempts`-th failure, and not before.
pub proof fn permanent_exactly_at_max_attempts(k: nat, max_attempts: nat)
    requires
        k >= 1,
    ensures
        attempts_after(k, max_attempts as int) == k,
        failure_step(attempts_after((k - 1) as nat, max_attempts as int), max_attempts as int).1 <==> k >= max_attempts,
    decreases k,
{
    if k > 1 {
        permanent_exactly_at_max_attempts((k - 1) as nat, max_attempts);
    } else {
        reveal_with_fuel(attempts_after, 2);
    }
}

} // verus!
