//! Daemon-run history: which prior runs ended without a clean shutdown.
//!
//! Every daemon process records one run; a run whose stop time is still
//! missing when the next process starts died without a clean shutdown.
//! The trailing streak of such runs (newest first, up to the first clean
//! one) is the crash history that drives the startup backoff.

use vstd::prelude::*;

verus! {

/// Run rows kept; older ones are pruned when a run begins.
pub const KEEP_RUNS: i64 = 200;

/// Crash history computed when a run begins, describing the runs before it.
#[derive(Debug, Clone, Copy, PartialEq, Eq, Structural)]
pub struct DaemonRunStats {
    /// Id of the run just recorded; grows over the daemon's lifetime.
    pub run_id: i64,
    /// Immediately preceding runs that ended without a clean shutdown.
    pub consecutive_unclean: u32,
    /// Start time of the most recent unclean run, if any.
    pub last_crash_unix: Option<i64>,
}

impl DaemonRunStats {
    pub fn default_stats() -> (s: DaemonRunStats)
        ensures
            s.run_id == 0,
            s.consecutive_unclean == 0,
            s.last_crash_unix is None,
    {
        DaemonRunStats { run_id: 0, consecutive_unclean: 0, last_crash_unix: None }
    }
}

/// One recorded run, as read back.
#[derive(Debug, Clone, Copy, PartialEq, Eq, Structural)]
pub struct RunRecord {
    pub started_at: i64,
    pub stopped_at: Option<i64>,
}

/// The number of leading (newest) runs that never stopped cleanly.
pub open spec fn unclean_streak(runs: Seq<RunRecord>) -> nat
    decreases runs.len(),
{
    if runs.len() == 0 || runs[0].stopped_at is Some {
        0
    } else {
        1 + unclean_streak(runs.drop_first())
    }
}

/// The streak as it is counted (saturating at `u32::MAX`) and the start of
/// the newest unclean run.
pub open spec fn crash_history_spec(runs: Seq<RunRecord>) -> (u32, Option<i64>) {
    let n = unclean_streak(runs);
    (
        if n <= u32::MAX { n as u32 } else { u32::MAX },
        if n > 0 { Some(runs[0].started_at) } else { None },
    )
}

proof fn lemma_streak_prefix(runs: Seq<RunRecord>, i: int)
    requires
        0 <= i <= runs.len(),
        forall|j: int| 0 <= j < i ==> #[trigger] runs[j].stopped_at is None,
    ensures
        unclean_streak(runs) == i + unclean_streak(runs.subrange(i, runs.len() as int)),
    decreases i,
{
    if i == 0 {
        assert(runs.subrange(0, runs.len() as int) =~= runs);
    } else {
        lemma_streak_prefix(runs.drop_first(), i - 1);
        assert(runs.drop_first().subrange(i - 1, runs.drop_first().len() as int) =~= runs.subrange(i, runs.len() as int));
    }
}

/// Counts the trailing streak of unclean runs in `runs` (newest first),
/// stopping at the first cleanly stopped run, and remembers when the most
/// recent crash started.
pub fn crash_history(runs: &Vec<RunRecord>) -> (r: (u32, Option<i64>))
    ensures
        r == crash_history_spec(runs@),
{
    let mut consecutive: u32 = 0;
    let mut last_crash: Option<i64> = None;
    let mut i: usize = 0;
    while i < runs.len()
        invariant_except_break
            i <= runs.len(),
            forall|j: int| 0 <= j < i ==> #[trigger] runs@[j].stopped_at is None,
            consecutive == if i <= u32::MAX { i as u32 } else { u32::MAX },
            last_crash == if i > 0 { Some(runs@[0].started_at) } else { None::<i64> },
        ensures
            i <= runs.len(),
            forall|j: int| 0 <= j < i ==> #[trigger] runs@[j].stopped_at is None,
            i == runs.len() || runs@[i as int].stopped_at is Some,
            consecutive == if i <= u32::MAX { i as u32 } else { u32::MAX },
            last_crash == if i > 0 { Some(runs@[0].started_at) } else { None::<i64> },
        decreases runs.len() - i,
    {
        if runs[i].stopped_at.is_some() {
            break;
        }
        consecutive = consecutive.saturating_add(1);
        if last_crash.is_none() {
            last_crash = Some(runs[i].started_at);
        }
        i += 1;
    }
    proof {
        lemma_streak_prefix(runs@, i as int);
    }
    (consecutive, last_crash)
}

/// A cleanly stopped run breaks the streak: no run at or after the first
/// clean one is counted.
pub proof fn clean_run_breaks_streak(runs: Seq<RunRecord>, i: int)
    requires
        0 <= i < runs.len(),
        runs[i].stopped_at is Some,
    ensures
        unclean_streak(runs) <= i,
    decreases i,
{
    if i > 0 && runs[0].stopped_at is None {
        clean_run_breaks_streak(runs.drop_first(), i - 1);
    }
}

/// With no run recorded (the first start), nothing counts as a crash.
pub proof fn first_run_has_no_crashes()
    ensures
        crash_history_spec(Seq::<RunRecord>::empty()) == (0u32, None::<i64>),
{
}

} // verus!

verus! {

/// The crash history counts every leading run that never stopped: when the
/// first `n` runs (newest first) have no stop time and the next one, if
/// any, stopped cleanly, the count is `n` (saturating only at `u32::MAX`)
/// and the last crash is the newest run's start.
pub proof fn crash_count_is_the_unclean_streak(runs: Seq<RunRecord>, n: int)
    requires
        0 <= n <= runs.len(),
        forall|j: int| 0 <= j < n ==> (#[trigger] runs[j]).stopped_at is None,
        n == runs.len() || runs[n].stopped_at is Some,
    ensures
        crash_history_spec(runs).0 == (if n <= u32::MAX { n } else { u32::MAX as int }),
        crash_history_spec(runs).1 == (if n > 0 { Some(runs[0].started_at) } else { None::<i64> }),
{
    lemma_streak_prefix(runs, n);
    let rest = runs.subrange(n, runs.len() as int);
    if n < runs.len() {
        assert(rest[0] == runs[n]);
    }
    assert(unclean_streak(rest) == 0);
}

} // verus!
