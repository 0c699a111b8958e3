//! Startup crash-loop backoff.
//!
//! The first few crashes restart at once; once at least
//! [`CRASH_LOOP_THRESHOLD`] consecutive runs ended uncleanly, and the newest
//! of them is recent, startup waits, doubling from
//! [`CRASH_BACKOFF_BASE_SECS`] per extra crash up to
//! [`CRASH_BACKOFF_CAP_SECS`].

use vstd::prelude::*;

use crate::daemon::DaemonRunStats;
use crate::text::{chars_of, copy_chars, string_from_chars, trim_bounds, trim_spec, trimmed};

verus! {

/// Consecutive unclean shutdowns before startup backs off.
pub const CRASH_LOOP_THRESHOLD: u32 = 3;

/// Backoff once the threshold is reached, in seconds.
pub const CRASH_BACKOFF_BASE_SECS: u64 = 5;

/// Ceiling of the backoff, in seconds.
pub const CRASH_BACKOFF_CAP_SECS: u64 = 300;

/// Only a crash this recent (in seconds) counts toward a loop.
pub const CRASH_WINDOW_SECS: u64 = 600;

/// Largest doubling exponent applied.
pub const MAX_BACKOFF_EXPONENT: u32 = 16;

pub open spec fn pow2(e: nat) -> nat
    decreases e,
{
    if e == 0 { 1 } else { 2 * pow2((e - 1) as nat) }
}

/// The startup delay, in seconds, for the given crash history at `now`.
pub open spec fn crash_backoff_spec(consecutive_unclean: u32, last_crash_unix: Option<i64>, now_unix: i64) -> nat {
    if consecutive_unclean < CRASH_LOOP_THRESHOLD {
        0
    } else {
        match last_crash_unix {
            Some(last) => if now_unix - last <= CRASH_WINDOW_SECS {
                let extra = consecutive_unclean - CRASH_LOOP_THRESHOLD;
                let exp = if extra <= MAX_BACKOFF_EXPONENT { extra } else { MAX_BACKOFF_EXPONENT as int };
                let grown = CRASH_BACKOFF_BASE_SECS * pow2(exp as nat);
                if grown <= CRASH_BACKOFF_CAP_SECS { grown as nat } else { CRASH_BACKOFF_CAP_SECS as nat }
            } else {
                0
            },
            None => 0,
        }
    }
}

proof fn lemma_pow2_mono(a: nat, b: nat)
    requires
        a <= b,
    ensures
        pow2(a) <= pow2(b),
        pow2(a) >= 1,
    decreases b,
{
    if a < b {
        lemma_pow2_mono(a, (b - 1) as nat);
    } else if a > 0 {
        lemma_pow2_mono((a - 1) as nat, (a - 1) as nat);
    }
}

/// How long to sleep at startup, in seconds, given the preceding crash
/// history: zero unless at least [`CRASH_LOOP_THRESHOLD`] consecutive
/// unclean shutdowns happened and the newest is within
/// [`CRASH_WINDOW_SECS`] of `now_unix`; else the base doubled per extra
/// crash, capped.
pub fn crash_backoff(stats: &DaemonRunStats, now_unix: i64) -> (secs: u64)
    ensures
        secs == crash_backoff_spec(stats.consecutive_unclean, stats.last_crash_unix, now_unix),
        secs <= CRASH_BACKOFF_CAP_SECS,
{
    if stats.consecutive_unclean < CRASH_LOOP_THRESHOLD {
        return 0;
    }
    let recent = match stats.last_crash_unix {
        Some(last) => (now_unix as i128) - (last as i128) <= CRASH_WINDOW_SECS as i128,
        None => false,
    };
    if !recent {
        return 0;
    }
    let extra = stats.consecutive_unclean - CRASH_LOOP_THRESHOLD;
    let exp = if extra <= MAX_BACKOFF_EXPONENT { extra } else { MAX_BACKOFF_EXPONENT };
    let mut factor: u64 = 1;
    let mut i: u32 = 0;
    while i < exp
        invariant
            i <= exp <= MAX_BACKOFF_EXPONENT,
            factor == pow2(i as nat),
            factor <= 65536,
        decreases exp - i,
    {
        proof {
            lemma_pow2_mono((i + 1) as nat, MAX_BACKOFF_EXPONENT as nat);
            reveal_with_fuel(pow2, 17);
            assert(pow2(16) == 65536);
        }
        factor = factor * 2;
        i += 1;
    }
    let grown = CRASH_BACKOFF_BASE_SECS * factor;
    if grown <= CRASH_BACKOFF_CAP_SECS { grown } else { CRASH_BACKOFF_CAP_SECS }
}

/// The backoff never exceeds its cap, and it never shrinks as the crash
/// streak grows (for the same newest crash and time).
pub proof fn backoff_bounded_and_monotone(c1: u32, c2: u32, last: Option<i64>, now: i64)
    requires
        c1 <= c2,
    ensures
        crash_backoff_spec(c1, last, now) <= CRASH_BACKOFF_CAP_SECS,
        crash_backoff_spec(c1, last, now) <= crash_backoff_spec(c2, last, now),
{
    if c1 >= CRASH_LOOP_THRESHOLD {
        let e1 = c1 - CRASH_LOOP_THRESHOLD;
        let e2 = c2 - CRASH_LOOP_THRESHOLD;
        let x1: nat = if e1 <= MAX_BACKOFF_EXPONENT { e1 as nat } else { MAX_BACKOFF_EXPONENT as nat };
        let x2: nat = if e2 <= MAX_BACKOFF_EXPONENT { e2 as nat } else { MAX_BACKOFF_EXPONENT as nat };
        lemma_pow2_mono(x1, x2);
    }
}

/// A stale crash, or a missing crash time, never delays startup.
pub proof fn stale_crash_does_not_back_off(c: u32, last: i64, now: i64)
    ensures
        now - last > CRASH_WINDOW_SECS ==> crash_backoff_spec(c, Some(last), now) == 0,
        crash_backoff_spec(c, None, now) == 0,
{
}

} // verus!

verus! {

/// The daemon's health as it is reported to clients.
#[derive(Debug, Clone, Copy, PartialEq, Eq, Structural)]
pub struct DaemonHealth {
    /// The id of this run: how many runs have been recorded.
    pub restart_count: i64,
    pub consecutive_crashes: u32,
    pub last_crash_unix: Option<i64>,
    /// Whether startup backed off because of a crash loop.
    pub in_crash_loop: bool,
    /// When the startup backoff ends, if there is one.
    pub backoff_until_unix: Option<i64>,
}

/// The health of a run that started at `now_unix` with the given crash
/// history.
pub fn daemon_health(stats: &DaemonRunStats, now_unix: i64) -> (h: DaemonHealth)
    requires
        now_unix + CRASH_BACKOFF_CAP_SECS <= i64::MAX,
    ensures
        ({
            let b = crash_backoff_spec(stats.consecutive_unclean, stats.last_crash_unix, now_unix);
            &&& h.restart_count == stats.run_id
            &&& h.consecutive_crashes == stats.consecutive_unclean
            &&& h.last_crash_unix == stats.last_crash_unix
            &&& h.in_crash_loop == (b > 0)
            &&& h.backoff_until_unix == if b == 0 { None } else { Some((now_unix + b) as i64) }
        }),
{
    let b = crash_backoff(stats, now_unix);
    let until = if b == 0 {
        None
    } else {
        Some(now_unix + b as i64)
    };
    DaemonHealth {
        restart_count: stats.run_id,
        consecutive_crashes: stats.consecutive_unclean,
        last_crash_unix: stats.last_crash_unix,
        in_crash_loop: b != 0,
        backoff_until_unix: until,
    }
}

/// The address text the local tool server binds to: the override when it
/// holds more than whitespace, else the configured address; trimmed.
pub open spec fn mcp_bind_spec(override_value: Option<Seq<char>>, configured: Seq<char>) -> Seq<char> {
    match override_value {
        Some(o) => if trim_spec(o).len() > 0 { trim_spec(o) } else { trim_spec(configured) },
        None => trim_spec(configured),
    }
}

/// Chooses the bind address text from the environment override and the
/// configured value.
pub fn mcp_bind_text(override_value: Option<&str>, configured: &str) -> (r: String)
    ensures
        r@ == mcp_bind_spec(
            match override_value { Some(o) => Some(o@), None => None },
            configured@,
        ),
{
    match override_value {
        Some(o) => {
            let v = chars_of(o);
            let (a, b) = trim_bounds(&v);
            if a < b {
                let t = copy_chars(&v, a, b);
                string_from_chars(t.as_slice())
            } else {
                trimmed(configured)
            }
        },
        None => trimmed(configured),
    }
}

} // verus!
