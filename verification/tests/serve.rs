use scryd::daemon::{crash_history, DaemonRunStats, RunRecord};
use scryd::serve::{crash_backoff, daemon_health, mcp_bind_text, CRASH_BACKOFF_BASE_SECS, CRASH_BACKOFF_CAP_SECS, CRASH_WINDOW_SECS};
use std::time::Duration;

fn stats(consecutive_unclean: u32, last_crash_unix: Option<i64>) -> DaemonRunStats {
    DaemonRunStats { run_id: 1, consecutive_unclean, last_crash_unix }
}

fn backoff(s: &DaemonRunStats, now: i64) -> Duration {
    Duration::from_secs(crash_backoff(s, now))
}

#[test]
fn no_backoff_below_threshold() {
    let now = 1_000_000;
    assert_eq!(backoff(&stats(0, None), now), Duration::ZERO);
    assert_eq!(backoff(&stats(2, Some(now)), now), Duration::ZERO);
}

#[test]
fn backoff_grows_exponentially_from_threshold() {
    let now = 1_000_000;
    assert_eq!(backoff(&stats(3, Some(now)), now), Duration::from_secs(CRASH_BACKOFF_BASE_SECS));
    assert_eq!(backoff(&stats(4, Some(now)), now), Duration::from_secs(10));
    assert_eq!(backoff(&stats(5, Some(now)), now), Duration::from_secs(20));
}

#[test]
fn backoff_is_capped() {
    let now = 1_000_000;
    assert_eq!(backoff(&stats(100, Some(now)), now), Duration::from_secs(CRASH_BACKOFF_CAP_SECS));
}

#[test]
fn old_crash_outside_window_does_not_back_off() {
    let now = 2_000_000;
    let stale = now - CRASH_WINDOW_SECS as i64 - 1;
    assert_eq!(backoff(&stats(9, Some(stale)), now), Duration::ZERO);
}

#[test]
fn missing_last_crash_does_not_back_off() {
    let now = 1_000_000;
    assert_eq!(backoff(&stats(9, None), now), Duration::ZERO);
}

#[test]
fn crash_at_window_edge_still_counts() {
    let now = 2_000_000;
    assert_eq!(crash_backoff(&stats(3, Some(now - 600)), now), 5);
    assert_eq!(crash_backoff(&stats(9, Some(now)), now), 300);
}

fn run(started: i64, stopped: Option<i64>) -> RunRecord {
    RunRecord { started_at: started, stopped_at: stopped }
}

#[test]
fn first_run_has_no_prior_crashes() {
    assert_eq!(crash_history(&Vec::new()), (0, None));
}

#[test]
fn clean_shutdown_does_not_count_as_crash() {
    assert_eq!(crash_history(&vec![run(10, Some(20))]), (0, None));
}

#[test]
fn unclean_runs_accumulate_consecutive_count() {
    let runs = vec![run(30, None), run(20, None), run(10, None)];
    assert_eq!(crash_history(&runs), (3, Some(30)));
}

#[test]
fn a_clean_run_resets_the_streak() {
    let runs = vec![run(40, None), run(30, Some(35)), run(20, None), run(10, None)];
    assert_eq!(crash_history(&runs), (1, Some(40)));
}

#[test]
fn daemon_health_reports_the_backoff_window() {
    let looping = DaemonRunStats { run_id: 9, consecutive_unclean: 4, last_crash_unix: Some(1_000_000) };
    let h = daemon_health(&looping, 1_000_100);
    assert_eq!(h.restart_count, 9);
    assert_eq!(h.consecutive_crashes, 4);
    assert_eq!(h.last_crash_unix, Some(1_000_000));
    assert!(h.in_crash_loop);
    assert_eq!(h.backoff_until_unix, Some(1_000_110));
    let calm = DaemonRunStats { run_id: 2, consecutive_unclean: 1, last_crash_unix: Some(1_000_000) };
    let h2 = daemon_health(&calm, 1_000_100);
    assert!(!h2.in_crash_loop);
    assert_eq!(h2.backoff_until_unix, None);
}

#[test]
fn bind_override_wins_unless_blank() {
    assert_eq!(mcp_bind_text(Some(" 127.0.0.1:9000 "), "127.0.0.1:7878"), "127.0.0.1:9000");
    assert_eq!(mcp_bind_text(Some("  \t"), " 127.0.0.1:7878\n"), "127.0.0.1:7878");
    assert_eq!(mcp_bind_text(None, "[::1]:7878"), "[::1]:7878");
}
