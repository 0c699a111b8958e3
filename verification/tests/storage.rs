use scryd::accounts::AccountRow;
use scryd::daemon::{crash_history, RunRecord};
use scryd::messages::thread_candidates;
use scryd::migrations::{latest_version, migrations, pending_migrations, SCHEMA_VERSION_SQL};
use scryd::queue::record_failure;
use scryd::reconcile::{reconcile_accounts, AccountSnapshot};
use scryd::sync_state::{AccountHealth, InvalidHealth, SyncStateRow, SyncStateUpdate};
use std::str::FromStr;

#[test]
fn account_health_round_trips_through_string() {
    for h in [
        AccountHealth::Unknown,
        AccountHealth::Active,
        AccountHealth::Degraded,
        AccountHealth::AuthRejected,
        AccountHealth::QuotaExceeded,
        AccountHealth::Unreachable,
        AccountHealth::TlsFailed,
    ] {
        let s = h.as_str().to_string();
        let parsed = AccountHealth::from_str(&s).unwrap();
        assert_eq!(parsed, h, "round-trip failed for {h:?} → {s:?}");
    }
}

#[test]
fn account_health_rejects_unknown_string() {
    assert!(AccountHealth::from_str("garbage").is_err());
    assert_eq!(
        AccountHealth::parse("garbage"),
        Err(InvalidHealth("garbage".to_string()))
    );
}

#[test]
fn unknown_stored_health_reads_as_unknown() {
    assert_eq!(AccountHealth::from_column("tls-failed"), AccountHealth::TlsFailed);
    assert_eq!(AccountHealth::from_column("sideways"), AccountHealth::Unknown);
    assert_eq!(AccountHealth::from_reported(Some("active")), Some(AccountHealth::Active));
    assert_eq!(AccountHealth::from_reported(Some("sideways")), None);
    assert_eq!(AccountHealth::from_reported(None), None);
}

#[test]
fn merge_update_only_writes_set_fields() {
    let row = SyncStateRow::fresh("primary".to_string(), "INBOX".to_string());
    let mut u = SyncStateUpdate::empty();
    u.uidvalidity = Some(42);
    u.last_seen_uid = Some(100);
    let row = row.apply(u);
    assert_eq!(row.uidvalidity, Some(42));
    assert_eq!(row.last_seen_uid, 100);

    let mut u2 = SyncStateUpdate::empty();
    u2.last_idle_at = Some(1_700_000_000);
    u2.account_health = Some(AccountHealth::Active);
    let row2 = row.apply(u2);
    assert_eq!(row2.uidvalidity, Some(42), "uidvalidity preserved");
    assert_eq!(row2.last_seen_uid, 100);
    assert_eq!(row2.last_idle_at, Some(1_700_000_000));
    assert_eq!(row2.account_health, AccountHealth::Active);
    assert_eq!(row2.account_id, "primary");
    assert_eq!(row2.folder, "INBOX");

    let mut u3 = SyncStateUpdate::empty();
    u3.last_error = Some(Some("boom".to_string()));
    u3.backoff_until = Some(Some(5));
    let row3 = row2.apply(u3);
    assert_eq!(row3.last_error.as_deref(), Some("boom"));
    assert_eq!(row3.backoff_until, Some(5));
    let mut u4 = SyncStateUpdate::empty();
    u4.last_error = Some(None);
    let row4 = row3.apply(u4);
    assert_eq!(row4.last_error, None);
    assert_eq!(row4.backoff_until, Some(5));
}

#[test]
fn mark_failed_increments_until_permanent() {
    assert_eq!(record_failure(0, 3), (1, false));
    assert_eq!(record_failure(1, 3), (2, false));
    assert_eq!(record_failure(2, 3), (3, true));
    assert_eq!(record_failure(7, 3), (8, true));
}

fn run(started_at: i64, stopped_at: Option<i64>) -> RunRecord {
    RunRecord { started_at, stopped_at }
}

#[test]
fn crash_history_of_no_runs_is_empty() {
    assert_eq!(crash_history(&Vec::new()), (0, None));
}

#[test]
fn clean_prior_run_is_not_a_crash() {
    assert_eq!(crash_history(&vec![run(10, Some(20))]), (0, None));
}

#[test]
fn unclean_runs_count_until_the_first_clean_one() {
    // Newest first.
    let runs = vec![run(50, None), run(40, None), run(30, Some(35)), run(20, None)];
    assert_eq!(crash_history(&runs), (2, Some(50)));
}

fn account(id: &str, host: &str, active: bool) -> AccountRow {
    AccountRow {
        account_id: id.to_string(),
        host: host.to_string(),
        port: 993,
        username: format!("alice@{host}"),
        folders: vec!["INBOX".to_string()],
        active,
        mirrored_at: 1,
    }
}

fn snapshot(id: &str, host: &str) -> AccountSnapshot {
    AccountSnapshot::from_config(
        id.to_string(),
        host.to_string(),
        993,
        format!("alice@{host}"),
        None,
    )
}

#[test]
fn reconcile_inserts_new_accounts() {
    let (rows, diff) = reconcile_accounts(
        Vec::new(),
        &vec![snapshot("primary", "imap.example.com"), snapshot("work", "imap.work.com")],
        100,
    );
    assert_eq!(diff.added, vec!["primary".to_string(), "work".to_string()]);
    assert!(diff.updated.is_empty());
    assert!(diff.inactivated.is_empty());
    assert_eq!(rows.len(), 2);
    assert!(rows.iter().all(|r| r.active && r.mirrored_at == 100));
    assert_eq!(rows[0].folders, vec!["INBOX".to_string()]);
}

#[test]
fn reconcile_inactivates_removed_accounts() {
    let existing = vec![
        account("primary", "imap.example.com", true),
        account("work", "imap.work.com", true),
    ];
    let (rows, diff) = reconcile_accounts(existing, &vec![snapshot("primary", "imap.example.com")], 200);
    assert!(diff.added.is_empty());
    assert!(diff.updated.is_empty());
    assert_eq!(diff.inactivated, vec!["work".to_string()]);
    assert_eq!(rows.len(), 2, "inactivated account should be retained");
    let work = rows.iter().find(|a| a.account_id == "work").unwrap();
    assert!(!work.active);
    let primary = rows.iter().find(|a| a.account_id == "primary").unwrap();
    assert!(primary.active);
}

#[test]
fn reconcile_marks_changed_accounts_updated() {
    let existing = vec![account("primary", "imap.old.com", true)];
    let mut snap = snapshot("primary", "imap.new.com");
    snap.username = "alice@imap.old.com".to_string();
    let (rows, diff) = reconcile_accounts(existing, &vec![snap], 300);
    assert_eq!(diff.updated, vec!["primary".to_string()]);
    assert_eq!(rows[0].host, "imap.new.com");
    assert_eq!(rows[0].mirrored_at, 300);
}

#[test]
fn reconcile_no_op_when_unchanged() {
    let existing = vec![account("primary", "imap.example.com", true)];
    let (_, diff) = reconcile_accounts(existing, &vec![snapshot("primary", "imap.example.com")], 400);
    assert!(diff.added.is_empty());
    assert!(diff.updated.is_empty());
    assert!(diff.inactivated.is_empty());
}

#[test]
fn thread_candidates_put_in_reply_to_first() {
    let refs = vec!["<a@x>".to_string(), "<b@x>".to_string()];
    assert_eq!(
        thread_candidates(Some("<b@x>"), &refs),
        vec!["<b@x>".to_string(), "<a@x>".to_string(), "<b@x>".to_string()]
    );
    assert!(thread_candidates(None, &Vec::new()).is_empty());
}

fn migrated_connection() -> rusqlite::Connection {
    let conn = rusqlite::Connection::open_in_memory().unwrap();
    conn.execute_batch("PRAGMA foreign_keys = ON;").unwrap();
    conn.execute_batch(SCHEMA_VERSION_SQL).unwrap();
    for m in pending_migrations(0) {
        conn.execute_batch(m.sql).unwrap();
        conn.execute(
            "INSERT INTO schema_version (version, applied_at) VALUES (?1, 0)",
            [m.version],
        )
        .unwrap();
    }
    conn
}

#[test]
fn fresh_db_records_latest_migration_version() {
    let conn = migrated_connection();
    let v: i64 = conn
        .query_row("SELECT MAX(version) FROM schema_version", [], |r| r.get(0))
        .unwrap();
    assert_eq!(v, latest_version() as i64);
    assert_eq!(latest_version(), 2);
}

#[test]
fn all_expected_tables_exist() {
    let conn = migrated_connection();
    let mut stmt = conn
        .prepare("SELECT name FROM sqlite_master WHERE type='table'")
        .unwrap();
    let tables: Vec<String> = stmt
        .query_map([], |r| r.get(0))
        .unwrap()
        .map(|r| r.unwrap())
        .collect();
    for required in [
        "accounts",
        "attachments",
        "daemon_runs",
        "index_queue",
        "messages",
        "schema_version",
        "sync_state",
    ] {
        assert!(
            tables.iter().any(|t| t == required),
            "table {required} missing; have {tables:?}"
        );
    }
}

#[test]
fn all_expected_indexes_exist() {
    let conn = migrated_connection();
    let mut stmt = conn
        .prepare(
            "SELECT name FROM sqlite_master \
             WHERE type='index' AND name NOT LIKE 'sqlite_autoindex_%' \
             ORDER BY name",
        )
        .unwrap();
    let indexes: Vec<String> = stmt
        .query_map([], |r| r.get(0))
        .unwrap()
        .map(|r| r.unwrap())
        .collect();
    for required in [
        "idx_attachments_message",
        "idx_daemon_runs_started",
        "idx_index_queue_drainer",
        "idx_messages_account",
        "idx_messages_date",
        "idx_messages_folder",
        "idx_messages_sender",
        "idx_messages_thread",
    ] {
        assert!(
            indexes.iter().any(|i| i == required),
            "index {required} missing; have {indexes:?}"
        );
    }
    assert!(
        indexes.len() >= 8,
        "expected at least 8 indexes, got {} ({indexes:?})",
        indexes.len()
    );
}

#[test]
fn unique_constraint_present_on_messages() {
    let conn = migrated_connection();
    let sql: String = conn
        .query_row(
            "SELECT sql FROM sqlite_master WHERE type='table' AND name='messages'",
            [],
            |r| r.get(0),
        )
        .unwrap();
    assert!(
        sql.contains("UNIQUE (account_id, folder, server_uid, uidvalidity)"),
        "unique constraint missing in messages DDL:\n{sql}"
    );
}

#[test]
fn reopen_does_not_reapply_migrations() {
    assert!(pending_migrations(latest_version() as i64).is_empty());
    let all = migrations();
    let from_one = pending_migrations(1);
    assert_eq!(from_one.len(), 1);
    assert_eq!(from_one[0].version, all[1].version);
}

#[test]
fn foreign_keys_enforced() {
    let conn = migrated_connection();
    let r = conn.execute(
        "INSERT INTO sync_state (account_id, folder) VALUES ('ghost', 'INBOX')",
        [],
    );
    assert!(r.is_err(), "FK enforcement absent: ghost account_id was accepted");
}

#[test]
fn index_queue_has_last_failed_at_column() {
    let conn = migrated_connection();
    let sql: String = conn
        .query_row(
            "SELECT sql FROM sqlite_master WHERE type='table' AND name='index_queue'",
            [],
            |r| r.get(0),
        )
        .unwrap();
    assert!(
        sql.contains("last_failed_at"),
        "v2 column missing in index_queue DDL:\n{sql}"
    );
}

#[test]
fn daemon_runs_run_id_autoincrements() {
    let conn = migrated_connection();
    let sql: String = conn
        .query_row(
            "SELECT sql FROM sqlite_master WHERE type='table' AND name='daemon_runs'",
            [],
            |r| r.get(0),
        )
        .unwrap();
    assert!(sql.contains("AUTOINCREMENT"));
}

#[test]
fn only_the_users_accounts_are_kept() {
    let mut other = snapshot("work", "imap.work.com");
    other.username = "bob@example.com".to_string();
    let mut mine = snapshot("primary", "imap.example.com");
    mine.username = "Alice@Example.COM".to_string();
    let mut accented = snapshot("odd", "imap.odd.com");
    accented.username = "ALİCE@example.com".to_string();
    let kept = scryd::reconcile::owned_by(vec![other, mine, accented], "alice@example.com");
    let ids: Vec<&str> = kept.iter().map(|a| a.id.as_str()).collect();
    assert_eq!(ids, vec!["primary"]);
}

#[test]
fn reconciling_twice_changes_nothing_the_second_time() {
    let existing = vec![account("old", "imap.old.com", true), account("primary", "imap.stale.com", false)];
    let configured = vec![snapshot("primary", "imap.example.com"), snapshot("work", "imap.work.com")];
    let (rows, first) = reconcile_accounts(existing, &configured, 10);
    assert_eq!(first.added, vec!["work".to_string()]);
    assert_eq!(first.updated, vec!["primary".to_string()]);
    assert_eq!(first.inactivated, vec!["old".to_string()]);
    let (rows2, second) = reconcile_accounts(rows, &configured, 20);
    assert!(second.added.is_empty());
    assert!(second.updated.is_empty());
    assert!(second.inactivated.is_empty());
    assert_eq!(rows2.len(), 3);
}
