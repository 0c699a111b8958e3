//! The forward-only schema migrations of `meta.sqlite`.
//!
//! Each migration is a version and the SQL that creates it.  Opening the
//! database applies, in order, every migration whose version is above the
//! highest one recorded, and records it; nothing is ever rolled back.

use vstd::prelude::*;

verus! {

/// Migration v1: the initial schema.
pub const V1_INITIAL_SQL: &'static str = r#"
CREATE TABLE accounts (
    account_id    TEXT    PRIMARY KEY,
    host          TEXT    NOT NULL,
    port          INTEGER NOT NULL,
    username      TEXT    NOT NULL,
    folders_json  TEXT    NOT NULL,
    active        INTEGER NOT NULL DEFAULT 1,
    mirrored_at   INTEGER NOT NULL
);

CREATE TABLE sync_state (
    account_id          TEXT    NOT NULL,
    folder              TEXT    NOT NULL,
    uidvalidity         INTEGER NULL,
    last_seen_uid       INTEGER NOT NULL DEFAULT 0,
    last_full_sync_at   INTEGER NULL,
    last_idle_at        INTEGER NULL,
    last_error          TEXT    NULL,
    account_health      TEXT    NOT NULL DEFAULT 'unknown',
    backoff_until       INTEGER NULL,
    PRIMARY KEY (account_id, folder),
    FOREIGN KEY (account_id) REFERENCES accounts(account_id)
);

CREATE TABLE messages (
    message_id          TEXT    PRIMARY KEY,
    account_id          TEXT    NOT NULL,
    folder              TEXT    NOT NULL,
    server_uid          INTEGER NOT NULL,
    uidvalidity         INTEGER NOT NULL,
    header_message_id   TEXT    NULL,
    in_reply_to         TEXT    NULL,
    references_json     TEXT    NULL,
    thread_id           TEXT    NOT NULL,
    sender_addr         TEXT    NOT NULL,
    sender_name         TEXT    NULL,
    recipients_to_json  TEXT    NULL,
    recipients_cc_json  TEXT    NULL,
    subject             TEXT    NULL,
    date_unix           INTEGER NOT NULL,
    raw_path            TEXT    NOT NULL,
    body_md             TEXT    NOT NULL,
    size_bytes          INTEGER NOT NULL,
    tombstoned_at       INTEGER NULL,
    UNIQUE (account_id, folder, server_uid, uidvalidity),
    FOREIGN KEY (account_id) REFERENCES accounts(account_id)
);

CREATE INDEX idx_messages_date    ON messages (date_unix DESC);
CREATE INDEX idx_messages_thread  ON messages (thread_id, date_unix ASC);
CREATE INDEX idx_messages_sender  ON messages (sender_addr, date_unix DESC);
CREATE INDEX idx_messages_folder  ON messages (folder, date_unix DESC);
CREATE INDEX idx_messages_account ON messages (account_id, date_unix DESC);

CREATE TABLE attachments (
    attachment_id  TEXT    PRIMARY KEY,
    message_id     TEXT    NOT NULL,
    filename       TEXT    NOT NULL,
    mime_type      TEXT    NOT NULL,
    size_bytes     INTEGER NOT NULL,
    FOREIGN KEY (message_id) REFERENCES messages(message_id)
);

CREATE INDEX idx_attachments_message ON attachments (message_id);

CREATE TABLE index_queue (
    message_id        TEXT    PRIMARY KEY,
    attempts          INTEGER NOT NULL DEFAULT 0,
    last_error        TEXT    NULL,
    queued_at         INTEGER NOT NULL,
    failed_permanent  INTEGER NOT NULL DEFAULT 0
);

CREATE INDEX idx_index_queue_drainer ON index_queue (failed_permanent, queued_at ASC);
"#;

/// Migration v2: the daemon-run journal and the per-row failure time.
pub const V2_DAEMON_RUNS_SQL: &'static str = r#"
CREATE TABLE daemon_runs (
    run_id      INTEGER PRIMARY KEY AUTOINCREMENT,
    started_at  INTEGER NOT NULL,
    stopped_at  INTEGER NULL,
    clean       INTEGER NOT NULL DEFAULT 0,
    version     TEXT    NULL,
    pid         INTEGER NULL
);

CREATE INDEX idx_daemon_runs_started ON daemon_runs (started_at DESC);

ALTER TABLE index_queue ADD COLUMN last_failed_at INTEGER NULL;
"#;

/// The table that records which migrations have been applied; created
/// before any migration runs.
pub const SCHEMA_VERSION_SQL: &'static str = r#"
CREATE TABLE IF NOT EXISTS schema_version (
    version INTEGER PRIMARY KEY,
    applied_at INTEGER NOT NULL
);
"#;

/// One migration.
#[derive(Debug, Clone, Copy)]
pub struct Migration {
    pub version: u32,
    pub sql: &'static str,
}

/// The versions of the registered migrations, in the order they apply.
pub open spec fn registry_versions() -> Seq<u32> {
    seq![1u32, 2u32]
}

/// Every migration this binary knows, in order.  Append-only.
pub fn migrations() -> (m: Vec<Migration>)
    ensures
        m@.map_values(|x: Migration| x.version) == registry_versions(),
        m@.len() == 2,
        m@[0].sql == V1_INITIAL_SQL,
        m@[1].sql == V2_DAEMON_RUNS_SQL,
{
    let mut m: Vec<Migration> = Vec::new();
    m.push(Migration { version: 1, sql: V1_INITIAL_SQL });
    m.push(Migration { version: 2, sql: V2_DAEMON_RUNS_SQL });
    assert(m@.map_values(|x: Migration| x.version) =~= registry_versions());
    m
}

pub open spec fn max_version(vs: Seq<u32>) -> u32
    decreases vs.len(),
{
    if vs.len() == 0 {
        0
    } else {
        let rest = max_version(vs.drop_last());
        if vs.last() > rest { vs.last() } else { rest }
    }
}

/// The highest registered migration version (0 with none registered).
pub fn latest_version() -> (v: u32)
    ensures
        v == max_version(registry_versions()),
        v == 2,
{
    let m = migrations();
    let ghost vs = m@.map_values(|x: Migration| x.version);
    let mut best: u32 = 0;
    let mut i: usize = 0;
    assert(vs.take(0) =~= Seq::<u32>::empty());
    while i < m.len()
        invariant
            i <= m.len(),
            vs == m@.map_values(|x: Migration| x.version),
            best == max_version(vs.take(i as int)),
        decreases m.len() - i,
    {
        assert(vs.take(i + 1).drop_last() =~= vs.take(i as int));
        if m[i].version > best {
            best = m[i].version;
        }
        i += 1;
    }
    assert(vs.take(m.len() as int) =~= vs);
    reveal_with_fuel(max_version, 3);
    best
}

/// The migrations still to apply on a database at version `current`: the
/// registered ones above it, in registry order.
pub open spec fn pending_spec(current: int) -> Seq<u32> {
    registry_versions().filter(|v: u32| v > current)
}

/// The migrations to apply on a database whose highest recorded version is
/// `current`, in order.
pub fn pending_migrations(current: i64) -> (p: Vec<Migration>)
    ensures
        p@.map_values(|x: Migration| x.version) == pending_spec(current as int),
        forall|i: int| 0 <= i < p@.len() ==> (#[trigger] p@[i]).version > current,
{
    let m = migrations();
    let ghost vs = m@.map_values(|x: Migration| x.version);
    let mut p: Vec<Migration> = Vec::new();
    let mut i: usize = 0;
    assert(vs.take(0) =~= Seq::<u32>::empty());
    while i < m.len()
        invariant
            i <= m.len(),
            vs == m@.map_values(|x: Migration| x.version),
            vs == registry_versions(),
            p@.map_values(|x: Migration| x.version) == vs.take(i as int).filter(|v: u32| v > current),
            forall|k: int| 0 <= k < p@.len() ==> (#[trigger] p@[k]).version > current,
        decreases m.len() - i,
    {
        let ghost before = p@.map_values(|x: Migration| x.version);
        assert(vs.take(i + 1).drop_last() =~= vs.take(i as int));
        reveal(Seq::filter);
        if (m[i].version as i64) > current {
            p.push(m[i]);
            assert(p@.map_values(|x: Migration| x.version) =~= before.push(m@[i as int].version));
        }
        i += 1;
    }
    assert(vs.take(m.len() as int) =~= vs);
    p
}

/// Opening a database already at the latest version applies nothing, and a
/// fresh database (version 0) applies every migration.
pub proof fn reopen_applies_nothing()
    ensures
        pending_spec(max_version(registry_versions()) as int).len() == 0,
        pending_spec(0) == registry_versions(),
{
    reveal_with_fuel(max_version, 3);
    reveal_with_fuel(Seq::filter, 3);
    let r = registry_versions();
    assert(r.drop_last() =~= seq![1u32]);
    assert(seq![1u32].drop_last() =~= Seq::<u32>::empty());
    let p2 = |v: u32| v > 2int;
    let p0 = |v: u32| v > 0int;
    assert(Seq::<u32>::empty().filter(p2) =~= Seq::<u32>::empty());
    assert(seq![1u32].filter(p2) =~= Seq::<u32>::empty());
    assert(r.filter(p2) =~= Seq::<u32>::empty());
    assert(Seq::<u32>::empty().filter(p0) =~= Seq::<u32>::empty());
    assert(seq![1u32].filter(p0) =~= seq![1u32]);
    assert(r.filter(p0) =~= r);
}

} // verus!
