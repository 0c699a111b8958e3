//! Per-(account, folder) sync state and its merge updates.

use vstd::prelude::*;

use crate::text::{chars_eq, chars_of};

verus! {

/// Health of an account as the fetcher last saw it.
#[derive(Debug, Clone, Copy, PartialEq, Eq, Structural)]
pub enum AccountHealth {
    Unknown,
    Active,
    Degraded,
    AuthRejected,
    QuotaExceeded,
    Unreachable,
    TlsFailed,
}

/// A health name that is not one of the known ones.
#[derive(Debug, Clone, PartialEq, Eq)]
pub struct InvalidHealth(pub String);

impl AccountHealth {
    pub open spec fn name_spec(self) -> Seq<char> {
        match self {
            AccountHealth::Unknown => "unknown"@,
            AccountHealth::Active => "active"@,
            AccountHealth::Degraded => "degraded"@,
            AccountHealth::AuthRejected => "auth-rejected"@,
            AccountHealth::QuotaExceeded => "quota-exceeded"@,
            AccountHealth::Unreachable => "unreachable"@,
            AccountHealth::TlsFailed => "tls-failed"@,
        }
    }

    /// The health as it is stored.
    pub fn as_str(&self) -> (s: &'static str)
        ensures
            s@ == self.name_spec(),
    {
        match self {
            AccountHealth::Unknown => "unknown",
            AccountHealth::Active => "active",
            AccountHealth::Degraded => "degraded",
            AccountHealth::AuthRejected => "auth-rejected",
            AccountHealth::QuotaExceeded => "quota-exceeded",
            AccountHealth::Unreachable => "unreachable",
            AccountHealth::TlsFailed => "tls-failed",
        }
    }

    /// Parses a stored health name; any other text is refused.
    pub fn parse(s: &str) -> (r: Result<AccountHealth, InvalidHealth>)
        ensures
            match r {
                Ok(h) => h.name_spec() == s@,
                Err(e) => e.0@ == s@ && forall|h: AccountHealth| h.name_spec() != s@,
            },
    {
        let cs = chars_of(s);
        let all = [
            AccountHealth::Unknown,
            AccountHealth::Active,
            AccountHealth::Degraded,
            AccountHealth::AuthRejected,
            AccountHealth::QuotaExceeded,
            AccountHealth::Unreachable,
            AccountHealth::TlsFailed,
        ];
        let mut i: usize = 0;
        while i < 7
            invariant
                cs@ == s@,
                all@ == seq![
                    AccountHealth::Unknown,
                    AccountHealth::Active,
                    AccountHealth::Degraded,
                    AccountHealth::AuthRejected,
                    AccountHealth::QuotaExceeded,
                    AccountHealth::Unreachable,
                    AccountHealth::TlsFailed,
                ],
                forall|j: int| 0 <= j < i ==> (#[trigger] all@[j]).name_spec() != s@,
            decreases 7 - i,
        {
            let h = all[i];
            let name = chars_of(h.as_str());
            if chars_eq(&name, &cs) {
                return Ok(h);
            }
            i += 1;
        }
        proof {
            assert forall|h: AccountHealth| h.name_spec() != s@ by {
                match h {
                    AccountHealth::Unknown => assert(all@[0] == h),
                    AccountHealth::Active => assert(all@[1] == h),
                    AccountHealth::Degraded => assert(all@[2] == h),
                    AccountHealth::AuthRejected => assert(all@[3] == h),
                    AccountHealth::QuotaExceeded => assert(all@[4] == h),
                    AccountHealth::Unreachable => assert(all@[5] == h),
                    AccountHealth::TlsFailed => assert(all@[6] == h),
                }
            }
        }
        Err(InvalidHealth(s.to_owned()))
    }

    /// The health read from a stored column: an unknown name reads as
    /// `Unknown`.
    pub fn from_column(s: &str) -> (h: AccountHealth)
        ensures
            (exists|g: AccountHealth| g.name_spec() == s@) ==> h.name_spec() == s@,
            (forall|g: AccountHealth| g.name_spec() != s@) ==> h == AccountHealth::Unknown,
    {
        match AccountHealth::parse(s) {
            Ok(h) => h,
            Err(_) => AccountHealth::Unknown,
        }
    }

    /// The health named by the fetcher, when it names a known one.
    pub fn from_reported(s: Option<&str>) -> (h: Option<AccountHealth>)
        ensures
            match s {
                Some(t) => match h {
                    Some(g) => g.name_spec() == t@,
                    None => forall|g: AccountHealth| g.name_spec() != t@,
                },
                None => h is None,
            },
    {
        match s {
            Some(t) => match AccountHealth::parse(t) {
                Ok(g) => Some(g),
                Err(_) => None,
            },
            None => None,
        }
    }
}

impl std::str::FromStr for AccountHealth {
    type Err = InvalidHealth;

    fn from_str(s: &str) -> (r: Result<AccountHealth, InvalidHealth>)
        ensures
            match r {
                Ok(h) => h.name_spec() == s@,
                Err(e) => e.0@ == s@ && forall|h: AccountHealth| h.name_spec() != s@,
            },
    {
        AccountHealth::parse(s)
    }
}

/// The names of the health states are pairwise distinct, so a stored name
/// reads back as the state that wrote it.
pub proof fn health_names_distinct(a: AccountHealth, b: AccountHealth)
    ensures
        a.name_spec() == b.name_spec() <==> a == b,
{
    reveal_strlit("unknown");
    reveal_strlit("active");
    reveal_strlit("degraded");
    reveal_strlit("auth-rejected");
    reveal_strlit("quota-exceeded");
    reveal_strlit("unreachable");
    reveal_strlit("tls-failed");
    if a != b {
        assert(a.name_spec().len() != b.name_spec().len() || a.name_spec()[0] != b.name_spec()[0]
            || a.name_spec()[1] != b.name_spec()[1]);
    }
}

/// The stored sync state of one folder of one account.
#[derive(Debug, Clone)]
pub struct SyncStateRow {
    pub account_id: String,
    pub folder: String,
    pub uidvalidity: Option<u32>,
    pub last_seen_uid: u32,
    pub last_full_sync_at: Option<i64>,
    pub last_idle_at: Option<i64>,
    pub last_error: Option<String>,
    pub account_health: AccountHealth,
    pub backoff_until: Option<i64>,
}

/// A partial update: only the fields that are set are written.
#[derive(Debug, Clone)]
pub struct SyncStateUpdate {
    pub uidvalidity: Option<u32>,
    pub last_seen_uid: Option<u32>,
    pub last_full_sync_at: Option<i64>,
    pub last_idle_at: Option<i64>,
    pub last_error: Option<Option<String>>,
    pub account_health: Option<AccountHealth>,
    pub backoff_until: Option<Option<i64>>,
}

/// The row after an update: each set field takes its new value, every
/// other field keeps its old one.
pub open spec fn apply_update_spec(r: SyncStateRow, u: SyncStateUpdate) -> SyncStateRow {
    SyncStateRow {
        account_id: r.account_id,
        folder: r.folder,
        uidvalidity: match u.uidvalidity { Some(v) => Some(v), None => r.uidvalidity },
        last_seen_uid: match u.last_seen_uid { Some(v) => v, None => r.last_seen_uid },
        last_full_sync_at: match u.last_full_sync_at { Some(v) => Some(v), None => r.last_full_sync_at },
        last_idle_at: match u.last_idle_at { Some(v) => Some(v), None => r.last_idle_at },
        last_error: match u.last_error { Some(v) => v, None => r.last_error },
        account_health: match u.account_health { Some(v) => v, None => r.account_health },
        backoff_until: match u.backoff_until { Some(v) => v, None => r.backoff_until },
    }
}

pub open spec fn empty_update_spec() -> SyncStateUpdate {
    SyncStateUpdate {
        uidvalidity: None,
        last_seen_uid: None,
        last_full_sync_at: None,
        last_idle_at: None,
        last_error: None,
        account_health: None,
        backoff_until: None,
    }
}

impl SyncStateUpdate {
    /// An update that sets nothing.
    pub fn empty() -> (u: SyncStateUpdate)
        ensures
            u == empty_update_spec(),
    {
        SyncStateUpdate {
            uidvalidity: None,
            last_seen_uid: None,
            last_full_sync_at: None,
            last_idle_at: None,
            last_error: None,
            account_health: None,
            backoff_until: None,
        }
    }
}

impl SyncStateRow {
    /// The row a folder starts with: nothing synced, health unknown.
    pub fn fresh(account_id: String, folder: String) -> (r: SyncStateRow)
        ensures
            r.account_id == account_id,
            r.folder == folder,
            r.uidvalidity is None,
            r.last_seen_uid == 0,
            r.last_full_sync_at is None,
            r.last_idle_at is None,
            r.last_error is None,
            r.account_health == AccountHealth::Unknown,
            r.backoff_until is None,
    {
        SyncStateRow {
            account_id,
            folder,
            uidvalidity: None,
            last_seen_uid: 0,
            last_full_sync_at: None,
            last_idle_at: None,
            last_error: None,
            account_health: AccountHealth::Unknown,
            backoff_until: None,
        }
    }

    /// Merges an update into the row: set fields are written, the rest kept.
    pub fn apply(self, u: SyncStateUpdate) -> (r: SyncStateRow)
        ensures
            r == apply_update_spec(self, u),
    {
        SyncStateRow {
            account_id: self.account_id,
            folder: self.folder,
            uidvalidity: match u.uidvalidity { Some(v) => Some(v), None => self.uidvalidity },
            last_seen_uid: match u.last_seen_uid { Some(v) => v, None => self.last_seen_uid },
            last_full_sync_at: match u.last_full_sync_at { Some(v) => Some(v), None => self.last_full_sync_at },
            last_idle_at: match u.last_idle_at { Some(v) => Some(v), None => self.last_idle_at },
            last_error: match u.last_error { Some(v) => v, None => self.last_error },
            account_health: match u.account_health { Some(v) => v, None => self.account_health },
            backoff_until: match u.backoff_until { Some(v) => v, None => self.backoff_until },
        }
    }
}

/// An update that sets nothing leaves the row as it was; applying the same
/// update twice is applying it once; the row's identity never changes.
pub proof fn update_merge_laws(r: SyncStateRow, u: SyncStateUpdate)
    ensures
        apply_update_spec(r, empty_update_spec()) == r,
        apply_update_spec(apply_update_spec(r, u), u) == apply_update_spec(r, u),
        apply_update_spec(r, u).account_id == r.account_id,
        apply_update_spec(r, u).folder == r.folder,
{
}

} // verus!

verus! {

/// Merging an update writes each field the update sets, exactly as set (a
/// set-to-nothing clears the stored value), and keeps each field it leaves
/// unset; the row's identity is untouched.
pub proof fn update_writes_exactly_the_set_fields(r: SyncStateRow, u: SyncStateUpdate)
    ensures
        ({
            let m = apply_update_spec(r, u);
            &&& m.account_id == r.account_id && m.folder == r.folder
            &&& (u.uidvalidity matches Some(v) ==> m.uidvalidity == Some(v))
            &&& (u.uidvalidity is None ==> m.uidvalidity == r.uidvalidity)
            &&& (u.last_seen_uid matches Some(v) ==> m.last_seen_uid == v)
            &&& (u.last_seen_uid is None ==> m.last_seen_uid == r.last_seen_uid)
            &&& (u.last_full_sync_at matches Some(v) ==> m.last_full_sync_at == Some(v))
            &&& (u.last_full_sync_at is None ==> m.last_full_sync_at == r.last_full_sync_at)
            &&& (u.last_idle_at matches Some(v) ==> m.last_idle_at == Some(v))
            &&& (u.last_idle_at is None ==> m.last_idle_at == r.last_idle_at)
            &&& (u.last_error matches Some(v) ==> m.last_error == v)
            &&& (u.last_error == Some(None::<String>) ==> m.last_error is None)
            &&& (u.last_error is None ==> m.last_error == r.last_error)
            &&& (u.account_health matches Some(v) ==> m.account_health == v)
            &&& (u.account_health is None ==> m.account_health == r.account_health)
            &&& (u.backoff_until matches Some(v) ==> m.backoff_until == v)
            &&& (u.backoff_until == Some(None::<i64>) ==> m.backoff_until is None)
            &&& (u.backoff_until is None ==> m.backoff_until == r.backoff_until)
        }),
{
}

} // verus!
