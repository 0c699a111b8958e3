//! Mirroring the configured accounts into the account table.
//!
//! New accounts are inserted; existing ones get their structural fields
//! (host, port, user name, folders) rewritten and are reactivated; accounts
//! no longer configured are marked inactive but never deleted, so their
//! messages survive.  The credential is never part of a row.

use vstd::prelude::*;

use crate::accounts::AccountRow;
use crate::text::{eq_ignore_ascii_case, eq_ignore_ascii_case_spec};

verus! {

/// The structural fields of one configured account.
#[derive(Debug, Clone)]
pub struct AccountSnapshot {
    pub id: String,
    pub host: String,
    pub port: u16,
    pub username: String,
    pub folders: Vec<String>,
}

/// What a reconcile changed, by account id.
#[derive(Debug, Clone, PartialEq, Eq)]
pub struct ReconcileDiff {
    pub added: Vec<String>,
    pub updated: Vec<String>,
    pub inactivated: Vec<String>,
}

#[verifier::ext_equal]
pub struct AccountView {
    pub id: Seq<char>,
    pub host: Seq<char>,
    pub port: u16,
    pub username: Seq<char>,
    pub folders: Seq<Seq<char>>,
    pub active: bool,
    pub mirrored_at: i64,
}

#[verifier::ext_equal]
pub struct SnapshotView {
    pub id: Seq<char>,
    pub host: Seq<char>,
    pub port: u16,
    pub username: Seq<char>,
    pub folders: Seq<Seq<char>>,
}

#[verifier::ext_equal]
pub struct DiffView {
    pub added: Seq<Seq<char>>,
    pub updated: Seq<Seq<char>>,
    pub inactivated: Seq<Seq<char>>,
}

pub open spec fn strings_view(v: Seq<String>) -> Seq<Seq<char>> {
    v.map_values(|s: String| s@)
}

pub open spec fn row_view(r: AccountRow) -> AccountView {
    AccountView {
        id: r.account_id@,
        host: r.host@,
        port: r.port,
        username: r.username@,
        folders: strings_view(r.folders@),
        active: r.active,
        mirrored_at: r.mirrored_at,
    }
}

pub open spec fn rows_view(t: Seq<AccountRow>) -> Seq<AccountView> {
    t.map_values(|r: AccountRow| row_view(r))
}

pub open spec fn snap_view(s: AccountSnapshot) -> SnapshotView {
    SnapshotView { id: s.id@, host: s.host@, port: s.port, username: s.username@, folders: strings_view(s.folders@) }
}

pub open spec fn snaps_view(v: Seq<AccountSnapshot>) -> Seq<SnapshotView> {
    v.map_values(|s: AccountSnapshot| snap_view(s))
}

pub open spec fn diff_view(d: ReconcileDiff) -> DiffView {
    DiffView {
        added: strings_view(d.added@),
        updated: strings_view(d.updated@),
        inactivated: strings_view(d.inactivated@),
    }
}

/// Index of the first row with id `id` at or after `i`, or -1.
pub open spec fn find_from(t: Seq<AccountView>, id: Seq<char>, i: int) -> int
    decreases t.len() - i,
{
    if i < 0 || i >= t.len() {
        -1
    } else if t[i].id == id {
        i
    } else {
        find_from(t, id, i + 1)
    }
}

/// The row a configured account is mirrored as.
pub open spec fn mirrored_row(s: SnapshotView, now: i64) -> AccountView {
    AccountView {
        id: s.id,
        host: s.host,
        port: s.port,
        username: s.username,
        folders: s.folders,
        active: true,
        mirrored_at: now,
    }
}

/// Mirroring one configured account into the table.
pub open spec fn step_spec(t: Seq<AccountView>, d: DiffView, s: SnapshotView, now: i64) -> (Seq<AccountView>, DiffView) {
    let j = find_from(t, s.id, 0);
    if j < 0 {
        (t.push(mirrored_row(s, now)), DiffView { added: d.added.push(s.id), ..d })
    } else {
        let prev = t[j];
        let changed = prev.host != s.host || prev.port != s.port || prev.username != s.username
            || prev.folders != s.folders || !prev.active;
        (t.update(j, mirrored_row(s, now)), if changed { DiffView { updated: d.updated.push(s.id), ..d } } else { d })
    }
}

/// Mirroring the configured accounts, in order.
pub open spec fn process_spec(t: Seq<AccountView>, snaps: Seq<SnapshotView>, now: i64) -> (Seq<AccountView>, DiffView)
    decreases snaps.len(),
{
    if snaps.len() == 0 {
        (t, DiffView { added: Seq::empty(), updated: Seq::empty(), inactivated: Seq::empty() })
    } else {
        let (t1, d1) = process_spec(t, snaps.drop_last(), now);
        step_spec(t1, d1, snaps.last(), now)
    }
}

pub open spec fn is_configured(snaps: Seq<SnapshotView>, id: Seq<char>) -> bool {
    exists|k: int| 0 <= k < snaps.len() && (#[trigger] snaps[k]).id == id
}

/// A row is retired when it is active but no longer configured.
pub open spec fn retired(r: AccountView, snaps: Seq<SnapshotView>) -> bool {
    r.active && !is_configured(snaps, r.id)
}

/// The table and diff after a reconcile of `existing` with `snaps` at
/// `now`: configured accounts mirrored in order, then every active account
/// no longer configured marked inactive.
pub open spec fn reconcile_spec(existing: Seq<AccountView>, snaps: Seq<SnapshotView>, now: i64) -> (Seq<AccountView>, DiffView) {
    let (t, d) = process_spec(existing, snaps, now);
    let t2 = Seq::new(t.len(), |i: int| if retired(t[i], snaps) { AccountView { active: false, mirrored_at: now, ..t[i] } } else { t[i] });
    let gone = t.filter(|r: AccountView| retired(r, snaps)).map_values(|r: AccountView| r.id);
    (t2, DiffView { inactivated: gone, ..d })
}

fn strings_eq(a: &Vec<String>, b: &Vec<String>) -> (r: bool)
    ensures
        r == (strings_view(a@) == strings_view(b@)),
{
    if a.len() != b.len() {
        return false;
    }
    let mut i: usize = 0;
    while i < a.len()
        invariant
            i <= a.len() == b.len(),
            forall|j: int| 0 <= j < i ==> a@[j]@ == b@[j]@,
        decreases a.len() - i,
    {
        if a[i] != b[i] {
            assert(strings_view(a@)[i as int] != strings_view(b@)[i as int]);
            return false;
        }
        i += 1;
    }
    assert(strings_view(a@) =~= strings_view(b@));
    true
}

fn clone_strings(v: &Vec<String>) -> (c: Vec<String>)
    ensures
        strings_view(c@) == strings_view(v@),
{
    let mut c: Vec<String> = Vec::new();
    let mut i: usize = 0;
    while i < v.len()
        invariant
            i <= v.len(),
            strings_view(c@) == strings_view(v@).take(i as int),
        decreases v.len() - i,
    {
        let ghost before = strings_view(c@);
        c.push(v[i].clone());
        assert(strings_view(c@) =~= before.push(v@[i as int]@));
        assert(strings_view(v@).take(i + 1) =~= strings_view(v@).take(i as int).push(v@[i as int]@));
        i += 1;
    }
    assert(strings_view(v@).take(v.len() as int) =~= strings_view(v@));
    c
}

fn find_row(t: &Vec<AccountRow>, id: &String) -> (r: Option<usize>)
    ensures
        match r {
            Some(j) => find_from(rows_view(t@), id@, 0) == j && j < t.len(),
            None => find_from(rows_view(t@), id@, 0) == -1,
        },
{
    let ghost tv = rows_view(t@);
    let mut i: usize = 0;
    while i < t.len()
        invariant
            i <= t.len(),
            tv == rows_view(t@),
            find_from(tv, id@, 0) == find_from(tv, id@, i as int),
        decreases t.len() - i,
    {
        if t[i].account_id == *id {
            return Some(i);
        }
        i += 1;
    }
    None
}

fn is_configured_exec(configured: &Vec<AccountSnapshot>, id: &String) -> (r: bool)
    ensures
        r == is_configured(snaps_view(configured@), id@),
{
    let ghost sv = snaps_view(configured@);
    let mut k: usize = 0;
    while k < configured.len()
        invariant
            k <= configured.len(),
            sv == snaps_view(configured@),
            forall|j: int| 0 <= j < k ==> (#[trigger] sv[j]).id != id@,
        decreases configured.len() - k,
    {
        if configured[k].id == *id {
            assert(sv[k as int].id == id@);
            return true;
        }
        k += 1;
    }
    false
}

fn mirrored(s: &AccountSnapshot, now: i64) -> (r: AccountRow)
    ensures
        row_view(r) == mirrored_row(snap_view(*s), now),
{
    AccountRow {
        account_id: s.id.clone(),
        host: s.host.clone(),
        port: s.port,
        username: s.username.clone(),
        folders: clone_strings(&s.folders),
        active: true,
        mirrored_at: now,
    }
}

impl AccountSnapshot {
    /// The snapshot of a configured account; with no folders configured it
    /// mirrors `INBOX` alone.
    pub fn from_config(id: String, host: String, port: u16, user: String, folders: Option<Vec<String>>) -> (s: AccountSnapshot)
        ensures
            s.id == id,
            s.host == host,
            s.port == port,
            s.username == user,
            match folders {
                Some(f) => s.folders == f,
                None => strings_view(s.folders@) == seq!["INBOX"@],
            },
    {
        let folders = match folders {
            Some(f) => f,
            None => {
                let mut v: Vec<String> = Vec::new();
                v.push("INBOX".to_owned());
                assert(strings_view(v@) =~= seq!["INBOX"@]);
                v
            },
        };
        AccountSnapshot { id, host, port, username: user, folders }
    }
}

/// Reconciles the account table with the configured accounts at time
/// `now`: returns the new table (every row to store) and what changed.
pub fn reconcile_accounts(existing: Vec<AccountRow>, configured: &Vec<AccountSnapshot>, now: i64) -> (r: (Vec<AccountRow>, ReconcileDiff))
    ensures
        (rows_view(r.0@), diff_view(r.1)) == reconcile_spec(rows_view(existing@), snaps_view(configured@), now),
{
    let ghost ev = rows_view(existing@);
    let ghost sv = snaps_view(configured@);
    let mut t = existing;
    let mut added: Vec<String> = Vec::new();
    let mut updated: Vec<String> = Vec::new();
    let mut k: usize = 0;
    assert(sv.take(0) =~= Seq::<SnapshotView>::empty());
    while k < configured.len()
        invariant
            k <= configured.len(),
            sv == snaps_view(configured@),
            ({
                let (pt, pd) = process_spec(ev, sv.take(k as int), now);
                &&& rows_view(t@) == pt
                &&& strings_view(added@) == pd.added
                &&& strings_view(updated@) == pd.updated
                &&& pd.inactivated == Seq::<Seq<char>>::empty()
            }),
        decreases configured.len() - k,
    {
        let s = &configured[k];
        let ghost tv = rows_view(t@);
        let ghost (pt, pd) = process_spec(ev, sv.take(k as int), now);
        assert(sv.take(k + 1).drop_last() =~= sv.take(k as int));
        assert(sv.take(k + 1).last() == snap_view(*s));
        let ghost before_added = strings_view(added@);
        let ghost before_updated = strings_view(updated@);
        match find_row(&t, &s.id) {
            None => {
                let row = mirrored(s, now);
                t.push(row);
                added.push(s.id.clone());
                assert(rows_view(t@) =~= tv.push(mirrored_row(snap_view(*s), now)));
                assert(strings_view(added@) =~= before_added.push(s.id@));
            },
            Some(j) => {
                let changed = t[j].host != s.host || t[j].port != s.port || t[j].username != s.username
                    || !strings_eq(&t[j].folders, &s.folders) || !t[j].active;
                assert(tv[j as int] == row_view(t@[j as int]));
                let row = mirrored(s, now);
                t.set(j, row);
                assert(rows_view(t@) =~= tv.update(j as int, mirrored_row(snap_view(*s), now)));
                if changed {
                    updated.push(s.id.clone());
                    assert(strings_view(updated@) =~= before_updated.push(s.id@));
                }
            },
        }
        k += 1;
    }
    assert(sv.take(configured.len() as int) =~= sv);
    let ghost (pt, pd) = process_spec(ev, sv, now);
    let ghost pred = |r: AccountView| retired(r, sv);
    let mut out: Vec<AccountRow> = Vec::new();
    let mut inactivated: Vec<String> = Vec::new();
    let mut i: usize = 0;
    assert(pt.take(0) =~= Seq::<AccountView>::empty());
    while i < t.len()
        invariant
            i <= t.len(),
            sv == snaps_view(configured@),
            pt == rows_view(t@),
            pred == |r: AccountView| retired(r, sv),
            rows_view(out@) == Seq::new(i as nat, |x: int| if retired(pt[x], sv) {
                AccountView { active: false, mirrored_at: now, ..pt[x] }
            } else {
                pt[x]
            }),
            strings_view(inactivated@) == pt.take(i as int).filter(pred).map_values(|r: AccountView| r.id),
        decreases t.len() - i,
    {
        let ghost before_out = rows_view(out@);
        let ghost before_in = strings_view(inactivated@);
        assert(pt[i as int] == row_view(t@[i as int]));
        assert(pt.take(i + 1).drop_last() =~= pt.take(i as int));
        assert(pt.take(i + 1).last() == pt[i as int]);
        reveal(Seq::filter);
        let conf = is_configured_exec(configured, &t[i].account_id);
        if t[i].active && !conf {
            let row = AccountRow {
                account_id: t[i].account_id.clone(),
                host: t[i].host.clone(),
                port: t[i].port,
                username: t[i].username.clone(),
                folders: clone_strings(&t[i].folders),
                active: false,
                mirrored_at: now,
            };
            assert(retired(pt[i as int], sv));
            assert(row_view(row) =~= AccountView { active: false, mirrored_at: now, ..pt[i as int] });
            out.push(row);
            assert(rows_view(out@) =~= before_out.push(AccountView { active: false, mirrored_at: now, ..pt[i as int] }));
            inactivated.push(t[i].account_id.clone());
            assert(strings_view(inactivated@) =~= before_in.push(pt[i as int].id));
            assert(pt.take(i + 1).filter(pred) == pt.take(i as int).filter(pred).push(pt[i as int]));
            assert(pt.take(i + 1).filter(pred).map_values(|r: AccountView| r.id) =~= pt.take(i as int).filter(pred).map_values(|r: AccountView| r.id).push(pt[i as int].id));
        } else {
            let row = AccountRow {
                account_id: t[i].account_id.clone(),
                host: t[i].host.clone(),
                port: t[i].port,
                username: t[i].username.clone(),
                folders: clone_strings(&t[i].folders),
                active: t[i].active,
                mirrored_at: t[i].mirrored_at,
            };
            assert(!retired(pt[i as int], sv));
            assert(row_view(row) =~= pt[i as int]);
            out.push(row);
            assert(rows_view(out@) =~= before_out.push(pt[i as int]));
            assert(pt.take(i + 1).filter(pred) == pt.take(i as int).filter(pred));
        }
        assert(rows_view(out@) =~= Seq::new((i + 1) as nat, |x: int| if retired(pt[x], sv) {
            AccountView { active: false, mirrored_at: now, ..pt[x] }
        } else {
            pt[x]
        }));
        i += 1;
    }
    assert(pt.take(t.len() as int) =~= pt);
    (out, ReconcileDiff { added, updated, inactivated })
}

proof fn lemma_find_from(t: Seq<AccountView>, id: Seq<char>, i: int)
    requires
        0 <= i,
    ensures
        find_from(t, id, i) == -1 || (i <= find_from(t, id, i) < t.len() && t[find_from(t, id, i)].id == id),
    decreases t.len() - i,
{
    if i < t.len() && t[i].id != id {
        lemma_find_from(t, id, i + 1);
    }
}

proof fn lemma_process(t: Seq<AccountView>, snaps: Seq<SnapshotView>, now: i64)
    ensures
        process_spec(t, snaps, now).0.len() >= t.len(),
        forall|i: int| 0 <= i < t.len() ==> #[trigger] process_spec(t, snaps, now).0[i].id == t[i].id,
        forall|k: int| 0 <= k < snaps.len() ==> exists|j: int| 0 <= j < process_spec(t, snaps, now).0.len()
            && #[trigger] process_spec(t, snaps, now).0[j].id == (#[trigger] snaps[k]).id
            && process_spec(t, snaps, now).0[j].active,
    decreases snaps.len(),
{
    if snaps.len() > 0 {
        let prev = snaps.drop_last();
        lemma_process(t, prev, now);
        let (t1, d1) = process_spec(t, prev, now);
        let s = snaps.last();
        let t2 = process_spec(t, snaps, now).0;
        lemma_find_from(t1, s.id, 0);
        let j = find_from(t1, s.id, 0);
        assert forall|i: int| 0 <= i < t.len() implies #[trigger] t2[i].id == t[i].id by {
            assert(t1[i].id == t[i].id);
        }
        assert forall|k: int| 0 <= k < snaps.len() implies exists|x: int| 0 <= x < t2.len()
            && #[trigger] t2[x].id == (#[trigger] snaps[k]).id && t2[x].active by {
            if k == snaps.len() - 1 {
                if j < 0 {
                    assert(t2[t1.len() as int].id == s.id);
                } else {
                    assert(t2[j].id == s.id);
                }
            } else {
                assert(snaps[k] == prev[k]);
                let x = choose|x: int| 0 <= x < t1.len() && #[trigger] t1[x].id == prev[k].id && t1[x].active;
                if j >= 0 && x == j {
                    assert(t2[x].id == s.id && t1[x].id == s.id);
                } else {
                    assert(t2[x] == t1[x]);
                }
            }
        }
    }
}

/// A reconcile never deletes an account: every existing row is still
/// there, under the same id, in the same place.
pub proof fn reconcile_never_deletes(existing: Seq<AccountView>, snaps: Seq<SnapshotView>, now: i64)
    ensures
        reconcile_spec(existing, snaps, now).0.len() >= existing.len(),
        forall|i: int| 0 <= i < existing.len() ==> #[trigger] reconcile_spec(existing, snaps, now).0[i].id == existing[i].id,
{
    lemma_process(existing, snaps, now);
}

/// After a reconcile every configured account is present and active, and
/// every account that is not configured is inactive.
pub proof fn reconcile_mirrors_configuration(existing: Seq<AccountView>, snaps: Seq<SnapshotView>, now: i64)
    ensures
        forall|k: int| 0 <= k < snaps.len() ==> exists|j: int| 0 <= j < reconcile_spec(existing, snaps, now).0.len()
            && #[trigger] reconcile_spec(existing, snaps, now).0[j].id == (#[trigger] snaps[k]).id
            && reconcile_spec(existing, snaps, now).0[j].active,
        forall|j: int| 0 <= j < reconcile_spec(existing, snaps, now).0.len()
            && !is_configured(snaps, #[trigger] reconcile_spec(existing, snaps, now).0[j].id)
            ==> !reconcile_spec(existing, snaps, now).0[j].active,
{
    lemma_process(existing, snaps, now);
    let t = process_spec(existing, snaps, now).0;
    let r = reconcile_spec(existing, snaps, now).0;
    assert forall|k: int| 0 <= k < snaps.len() implies exists|j: int| 0 <= j < r.len()
        && #[trigger] r[j].id == (#[trigger] snaps[k]).id && r[j].active by {
        let x = choose|x: int| 0 <= x < t.len() && #[trigger] t[x].id == snaps[k].id && t[x].active;
        assert(is_configured(snaps, t[x].id));
        assert(r[x] == t[x]);
    }
}

} // verus!

verus! {

/// The configured accounts that belong to the user whose address is
/// `email`: those whose login equals it up to ASCII case, in order.
pub open spec fn owned_spec(snaps: Seq<SnapshotView>, email: Seq<char>) -> Seq<SnapshotView>
    decreases snaps.len(),
{
    if snaps.len() == 0 {
        Seq::empty()
    } else {
        let prev = owned_spec(snaps.drop_last(), email);
        if eq_ignore_ascii_case_spec(snaps.last().username, email) { prev.push(snaps.last()) } else { prev }
    }
}

/// Keeps the configured accounts whose login is `email` (ignoring ASCII
/// case); every other account is dropped, so nothing else is fetched or
/// mirrored.
pub fn owned_by(accounts: Vec<AccountSnapshot>, email: &str) -> (r: Vec<AccountSnapshot>)
    ensures
        snaps_view(r@) == owned_spec(snaps_view(accounts@), email@),
{
    let ghost all = snaps_view(accounts@);
    let mut rest = accounts;
    let mut out: Vec<AccountSnapshot> = Vec::new();
    let ghost mut k: int = 0;
    assert(all.take(0) =~= Seq::<SnapshotView>::empty());
    assert(snaps_view(rest@) =~= all.skip(0));
    while rest.len() > 0
        invariant
            0 <= k <= all.len(),
            k + rest.len() == all.len(),
            snaps_view(rest@) == all.skip(k),
            snaps_view(out@) == owned_spec(all.take(k), email@),
        decreases rest.len(),
    {
        let ghost before_rest = rest@;
        let s = rest.remove(0);
        proof {
            let bv = snaps_view(before_rest);
            assert(rest@ =~= before_rest.subrange(1, before_rest.len() as int));
            assert(snaps_view(rest@) =~= bv.subrange(1, bv.len() as int));
            assert(s == before_rest[0]);
            assert(bv[0] == all.skip(k)[0]);
            assert(snap_view(s) == all[k]);
            assert(bv.subrange(1, bv.len() as int) =~= all.skip(k + 1));
            assert(all.take(k + 1).drop_last() =~= all.take(k));
            assert(all.take(k + 1).last() == all[k]);
        }
        if eq_ignore_ascii_case(s.username.as_str(), email) {
            let ghost before = snaps_view(out@);
            out.push(s);
            assert(snaps_view(out@) =~= before.push(all[k]));
        }
        proof {
            k = k + 1;
        }
    }
    assert(all.take(k) =~= all);
    out
}

/// Every account kept belongs to the user, and every configured account of
/// the user is kept.
pub proof fn owned_accounts_are_exactly_the_users(snaps: Seq<SnapshotView>, email: Seq<char>)
    ensures
        forall|i: int| 0 <= i < owned_spec(snaps, email).len()
            ==> eq_ignore_ascii_case_spec(#[trigger] owned_spec(snaps, email)[i].username, email)
                && snaps.contains(owned_spec(snaps, email)[i]),
        forall|j: int| 0 <= j < snaps.len() && eq_ignore_ascii_case_spec(#[trigger] snaps[j].username, email)
            ==> owned_spec(snaps, email).contains(snaps[j]),
    decreases snaps.len(),
{
    if snaps.len() > 0 {
        let prev = snaps.drop_last();
        owned_accounts_are_exactly_the_users(prev, email);
        let r = owned_spec(snaps, email);
        let pr = owned_spec(prev, email);
        assert forall|i: int| 0 <= i < r.len() implies eq_ignore_ascii_case_spec(#[trigger] r[i].username, email)
            && snaps.contains(r[i]) by {
            if i < pr.len() {
                assert(r[i] == pr[i]);
                assert(eq_ignore_ascii_case_spec(pr[i].username, email));
                assert(prev.contains(pr[i]));
                let j = choose|j: int| 0 <= j < prev.len() && prev[j] == pr[i];
                assert(snaps[j] == prev[j]);
            } else {
                assert(snaps[snaps.len() - 1] == r[i]);
            }
        }
        assert forall|j: int| 0 <= j < snaps.len() && eq_ignore_ascii_case_spec(#[trigger] snaps[j].username, email)
            implies r.contains(snaps[j]) by {
            if j < prev.len() {
                assert(prev[j] == snaps[j]);
                assert(pr.contains(prev[j]));
                let m = choose|m: int| 0 <= m < pr.len() && pr[m] == prev[j];
                assert(r[m] == pr[m]);
            } else {
                assert(r[r.len() - 1] == snaps[j]);
            }
        }
    }
}

} // verus!

verus! {

/// The row of a configured account (the first with its id) carries the
/// configured fields and is active.
pub open spec fn mirrors(t: Seq<AccountView>, s: SnapshotView) -> bool {
    let j = find_from(t, s.id, 0);
    &&& 0 <= j < t.len()
    &&& t[j].host == s.host
    &&& t[j].port == s.port
    &&& t[j].username == s.username
    &&& t[j].folders == s.folders
    &&& t[j].active
}

/// No account id is configured twice.
pub open spec fn ids_distinct(snaps: Seq<SnapshotView>) -> bool {
    forall|a: int, b: int| 0 <= a < b < snaps.len() ==> (#[trigger] snaps[a]).id != (#[trigger] snaps[b]).id
}

proof fn lemma_find_same_ids(t1: Seq<AccountView>, t2: Seq<AccountView>, id: Seq<char>, i: int)
    requires
        0 <= i,
        t1.len() <= t2.len(),
        forall|x: int| i <= x < t1.len() ==> (#[trigger] t2[x]).id == t1[x].id,
        find_from(t1, id, i) >= 0,
    ensures
        find_from(t2, id, i) == find_from(t1, id, i),
    decreases t1.len() - i,
{
    lemma_find_from(t1, id, i);
    if t1[i].id != id {
        assert(t2[i].id == t1[i].id);
        lemma_find_same_ids(t1, t2, id, i + 1);
    } else {
        assert(t2[i].id == t1[i].id);
    }
}

proof fn lemma_find_push(t: Seq<AccountView>, m: AccountView, id: Seq<char>, i: int)
    requires
        0 <= i <= t.len(),
        find_from(t, id, i) == -1,
        m.id == id,
    ensures
        find_from(t.push(m), id, i) == t.len(),
    decreases t.len() - i,
{
    if i < t.len() {
        assert(t.push(m)[i] == t[i]);
        lemma_find_push(t, m, id, i + 1);
    }
}

/// One mirroring step keeps every other configured account mirrored.
proof fn lemma_step_keeps_other(t: Seq<AccountView>, d: DiffView, s: SnapshotView, now: i64, x: SnapshotView)
    requires
        mirrors(t, x),
        x.id != s.id,
    ensures
        mirrors(step_spec(t, d, s, now).0, x),
{
    let t2 = step_spec(t, d, s, now).0;
    let j = find_from(t, s.id, 0);
    let jx = find_from(t, x.id, 0);
    lemma_find_from(t, s.id, 0);
    lemma_find_from(t, x.id, 0);
    assert forall|i: int| 0 <= i < t.len() implies (#[trigger] t2[i]).id == t[i].id by {
        if j >= 0 && i == j {
            assert(t2[i] == mirrored_row(s, now));
        } else {
            assert(t2[i] == t[i]);
        }
    }
    lemma_find_same_ids(t, t2, x.id, 0);
    assert(t2[jx] == t[jx]);
}

/// One mirroring step leaves its account mirrored.
proof fn lemma_step_mirrors(t: Seq<AccountView>, d: DiffView, s: SnapshotView, now: i64)
    ensures
        mirrors(step_spec(t, d, s, now).0, s),
{
    let t2 = step_spec(t, d, s, now).0;
    let j = find_from(t, s.id, 0);
    lemma_find_from(t, s.id, 0);
    if j < 0 {
        lemma_find_push(t, mirrored_row(s, now), s.id, 0);
    } else {
        assert forall|i: int| 0 <= i < t.len() implies (#[trigger] t2[i]).id == t[i].id by {
            if i == j {
                assert(t2[i] == mirrored_row(s, now));
            }
        }
        lemma_find_same_ids(t, t2, s.id, 0);
    }
}

proof fn lemma_process_mirrors(t: Seq<AccountView>, snaps: Seq<SnapshotView>, now: i64)
    requires
        ids_distinct(snaps),
    ensures
        forall|k: int| 0 <= k < snaps.len() ==> mirrors(process_spec(t, snaps, now).0, #[trigger] snaps[k]),
    decreases snaps.len(),
{
    if snaps.len() > 0 {
        let prev = snaps.drop_last();
        assert(ids_distinct(prev)) by {
            assert forall|a: int, b: int| 0 <= a < b < prev.len() implies (#[trigger] prev[a]).id != (#[trigger] prev[b]).id by {
                assert(prev[a] == snaps[a] && prev[b] == snaps[b]);
            }
        }
        lemma_process_mirrors(t, prev, now);
        let (t1, d1) = process_spec(t, prev, now);
        let s = snaps.last();
        assert forall|k: int| 0 <= k < snaps.len() implies mirrors(process_spec(t, snaps, now).0, #[trigger] snaps[k]) by {
            if k == snaps.len() - 1 {
                lemma_step_mirrors(t1, d1, s, now);
            } else {
                assert(snaps[k] == prev[k]);
                assert(mirrors(t1, prev[k]));
                assert(snaps[k].id != snaps[snaps.len() - 1].id);
                lemma_step_keeps_other(t1, d1, s, now, snaps[k]);
            }
        }
    }
}

proof fn lemma_process_keeps_other(t: Seq<AccountView>, snaps: Seq<SnapshotView>, now: i64, x: SnapshotView)
    requires
        mirrors(t, x),
        forall|k: int| 0 <= k < snaps.len() ==> (#[trigger] snaps[k]).id != x.id,
    ensures
        mirrors(process_spec(t, snaps, now).0, x),
    decreases snaps.len(),
{
    if snaps.len() > 0 {
        let prev = snaps.drop_last();
        assert forall|k: int| 0 <= k < prev.len() implies (#[trigger] prev[k]).id != x.id by {
            assert(prev[k] == snaps[k]);
        }
        lemma_process_keeps_other(t, prev, now, x);
        let (t1, d1) = process_spec(t, prev, now);
        assert(snaps[snaps.len() - 1].id != x.id);
        lemma_step_keeps_other(t1, d1, snaps.last(), now, x);
    }
}

/// Mirroring accounts that are all mirrored already adds and changes
/// nothing, keeps them mirrored, and leaves the other rows as they are.
proof fn lemma_process_settled(t: Seq<AccountView>, snaps: Seq<SnapshotView>, now: i64)
    requires
        ids_distinct(snaps),
        forall|k: int| 0 <= k < snaps.len() ==> mirrors(t, #[trigger] snaps[k]),
    ensures
        process_spec(t, snaps, now).1.added.len() == 0,
        process_spec(t, snaps, now).1.updated.len() == 0,
        process_spec(t, snaps, now).0.len() == t.len(),
        forall|i: int| 0 <= i < t.len() && !is_configured(snaps, #[trigger] t[i].id)
            ==> process_spec(t, snaps, now).0[i] == t[i],
        forall|i: int| 0 <= i < t.len() ==> (#[trigger] process_spec(t, snaps, now).0[i]).id == t[i].id,
    decreases snaps.len(),
{
    if snaps.len() > 0 {
        let prev = snaps.drop_last();
        let s = snaps.last();
        assert(ids_distinct(prev)) by {
            assert forall|a: int, b: int| 0 <= a < b < prev.len() implies (#[trigger] prev[a]).id != (#[trigger] prev[b]).id by {
                assert(prev[a] == snaps[a] && prev[b] == snaps[b]);
            }
        }
        assert forall|k: int| 0 <= k < prev.len() implies mirrors(t, #[trigger] prev[k]) by {
            assert(prev[k] == snaps[k]);
        }
        lemma_process_settled(t, prev, now);
        let (t1, d1) = process_spec(t, prev, now);
        assert(mirrors(t, snaps[snaps.len() - 1]));
        assert forall|k: int| 0 <= k < prev.len() implies (#[trigger] prev[k]).id != s.id by {
            assert(prev[k] == snaps[k]);
            assert(snaps[k].id != snaps[snaps.len() - 1].id);
        }
        lemma_process_keeps_other(t, prev, now, s);
        let j = find_from(t1, s.id, 0);
        lemma_find_from(t1, s.id, 0);
        let t2 = process_spec(t, snaps, now).0;
        assert(t2 == t1.update(j, mirrored_row(s, now)));
        assert forall|i: int| 0 <= i < t.len() && !is_configured(snaps, #[trigger] t[i].id) implies t2[i] == t[i] by {
            if is_configured(prev, t[i].id) {
                let k = choose|k: int| 0 <= k < prev.len() && (#[trigger] prev[k]).id == t[i].id;
                assert(snaps[k] == prev[k]);
                assert(is_configured(snaps, t[i].id));
            }
            assert(t1[i] == t[i]);
            assert(snaps[snaps.len() - 1].id == s.id);
            assert(t1[i].id != s.id);
            assert(i != j);
        }
        assert forall|i: int| 0 <= i < t.len() implies (#[trigger] t2[i]).id == t[i].id by {
            assert(t1[i].id == t[i].id);
            if i == j {
                assert(t2[i] == mirrored_row(s, now));
            }
        }
    }
}

proof fn lemma_retire_keeps_mirrors(t: Seq<AccountView>, snaps: Seq<SnapshotView>, now: i64, x: SnapshotView)
    requires
        mirrors(t, x),
        is_configured(snaps, x.id),
    ensures
        mirrors(
            Seq::new(t.len(), |i: int| if retired(t[i], snaps) { AccountView { active: false, mirrored_at: now, ..t[i] } } else { t[i] }),
            x,
        ),
{
    let t2 = Seq::new(t.len(), |i: int| if retired(t[i], snaps) { AccountView { active: false, mirrored_at: now, ..t[i] } } else { t[i] });
    assert forall|i: int| 0 <= i < t.len() implies (#[trigger] t2[i]).id == t[i].id by {}
    lemma_find_from(t, x.id, 0);
    lemma_find_same_ids(t, t2, x.id, 0);
}

proof fn lemma_none_retired(t: Seq<AccountView>, snaps: Seq<SnapshotView>)
    requires
        forall|i: int| 0 <= i < t.len() ==> !retired(#[trigger] t[i], snaps),
    ensures
        t.filter(|r: AccountView| retired(r, snaps)).len() == 0,
    decreases t.len(),
{
    reveal(Seq::filter);
    if t.len() > 0 {
        let prev = t.drop_last();
        assert forall|i: int| 0 <= i < prev.len() implies !retired(#[trigger] prev[i], snaps) by {
            assert(prev[i] == t[i]);
        }
        lemma_none_retired(prev, snaps);
        assert(!retired(t[t.len() - 1], snaps));
    }
}

/// Reconciling the same configuration a second time adds, changes and
/// retires nothing (when no account id is configured twice).
pub proof fn reconcile_again_changes_nothing(existing: Seq<AccountView>, snaps: Seq<SnapshotView>, now1: i64, now2: i64)
    requires
        ids_distinct(snaps),
    ensures
        ({
            let d2 = reconcile_spec(reconcile_spec(existing, snaps, now1).0, snaps, now2).1;
            &&& d2.added.len() == 0
            &&& d2.updated.len() == 0
            &&& d2.inactivated.len() == 0
        }),
{
    let p1 = process_spec(existing, snaps, now1).0;
    let r1 = reconcile_spec(existing, snaps, now1).0;
    lemma_process_mirrors(existing, snaps, now1);
    assert forall|k: int| 0 <= k < snaps.len() implies mirrors(r1, #[trigger] snaps[k]) by {
        assert(is_configured(snaps, snaps[k].id));
        lemma_retire_keeps_mirrors(p1, snaps, now1, snaps[k]);
    }
    reconcile_mirrors_configuration(existing, snaps, now1);
    lemma_process_settled(r1, snaps, now2);
    let p2 = process_spec(r1, snaps, now2).0;
    assert forall|i: int| 0 <= i < p2.len() implies !retired(#[trigger] p2[i], snaps) by {
        if !is_configured(snaps, p2[i].id) {
            assert(p2[i].id == r1[i].id);
            assert(p2[i] == r1[i]);
            assert(!r1[i].active);
        }
    }
    lemma_none_retired(p2, snaps);
}

} // verus!

verus! {

/// Whether a configured account differs from its stored row in a
/// structural field, or the row is inactive.
pub open spec fn structurally_changed(prev: AccountView, s: SnapshotView) -> bool {
    prev.host != s.host || prev.port != s.port || prev.username != s.username || prev.folders != s.folders
        || !prev.active
}

/// The configured ids that have no stored row, in configuration order.
pub open spec fn added_spec(existing: Seq<AccountView>, snaps: Seq<SnapshotView>) -> Seq<Seq<char>>
    decreases snaps.len(),
{
    if snaps.len() == 0 {
        Seq::empty()
    } else {
        let p = added_spec(existing, snaps.drop_last());
        let s = snaps.last();
        if find_from(existing, s.id, 0) < 0 { p.push(s.id) } else { p }
    }
}

/// The configured ids whose stored row changes, in configuration order.
pub open spec fn updated_spec(existing: Seq<AccountView>, snaps: Seq<SnapshotView>) -> Seq<Seq<char>>
    decreases snaps.len(),
{
    if snaps.len() == 0 {
        Seq::empty()
    } else {
        let p = updated_spec(existing, snaps.drop_last());
        let s = snaps.last();
        let j = find_from(existing, s.id, 0);
        if j >= 0 && structurally_changed(existing[j], s) { p.push(s.id) } else { p }
    }
}

proof fn lemma_find_same_len(t1: Seq<AccountView>, t2: Seq<AccountView>, id: Seq<char>, i: int)
    requires
        0 <= i,
        t1.len() == t2.len(),
        forall|x: int| i <= x < t1.len() ==> (#[trigger] t2[x]).id == t1[x].id,
    ensures
        find_from(t2, id, i) == find_from(t1, id, i),
    decreases t1.len() - i,
{
    if i < t1.len() {
        assert(t2[i].id == t1[i].id);
        lemma_find_same_len(t1, t2, id, i + 1);
    }
}

proof fn lemma_find_push_other(t: Seq<AccountView>, m: AccountView, id: Seq<char>, i: int)
    requires
        0 <= i <= t.len(),
        find_from(t, id, i) == -1,
        m.id != id,
    ensures
        find_from(t.push(m), id, i) == -1,
    decreases t.len() + 1 - i,
{
    if i < t.len() {
        assert(t.push(m)[i] == t[i]);
        lemma_find_push_other(t, m, id, i + 1);
    } else {
        assert(t.push(m)[i] == m);
        assert(find_from(t.push(m), id, i + 1) == -1);
    }
}

/// Mirroring accounts of other ids neither finds, moves nor changes the
/// stored row of `id`.
proof fn lemma_process_other(existing: Seq<AccountView>, snaps: Seq<SnapshotView>, now: i64, id: Seq<char>)
    requires
        forall|k: int| 0 <= k < snaps.len() ==> (#[trigger] snaps[k]).id != id,
    ensures
        find_from(process_spec(existing, snaps, now).0, id, 0) == find_from(existing, id, 0),
        find_from(existing, id, 0) >= 0 ==> process_spec(existing, snaps, now).0[find_from(existing, id, 0)]
            == existing[find_from(existing, id, 0)],
    decreases snaps.len(),
{
    if snaps.len() > 0 {
        let prev = snaps.drop_last();
        let s = snaps.last();
        assert forall|k: int| 0 <= k < prev.len() implies (#[trigger] prev[k]).id != id by {
            assert(prev[k] == snaps[k]);
        }
        assert(snaps[snaps.len() - 1].id != id);
        lemma_process_other(existing, prev, now, id);
        let (t1, d1) = process_spec(existing, prev, now);
        let t2 = process_spec(existing, snaps, now).0;
        let js = find_from(t1, s.id, 0);
        let j = find_from(t1, id, 0);
        lemma_find_from(t1, s.id, 0);
        lemma_find_from(t1, id, 0);
        let m = mirrored_row(s, now);
        if js >= 0 {
            assert(t2 == t1.update(js, m));
            assert forall|x: int| 0 <= x < t1.len() implies (#[trigger] t2[x]).id == t1[x].id by {
                if x == js {
                    assert(t2[x] == m);
                }
            }
            lemma_find_same_len(t1, t2, id, 0);
            if j >= 0 {
                assert(j != js);
                assert(t2[j] == t1[j]);
            }
        } else {
            assert(t2 == t1.push(m));
            if j >= 0 {
                assert forall|x: int| 0 <= x < t1.len() implies (#[trigger] t2[x]).id == t1[x].id by {
                    assert(t2[x] == t1[x]);
                }
                lemma_find_same_ids(t1, t2, id, 0);
                assert(t2[j] == t1[j]);
            } else {
                lemma_find_push_other(t1, m, id, 0);
            }
        }
    }
}

proof fn lemma_process_diff(existing: Seq<AccountView>, snaps: Seq<SnapshotView>, now: i64)
    requires
        ids_distinct(snaps),
    ensures
        process_spec(existing, snaps, now).1.added == added_spec(existing, snaps),
        process_spec(existing, snaps, now).1.updated == updated_spec(existing, snaps),
        process_spec(existing, snaps, now).1.inactivated == Seq::<Seq<char>>::empty(),
    decreases snaps.len(),
{
    if snaps.len() > 0 {
        let prev = snaps.drop_last();
        let s = snaps.last();
        assert(ids_distinct(prev)) by {
            assert forall|a: int, b: int| 0 <= a < b < prev.len() implies (#[trigger] prev[a]).id != (#[trigger] prev[b]).id by {
                assert(prev[a] == snaps[a] && prev[b] == snaps[b]);
            }
        }
        assert forall|k: int| 0 <= k < prev.len() implies (#[trigger] prev[k]).id != s.id by {
            assert(prev[k] == snaps[k]);
            assert(snaps[k].id != snaps[snaps.len() - 1].id);
        }
        lemma_process_diff(existing, prev, now);
        lemma_process_other(existing, prev, now, s.id);
    }
}

/// The rows a reconcile leaves: every stored row keeps its place and id,
/// a row whose account is not configured is untouched, and every added row
/// is a configured account.
proof fn lemma_process_rows(existing: Seq<AccountView>, snaps: Seq<SnapshotView>, now: i64)
    ensures
        process_spec(existing, snaps, now).0.len() >= existing.len(),
        forall|i: int| 0 <= i < existing.len() ==> (#[trigger] process_spec(existing, snaps, now).0[i]).id == existing[i].id,
        forall|i: int| 0 <= i < existing.len() && !is_configured(snaps, #[trigger] existing[i].id)
            ==> process_spec(existing, snaps, now).0[i] == existing[i],
        forall|i: int| existing.len() <= i < process_spec(existing, snaps, now).0.len()
            ==> is_configured(snaps, (#[trigger] process_spec(existing, snaps, now).0[i]).id),
    decreases snaps.len(),
{
    lemma_process(existing, snaps, now);
    if snaps.len() > 0 {
        let prev = snaps.drop_last();
        let s = snaps.last();
        lemma_process_rows(existing, prev, now);
        let (t1, d1) = process_spec(existing, prev, now);
        let t2 = process_spec(existing, snaps, now).0;
        let js = find_from(t1, s.id, 0);
        lemma_find_from(t1, s.id, 0);
        let m = mirrored_row(s, now);
        assert(is_configured(snaps, s.id)) by {
            assert(snaps[snaps.len() - 1] == s);
        }
        assert forall|x: Seq<char>| is_configured(prev, x) implies is_configured(snaps, x) by {
            let k = choose|k: int| 0 <= k < prev.len() && (#[trigger] prev[k]).id == x;
            assert(snaps[k] == prev[k]);
        }
        assert forall|i: int| 0 <= i < existing.len() && !is_configured(snaps, #[trigger] existing[i].id)
            implies t2[i] == existing[i] by {
            assert(!is_configured(prev, existing[i].id));
            assert(t1[i] == existing[i]);
            if js >= 0 {
                assert(i != js);
            }
        }
        assert forall|i: int| existing.len() <= i < t2.len() implies is_configured(snaps, (#[trigger] t2[i]).id) by {
            if js >= 0 {
                if i == js {
                    assert(t2[i] == m);
                } else {
                    assert(t2[i] == t1[i]);
                    assert(is_configured(prev, t1[i].id));
                }
            } else {
                if i < t1.len() {
                    assert(t2[i] == t1[i]);
                    assert(is_configured(prev, t1[i].id));
                } else {
                    assert(t2[i] == m);
                }
            }
        }
    }
}

proof fn lemma_filter_retired_same(t: Seq<AccountView>, e: Seq<AccountView>, snaps: Seq<SnapshotView>)
    requires
        t.len() >= e.len(),
        forall|i: int| 0 <= i < e.len() ==> (#[trigger] t[i]).id == e[i].id,
        forall|i: int| 0 <= i < e.len() && !is_configured(snaps, #[trigger] e[i].id) ==> t[i] == e[i],
        forall|i: int| e.len() <= i < t.len() ==> is_configured(snaps, (#[trigger] t[i]).id),
    ensures
        t.filter(|r: AccountView| retired(r, snaps)) == e.filter(|r: AccountView| retired(r, snaps)),
    decreases t.len(),
{
    reveal(Seq::filter);
    if t.len() > e.len() {
        let tp = t.drop_last();
        assert forall|i: int| 0 <= i < e.len() implies (#[trigger] tp[i]).id == e[i].id by {
            assert(tp[i] == t[i]);
        }
        assert forall|i: int| 0 <= i < e.len() && !is_configured(snaps, #[trigger] e[i].id) implies tp[i] == e[i] by {
            assert(tp[i] == t[i]);
        }
        assert forall|i: int| e.len() <= i < tp.len() implies is_configured(snaps, (#[trigger] tp[i]).id) by {
            assert(tp[i] == t[i]);
        }
        lemma_filter_retired_same(tp, e, snaps);
        assert(is_configured(snaps, t[t.len() - 1].id));
        assert(!retired(t.last(), snaps));
    } else if t.len() > 0 {
        let tp = t.drop_last();
        let ep = e.drop_last();
        assert forall|i: int| 0 <= i < ep.len() implies (#[trigger] tp[i]).id == ep[i].id by {
            assert(tp[i] == t[i] && ep[i] == e[i]);
        }
        assert forall|i: int| 0 <= i < ep.len() && !is_configured(snaps, #[trigger] ep[i].id) implies tp[i] == ep[i] by {
            assert(tp[i] == t[i] && ep[i] == e[i]);
        }
        lemma_filter_retired_same(tp, ep, snaps);
        let n = t.len() - 1;
        assert(t[n].id == e[n].id);
        if !is_configured(snaps, e[n].id) {
            assert(t[n] == e[n]);
        }
        assert(t.last() == t[n] && e.last() == e[n]);
    } else {
        assert(t =~= e);
    }
}

/// What a reconcile reports, exactly (when no account id is configured
/// twice): added are the configured ids without a stored row, updated the
/// configured ids whose stored row differs in a structural field or is
/// inactive, both in configuration order; inactivated are the stored
/// active accounts no longer configured, in table order.
pub proof fn reconcile_diff_is_exact(existing: Seq<AccountView>, snaps: Seq<SnapshotView>, now: i64)
    requires
        ids_distinct(snaps),
    ensures
        reconcile_spec(existing, snaps, now).1.added == added_spec(existing, snaps),
        reconcile_spec(existing, snaps, now).1.updated == updated_spec(existing, snaps),
        reconcile_spec(existing, snaps, now).1.inactivated
            == existing.filter(|r: AccountView| retired(r, snaps)).map_values(|r: AccountView| r.id),
{
    lemma_process_diff(existing, snaps, now);
    lemma_process_rows(existing, snaps, now);
    let t = process_spec(existing, snaps, now).0;
    lemma_filter_retired_same(t, existing, snaps);
}

} // verus!
