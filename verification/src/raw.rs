//! Where a message's raw `.eml` bytes are stored.
//!
//! Layout: `<data_dir>/raw/<account_id>/<YYYY>/<MM>/<sha256-hex(message_id)>.eml`,
//! with the year and month of the message date in UTC (the Unix epoch for a
//! date out of range).  The same inputs always give the same path.

use vstd::prelude::*;
use vstd::string::StringSliceAdditionalSpecFns;
use vstd::utf8::encode_utf8;

use chrono::Datelike;

use crate::digest::{hex_sha256, hex_sha256_spec};
use crate::text::{decimal_spec, push_decimal, push_str_chars, string_from_chars};

verus! {

/// The year and month, in the proleptic Gregorian calendar, of the day
/// `days` days after 1 January 1970 (before it, when negative).
#[verifier::opaque]
pub open spec fn civil_year_month(days: int) -> (int, int) {
    let z = days + 719468;
    let era = z / 146097;
    let doe = z - era * 146097;
    let yoe = (doe - doe / 1460 + doe / 36524 - doe / 146096) / 365;
    let doy = doe - (365 * yoe + yoe / 4 - yoe / 100);
    let mp = (5 * doy + 2) / 153;
    let m = if mp < 10 { mp + 3 } else { mp - 9 };
    (yoe + era * 400 + if m <= 2 { 1int } else { 0int }, m)
}

/// The UTC calendar year and month of a Unix timestamp (seconds), or none
/// when its year is outside the calendar's range, -262143 to 262142.
pub open spec fn utc_year_month_of(secs: int) -> Option<(int, int)> {
    let ym = civil_year_month(secs / 86400);
    if -262143 <= ym.0 <= 262142 { Some(ym) } else { None }
}

/// `chrono::DateTime::<Utc>::from_timestamp(secs, 0)`, read as its year and
/// month: the civil date of the timestamp's day, when its year is in
/// chrono's range.  The month is in `1..=12`; the epoch is January 1970.
#[verifier::external_body]
pub(crate) fn utc_year_month(secs: i64) -> (r: Option<(i32, u32)>)
    ensures
        match r {
            Some((y, m)) => utc_year_month_of(secs as int) == Some((y as int, m as int)) && 1 <= m <= 12,
            None => utc_year_month_of(secs as int) is None,
        },
        secs == 0 ==> r == Some((1970i32, 1u32)),
{
    match chrono::DateTime::<chrono::Utc>::from_timestamp(secs, 0) {
        Some(dt) => Some((dt.year(), dt.month())),
        None => None,
    }
}

/// `n` in decimal, left-padded with zeros to `width` digits.
pub open spec fn padded_spec(n: nat, width: nat) -> Seq<char> {
    let d = decimal_spec(n);
    if d.len() < width { Seq::new((width - d.len()) as nat, |i: int| '0') + d } else { d }
}

/// The year directory (`%Y`): four digits, zero-padded, for years 0 to
/// 9999; otherwise a sign and at least four digits.
pub open spec fn year_dir_spec(y: int) -> Seq<char> {
    if 0 <= y <= 9999 {
        padded_spec(y as nat, 4)
    } else if y > 9999 {
        seq!['+'] + padded_spec(y as nat, 4)
    } else {
        seq!['-'] + padded_spec((-y) as nat, 4)
    }
}

/// `base` joined with a component (`Path::join`): an absolute component
/// replaces the base.
pub open spec fn path_join_spec(base: Seq<char>, comp: Seq<char>) -> Seq<char> {
    if comp.len() > 0 && comp[0] == '/' {
        comp
    } else if base.len() == 0 || base.last() == '/' {
        base + comp
    } else {
        base + seq!['/'] + comp
    }
}

/// The year and month used for a date: its own, or the epoch's.
pub open spec fn dir_date(date_unix: int) -> (int, int) {
    match utc_year_month_of(date_unix) {
        Some(ym) => ym,
        None => (1970, 1),
    }
}

/// The raw-file path of a message.
pub open spec fn raw_path_spec(data_dir: Seq<char>, account_id: Seq<char>, message_id: Seq<char>, date_unix: int) -> Seq<char> {
    let (y, m) = dir_date(date_unix);
    let p = path_join_spec(path_join_spec(data_dir, "raw"@), account_id);
    let p = path_join_spec(path_join_spec(p, year_dir_spec(y)), padded_spec(m as nat, 2));
    path_join_spec(p, hex_sha256_spec(encode_utf8(message_id)) + ".eml"@)
}

fn push_padded(out: &mut Vec<char>, n: u64, width: usize)
    ensures
        final(out)@ == old(out)@ + padded_spec(n as nat, width as nat),
{
    let mut digits: Vec<char> = Vec::new();
    push_decimal(&mut digits, n);
    assert(digits@ =~= decimal_spec(n as nat));
    let mut k = digits.len();
    let ghost start = out@;
    let mut zeros: usize = 0;
    while k < width
        invariant
            digits@.len() <= k <= width || (k == digits@.len() && width <= k),
            zeros == k - digits@.len(),
            out@ == start + Seq::new(zeros as nat, |i: int| '0'),
        decreases width - k,
    {
        out.push('0');
        zeros += 1;
        k += 1;
        assert(out@ =~= start + Seq::new(zeros as nat, |i: int| '0'));
    }
    crate::text::push_range(out, &digits, 0, digits.len());
    assert(digits@.subrange(0, digits.len() as int) =~= digits@);
    if digits.len() < width {
        assert(final(out)@ =~= old(out)@ + padded_spec(n as nat, width as nat));
    } else {
        assert(Seq::new(zeros as nat, |i: int| '0') =~= Seq::<char>::empty());
        assert(final(out)@ =~= old(out)@ + padded_spec(n as nat, width as nat));
    }
}

fn push_join(out: &mut Vec<char>, comp: &Vec<char>)
    ensures
        final(out)@ == path_join_spec(old(out)@, comp@),
{
    if comp.len() > 0 && comp[0] == '/' {
        out.clear();
    } else if out.len() > 0 && out[out.len() - 1] != '/' {
        out.push('/');
    }
    crate::text::push_range(out, comp, 0, comp.len());
    assert(comp@.subrange(0, comp.len() as int) =~= comp@);
    assert(final(out)@ =~= path_join_spec(old(out)@, comp@));
}

/// The on-disk path of a message's raw bytes.  Deterministic: the same
/// inputs always give the same path.
pub fn raw_path(data_dir: &str, account_id: &str, message_id: &str, date_unix: i64) -> (p: String)
    ensures
        p@ == raw_path_spec(data_dir@, account_id@, message_id@, date_unix as int),
{
    let (y, m) = match utc_year_month(date_unix) {
        Some(ym) => ym,
        None => match utc_year_month(0) {
            Some(ym) => ym,
            None => (1970, 1),
        },
    };
    assert(dir_date(date_unix as int) == (y as int, m as int));
    let mut out = crate::text::chars_of(data_dir);
    let raw = crate::text::chars_of("raw");
    push_join(&mut out, &raw);
    let acct = crate::text::chars_of(account_id);
    push_join(&mut out, &acct);
    let mut yd: Vec<char> = Vec::new();
    if 0 <= y && y <= 9999 {
        push_padded(&mut yd, y as u64, 4);
    } else if y > 9999 {
        yd.push('+');
        push_padded(&mut yd, y as u64, 4);
    } else {
        yd.push('-');
        let a: i64 = -(y as i64);
        push_padded(&mut yd, a as u64, 4);
    }
    assert(yd@ =~= year_dir_spec(y as int));
    push_join(&mut out, &yd);
    let mut md: Vec<char> = Vec::new();
    push_padded(&mut md, m as u64, 2);
    push_join(&mut out, &md);
    let hex = hex_sha256(message_id.as_bytes());
    let mut file = crate::text::chars_of(hex.as_str());
    push_str_chars(&mut file, ".eml");
    push_join(&mut out, &file);
    string_from_chars(out.as_slice())
}

} // verus!
