//! Log timestamps: the `dd.mm.yyyy_HH:MM:SS` tokens of session logs, read and
//! written through `chrono`. A parsed token is held as seconds since the Unix
//! epoch with the nanoseconds past them (a leap second reaches past one
//! second); instants the library writes are whole seconds.

use chrono::{Datelike, Timelike};
use vstd::prelude::*;

use crate::text::push_char;

verus! {

/// An instant as `chrono` holds it: whole non-leap seconds since the Unix
/// epoch (UTC), and nanoseconds past that second. The nanoseconds reach past
/// one second only on a leap second, which `chrono` places at second 59 of
/// a minute.
#[derive(Clone, Copy, Debug, PartialEq, Eq, Structural)]
pub struct LogTime {
    pub secs: i64,
    pub nanos: u32,
}

/// One second in nanoseconds.
pub const NANOS_PER_SEC: u32 = 1_000_000_000;

/// Whether `t` is an instant `chrono` can represent: within its range of
/// seconds, with nanoseconds below two seconds, at or past one second only
/// on second 59 of a minute.
pub open spec fn valid_time(t: LogTime) -> bool {
    &&& MIN_TIMESTAMP <= t.secs <= MAX_TIMESTAMP
    &&& t.nanos < 2 * NANOS_PER_SEC
    &&& t.nanos >= NANOS_PER_SEC ==> t.secs % 60 == 59
}

/// Whether an optional instant is absent or representable.
pub open spec fn valid_opt_time(t: Option<LogTime>) -> bool {
    match t {
        Some(x) => valid_time(x),
        None => true,
    }
}

/// What `chrono` makes of a timestamp token under the session-log format
/// `%d.%m.%Y_%H:%M:%S`, read as UTC, or `None` when the token does not parse.
pub uninterp spec fn log_timestamp(token: Seq<char>) -> Option<LogTime>;

/// Parses a timestamp token with `chrono::NaiveDateTime::parse_from_str`
/// under `%d.%m.%Y_%H:%M:%S`, read as UTC, and returns its epoch seconds
/// (`timestamp`) and sub-second nanoseconds (`timestamp_subsec_nanos`).
/// Claimed: the result is `log_timestamp` of the token, so the same token
/// always gives the same result, and a parsed instant is one `chrono` can
/// represent (a second of 60 is read as a leap second: second 59 with one
/// second of nanoseconds); nothing is claimed about which tokens parse.
#[verifier::external_body]
pub(crate) fn parse_log_timestamp(token: &str) -> (r: Option<LogTime>)
    ensures
        r == log_timestamp(token@),
        valid_opt_time(r),
{
    match chrono::NaiveDateTime::parse_from_str(token, "%d.%m.%Y_%H:%M:%S") {
        Ok(nd) => Some(
            LogTime { secs: nd.and_utc().timestamp(), nanos: nd.and_utc().timestamp_subsec_nanos() },
        ),
        Err(_) => None,
    }
}

/// The signed time from `prev` to `t` in nanoseconds, as `chrono` subtracts
/// two instants: the difference of their seconds and of their nanoseconds,
/// where a leap second of one instant counts as a whole second when the
/// other lies at a later (or earlier) second of its day.
pub open spec fn delta_nanos(t: LogTime, prev: LogTime) -> int {
    let day_t = t.secs % 86400;
    let day_p = prev.secs % 86400;
    let leap: int = if day_t > day_p && prev.nanos >= NANOS_PER_SEC {
        1
    } else if day_t < day_p && t.nanos >= NANOS_PER_SEC {
        -1
    } else {
        0
    };
    (t.secs - prev.secs + leap) * NANOS_PER_SEC + t.nanos - prev.nanos
}

/// A signed number of nanoseconds as whole seconds, truncated towards zero.
pub open spec fn whole_seconds(n: int) -> int {
    if n >= 0 {
        n / (NANOS_PER_SEC as int)
    } else {
        -((-n) / (NANOS_PER_SEC as int))
    }
}

/// The whole seconds from `prev` to `t`, from `chrono`: the two instants are
/// rebuilt with `DateTime::from_timestamp` (which gives back what `timestamp`
/// and `timestamp_subsec_nanos` took apart), subtracted, and read with
/// `TimeDelta::num_seconds`. Claimed: the result is the difference that
/// `delta_nanos` states, truncated towards zero; both instants must be
/// representable (else `from_timestamp` gives `None`).
#[verifier::external_body]
pub(crate) fn seconds_between(t: LogTime, prev: LogTime) -> (r: i64)
    requires
        valid_time(t),
        valid_time(prev),
    ensures
        r == whole_seconds(delta_nanos(t, prev)),
{
    let a = chrono::DateTime::from_timestamp(t.secs, t.nanos).unwrap();
    let b = chrono::DateTime::from_timestamp(prev.secs, prev.nanos).unwrap();
    (a - b).num_seconds()
}

/// The earliest second `chrono` represents: 1 January of year -262143, UTC.
pub const MIN_TIMESTAMP: i64 = -8334601228800;

/// The latest second `chrono` represents: 31 December 262142, 23:59:59 UTC.
pub const MAX_TIMESTAMP: i64 = 8210266876799;

/// The proleptic Gregorian date `(year, month, day)` of the day `days` days
/// after 1 January 1970, years counted astronomically (a year 0, then
/// negative years): the days are counted in 400-year eras of 146097 days,
/// each starting on 1 March.
pub open spec fn civil_date(days: int) -> (int, int, int) {
    let z = days + 719468;
    let era = z / 146097;
    let doe = z - era * 146097;
    let yoe = (doe - doe / 1460 + doe / 36524 - doe / 146096) / 365;
    let doy = doe - (365 * yoe + yoe / 4 - yoe / 100);
    let mp = (5 * doy + 2) / 153;
    let day = doy - (153 * mp + 2) / 5 + 1;
    let month = if mp < 10 {
        mp + 3
    } else {
        mp - 9
    };
    (yoe + era * 400 + if month <= 2 {
        1int
    } else {
        0int
    }, month, day)
}

/// The calendar fields of a UTC instant, from `chrono::DateTime::from_timestamp`
/// and its `year`, `month`, `day`, `hour`, `minute` and `second` accessors.
/// Claimed: the date is the proleptic Gregorian date of the day (chrono's
/// calendar), so the month lies in 1..=12 and the day in 1..=31; the time of
/// day is the remainder of `secs` modulo 86400 (chrono counts no leap
/// seconds); `from_timestamp` succeeds on exactly the range the bounds admit.
#[verifier::external_body]
pub(crate) fn utc_fields(secs: i64) -> (f: (i32, u32, u32, u32, u32, u32))
    requires
        MIN_TIMESTAMP <= secs <= MAX_TIMESTAMP,
    ensures
        1 <= f.1 <= 12,
        1 <= f.2 <= 31,
        f.3 == (secs % 86400) / 3600,
        f.4 == (secs % 86400) / 60 % 60,
        f.5 == secs % 86400 % 60,
        f.0 == civil_date(secs / 86400).0,
        f.1 == civil_date(secs / 86400).1,
        f.2 == civil_date(secs / 86400).2,
{
    let t = chrono::DateTime::from_timestamp(secs, 0).unwrap();
    (t.year(), t.month(), t.day(), t.hour(), t.minute(), t.second())
}

#[verifier::external_type_specification]
#[verifier::external_body]
pub struct ExSystemTime(std::time::SystemTime);

/// The system clock's reading, from `std::time::SystemTime::now`. Nothing is
/// claimed of it.
#[verifier::external_body]
pub(crate) fn clock_now() -> std::time::SystemTime {
    std::time::SystemTime::now()
}

/// The whole seconds from the Unix epoch to a clock reading, from
/// `SystemTime::duration_since(UNIX_EPOCH)` and `Duration::as_secs`; `None`
/// when the reading lies before the epoch. Nothing more is claimed: the
/// reading is the clock's.
#[verifier::external_body]
pub(crate) fn seconds_since_epoch(t: &std::time::SystemTime) -> Option<u64> {
    match t.duration_since(std::time::UNIX_EPOCH) {
        Ok(d) => Some(d.as_secs()),
        Err(_) => None,
    }
}

/// A clock reading in whole seconds since the epoch as an instant `chrono`
/// represents: `None` for a reading before the epoch or past `MAX_TIMESTAMP`.
pub fn epoch_instant(reading: Option<u64>) -> (r: Option<i64>)
    ensures
        r == (match reading {
            Some(s) => if s <= MAX_TIMESTAMP {
                Some(s as i64)
            } else {
                None
            },
            None => None,
        }),
{
    match reading {
        Some(s) => if s <= MAX_TIMESTAMP as u64 {
            Some(s as i64)
        } else {
            None
        },
        None => None,
    }
}

/// The character of a decimal digit.
pub open spec fn digit(d: nat) -> char {
    (48 + d) as char
}

/// The decimal digits of `n`, without leading zeros.
pub open spec fn dec(n: nat) -> Seq<char>
    decreases n,
{
    if n < 10 {
        seq![digit(n)]
    } else {
        dec(n / 10).push(digit(n % 10))
    }
}

/// `s` with zeros in front up to width `w`.
pub open spec fn zero_pad(s: Seq<char>, w: nat) -> Seq<char> {
    if s.len() >= w {
        s
    } else {
        Seq::new((w - s.len()) as nat, |i: int| '0') + s
    }
}

/// An integer written as `{:0w$}` writes it: sign-aware zero padding to
/// width `w`, the sign counting towards the width.
pub open spec fn fmt_int(n: int, w: nat) -> Seq<char> {
    if n < 0 {
        seq!['-'] + zero_pad(dec((-n) as nat), if w >= 1 {
            (w - 1) as nat
        } else {
            0
        })
    } else {
        zero_pad(dec(n as nat), w)
    }
}

/// The session-log rendering `dd.mm.yyyy_HH:MM:SS` of calendar fields.
pub open spec fn format_fields(
    year: int,
    month: nat,
    day: nat,
    hour: nat,
    minute: nat,
    second: nat,
) -> Seq<char> {
    zero_pad(dec(day), 2) + seq!['.'] + zero_pad(dec(month), 2) + seq!['.'] + fmt_int(year, 4)
        + seq!['_'] + zero_pad(dec(hour), 2) + seq![':'] + zero_pad(dec(minute), 2) + seq![':']
        + zero_pad(dec(second), 2)
}

/// The session-log rendering of the UTC instant `secs`, from its proleptic
/// Gregorian date and its time of day.
pub open spec fn fmt_ts_spec(secs: i64) -> Seq<char> {
    let date = civil_date(secs / 86400);
    let tod = secs % 86400;
    format_fields(
        date.0,
        date.1 as nat,
        date.2 as nat,
        (tod / 3600) as nat,
        (tod / 60 % 60) as nat,
        (tod % 60) as nat,
    )
}

/// The decimal digits of `n`.
pub fn dec_chars(n: u64) -> (v: Vec<char>)
    ensures
        v@ == dec(n as nat),
    decreases n,
{
    if n < 10 {
        let mut v = Vec::new();
        v.push(((n as u8) + 48) as char);
        assert(v@ =~= seq![digit(n as nat)]);
        v
    } else {
        let mut v = dec_chars(n / 10);
        v.push((((n % 10) as u8) + 48) as char);
        v
    }
}

/// Appends `n` written as `{:0w$}` writes an unsigned integer.
pub fn push_padded(s: &mut String, n: u64, w: usize)
    ensures
        final(s)@ == old(s)@ + zero_pad(dec(n as nat), w as nat),
{
    let ds = dec_chars(n);
    let ghost s0 = s@;
    let mut k: usize = ds.len();
    while k < w
        invariant
            ds.len() <= k <= w || (w < ds.len() && k == ds.len()),
            s@ == s0 + Seq::new((k - ds.len()) as nat, |i: int| '0'),
        decreases w - k,
    {
        push_char(s, '0');
        k = k + 1;
        assert(s@ =~= s0 + Seq::new((k - ds.len()) as nat, |i: int| '0'));
    }
    let ghost s1 = s@;
    let mut i: usize = 0;
    while i < ds.len()
        invariant
            0 <= i <= ds@.len(),
            s@ == s1 + ds@.take(i as int),
        decreases ds@.len() - i,
    {
        push_char(s, ds[i]);
        i = i + 1;
        assert(s@ =~= s1 + ds@.take(i as int));
    }
    assert(ds@.take(ds@.len() as int) =~= ds@);
    if ds.len() >= w {
        assert(s@ =~= s0 + dec(n as nat));
    } else {
        assert(s@ =~= s0 + zero_pad(dec(n as nat), w as nat));
    }
}

/// Appends the decimal digits of `n`.
pub fn push_decimal(s: &mut String, n: u64)
    ensures
        final(s)@ == old(s)@ + dec(n as nat),
{
    push_padded(s, n, 0);
}

/// Renders calendar fields as `dd.mm.yyyy_HH:MM:SS`, each field zero-padded
/// (the year to four places, after its sign).
pub fn format_timestamp(year: i32, month: u32, day: u32, hour: u32, minute: u32, second: u32) -> (s:
    String)
    ensures
        s@ == format_fields(
            year as int,
            month as nat,
            day as nat,
            hour as nat,
            minute as nat,
            second as nat,
        ),
{
    let mut s = String::new();
    push_padded(&mut s, day as u64, 2);
    push_char(&mut s, '.');
    push_padded(&mut s, month as u64, 2);
    push_char(&mut s, '.');
    let ghost before_year = s@;
    if year < 0 {
        push_char(&mut s, '-');
        let m: i64 = -(year as i64);
        push_padded(&mut s, m as u64, 3);
    } else {
        push_padded(&mut s, year as u64, 4);
    }
    assert(s@ =~= before_year + fmt_int(year as int, 4));
    push_char(&mut s, '_');
    push_padded(&mut s, hour as u64, 2);
    push_char(&mut s, ':');
    push_padded(&mut s, minute as u64, 2);
    push_char(&mut s, ':');
    push_padded(&mut s, second as u64, 2);
    assert(s@ =~= format_fields(
        year as int,
        month as nat,
        day as nat,
        hour as nat,
        minute as nat,
        second as nat,
    ));
    s
}

/// Renders a UTC instant as `dd.mm.yyyy_HH:MM:SS`.
pub fn fmt_ts(secs: i64) -> (s: String)
    requires
        MIN_TIMESTAMP <= secs <= MAX_TIMESTAMP,
    ensures
        s@ == fmt_ts_spec(secs),
{
    let f = utc_fields(secs);
    format_timestamp(f.0, f.1, f.2, f.3, f.4, f.5)
}

} // verus!
