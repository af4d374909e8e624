//! Points in time, the clock, and the retention cutoff.

use vstd::prelude::*;

use crate::decimal::is_digit;
use crate::text::ends_with;

verus! {

/// A point in time: whole seconds since the start of 1970 in UTC, and the
/// nanoseconds since that second. Nanoseconds from a thousand million on stand
/// for a leap second.
#[derive(Clone, Copy, Debug, PartialEq, Eq, Structural)]
pub struct Timestamp {
    pub secs: i64,
    pub nanos: u32,
}

/// The first second that a calendar date of `chrono` can express.
pub const FIRST_SECOND: i64 = -8334601228800;

/// The last second that a calendar date of `chrono` can express.
pub const LAST_SECOND: i64 = 8210266876799;

impl Timestamp {
    /// Whether this point in time is earlier than the other.
    pub open spec fn precedes(self, other: Timestamp) -> bool {
        self.secs < other.secs || (self.secs == other.secs && self.nanos < other.nanos)
    }

    /// What every reading of the clock has in common: it is no earlier than
    /// 1970, in the calendar of `chrono`, and stands in no leap second.
    pub open spec fn is_clock_reading(self) -> bool {
        0 <= self.secs <= LAST_SECOND && self.nanos < 1_000_000_000
    }

    /// Whether this point in time is earlier than the other.
    pub fn is_before(&self, other: &Timestamp) -> (r: bool)
        ensures
            r == self.precedes(*other),
    {
        self.secs < other.secs || (self.secs == other.secs && self.nanos < other.nanos)
    }
}

/// The same time of day, `days` days earlier; none where either date is out of
/// range.
pub open spec fn days_earlier(at: Timestamp, days: int) -> Option<Timestamp> {
    let secs = at.secs - days * 86400;
    if FIRST_SECOND <= at.secs <= LAST_SECOND && FIRST_SECOND <= secs <= LAST_SECOND {
        Some(Timestamp { secs: secs as i64, nanos: at.nanos })
    } else {
        None
    }
}

/// Trusted: `chrono::Utc::now` reads the clock of the machine. It gives a time
/// since 1970 that its calendar can express, and nanoseconds below a thousand
/// million.
#[verifier::external_body]
pub(crate) fn utc_now() -> (r: Timestamp)
    ensures
        r.is_clock_reading(),
{
    let now = chrono::Utc::now();
    Timestamp { secs: now.timestamp(), nanos: now.timestamp_subsec_nanos() }
}

/// Trusted: `DateTime::checked_sub_signed` with a span of whole days moves a
/// time that stands in no leap second by that many times 86400 seconds, and
/// gives nothing where either time is outside the calendar of `chrono`.
#[verifier::external_body]
fn minus_days(at: Timestamp, days: i64) -> (r: Option<Timestamp>)
    requires
        at.nanos < 1_000_000_000,
    ensures
        r == days_earlier(at, days as int),
{
    let start = chrono::DateTime::from_timestamp(at.secs, at.nanos)?;
    let end = start.checked_sub_signed(chrono::TimeDelta::try_days(days)?)?;
    Some(Timestamp { secs: end.timestamp(), nanos: end.timestamp_subsec_nanos() })
}

/// Whether digits stand in `s` from place `from` up to place `to`.
pub open spec fn digits_at(s: Seq<char>, from: int, to: int) -> bool {
    forall|i: int| from <= i < to ==> is_digit(#[trigger] s[i])
}

/// Whether `s` is a time in UTC as RFC 3339 writes it, whose year takes up
/// `year` characters: four digits, or a plus sign and five digits or more. The
/// fraction of the second has three, six or nine digits, or is left out.
pub open spec fn is_utc_text_with_year(s: Seq<char>, year: int) -> bool {
    let end = s.len() - 6;
    let fraction = end - (year + 15);
    &&& fraction == 0 || fraction == 4 || fraction == 7 || fraction == 10
    &&& year == 4 && digits_at(s, 0, 4) || year >= 6 && s[0] == '+' && digits_at(s, 1, year)
    &&& s[year] == '-' && digits_at(s, year + 1, year + 3)
    &&& s[year + 3] == '-' && digits_at(s, year + 4, year + 6)
    &&& s[year + 6] == 'T' && digits_at(s, year + 7, year + 9)
    &&& s[year + 9] == ':' && digits_at(s, year + 10, year + 12)
    &&& s[year + 12] == ':' && digits_at(s, year + 13, year + 15)
    &&& fraction > 0 ==> s[year + 15] == '.' && digits_at(s, year + 16, end)
    &&& ends_with(s, "+00:00"@)
}

/// Whether `s` is a time in UTC as RFC 3339 writes it, from the year zero on.
pub open spec fn is_utc_text(s: Seq<char>) -> bool {
    exists|year: int| is_utc_text_with_year(s, year)
}

/// Trusted: `DateTime::to_rfc3339` on the time of `chrono::Utc::now`, which is
/// never before 1970, writes date, time of day and the offset of UTC. Which
/// time it is depends on the clock.
#[verifier::external_body]
pub(crate) fn utc_now_rfc3339() -> (r: String)
    ensures
        is_utc_text(r@),
{
    chrono::Utc::now().to_rfc3339()
}

/// The cutoff of a sweep at `now` that keeps `retention_days` days; none where
/// that is out of range. The number of days is taken as a signed one.
pub fn retention_cutoff(now: Timestamp, retention_days: usize) -> (r: Option<Timestamp>)
    requires
        now.nanos < 1_000_000_000,
    ensures
        r == days_earlier(now, (retention_days as i64) as int),
{
    minus_days(now, retention_days as i64)
}

/// The cutoff of a sweep that starts now and keeps `retention_days` days.
pub fn current_cutoff(retention_days: usize) -> (r: Option<Timestamp>)
    ensures
        exists|now: Timestamp| #[trigger]
            now.is_clock_reading() && r == days_earlier(now, (retention_days as i64) as int),
{
    let now: Timestamp = utc_now();
    proof {
        assert(now.is_clock_reading());
    }
    retention_cutoff(now, retention_days)
}

/// An earlier time is never later than one it precedes, and of two different
/// times one precedes the other.
pub proof fn law_precedes_is_a_strict_order(a: Timestamp, b: Timestamp, c: Timestamp)
    ensures
        !a.precedes(a),
        a.precedes(b) ==> !b.precedes(a),
        a.precedes(b) && b.precedes(c) ==> a.precedes(c),
        a != b ==> a.precedes(b) || b.precedes(a),
{
}

/// A cutoff is earlier than the time it is counted from, and the more days are
/// kept the earlier it is.
pub proof fn law_cutoff_is_earlier(now: Timestamp, days: int, more: int)
    requires
        0 < days < more,
    ensures
        days_earlier(now, days) matches Some(cutoff) ==> cutoff.precedes(now),
        days_earlier(now, days) matches Some(cutoff) ==> (days_earlier(now, more) matches Some(
            earlier,
        ) ==> earlier.precedes(cutoff)),
{
}

/// There is a cutoff whenever the days that are kept reach back no further
/// than the calendar does from 1970, whatever the clock reads.
pub proof fn law_ordinary_retention_has_a_cutoff(now: Timestamp, days: int)
    requires
        now.is_clock_reading(),
        0 <= days * 86400 <= -FIRST_SECOND,
    ensures
        days_earlier(now, days) is Some,
{
}

/// One time is earlier than another exactly where its second is, or, in the
/// same second, its nanosecond.
pub proof fn law_earlier_by_second_then_nanosecond(a: Timestamp, b: Timestamp)
    ensures
        a.secs < b.secs ==> a.precedes(b),
        a.secs == b.secs && a.nanos < b.nanos ==> a.precedes(b),
        a.secs > b.secs ==> !a.precedes(b),
        a.secs == b.secs && a.nanos >= b.nanos ==> !a.precedes(b),
{
}

/// A cutoff lies its number of days of 86400 seconds back, at the same
/// nanosecond, and there is one exactly where the calendar reaches both times.
pub proof fn law_cutoff_is_whole_days_back(at: Timestamp, days: int)
    ensures
        days_earlier(at, days) matches Some(cutoff) ==> {
            &&& at.secs - cutoff.secs == days * 86400
            &&& cutoff.nanos == at.nanos
        },
        days_earlier(at, days) is Some <==> {
            &&& -8334601228800 <= at.secs <= 8210266876799
            &&& -8334601228800 <= at.secs - days * 86400 <= 8210266876799
        },
{
}

/// A time in UTC as text has a date and a time of day, with their marks between
/// digits, and ends with the offset of UTC.
pub proof fn law_utc_text_has_date_and_time(s: Seq<char>)
    requires
        is_utc_text(s),
    ensures
        s.len() >= 25,
        s.subrange(s.len() - 6, s.len() as int) == "+00:00"@,
        exists|t: int|
            10 <= t <= s.len() - 15 && #[trigger] s[t] == 'T' && s[t - 3] == '-' && s[t - 6] == '-'
                && s[t + 3] == ':' && s[t + 6] == ':' && ('0' <= s[t - 1] <= '9') && ('0' <= s[t
                - 7] <= '9') && ('0' <= s[t + 1] <= '9') && ('0' <= s[t + 8] <= '9'),
{
    let year = choose|year: int| is_utc_text_with_year(s, year);
    let t = year + 6;
    reveal_strlit("+00:00");
    assert(s.skip(s.len() - 6) =~= s.subrange(s.len() - 6, s.len() as int));
    assert(s[t] == 'T');
    assert(is_digit(s[t - 1]));
    assert(is_digit(s[t - 7]));
    assert(is_digit(s[t + 1]));
    assert(is_digit(s[t + 8]));
}

} // verus!
