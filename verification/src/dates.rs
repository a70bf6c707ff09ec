//! Calendar dates as plain values.  The library compares and filters by
//! date itself; only the conversion from an epoch timestamp to the local
//! calendar date — which depends on the machine's time zone — is left to
//! chrono, behind trusted wrappers.
use vstd::prelude::*;

verus! {

/// A calendar date: year, month (1-12) and day of month (1-based).
#[derive(Debug, Clone, Copy, PartialEq, Eq, Structural)]
pub struct Date {
    /// The calendar year.
    pub year: i64,
    /// The month, 1 to 12.
    pub month: u8,
    /// The day of the month, 1-based.
    pub day: u8,
}

/// Whether `y` is a leap year of the proleptic Gregorian calendar.
pub open spec fn is_leap_year(y: int) -> bool {
    (y % 4 == 0 && y % 100 != 0) || y % 400 == 0
}

/// The number of days of month `m` of year `y`.
pub open spec fn days_in_month(y: int, m: int) -> int {
    if m == 2 {
        if is_leap_year(y) {
            29
        } else {
            28
        }
    } else if m == 4 || m == 6 || m == 9 || m == 11 {
        30
    } else {
        31
    }
}

/// Whether the fields name a real calendar date.
pub open spec fn valid_date(d: Date) -> bool {
    1 <= d.month <= 12 && 1 <= d.day && d.day as int <= days_in_month(
        d.year as int,
        d.month as int,
    )
}

/// Calendar order: by year, then month, then day.
pub open spec fn spec_date_le(a: Date, b: Date) -> bool {
    if a.year != b.year {
        a.year < b.year
    } else if a.month != b.month {
        a.month < b.month
    } else {
        a.day <= b.day
    }
}

/// Whether `d` lies in the inclusive range `[start, end]`.
pub open spec fn spec_date_in_range(d: Date, start: Date, end: Date) -> bool {
    spec_date_le(start, d) && spec_date_le(d, end)
}

/// Compares two dates in calendar order.
pub fn date_le(a: &Date, b: &Date) -> (r: bool)
    ensures
        r == spec_date_le(*a, *b),
{
    if a.year != b.year {
        a.year < b.year
    } else if a.month != b.month {
        a.month < b.month
    } else {
        a.day <= b.day
    }
}

/// Tests whether `d` lies in the inclusive range `[start, end]`.
pub fn date_in_range(d: &Date, start: &Date, end: &Date) -> (r: bool)
    ensures
        r == spec_date_in_range(*d, *start, *end),
{
    date_le(start, d) && date_le(d, end)
}

/// Relies on chrono's `DateTime::from_timestamp`, `DateTime::with_timezone`
/// and `NaiveDateTime::checked_add_offset`: interprets the timestamp as a
/// calendar date in the machine's local time zone.  `None` when the
/// timestamp, or the local time at it, is out of chrono's range; the result
/// depends on the local time zone, so nothing more than the validity of the
/// date is assumed.
#[verifier::external_body]
pub(crate) fn local_date_of_timestamp(ts: u64) -> (r: Option<Date>)
    ensures
        r matches Some(d) ==> valid_date(d),
{
    let dt = chrono::DateTime::from_timestamp(ts as i64, 0)?;
    let local = dt.with_timezone(&chrono::Local);
    let nd = local.naive_utc().checked_add_offset(*local.offset())?.date();
    Some(Date {
        year: chrono::Datelike::year(&nd) as i64,
        month: chrono::Datelike::month(&nd) as u8,
        day: chrono::Datelike::day(&nd) as u8,
    })
}

/// Relies on chrono's `Local::now`: the current date in the machine's
/// local time zone.  The result depends on the clock, so nothing more than
/// the validity of the date is assumed.
#[verifier::external_body]
pub(crate) fn current_local_date() -> (r: Date)
    ensures
        valid_date(r),
{
    let nd = chrono::Local::now().date_naive();
    Date {
        year: chrono::Datelike::year(&nd) as i64,
        month: chrono::Datelike::month(&nd) as u8,
        day: chrono::Datelike::day(&nd) as u8,
    }
}

} // verus!
