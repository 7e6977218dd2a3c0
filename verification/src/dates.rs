use vstd::prelude::*;

verus! {

/// Largest timestamp (seconds since the Unix epoch) that the calendar
/// arithmetic below accepts: the last second of year 9999, far inside
/// chrono's supported range, so that adding up to 24 months can never
/// leave that range.
pub const MAX_TIMESTAMP: i64 = 253_402_300_799;

/// Largest month count that the calendar arithmetic below accepts.
pub const MAX_MONTHS: u32 = 24;

/// The timestamp of the instant `m` calendar months after the instant `t`,
/// as chrono's month addition computes it (the month number advances by
/// `m` and the day of the month is clamped to the target month's length).
pub uninterp spec fn months_after(t: i64, m: u32) -> i64;

/// Relies on chrono: `DateTime::<Utc>::from_timestamp`, `DateTime::checked_add_months`
/// and `DateTime::timestamp`, for calendar month addition on a Unix timestamp.
/// The result depends on the timestamp and the month count alone; adding zero
/// months returns the date unchanged, and for timestamps up to `MAX_TIMESTAMP`
/// (year 9999) and month counts up to `MAX_MONTHS` the addition stays inside
/// chrono's supported range.
#[verifier::external_body]
pub(crate) fn add_months(t: i64, m: u32) -> (r: i64)
    requires
        0 <= t <= MAX_TIMESTAMP,
        m <= MAX_MONTHS,
    ensures
        r == months_after(t, m),
        m == 0 ==> r == t,
{
    let date = chrono::DateTime::<chrono::Utc>::from_timestamp(t, 0).unwrap();
    date.checked_add_months(chrono::Months::new(m)).unwrap().timestamp()
}

} // verus!
