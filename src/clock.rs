//! Turning a count of seconds since the Unix epoch into a timestamp, with
//! the calendar arithmetic done by chrono.

use vstd::prelude::*;
use crate::framer::Timestamp;

verus! {

/// The proleptic Gregorian (year, month, day) of the UTC day that holds
/// `secs` seconds after 1970-01-01 00:00:00 UTC, as chrono's
/// `DateTime::from_timestamp` computes it; `None` where chrono cannot
/// represent that day.
pub uninterp spec fn civil_date_of(secs: int) -> Option<(int, int, int)>;

/// Relies on chrono's `DateTime::from_timestamp(secs, 0)` and the
/// `Datelike` / `Timelike` accessors of its result: the date is a function
/// of `secs` alone, with month 1 to 12 and day 1 to 31; the time of day is
/// `secs` modulo a day (`rem_euclid`), split into hour, minute and second.
#[verifier::external_body]
fn utc_fields(secs: i64) -> (r: Option<(i32, u32, u32, u32, u32, u32)>)
    ensures
        r is None ==> civil_date_of(secs as int) is None,
        r matches Some(f) ==> {
            &&& civil_date_of(secs as int) == Some((f.0 as int, f.1 as int, f.2 as int))
            &&& 1 <= f.1 <= 12
            &&& 1 <= f.2 <= 31
            &&& f.3 as int == (secs as int % 86400) / 3600
            &&& f.4 as int == (secs as int % 3600) / 60
            &&& f.5 as int == secs as int % 60
        },
{
    match chrono::DateTime::from_timestamp(secs, 0) {
        Some(t) => Some((
            chrono::Datelike::year(&t),
            chrono::Datelike::month(&t),
            chrono::Datelike::day(&t),
            chrono::Timelike::hour(&t),
            chrono::Timelike::minute(&t),
            chrono::Timelike::second(&t),
        )),
        None => None,
    }
}

/// The timestamp `secs` seconds after 1970-01-01 00:00:00 UTC; `None` where
/// its year is not within 0 to 9999.
pub fn timestamp_at(secs: i64) -> (r: Option<Timestamp>)
    ensures
        r is Some <==> (civil_date_of(secs as int) matches Some(d) && 0 <= d.0 <= 9999),
        r matches Some(t) ==> {
            &&& t.wf()
            &&& civil_date_of(secs as int) == Some((t.year as int, t.month as int, t.day as int))
            &&& t.hour as int == (secs as int % 86400) / 3600
            &&& t.minute as int == (secs as int % 3600) / 60
            &&& t.second as int == secs as int % 60
        },
{
    match utc_fields(secs) {
        Some(f) => {
            proof {
                assert(f.3 < 24 && f.4 < 60 && f.5 < 60) by (nonlinear_arith)
                    requires
                        f.3 as int == (secs as int % 86400) / 3600,
                        f.4 as int == (secs as int % 3600) / 60,
                        f.5 as int == secs as int % 60,
                ;
            }
            Timestamp::new(f.0, f.1, f.2, f.3, f.4, f.5)
        },
        None => None,
    }
}

} // verus!
