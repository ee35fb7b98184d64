//! Calendar dates of Unix timestamps.
use vstd::prelude::*;
use chrono::DateTime;
use crate::calendar::{first_four_digit_day, last_four_digit_day, utc_day, is_utc_date_of};

verus! {

/// What chrono renders as the `%Y-%m-%d` calendar date (UTC) of the Unix
/// timestamp `seconds`, or `None` when the timestamp lies outside the range
/// that chrono can represent (about 262,000 years either side of year 0).
pub uninterp spec fn chrono_utc_date_text(seconds: i64) -> Option<Seq<char>>;

/// chrono's `DateTime::from_timestamp_secs`, then `date_naive()` formatted
/// with `%Y-%m-%d`.  Claimed: the result is `chrono_utc_date_text(seconds)`,
/// a function of the timestamp alone; chrono returns `None` on an
/// out-of-range timestamp instead of panicking.  Claimed too: for a
/// timestamp whose UTC day falls in a four-digit year, the result is the
/// `YYYY-MM-DD` text of that day, since chrono takes the day as the
/// timestamp divided by 86400 rounded down, counted from 1970-01-01, and
/// `%Y` writes the years 0 to 9999 with four digits, `%m` and `%d` with two.
/// Nothing is claimed of the text of other years.
#[verifier::external_body]
fn utc_date_text(seconds: i64) -> (r: Option<String>)
    ensures
        r is None <==> chrono_utc_date_text(seconds) is None,
        r matches Some(t) ==> chrono_utc_date_text(seconds) == Some(t@),
        first_four_digit_day() <= utc_day(seconds as int) <= last_four_digit_day() ==> r is Some,
        r matches Some(t) ==> (first_four_digit_day() <= utc_day(seconds as int) <= last_four_digit_day()
            ==> is_utc_date_of(t@, seconds as int)),
{
    match DateTime::from_timestamp_secs(seconds) {
        Some(datetime) => Some(datetime.date_naive().format("%Y-%m-%d").to_string()),
        None => None,
    }
}

/// The UTC calendar date of a Unix timestamp, as `YYYY-MM-DD`; `None` when
/// the timestamp is out of chrono's range.  For a day of a four-digit year
/// the text is that of the day the timestamp falls on.
pub fn timestamp_to_date(timestamp: i64) -> (r: Option<String>)
    ensures
        r is None <==> chrono_utc_date_text(timestamp) is None,
        r matches Some(t) ==> chrono_utc_date_text(timestamp) == Some(t@),
        first_four_digit_day() <= utc_day(timestamp as int) <= last_four_digit_day() ==> r is Some,
        r matches Some(t) ==> (first_four_digit_day() <= utc_day(timestamp as int) <= last_four_digit_day()
            ==> is_utc_date_of(t@, timestamp as int)),
{
    utc_date_text(timestamp)
}

} // verus!
