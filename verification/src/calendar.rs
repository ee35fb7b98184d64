//! The proleptic Gregorian calendar, day numbers counted from the Unix epoch,
//! and the fixed-width texts in which dates and times are written.
use vstd::prelude::*;
use crate::text::is_digit;

verus! {

/// A leap year of the proleptic Gregorian calendar.
pub open spec fn is_leap_year(y: int) -> bool {
    y % 4 == 0 && (y % 100 != 0 || y % 400 == 0)
}

/// The number of days of month `m` (1 to 12) of year `y`.
pub open spec fn days_in_month(y: int, m: int) -> int {
    if m == 2 {
        if is_leap_year(y) {
            29
        } else {
            28
        }
    } else if m == 4 || m == 6 || m == 9 || m == 11 {
        30
    } else {
        31
    }
}

/// A date of a year that is written with four digits.
pub open spec fn is_valid_date(y: int, m: int, d: int) -> bool {
    0 <= y <= 9999 && 1 <= m <= 12 && 1 <= d <= days_in_month(y, m)
}

/// The days from 0000-01-01 to the first of January of year `y` (`y >= 0`):
/// 365 per year, plus one for each leap year before `y`.
pub open spec fn days_before_year(y: int) -> int {
    365 * y + (y + 3) / 4 - (y + 99) / 100 + (y + 399) / 400
}

/// The days of year `y` before the first of month `m`.
pub open spec fn days_before_month(y: int, m: int) -> int {
    let common: int = if m <= 1 {
        0
    } else if m == 2 {
        31
    } else if m == 3 {
        59
    } else if m == 4 {
        90
    } else if m == 5 {
        120
    } else if m == 6 {
        151
    } else if m == 7 {
        181
    } else if m == 8 {
        212
    } else if m == 9 {
        243
    } else if m == 10 {
        273
    } else if m == 11 {
        304
    } else {
        334
    };
    if m > 2 && is_leap_year(y) {
        common + 1
    } else {
        common
    }
}

/// The day number of the date `y-m-d`: the days from 1970-01-01 to it,
/// negative before 1970.
pub open spec fn days_from_civil(y: int, m: int, d: int) -> int {
    days_before_year(y) + days_before_month(y, m) + d - 1 - 719528
}

/// The day number of the first date with a four-digit year, 0000-01-01.
pub open spec fn first_four_digit_day() -> int {
    -719528
}

/// The day number of the last date with a four-digit year, 9999-12-31.
pub open spec fn last_four_digit_day() -> int {
    2932896
}

/// The value of the decimal digit at position `i` of `t`.
pub open spec fn digit_at(t: Seq<char>, i: int) -> int {
    t[i] as int - '0' as int
}

/// The two-digit number written at positions `i`, `i + 1` of `t`.
pub open spec fn two_digits(t: Seq<char>, i: int) -> int {
    10 * digit_at(t, i) + digit_at(t, i + 1)
}

/// The four-digit number written at positions `i` to `i + 3` of `t`.
pub open spec fn four_digits(t: Seq<char>, i: int) -> int {
    100 * two_digits(t, i) + two_digits(t, i + 2)
}

/// `t` holds decimal digits at positions `i` to `i + n - 1`.
pub open spec fn digits_in(t: Seq<char>, i: int, n: int) -> bool {
    forall|k: int| i <= k < i + n ==> #[trigger] is_digit(t[k])
}

/// A date written `YYYY-MM-DD`, with a four-digit year.
pub open spec fn is_date_text(t: Seq<char>) -> bool {
    &&& t.len() == 10
    &&& digits_in(t, 0, 4)
    &&& digits_in(t, 5, 2)
    &&& digits_in(t, 8, 2)
    &&& t[4] == '-'
    &&& t[7] == '-'
    &&& is_valid_date(four_digits(t, 0), two_digits(t, 5), two_digits(t, 8))
}

/// The day number of the date written in a `YYYY-MM-DD` text.
pub open spec fn date_text_day(t: Seq<char>) -> int {
    days_from_civil(four_digits(t, 0), two_digits(t, 5), two_digits(t, 8))
}

/// The UTC day of a Unix timestamp: whole days since 1970-01-01, rounded
/// down (so the second before the epoch lies on day -1).
pub open spec fn utc_day(seconds: int) -> int {
    seconds / 86400
}

/// `t` is the `YYYY-MM-DD` text of the UTC date of the timestamp `seconds`.
pub open spec fn is_utc_date_of(t: Seq<char>, seconds: int) -> bool {
    is_date_text(t) && date_text_day(t) == utc_day(seconds)
}

/// A date and time written `YYYY.MM.DD hh:mm:ss` with a valid date, a
/// four-digit year, and an hour, minute and second in range (no leap second).
pub open spec fn is_export_datetime(t: Seq<char>) -> bool {
    &&& t.len() == 19
    &&& digits_in(t, 0, 4)
    &&& digits_in(t, 5, 2)
    &&& digits_in(t, 8, 2)
    &&& digits_in(t, 11, 2)
    &&& digits_in(t, 14, 2)
    &&& digits_in(t, 17, 2)
    &&& t[4] == '.'
    &&& t[7] == '.'
    &&& t[10] == ' '
    &&& t[13] == ':'
    &&& t[16] == ':'
    &&& is_valid_date(four_digits(t, 0), two_digits(t, 5), two_digits(t, 8))
    &&& two_digits(t, 11) < 24
    &&& two_digits(t, 14) < 60
    &&& two_digits(t, 17) < 60
}

/// The Unix timestamp of a `YYYY.MM.DD hh:mm:ss` text read as UTC.
pub open spec fn export_datetime_seconds(t: Seq<char>) -> int {
    days_from_civil(four_digits(t, 0), two_digits(t, 5), two_digits(t, 8)) * 86400
        + two_digits(t, 11) * 3600 + two_digits(t, 14) * 60 + two_digits(t, 17)
}

/// Each year adds 365 days, and one more when it is a leap year.
pub proof fn lemma_year_length(y: int)
    requires
        y >= 0,
    ensures
        days_before_year(y + 1) == days_before_year(y) + 365 + (if is_leap_year(y) { 1int } else { 0int }),
{
}

/// Later years start later: at least 365 days per year in between.
pub proof fn lemma_years_ordered(a: int, b: int)
    requires
        0 <= a <= b,
    ensures
        days_before_year(a) + 365 * (b - a) <= days_before_year(b),
    decreases b - a,
{
    if a < b {
        lemma_years_ordered(a, b - 1);
        lemma_year_length(b - 1);
    }
}

/// Within a year, a date's day number lies before that of every later date.
proof fn lemma_days_within_year(y: int, m1: int, d1: int, m2: int, d2: int)
    requires
        is_valid_date(y, m1, d1),
        is_valid_date(y, m2, d2),
        m1 < m2 || (m1 == m2 && d1 < d2),
    ensures
        days_from_civil(y, m1, d1) < days_from_civil(y, m2, d2),
{
}

/// Every date of year `y` lies before the first of January of `y + 1`.
proof fn lemma_date_before_next_year(y: int, m: int, d: int)
    requires
        is_valid_date(y, m, d),
    ensures
        days_before_year(y) + days_before_month(y, m) + d <= days_before_year(y + 1),
{
    lemma_year_length(y);
}

/// Day numbers follow the order of the dates: a date before another has a
/// smaller day number.
pub proof fn lemma_days_ordered(y1: int, m1: int, d1: int, y2: int, m2: int, d2: int)
    requires
        is_valid_date(y1, m1, d1),
        is_valid_date(y2, m2, d2),
        y1 < y2 || (y1 == y2 && (m1 < m2 || (m1 == m2 && d1 < d2))),
    ensures
        days_from_civil(y1, m1, d1) < days_from_civil(y2, m2, d2),
{
    if y1 < y2 {
        lemma_date_before_next_year(y1, m1, d1);
        lemma_years_ordered(y1 + 1, y2);
    } else {
        lemma_days_within_year(y1, m1, d1, m2, d2);
    }
}

/// Two valid dates with the same day number are the same date.
pub proof fn lemma_days_injective(y1: int, m1: int, d1: int, y2: int, m2: int, d2: int)
    requires
        is_valid_date(y1, m1, d1),
        is_valid_date(y2, m2, d2),
        days_from_civil(y1, m1, d1) == days_from_civil(y2, m2, d2),
    ensures
        y1 == y2 && m1 == m2 && d1 == d2,
{
    if y1 < y2 || (y1 == y2 && (m1 < m2 || (m1 == m2 && d1 < d2))) {
        lemma_days_ordered(y1, m1, d1, y2, m2, d2);
    } else if y2 < y1 || (y1 == y2 && (m2 < m1 || (m1 == m2 && d2 < d1))) {
        lemma_days_ordered(y2, m2, d2, y1, m1, d1);
    }
}

/// A decimal digit's value lies in 0 to 9, and the value gives back the digit.
proof fn lemma_digit_values(t1: Seq<char>, t2: Seq<char>, i: int)
    requires
        0 <= i < t1.len(),
        0 <= i < t2.len(),
        is_digit(t1[i]),
        is_digit(t2[i]),
    ensures
        0 <= digit_at(t1, i) <= 9,
        digit_at(t1, i) == digit_at(t2, i) ==> t1[i] == t2[i],
{
}

/// Equal two-digit numbers are written with the same two digits.
proof fn lemma_two_digits_equal(t1: Seq<char>, t2: Seq<char>, i: int)
    requires
        0 <= i,
        i + 1 < t1.len(),
        i + 1 < t2.len(),
        is_digit(t1[i]) && is_digit(t1[i + 1]),
        is_digit(t2[i]) && is_digit(t2[i + 1]),
        two_digits(t1, i) == two_digits(t2, i),
    ensures
        t1[i] == t2[i],
        t1[i + 1] == t2[i + 1],
        0 <= two_digits(t1, i) <= 99,
{
    lemma_digit_values(t1, t2, i);
    lemma_digit_values(t2, t1, i);
    lemma_digit_values(t1, t2, i + 1);
    lemma_digit_values(t2, t1, i + 1);
}

/// The value of a two-digit number lies in 0 to 99.
proof fn lemma_two_digits_range(t: Seq<char>, i: int)
    requires
        0 <= i,
        i + 1 < t.len(),
        is_digit(t[i]) && is_digit(t[i + 1]),
    ensures
        0 <= two_digits(t, i) <= 99,
{
    lemma_digit_values(t, t, i);
    lemma_digit_values(t, t, i + 1);
}

/// A time of day in hours, minutes and seconds is determined by its count
/// of seconds since midnight.
proof fn lemma_time_of_day_injective(h1: int, m1: int, s1: int, h2: int, m2: int, s2: int)
    requires
        0 <= h1 < 24 && 0 <= m1 < 60 && 0 <= s1 < 60,
        0 <= h2 < 24 && 0 <= m2 < 60 && 0 <= s2 < 60,
        h1 * 3600 + m1 * 60 + s1 == h2 * 3600 + m2 * 60 + s2,
    ensures
        h1 == h2 && m1 == m2 && s1 == s2,
{
}

/// Two `YYYY-MM-DD` texts of the same day are the same text.
pub proof fn lemma_date_text_injective(t1: Seq<char>, t2: Seq<char>)
    requires
        is_date_text(t1),
        is_date_text(t2),
        date_text_day(t1) == date_text_day(t2),
    ensures
        t1 == t2,
{
    lemma_days_injective(
        four_digits(t1, 0), two_digits(t1, 5), two_digits(t1, 8),
        four_digits(t2, 0), two_digits(t2, 5), two_digits(t2, 8),
    );
    assert(is_digit(t1[0]) && is_digit(t1[1]) && is_digit(t1[2]) && is_digit(t1[3]));
    assert(is_digit(t2[0]) && is_digit(t2[1]) && is_digit(t2[2]) && is_digit(t2[3]));
    assert(is_digit(t1[5]) && is_digit(t1[6]) && is_digit(t2[5]) && is_digit(t2[6]));
    assert(is_digit(t1[8]) && is_digit(t1[9]) && is_digit(t2[8]) && is_digit(t2[9]));
    lemma_two_digits_range(t1, 0);
    lemma_two_digits_range(t2, 0);
    lemma_two_digits_range(t1, 2);
    lemma_two_digits_range(t2, 2);
    assert(two_digits(t1, 0) == two_digits(t2, 0) && two_digits(t1, 2) == two_digits(t2, 2));
    lemma_two_digits_equal(t1, t2, 0);
    lemma_two_digits_equal(t1, t2, 2);
    lemma_two_digits_equal(t1, t2, 5);
    lemma_two_digits_equal(t1, t2, 8);
    assert forall|i: int| 0 <= i < 10 implies t1[i] == t2[i] by {}
    assert(t1 =~= t2);
}

/// Two `YYYY.MM.DD hh:mm:ss` texts stand for the same instant only when they
/// are the same text: no two distinct date-times share a timestamp.
pub proof fn lemma_export_clock_injective(t1: Seq<char>, t2: Seq<char>)
    requires
        is_export_datetime(t1),
        is_export_datetime(t2),
        export_datetime_seconds(t1) == export_datetime_seconds(t2),
    ensures
        t1 == t2,
{
    assert(is_digit(t1[11]) && is_digit(t1[12]) && is_digit(t2[11]) && is_digit(t2[12]));
    assert(is_digit(t1[14]) && is_digit(t1[15]) && is_digit(t2[14]) && is_digit(t2[15]));
    assert(is_digit(t1[17]) && is_digit(t1[18]) && is_digit(t2[17]) && is_digit(t2[18]));
    lemma_two_digits_range(t1, 17);
    lemma_two_digits_range(t2, 17);
    let d1 = days_from_civil(four_digits(t1, 0), two_digits(t1, 5), two_digits(t1, 8));
    let d2 = days_from_civil(four_digits(t2, 0), two_digits(t2, 5), two_digits(t2, 8));
    let c1 = two_digits(t1, 11) * 3600 + two_digits(t1, 14) * 60 + two_digits(t1, 17);
    let c2 = two_digits(t2, 11) * 3600 + two_digits(t2, 14) * 60 + two_digits(t2, 17);
    lemma_two_digits_range(t1, 11);
    lemma_two_digits_range(t2, 11);
    lemma_two_digits_range(t1, 14);
    lemma_two_digits_range(t2, 14);
    assert(0 <= c1 < 86400 && 0 <= c2 < 86400);
    assert(d1 == d2 && c1 == c2) by (nonlinear_arith)
        requires
            d1 * 86400 + c1 == d2 * 86400 + c2,
            0 <= c1 < 86400,
            0 <= c2 < 86400,
    ;
    lemma_time_of_day_injective(
        two_digits(t1, 11), two_digits(t1, 14), two_digits(t1, 17),
        two_digits(t2, 11), two_digits(t2, 14), two_digits(t2, 17),
    );
    lemma_days_injective(
        four_digits(t1, 0), two_digits(t1, 5), two_digits(t1, 8),
        four_digits(t2, 0), two_digits(t2, 5), two_digits(t2, 8),
    );
    assert(is_digit(t1[0]) && is_digit(t1[1]) && is_digit(t1[2]) && is_digit(t1[3]));
    assert(is_digit(t2[0]) && is_digit(t2[1]) && is_digit(t2[2]) && is_digit(t2[3]));
    assert(is_digit(t1[5]) && is_digit(t1[6]) && is_digit(t2[5]) && is_digit(t2[6]));
    assert(is_digit(t1[8]) && is_digit(t1[9]) && is_digit(t2[8]) && is_digit(t2[9]));
    lemma_two_digits_range(t1, 2);
    lemma_two_digits_range(t2, 2);
    lemma_two_digits_range(t1, 0);
    lemma_two_digits_range(t2, 0);
    assert(two_digits(t1, 0) == two_digits(t2, 0) && two_digits(t1, 2) == two_digits(t2, 2));
    lemma_two_digits_equal(t1, t2, 0);
    lemma_two_digits_equal(t1, t2, 2);
    lemma_two_digits_equal(t1, t2, 5);
    lemma_two_digits_equal(t1, t2, 8);
    lemma_two_digits_equal(t1, t2, 11);
    lemma_two_digits_equal(t1, t2, 14);
    lemma_two_digits_equal(t1, t2, 17);
    assert forall|i: int| 0 <= i < 19 implies t1[i] == t2[i] by {}
    assert(t1 =~= t2);
}

/// Moving the minutes of a `YYYY.MM.DD hh:mm:ss` text, all else unchanged,
/// moves its timestamp by 60 seconds per minute.
pub proof fn lemma_export_clock_minutes(t1: Seq<char>, t2: Seq<char>)
    requires
        is_export_datetime(t1),
        is_export_datetime(t2),
        forall|i: int| 0 <= i < 19 && i != 14 && i != 15 ==> t1[i] == t2[i],
    ensures
        export_datetime_seconds(t2) - export_datetime_seconds(t1) == 60 * (two_digits(t2, 14) - two_digits(t1, 14)),
{
    assert(t1[0] == t2[0] && t1[1] == t2[1] && t1[2] == t2[2] && t1[3] == t2[3]);
    assert(t1[5] == t2[5] && t1[6] == t2[6] && t1[8] == t2[8] && t1[9] == t2[9]);
    assert(t1[11] == t2[11] && t1[12] == t2[12] && t1[17] == t2[17] && t1[18] == t2[18]);
}

} // verus!
