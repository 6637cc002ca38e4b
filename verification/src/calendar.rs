//! Unix timestamps as dates of the Gregorian calendar.
use time::format_description::well_known::Rfc3339;
use time::OffsetDateTime;
use vstd::prelude::*;

use crate::numeral::{
    all_digits, digit, digits_value, lemma_digits_value_push, signed_decimal, signed_to_string,
};
use crate::types::text_of;

verus! {

/// A date of the Gregorian calendar, which is also applied to the years before its introduction.
pub struct CivilDate {
    pub year: int,
    pub month: int,
    pub day: int,
}

/// Whether a year is a leap year.
pub open spec fn is_leap_year(year: int) -> bool {
    year % 4 == 0 && (year % 100 != 0 || year % 400 == 0)
}

/// How many days a month has.
pub open spec fn days_in_month(year: int, month: int) -> int {
    if month == 2 {
        if is_leap_year(year) {
            29
        } else {
            28
        }
    } else if month == 4 || month == 6 || month == 9 || month == 11 {
        30
    } else {
        31
    }
}

/// Whether the date exists.
pub open spec fn is_date(date: CivilDate) -> bool {
    1 <= date.month <= 12 && 1 <= date.day <= days_in_month(date.year, date.month)
}

/// How many days of its year lie before a month.
pub open spec fn days_before_month(year: int, month: int) -> int
    decreases month,
{
    if month <= 1 {
        0
    } else {
        days_before_month(year, month - 1) + days_in_month(year, month - 1)
    }
}

/// How many days lie between the start of the year 0 and that of the given year.
pub open spec fn days_before_year(year: int) -> int {
    365 * year + (year + 3) / 4 - (year + 99) / 100 + (year + 399) / 400
}

/// How many days lie between 1970-01-01 and the date.
pub open spec fn day_number(date: CivilDate) -> int {
    days_before_year(date.year) - days_before_year(1970) + days_before_month(date.year, date.month)
        + date.day - 1
}

/// The date that lies so many days behind 1970-01-01.
pub open spec fn civil_date(day: int) -> CivilDate {
    choose|date: CivilDate| is_date(date) && #[trigger] day_number(date) == day
}

/// A number in decimal digits, filled up with zeros on the left.
pub open spec fn padded(n: int, width: nat) -> Seq<char>
    decreases width,
{
    if width == 0 {
        seq![]
    } else {
        padded(n / 10, (width - 1) as nat).push(digit((n % 10) as nat))
    }
}

/// A timestamp in the format of RFC 3339, in whole seconds and in UTC.
pub open spec fn rfc3339_utc(timestamp: int) -> Seq<char> {
    let date = civil_date(timestamp / 86400);
    let second = timestamp % 86400;
    padded(date.year, 4) + "-"@ + padded(date.month, 2) + "-"@ + padded(date.day, 2) + "T"@
        + padded(second / 3600, 2) + ":"@ + padded(second % 3600 / 60, 2) + ":"@ + padded(
        second % 60,
        2,
    ) + "Z"@
}

/// Whether a timestamp falls on a day between the start of one year and the end of another.
pub open spec fn falls_in_years(timestamp: int, first: int, last: int) -> bool {
    day_number(CivilDate { year: first, month: 1, day: 1 }) <= timestamp / 86400 <= day_number(
        CivilDate { year: last, month: 12, day: 31 },
    )
}

/// The text of a timestamp: none outside the years from -9999 to 9999, and the bare number of
/// seconds before the year 0, which RFC 3339 cannot express.
pub open spec fn timestamp_text(timestamp: int) -> Option<Seq<char>> {
    if !falls_in_years(timestamp, -9999, 9999) {
        None
    } else if falls_in_years(timestamp, 0, 9999) {
        Some(rfc3339_utc(timestamp))
    } else {
        Some(signed_decimal(timestamp))
    }
}

/// Calls `OffsetDateTime::format` of the crate `time` with the format `Rfc3339`, on the moment that
/// `OffsetDateTime::from_unix_timestamp` makes of the number of seconds. The outer `None` stands
/// for a number outside the years that the crate represents, from -9999 to 9999. The inner `None`
/// stands for a year that the format refuses, which is a negative one. The moment is in UTC and
/// has no fraction of a second, so the text is the date, the time of day and `Z`.
#[verifier::external_body]
fn format_rfc3339(timestamp: i64) -> (res: Option<Option<String>>)
    ensures
        res is None <==> !falls_in_years(timestamp as int, -9999, 9999),
        res matches Some(text) ==> (text is None <==> !falls_in_years(timestamp as int, 0, 9999)),
        res matches Some(Some(text)) ==> text@ == rfc3339_utc(timestamp as int),
{
    match OffsetDateTime::from_unix_timestamp(timestamp) {
        Ok(moment) => Some(moment.format(&Rfc3339).ok()),
        Err(_) => None,
    }
}

/// Writes a Unix timestamp in the format of RFC 3339.
pub fn timestamp_to_rfc3339(timestamp: i64) -> (res: Option<String>)
    ensures
        text_of(res) == timestamp_text(timestamp as int),
        res is None <==> timestamp_text(timestamp as int) is None,
        res matches Some(text) ==> timestamp_text(timestamp as int) == Some(text@),
{
    match format_rfc3339(timestamp) {
        None => None,
        Some(Some(text)) => Some(text),
        Some(None) => Some(signed_to_string(timestamp)),
    }
}

/// How many days a year has.
spec fn days_in_year(year: int) -> int {
    if is_leap_year(year) {
        366
    } else {
        365
    }
}

/// A year ends where the next one begins.
proof fn lemma_next_year(year: int)
    ensures
        days_before_year(year + 1) == days_before_year(year) + days_in_year(year),
        days_before_month(year, 12) + 31 == days_in_year(year),
{
    reveal_with_fuel(days_before_month, 13);
}

/// A year lies behind all days of an earlier one.
proof fn lemma_years_ascend(a: int, b: int)
    requires
        a < b,
    ensures
        days_before_year(a) + days_in_year(a) <= days_before_year(b),
    decreases b - a,
{
    lemma_next_year(a);
    if a + 1 < b {
        lemma_years_ascend(a + 1, b);
    }
}

/// A month lies behind all days of an earlier one of its year, and inside the year.
proof fn lemma_months_ascend(year: int, a: int, b: int)
    requires
        1 <= a < b <= 12,
    ensures
        days_before_month(year, a) + days_in_month(year, a) <= days_before_month(year, b),
    decreases b - a,
{
    if a + 1 < b {
        lemma_months_ascend(year, a, b - 1);
    }
}

/// The days of a date lie inside its year.
proof fn lemma_date_in_year(date: CivilDate)
    requires
        is_date(date),
    ensures
        0 <= days_before_month(date.year, date.month),
        days_before_month(date.year, date.month) + date.day <= days_in_year(date.year),
{
    lemma_next_year(date.year);
    if date.month > 1 {
        lemma_months_ascend(date.year, 1, date.month);
    }
    if date.month < 12 {
        lemma_months_ascend(date.year, date.month, 12);
    }
}

/// A date that is earlier in its year, or in an earlier year, has the lesser number.
proof fn lemma_dates_ascend(a: CivilDate, b: CivilDate)
    requires
        is_date(a),
        is_date(b),
        a.year < b.year || (a.year == b.year && (a.month < b.month || (a.month == b.month && a.day
            < b.day))),
    ensures
        day_number(a) < day_number(b),
{
    lemma_date_in_year(a);
    lemma_date_in_year(b);
    if a.year < b.year {
        lemma_years_ascend(a.year, b.year);
    } else if a.month < b.month {
        lemma_months_ascend(a.year, a.month, b.month);
    }
}

/// The date of a day's number is that date: no two dates share a number.
pub proof fn lemma_date_of_day_number(date: CivilDate)
    requires
        is_date(date),
    ensures
        civil_date(day_number(date)) == date,
{
    let found = civil_date(day_number(date));
    assert(is_date(found) && day_number(found) == day_number(date));
    if found != date {
        if found.year < date.year || (found.year == date.year && (found.month < date.month || (
        found.month == date.month && found.day < date.day))) {
            lemma_dates_ascend(found, date);
        } else {
            lemma_dates_ascend(date, found);
        }
    }
}

/// Every day has a date.
pub proof fn lemma_day_number_of_date(day: int)
    ensures
        is_date(civil_date(day)),
        day_number(civil_date(day)) == day,
{
    lemma_some_date(day);
}

proof fn lemma_some_date(day: int)
    ensures
        exists|date: CivilDate| is_date(date) && #[trigger] day_number(date) == day,
    decreases if day < 0 {
        -day
    } else {
        day
    },
{
    if day == 0 {
        let date = CivilDate { year: 1970, month: 1, day: 1 };
        assert(is_date(date) && day_number(date) == 0);
    } else if day > 0 {
        lemma_some_date(day - 1);
        let d = choose|d: CivilDate| is_date(d) && #[trigger] day_number(d) == day - 1;
        let date = if d.day < days_in_month(d.year, d.month) {
            CivilDate { year: d.year, month: d.month, day: d.day + 1 }
        } else if d.month < 12 {
            CivilDate { year: d.year, month: d.month + 1, day: 1 }
        } else {
            CivilDate { year: d.year + 1, month: 1, day: 1 }
        };
        lemma_next_year(d.year);
        assert(is_date(date) && day_number(date) == day);
    } else {
        lemma_some_date(day + 1);
        let d = choose|d: CivilDate| is_date(d) && #[trigger] day_number(d) == day + 1;
        let date = if d.day > 1 {
            CivilDate { year: d.year, month: d.month, day: d.day - 1 }
        } else if d.month > 1 {
            CivilDate {
                year: d.year,
                month: d.month - 1,
                day: days_in_month(d.year, d.month - 1),
            }
        } else {
            CivilDate { year: d.year - 1, month: 12, day: 31 }
        };
        lemma_next_year(d.year - 1);
        assert(is_date(date) && day_number(date) == day);
    }
}

/// A timestamp that RFC 3339 can express falls in a year of at most four digits.
pub proof fn lemma_expressible_year(timestamp: int)
    ensures
        falls_in_years(timestamp, 0, 9999) <==> 0 <= civil_date(timestamp / 86400).year <= 9999,
{
    let day = timestamp / 86400;
    let date = civil_date(day);
    let first = CivilDate { year: 0, month: 1, day: 1 };
    let last = CivilDate { year: 9999, month: 12, day: 31 };
    lemma_day_number_of_date(day);
    if date.year < 0 {
        lemma_dates_ascend(date, first);
    } else if date != first {
        lemma_dates_ascend(first, date);
    }
    if date.year > 9999 {
        lemma_dates_ascend(last, date);
    } else if date != last {
        lemma_dates_ascend(date, last);
    }
}

/// Days are numbered from 1970-01-01 on, and each day has the number behind that of the day before
/// it, through the ends of months and years.
pub proof fn lemma_next_day(year: int, month: int, day: int)
    requires
        1 <= month <= 12,
        1 <= day <= 31,
        month == 4 || month == 6 || month == 9 || month == 11 ==> day <= 30,
        month == 2 ==> day <= 29,
        month == 2 && day == 29 ==> year % 4 == 0 && (year % 100 == 0 ==> year % 400 == 0),
    ensures
        day_number(CivilDate { year: 1970, month: 1, day: 1 }) == 0,
        ({
            let today = day_number(CivilDate { year, month, day });
            let month_ends = day == 31 || (day == 30 && (month == 4 || month == 6 || month == 9
                || month == 11)) || (month == 2 && (day == 29 || (day == 28 && (year % 4 != 0 || (
            year % 100 == 0 && year % 400 != 0)))));
            if !month_ends {
                day_number(CivilDate { year, month, day: day + 1 }) == today + 1
            } else if month < 12 {
                day_number(CivilDate { year, month: month + 1, day: 1 }) == today + 1
            } else {
                day_number(CivilDate { year: year + 1, month: 1, day: 1 }) == today + 1
            }
        }),
{
    lemma_next_year(year);
}

/// A timestamp has no text outside the years from -9999 to 9999, and before the year 0 its text is
/// its number.
pub proof fn lemma_timestamp_range(timestamp: int)
    ensures
        timestamp_text(timestamp) is None <==> (timestamp < -377_705_116_800 || timestamp
            > 253_402_300_799),
        -377_705_116_800 <= timestamp < -62_167_219_200 ==> timestamp_text(timestamp) == Some(
            signed_decimal(timestamp),
        ),
{
    lemma_year_limits();
}

/// The days on which the years that can be shown begin and end.
proof fn lemma_year_limits()
    ensures
        day_number(CivilDate { year: -9999, month: 1, day: 1 }) == -4_371_587,
        day_number(CivilDate { year: 0, month: 1, day: 1 }) == -719_528,
        day_number(CivilDate { year: 9999, month: 12, day: 31 }) == 2_932_896,
{
    lemma_next_year(9999);
    assert(days_before_month(9999, 12) == 334);
    assert(days_before_year(1970) == 719_528);
}

/// A number that has no more digits than its field reads back from the field.
proof fn lemma_padded(n: int, width: nat)
    requires
        0 <= n,
        width <= 4,
        width == 0 ==> n == 0,
        width == 1 ==> n < 10,
        width == 2 ==> n < 100,
        width == 3 ==> n < 1000,
        width == 4 ==> n < 10000,
    ensures
        padded(n, width).len() == width,
        all_digits(padded(n, width)),
        digits_value(padded(n, width)) == n,
    decreases width,
{
    if width > 0 {
        lemma_padded(n / 10, (width - 1) as nat);
        lemma_digits_value_push(padded(n / 10, (width - 1) as nat), (n % 10) as nat);
    }
}

/// From the year 0 to the year 9999, the text of a timestamp is a date and a time of day, field by
/// field, and the moment that the fields name is the timestamp.
pub proof fn lemma_timestamp_reads_back(timestamp: int)
    requires
        -62_167_219_200 <= timestamp <= 253_402_300_799,
    ensures
        timestamp_text(timestamp) matches Some(text) && {
            let year = digits_value(text.subrange(0, 4)) as int;
            let month = digits_value(text.subrange(5, 7)) as int;
            let day = digits_value(text.subrange(8, 10)) as int;
            let hour = digits_value(text.subrange(11, 13)) as int;
            let minute = digits_value(text.subrange(14, 16)) as int;
            let second = digits_value(text.subrange(17, 19)) as int;
            &&& text.len() == 20
            &&& text[4] == '-' && text[7] == '-' && text[10] == 'T'
            &&& text[13] == ':' && text[16] == ':' && text[19] == 'Z'
            &&& forall|i: int|
                0 <= i < 19 && i != 4 && i != 7 && i != 10 && i != 13 && i != 16 ==> '0'
                    <= #[trigger] text[i] <= '9'
            &&& 1 <= month <= 12 && 1 <= day <= 31 && hour < 24 && minute < 60 && second < 60
            &&& month == 4 || month == 6 || month == 9 || month == 11 ==> day <= 30
            &&& month == 2 ==> day <= 29
            &&& month == 2 && day == 29 ==> year % 4 == 0 && (year % 100 == 0 ==> year % 400 == 0)
            &&& timestamp == day_number(CivilDate { year, month, day }) * 86400 + hour * 3600
                + minute * 60 + second
        },
{
    lemma_year_limits();
    lemma_expressible_year(timestamp);
    let date = civil_date(timestamp / 86400);
    lemma_day_number_of_date(timestamp / 86400);
    let rest = timestamp % 86400;
    let (y, m, d) = (padded(date.year, 4), padded(date.month, 2), padded(date.day, 2));
    let hour = padded(rest / 3600, 2);
    let minute = padded(rest % 3600 / 60, 2);
    let second = padded(rest % 60, 2);
    lemma_padded(date.year, 4);
    lemma_padded(date.month, 2);
    lemma_padded(date.day, 2);
    lemma_padded(rest / 3600, 2);
    lemma_padded(rest % 3600 / 60, 2);
    lemma_padded(rest % 60, 2);
    reveal_strlit("-");
    reveal_strlit("T");
    reveal_strlit(":");
    reveal_strlit("Z");
    let text = rfc3339_utc(timestamp);
    assert(text.len() == 20);
    assert(text.subrange(0, 4) =~= y);
    assert(text.subrange(5, 7) =~= m);
    assert(text.subrange(8, 10) =~= d);
    assert(text.subrange(11, 13) =~= hour);
    assert(text.subrange(14, 16) =~= minute);
    assert(text.subrange(17, 19) =~= second);
    assert forall|i: int|
        0 <= i < 19 && i != 4 && i != 7 && i != 10 && i != 13 && i != 16 implies '0'
        <= #[trigger] text[i] <= '9' by {
        if i < 4 {
            assert(text[i] == y[i]);
        } else if i < 7 {
            assert(text[i] == m[i - 5]);
        } else if i < 10 {
            assert(text[i] == d[i - 8]);
        } else if i < 13 {
            assert(text[i] == hour[i - 11]);
        } else if i < 16 {
            assert(text[i] == minute[i - 14]);
        } else {
            assert(text[i] == second[i - 17]);
        }
    }
}

} // verus!
