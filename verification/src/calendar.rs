//! Dates and times of the proleptic Gregorian calendar, in UTC.

use vstd::prelude::*;
use vstd::slice::slice_subrange;

use crate::number::{lemma_decimal_len, power10, zero_pad, zero_padded};
use crate::text::{chars_of, string_of};

verus! {

/// A year with a 29th of February.
pub open spec fn is_leap(y: int) -> bool {
    y % 4 == 0 && (y % 100 != 0 || y % 400 == 0)
}

/// How many days the month has.
pub open spec fn month_len(y: int, m: int) -> int {
    if m == 2 {
        if is_leap(y) {
            29
        } else {
            28
        }
    } else if m == 4 || m == 6 || m == 9 || m == 11 {
        30
    } else {
        31
    }
}

/// The date exists.
pub open spec fn is_date(y: int, m: int, d: int) -> bool {
    1 <= m <= 12 && 1 <= d <= month_len(y, m)
}

/// How many days of the year lie before the month.
pub open spec fn days_before_month(y: int, m: int) -> int
    decreases m,
{
    if m <= 1 {
        0
    } else {
        days_before_month(y, m - 1) + month_len(y, m - 1)
    }
}

/// How many days lie between the first day of year 0 and the first day of the year: 365 for each
/// year, and one more for each leap year among them.
pub open spec fn days_before_year(y: int) -> int {
    365 * y + (y + 3) / 4 - (y + 99) / 100 + (y + 399) / 400
}

/// How many days lie between 1 January 1970 and the date.
pub open spec fn day_number(y: int, m: int, d: int) -> int {
    days_before_year(y) - days_before_year(1970) + days_before_month(y, m) + (d - 1)
}

/// The lengths of the years add up.
pub proof fn lemma_year_len(y: int)
    ensures
        days_before_year(y + 1) == days_before_year(y) + (if is_leap(y) {
            366int
        } else {
            365int
        }),
{
}

proof fn lemma_months(y: int)
    ensures
        days_before_month(y, 1) == 0,
        days_before_month(y, 2) == 31,
        days_before_month(y, 3) == 31 + month_len(y, 2),
        days_before_month(y, 4) == 62 + month_len(y, 2),
        days_before_month(y, 5) == 92 + month_len(y, 2),
        days_before_month(y, 6) == 123 + month_len(y, 2),
        days_before_month(y, 7) == 153 + month_len(y, 2),
        days_before_month(y, 8) == 184 + month_len(y, 2),
        days_before_month(y, 9) == 215 + month_len(y, 2),
        days_before_month(y, 10) == 245 + month_len(y, 2),
        days_before_month(y, 11) == 276 + month_len(y, 2),
        days_before_month(y, 12) == 306 + month_len(y, 2),
{
    reveal_with_fuel(days_before_month, 13);
}

/// How many days lie between 1 March of year 0 and 1 March of the year.
spec fn march_days(y: int) -> int {
    365 * y + y / 4 - y / 100 + y / 400
}

proof fn lemma_march(y: int)
    ensures
        days_before_year(y) + 59 + (if is_leap(y) {
            1int
        } else {
            0int
        }) == march_days(y) + 60,
{
    assert((y + 3) / 4 == y / 4 + (if y % 4 == 0 {
        0int
    } else {
        1int
    }));
    assert((y + 99) / 100 == y / 100 + (if y % 100 == 0 {
        0int
    } else {
        1int
    }));
    assert((y + 399) / 400 == y / 400 + (if y % 400 == 0 {
        0int
    } else {
        1int
    }));
    assert(y % 400 == 0 ==> y % 100 == 0);
    assert(y % 100 == 0 ==> y % 4 == 0);
}

proof fn lemma_era(era: int, yoe: int)
    requires
        0 <= yoe <= 399,
    ensures
        march_days(yoe + era * 400) == 146_097 * era + 365 * yoe + yoe / 4 - yoe / 100,
        is_leap(yoe + era * 400 + 1) == is_leap(yoe + 1),
{
    let y0 = yoe + era * 400;
    assert(y0 / 4 == 100 * era + yoe / 4);
    assert(y0 / 100 == 4 * era + yoe / 100);
    assert(y0 / 400 == era);
    assert((y0 + 1) % 4 == (yoe + 1) % 4);
    assert((y0 + 1) % 100 == (yoe + 1) % 100);
    assert((y0 + 1) % 400 == (yoe + 1) % 400);
}

/// The month and day of a day of the year counted from March.
proof fn lemma_month_and_day(y0: int, doy: int, mp: int)
    requires
        0 <= doy <= 365,
        doy == 365 ==> is_leap(y0 + 1),
        mp == (5 * doy + 2) / 153,
    ensures
        ({
            let d = doy - (153 * mp + 2) / 5 + 1;
            let m = if mp < 10 {
                mp + 3
            } else {
                mp - 9
            };
            let y = if m <= 2 {
                y0 + 1
            } else {
                y0
            };
            &&& 0 <= mp <= 11
            &&& is_date(y, m, d)
            &&& days_before_year(y) + days_before_month(y, m) + (d - 1) == march_days(y0) + doy + 60
        }),
{
    lemma_march(y0);
    lemma_year_len(y0);
    lemma_months(y0);
    lemma_months(y0 + 1);
    assert(0 <= mp <= 11);
    if mp == 0 {
    } else if mp == 1 {
    } else if mp == 2 {
    } else if mp == 3 {
    } else if mp == 4 {
    } else if mp == 5 {
    } else if mp == 6 {
    } else if mp == 7 {
    } else if mp == 8 {
    } else if mp == 9 {
    } else if mp == 10 {
    } else {
        assert(mp == 11);
    }
}

/// The year of a 400-year era, counted from March, on a day of the era, and the day of that year.
fn year_of_era(doe: i64) -> (r: (i64, i64))
    requires
        0 <= doe <= 146_096,
    ensures
        0 <= r.0 <= 399,
        0 <= r.1 <= 365,
        doe == 365 * r.0 + r.0 / 4 - r.0 / 100 + r.1,
        r.1 == 365 ==> is_leap(r.0 + 1),
{
    let c: i64 = if doe >= 109_572 {
        3
    } else {
        doe / 36_524
    };
    let in_century: i64 = doe - c * 36_524;
    let q: i64 = in_century / 1461;
    let in_four: i64 = in_century - q * 1461;
    let y: i64 = if in_four >= 1095 {
        3
    } else {
        in_four / 365
    };
    let yoe: i64 = 100 * c + 4 * q + y;
    assert(0 <= c <= 3 && 0 <= q <= 24 && 0 <= y <= 3);
    assert(yoe / 4 == 25 * c + q);
    assert(yoe / 100 == c);
    (yoe, in_four - 365 * y)
}

/// The date that lies the given number of days behind 1 January 1970.
pub fn civil_from_days(z: i64) -> (r: (i64, u32, u32))
    requires
        z <= i64::MAX - 719_468,
    ensures
        is_date(r.0 as int, r.1 as int, r.2 as int),
        day_number(r.0 as int, r.1 as int, r.2 as int) == z,
        z >= 0 ==> r.0 >= 1970,
{
    // Years are counted from March on, so that a leap day ends its year, in eras of 400 years.
    let z0: i64 = z + 719_468;
    let era: i64 = if z0 >= 0 {
        z0 / 146_097
    } else {
        -((146_096 - z0) / 146_097)
    };
    let doe: i64 = z0 - era * 146_097;
    let (yoe, doy) = year_of_era(doe);
    let y0: i64 = yoe + era * 400;
    let mp: i64 = (5 * doy + 2) / 153;
    let d: i64 = doy - (153 * mp + 2) / 5 + 1;
    let m: i64 = if mp < 10 {
        mp + 3
    } else {
        mp - 9
    };
    let y: i64 = if m <= 2 {
        y0 + 1
    } else {
        y0
    };
    proof {
        lemma_era(era as int, yoe as int);
        lemma_month_and_day(y0 as int, doy as int, mp as int);
        assert(day_number(y as int, m as int, d as int) == z);
        lemma_later_year(y as int, m as int, d as int, z as int);
    }
    (y, m as u32, d as u32)
}

/// A day from 1970 on is in a year from 1970 on.
proof fn lemma_later_year(y: int, m: int, d: int, z: int)
    requires
        is_date(y, m, d),
        day_number(y, m, d) == z,
    ensures
        z >= 0 ==> y >= 1970,
{
    lemma_months(y);
    lemma_year_len(y);
    if y < 1970 {
        assert(days_before_year(y + 1) <= days_before_year(1970));
    }
}

/// The text of a moment, `YYYY-MM-DDThh:mm:ssZ`, given its date and the second of its day.
pub open spec fn stamp(y: int, m: int, d: int, second: int) -> Seq<char> {
    zero_padded(y as nat, 4) + "-"@ + zero_padded(m as nat, 2) + "-"@ + zero_padded(d as nat, 2)
        + "T"@ + zero_padded((second / 3600) as nat, 2) + ":"@ + zero_padded(
        (second % 3600 / 60) as nat,
        2,
    ) + ":"@ + zero_padded((second % 60) as nat, 2) + "Z"@
}

/// The text is the stamp of the moment that many seconds behind the start of 1970.
pub open spec fn is_stamp_of(text: Seq<char>, secs: int) -> bool {
    exists|y: int, m: int, d: int|
        #![trigger day_number(y, m, d)]
        is_date(y, m, d) && day_number(y, m, d) == secs / 86_400 && text == stamp(
            y,
            m,
            d,
            secs % 86_400,
        )
}

/// The stamp of the moment that many seconds behind the start of 1970.
pub open spec fn stamp_of(secs: int) -> Seq<char> {
    choose|text: Seq<char>| is_stamp_of(text, secs)
}

/// A moment has one stamp.
proof fn lemma_one_stamp(text: Seq<char>, secs: int)
    requires
        is_stamp_of(text, secs),
    ensures
        text == stamp_of(secs),
{
    let other = stamp_of(secs);
    assert(is_stamp_of(other, secs));
    let (y, m, d) = choose|y: int, m: int, d: int|
        #![trigger day_number(y, m, d)]
        is_date(y, m, d) && day_number(y, m, d) == secs / 86_400 && text == stamp(
            y,
            m,
            d,
            secs % 86_400,
        );
    let (y2, m2, d2) = choose|y: int, m: int, d: int|
        #![trigger day_number(y, m, d)]
        is_date(y, m, d) && day_number(y, m, d) == secs / 86_400 && other == stamp(
            y,
            m,
            d,
            secs % 86_400,
        );
    day_number_tells_the_date(y, m, d, y2, m2, d2);
}

/// The UTC time stamp of a Unix time.
pub fn iso_from_unix(secs: u64) -> (r: String)
    ensures
        r@ == stamp_of(secs as int),
        is_stamp_of(r@, secs as int),
{
    let (y, m, d) = civil_from_days((secs / 86_400) as i64);
    let rem: u64 = secs % 86_400;
    let mut out = zero_pad(y as u64, 4);
    out.append("-");
    out.append(zero_pad(m as u64, 2).as_str());
    out.append("-");
    out.append(zero_pad(d as u64, 2).as_str());
    out.append("T");
    out.append(zero_pad(rem / 3600, 2).as_str());
    out.append(":");
    out.append(zero_pad(rem % 3600 / 60, 2).as_str());
    out.append(":");
    out.append(zero_pad(rem % 60, 2).as_str());
    out.append("Z");
    assert(day_number(y as int, m as int, d as int) == secs as int / 86_400);
    assert(out@ == stamp(y as int, m as int, d as int, secs as int % 86_400));
    proof {
        lemma_one_stamp(out@, secs as int);
    }
    out
}

/// The date of a Unix time: the first ten characters of its stamp.
pub open spec fn day_of(secs: int) -> Seq<char> {
    stamp_of(secs).take(10)
}

/// The date of a Unix time, `YYYY-MM-DD`.
pub fn day_from_unix(secs: u64) -> (r: String)
    ensures
        r@ == day_of(secs as int),
{
    let stamp = chars_of(iso_from_unix(secs).as_str());
    proof {
        stamps_are_long_enough(stamp@, secs as int);
    }
    let day = slice_subrange(stamp.as_slice(), 0, 10);
    assert(day@ =~= stamp@.take(10));
    string_of(day)
}

// ---------------------------------------------------------------------------
// Laws
// ---------------------------------------------------------------------------

proof fn lemma_years_grow(a: int, b: int)
    requires
        a <= b,
    ensures
        days_before_year(a) <= days_before_year(b),
    decreases b - a,
{
    if a < b {
        lemma_years_grow(a, b - 1);
        lemma_year_len(b - 1);
    }
}

/// Two dates with one day number are the same date: the number of a day tells its date.
pub proof fn day_number_tells_the_date(y: int, m: int, d: int, y2: int, m2: int, d2: int)
    requires
        is_date(y, m, d),
        is_date(y2, m2, d2),
        day_number(y, m, d) == day_number(y2, m2, d2),
    ensures
        y == y2 && m == m2 && d == d2,
{
    lemma_months(y);
    lemma_months(y2);
    lemma_year_len(y);
    lemma_year_len(y2);
    if y < y2 {
        lemma_years_grow(y + 1, y2);
    }
    if y2 < y {
        lemma_years_grow(y2 + 1, y);
    }
}

/// The day after a date has the next day number, over the ends of months and years too.
pub proof fn the_next_day_has_the_next_number(y: int, m: int, d: int)
    requires
        is_date(y, m, d),
    ensures
        d < month_len(y, m) ==> day_number(y, m, d + 1) == day_number(y, m, d) + 1,
        d == month_len(y, m) && m < 12 ==> day_number(y, m + 1, 1) == day_number(y, m, d) + 1,
        d == month_len(y, m) && m == 12 ==> day_number(y + 1, 1, 1) == day_number(y, m, d) + 1,
{
    lemma_months(y);
    lemma_year_len(y);
}

/// A stamp has twenty characters up to the year 9999, and more behind it.
pub proof fn stamps_are_long_enough(text: Seq<char>, secs: int)
    requires
        secs >= 0,
        is_stamp_of(text, secs),
    ensures
        text.len() >= 20,
        secs < day_number(10000, 1, 1) * 86_400 ==> text.len() == 20,
{
    let (y, m, d) = choose|y: int, m: int, d: int|
        #![trigger day_number(y, m, d)]
        is_date(y, m, d) && day_number(y, m, d) == secs / 86_400 && text == stamp(
            y,
            m,
            d,
            secs % 86_400,
        );
    let s = secs % 86_400;
    lemma_months(y);
    lemma_later_year(y, m, d, secs / 86_400);
    reveal_strlit("-");
    reveal_strlit("T");
    reveal_strlit(":");
    reveal_strlit("Z");
    lemma_padded_len(m as nat, 2);
    lemma_padded_len(d as nat, 2);
    lemma_padded_len((s / 3600) as nat, 2);
    lemma_padded_len((s % 3600 / 60) as nat, 2);
    lemma_padded_len((s % 60) as nat, 2);
    lemma_padded_len(y as nat, 4);
    if secs < day_number(10000, 1, 1) * 86_400 && y >= 10000 {
        lemma_years_grow(10000, y);
        assert(days_before_month(10000, 1) == 0);
        assert(day_number(y, m, d) >= day_number(10000, 1, 1));
    }
}

proof fn lemma_padded_len(n: nat, width: nat)
    requires
        width == 2 || width == 4,
    ensures
        zero_padded(n, width as int).len() >= width,
        width == 2 && n < 100 ==> zero_padded(n, 2).len() == 2,
        width == 4 && n < 10000 ==> zero_padded(n, 4).len() == 4,
{
    reveal_with_fuel(power10, 5);
    if width == 2 && n < 100 {
        lemma_decimal_len(n, 2);
    }
    if width == 4 && n < 10000 {
        lemma_decimal_len(n, 4);
    }
}

/// Day number 0 is 1 January 1970.
pub proof fn counting_starts_in_1970()
    ensures
        day_number(1970, 1, 1) == 0,
{
}

/// The calendar repeats after 400 years of 146097 days. A year that four divides has 366 days, unless a
/// hundred divides it and four hundred does not; every other has 365.
pub proof fn the_calendar_repeats(y: int)
    ensures
        day_number(y + 400, 1, 1) - day_number(y, 1, 1) == 146_097,
        y % 4 != 0 ==> day_number(y + 1, 1, 1) - day_number(y, 1, 1) == 365,
        y % 4 == 0 && y % 100 != 0 ==> day_number(y + 1, 1, 1) - day_number(y, 1, 1) == 366,
        y % 100 == 0 && y % 400 != 0 ==> day_number(y + 1, 1, 1) - day_number(y, 1, 1) == 365,
        y % 400 == 0 ==> day_number(y + 1, 1, 1) - day_number(y, 1, 1) == 366,
        is_date(y, 2, 29) <==> day_number(y + 1, 1, 1) - day_number(y, 1, 1) == 366,
        !is_date(y, 2, 30) && !is_date(y, 4, 31) && !is_date(y, 6, 31) && !is_date(y, 9, 31)
            && !is_date(y, 11, 31),
        is_date(y, 1, 31) && is_date(y, 3, 31) && is_date(y, 5, 31) && is_date(y, 7, 31) && is_date(
            y,
            8,
            31,
        ) && is_date(y, 10, 31) && is_date(y, 12, 31),
        !is_date(y, 12, 32),
        !is_date(y, 13, 1),
{
    lemma_year_len(y);
    assert(days_before_month(y, 1) == 0);
    assert(days_before_month(y + 1, 1) == 0);
    assert(days_before_month(y + 400, 1) == 0);
}

} // verus!
