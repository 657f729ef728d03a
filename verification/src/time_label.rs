//! Calendar dates for Unix times, and the "last edited" label of a document.
use vstd::prelude::*;
use vstd::string::*;
use crate::decimal::{decimal, two_digits, push_decimal, push_two_digits};

verus! {

/// A date and time of day in the proleptic Gregorian calendar.
#[derive(Debug, Clone, Copy, PartialEq, Eq, Structural)]
pub struct CivilDateTime {
    pub year: i32,
    pub month: u32,
    pub day: u32,
    pub hour: u32,
    pub minute: u32,
}

pub open spec fn is_leap(y: int) -> bool {
    y % 4 == 0 && (y % 100 != 0 || y % 400 == 0)
}

pub open spec fn month_length(y: int, m: int) -> int {
    if m == 2 {
        if is_leap(y) {
            29
        } else {
            28
        }
    } else if m == 4 || m == 6 || m == 9 || m == 11 {
        30
    } else {
        31
    }
}

/// The days of year `y` before the first of month `m`.
pub open spec fn days_before_month(y: int, m: int) -> int {
    let feb: int = if is_leap(y) {
        29
    } else {
        28
    };
    if m <= 1 {
        0
    } else if m == 2 {
        31
    } else if m == 3 {
        31 + feb
    } else if m == 4 {
        62 + feb
    } else if m == 5 {
        92 + feb
    } else if m == 6 {
        123 + feb
    } else if m == 7 {
        153 + feb
    } else if m == 8 {
        184 + feb
    } else if m == 9 {
        215 + feb
    } else if m == 10 {
        245 + feb
    } else if m == 11 {
        276 + feb
    } else {
        306 + feb
    }
}

/// The leap years among the years 1 to `y` (counted down, with a minus sign, for
/// years before 1).
pub open spec fn leap_years_through(y: int) -> int {
    y / 4 - y / 100 + y / 400
}

/// The days from 1 January 1970 to 1 January of year `y`.
pub open spec fn days_before_year(y: int) -> int {
    365 * (y - 1970) + leap_years_through(y - 1) - leap_years_through(1969)
}

/// The days from 1 January 1970 to the given date.
pub open spec fn days_from_civil(y: int, m: int, d: int) -> int {
    days_before_year(y) + days_before_month(y, m) + d - 1
}

pub open spec fn valid_date(y: int, m: int, d: int) -> bool {
    1 <= m <= 12 && 1 <= d <= month_length(y, m)
}

/// Year-of-era arithmetic: the year that a day of a 400-year era falls in, counting
/// years from March, lies within the era and starts at or before that day.
proof fn lemma_year_of_era(doe: u64)
    requires
        doe <= 146096,
    ensures
        ({
            let yoe = (doe - doe / 1460 + doe / 36524 - doe / 146096) / 365;
            &&& yoe <= 399
            &&& 365 * yoe + yoe / 4 - yoe / 100 <= doe
            &&& doe < 365 * (yoe + 1) + (yoe + 1) / 4 - (yoe + 1) / 100 + (yoe + 1) / 400
        }),
{
    assert(doe <= 146096 ==> ((doe - doe / 1460 + doe / 36524 - doe / 146096) / 365) <= 399 && 365 * ((doe - doe / 1460
        + doe / 36524 - doe / 146096) / 365) + ((doe - doe / 1460 + doe / 36524 - doe / 146096) / 365) / 4 - ((doe
        - doe / 1460 + doe / 36524 - doe / 146096) / 365) / 100 <= doe) by (bit_vector);
}

/// The days before each month of a year that starts in March.
pub open spec fn march_month_start(mp: int) -> int {
    (153 * mp + 2) / 5
}

/// Month arithmetic for a year that starts in March: the month of a day of that year
/// is the last month starting at or before it.
proof fn lemma_month_of_day(doy: u64)
    requires
        doy <= 365,
    ensures
        ({
            let mp = (5 * doy + 2) / 153;
            &&& mp <= 11
            &&& (153 * mp + 2) / 5 <= doy
            &&& mp < 11 ==> doy < (153 * (mp + 1) + 2) / 5
        }),
{
    assert(doy <= 365 ==> (5 * doy + 2) / 153 <= 11 && (153 * ((5 * doy + 2) / 153) + 2) / 5 <= doy && ((5 * doy + 2) / 153
        < 11 ==> doy < (153 * ((5 * doy + 2) / 153 + 1) + 2) / 5)) by (bit_vector);
}

/// One more year adds one leap year exactly when it is a leap year.
proof fn lemma_leap_step(y: int)
    ensures
        leap_years_through(y) == leap_years_through(y - 1) + (if is_leap(y) { 1int } else { 0int }),
{
    assert(y / 4 - (y - 1) / 4 == (if y % 4 == 0 { 1int } else { 0int }));
    assert(y / 100 - (y - 1) / 100 == (if y % 100 == 0 { 1int } else { 0int }));
    assert(y / 400 - (y - 1) / 400 == (if y % 400 == 0 { 1int } else { 0int }));
    assert(y % 400 == 0 ==> y % 100 == 0 && y % 4 == 0);
    assert(y % 100 == 0 ==> y % 4 == 0);
}

/// Shifting a year by whole 400-year eras shifts its leap years by 97 each.
proof fn lemma_leaps_of_era(yoe: int, era: int)
    requires
        0 <= yoe < 400,
    ensures
        leap_years_through(yoe + 400 * era) == yoe / 4 - yoe / 100 + 97 * era,
        is_leap(yoe + 400 * era) == is_leap(yoe),
{
    let y = yoe + 400 * era;
    assert(y / 4 == yoe / 4 + 100 * era);
    assert(y / 100 == yoe / 100 + 4 * era);
    assert(y / 400 == era);
    assert(y % 4 == yoe % 4);
    assert(y % 100 == yoe % 100);
    assert(y % 400 == yoe % 400);
}

/// The days from 1 January 1970 to 1 March of year `yoe + 400 * era`.
proof fn lemma_march_first(yoe: int, era: int)
    requires
        0 <= yoe < 400,
    ensures
        days_before_year(yoe + 400 * era) + 59 + (if is_leap(yoe + 400 * era) { 1int } else { 0int }) == 146097 * era + 365
            * yoe + yoe / 4 - yoe / 100 - 719468,
{
    let y = yoe + 400 * era;
    lemma_leap_step(y);
    lemma_leaps_of_era(yoe, era);
    assert(leap_years_through(1969) == 477);
}

/// The date reached from a day count through eras of 400 years, years that start in
/// March, and months: the steps that `civil_from_days` computes.
proof fn lemma_civil(days: int, era: int, doe: int, yoe: int, doy: int, mp: int)
    requires
        days + 719468 == 146097 * era + doe,
        0 <= doe <= 146096,
        0 <= yoe <= 399,
        365 * yoe + yoe / 4 - yoe / 100 <= doe,
        doe < 365 * (yoe + 1) + (yoe + 1) / 4 - (yoe + 1) / 100 + (yoe + 1) / 400,
        doy == doe - (365 * yoe + yoe / 4 - yoe / 100),
        0 <= mp <= 11,
        march_month_start(mp) <= doy,
        mp < 11 ==> doy < march_month_start(mp + 1),
    ensures
        ({
            let m = if mp < 10 { mp + 3 } else { mp - 9 };
            let y = yoe + 400 * era + (if m <= 2 { 1int } else { 0int });
            let d = doy - march_month_start(mp) + 1;
            &&& valid_date(y, m, d)
            &&& days_from_civil(y, m, d) == days
        }),
{
    let y0 = yoe + 400 * era;
    lemma_march_first(yoe, era);
    lemma_leaps_of_era(yoe, era);
    if yoe + 1 < 400 {
        lemma_leaps_of_era(yoe + 1, era);
    } else {
        assert(y0 + 1 == 400 * (era + 1));
        lemma_leaps_of_era(0, era + 1);
    }
    assert(is_leap(y0 + 1) == is_leap(yoe + 1)) by {
        assert((y0 + 1) % 4 == (yoe + 1) % 4);
        assert((y0 + 1) % 100 == (yoe + 1) % 100);
        assert((y0 + 1) % 400 == (yoe + 1) % 400);
    }
    assert((yoe + 1) / 4 - yoe / 4 == (if (yoe + 1) % 4 == 0 { 1int } else { 0int }));
    assert((yoe + 1) / 100 - yoe / 100 == (if (yoe + 1) % 100 == 0 { 1int } else { 0int }));
    assert((yoe + 1) / 400 == (if yoe + 1 == 400 { 1int } else { 0int }));
    lemma_leap_step(y0 + 1);
    assert(march_month_start(0) == 0);
    assert(march_month_start(1) == 31);
    assert(march_month_start(2) == 61);
    assert(march_month_start(3) == 92);
    assert(march_month_start(4) == 122);
    assert(march_month_start(5) == 153);
    assert(march_month_start(6) == 184);
    assert(march_month_start(7) == 214);
    assert(march_month_start(8) == 245);
    assert(march_month_start(9) == 275);
    assert(march_month_start(10) == 306);
    assert(march_month_start(11) == 337);
}

/// `days` is the date `y`-`m`-`d`, counted in days from 1 January 1970.
#[verifier::opaque]
pub open spec fn is_date_of(days: int, y: int, m: int, d: int) -> bool {
    valid_date(y, m, d) && days_from_civil(y, m, d) == days
}

/// Splits a day count from 0000-03-01 into 400-year eras and the day of its era.
fn era_of(z: i64) -> (r: (i64, i64))
    requires
        z >= i64::MIN + 146_096,
    ensures
        z == 146097 * r.0 + r.1,
        0 <= r.1 <= 146096,
{
    let era = if z >= 0 {
        z
    } else {
        z - 146_096
    } / 146_097;
    proof {
        if z < 0 {
            assert(era == (z as int) / 146_097int);
        }
    }
    (era, z - era * 146_097)
}

/// The year of the era, counting years from March, and the day of that year.
fn year_of_era(doe: i64) -> (r: (i64, i64))
    requires
        0 <= doe <= 146096,
    ensures
        0 <= r.0 <= 399,
        365 * r.0 + r.0 / 4 - r.0 / 100 <= doe,
        doe < 365 * (r.0 + 1) + (r.0 + 1) / 4 - (r.0 + 1) / 100 + (r.0 + 1) / 400,
        r.1 == doe - (365 * r.0 + r.0 / 4 - r.0 / 100),
{
    proof {
        lemma_year_of_era(doe as u64);
    }
    let yoe = (doe - doe / 1_460 + doe / 36_524 - doe / 146_096) / 365;
    (yoe, doe - (365 * yoe + yoe / 4 - yoe / 100))
}

/// The month of a year that starts in March (0 for March), and the day of that month.
fn month_of_year(doy: i64) -> (r: (i64, i64))
    requires
        0 <= doy <= 365,
    ensures
        0 <= r.0 <= 11,
        march_month_start(r.0 as int) <= doy,
        r.0 < 11 ==> doy < march_month_start(r.0 + 1),
        r.1 == doy - march_month_start(r.0 as int) + 1,
{
    proof {
        lemma_month_of_day(doy as u64);
    }
    let mp = (5 * doy + 2) / 153;
    (mp, doy - (153 * mp + 2) / 5 + 1)
}

proof fn lemma_civil_date(days: int, era: int, doe: int, yoe: int, doy: int, mp: int)
    requires
        days + 719468 == 146097 * era + doe,
        0 <= doe <= 146096,
        0 <= yoe <= 399,
        365 * yoe + yoe / 4 - yoe / 100 <= doe,
        doe < 365 * (yoe + 1) + (yoe + 1) / 4 - (yoe + 1) / 100 + (yoe + 1) / 400,
        doy == doe - (365 * yoe + yoe / 4 - yoe / 100),
        0 <= mp <= 11,
        march_month_start(mp) <= doy,
        mp < 11 ==> doy < march_month_start(mp + 1),
    ensures
        ({
            let m = if mp < 10 { mp + 3 } else { mp - 9 };
            is_date_of(days, yoe + 400 * era + (if m <= 2 { 1int } else { 0int }), m, doy - march_month_start(mp) + 1)
        }),
{
    reveal(is_date_of);
    lemma_civil(days, era, doe, yoe, doy, mp);
}

/// Converts a count of days since 1 January 1970 to a year, month and day. The year
/// is truncated to `i32`.
pub fn civil_from_days(days: i64) -> (r: (i32, u32, u32))
    requires
        days <= i64::MAX - 719_468,
    ensures
        exists|y: int| #[trigger] is_date_of(days as int, y, r.1 as int, r.2 as int) && r.0 == y as i32,
{
    let (era, day_of_era) = era_of(days + 719_468);
    let (year_of_era, day_of_year) = year_of_era(day_of_era);
    let (month_prime, day) = month_of_year(day_of_year);
    let month = month_prime + if month_prime < 10 {
        3
    } else {
        -9
    };
    let year = year_of_era + era * 400 + if month <= 2 {
        1
    } else {
        0
    };
    let r = (year as i32, month as u32, day as u32);
    proof {
        lemma_civil_date(days as int, era as int, day_of_era as int, year_of_era as int, day_of_year as int, month_prime as int);
        assert(is_date_of(days as int, year as int, r.1 as int, r.2 as int));
        assert(r.0 == (year as int) as i32);
    }
    r
}

/// The English name of month `m`; months outside 1 to 12 are named January.
pub open spec fn month_name(m: u32) -> Seq<char> {
    if m <= 1 {
        "January"@
    } else if m == 2 {
        "February"@
    } else if m == 3 {
        "March"@
    } else if m == 4 {
        "April"@
    } else if m == 5 {
        "May"@
    } else if m == 6 {
        "June"@
    } else if m == 7 {
        "July"@
    } else if m == 8 {
        "August"@
    } else if m == 9 {
        "September"@
    } else if m == 10 {
        "October"@
    } else if m == 11 {
        "November"@
    } else if m == 12 {
        "December"@
    } else {
        "January"@
    }
}

fn month_name_text(month: u32) -> (r: &'static str)
    ensures
        r@ == month_name(month),
{
    if month <= 1 {
        "January"
    } else if month == 2 {
        "February"
    } else if month == 3 {
        "March"
    } else if month == 4 {
        "April"
    } else if month == 5 {
        "May"
    } else if month == 6 {
        "June"
    } else if month == 7 {
        "July"
    } else if month == 8 {
        "August"
    } else if month == 9 {
        "September"
    } else if month == 10 {
        "October"
    } else if month == 11 {
        "November"
    } else if month == 12 {
        "December"
    } else {
        "January"
    }
}

/// The English month names, January to December.
pub open spec fn english_month_names() -> Seq<Seq<char>> {
    seq![
        "January"@,
        "February"@,
        "March"@,
        "April"@,
        "May"@,
        "June"@,
        "July"@,
        "August"@,
        "September"@,
        "October"@,
        "November"@,
        "December"@,
    ]
}

/// Month `m` of 1 to 12 is named by the `m`-th English month name, and a label starts
/// with the name of its month followed by a space.
pub proof fn law_month_names(m: u32, dt: CivilDateTime)
    requires
        1 <= m <= 12,
    ensures
        month_name(m) == english_month_names()[m - 1],
        datetime_label(dt).take(month_name(dt.month).len() + 1int) == month_name(dt.month) + seq![' '],
{
    let label = datetime_label(dt);
    assert(label.take(month_name(dt.month).len() + 1int) =~= month_name(dt.month) + seq![' ']);
}

/// An hour of the day shows on the twelve-hour clock as a number from 1 to 12 that
/// agrees with it modulo 12, marked AM before noon and PM from noon on.
pub proof fn law_twelve_hour_clock(hour: u32)
    requires
        hour < 24,
    ensures
        1 <= clock_hour(hour) <= 12,
        clock_hour(hour) % 12 == hour % 12,
        hour < 12 ==> meridiem(hour) == "AM"@,
        hour >= 12 ==> meridiem(hour) == "PM"@,
{
}

/// Different months of the year get different names.
pub proof fn law_month_names_distinct(a: u32, b: u32)
    requires
        1 <= a <= 12,
        1 <= b <= 12,
        a != b,
    ensures
        month_name(a) != month_name(b),
{
    reveal_strlit("January");
    reveal_strlit("February");
    reveal_strlit("March");
    reveal_strlit("April");
    reveal_strlit("May");
    reveal_strlit("June");
    reveal_strlit("July");
    reveal_strlit("August");
    reveal_strlit("September");
    reveal_strlit("October");
    reveal_strlit("November");
    reveal_strlit("December");
    let x = month_name(a);
    let y = month_name(b);
    if x.len() == y.len() {
        assert(x[0] != y[0] || x[1] != y[1] || x[2] != y[2]);
    }
}

/// The hour on a twelve-hour clock: midnight and noon are 12.
pub open spec fn clock_hour(hour: u32) -> nat {
    if hour == 0 || hour == 12 {
        12
    } else if hour < 12 {
        hour as nat
    } else {
        (hour - 12) as nat
    }
}

pub open spec fn meridiem(hour: u32) -> Seq<char> {
    if hour < 12 {
        "AM"@
    } else {
        "PM"@
    }
}

/// A year in decimal, with a minus sign before the years before year 0.
pub open spec fn year_text(year: i32) -> Seq<char> {
    if year < 0 {
        seq!['-'] + decimal((-year) as nat)
    } else {
        decimal(year as nat)
    }
}

/// "June 27, 2026, 1:16 AM": the month's name, the day, the year, and the time on a
/// twelve-hour clock with two-digit minutes.
pub open spec fn datetime_label(dt: CivilDateTime) -> Seq<char> {
    month_name(dt.month) + seq![' '] + decimal(dt.day as nat) + seq![',', ' '] + year_text(dt.year) + seq![',', ' ']
        + decimal(clock_hour(dt.hour)) + seq![':'] + two_digits(dt.minute as nat) + seq![' '] + meridiem(dt.hour)
}

pub fn format_civil_datetime(datetime: CivilDateTime) -> (r: String)
    ensures
        r@ == datetime_label(datetime),
{
    let (hour, meridiem_text) = if datetime.hour == 0 {
        (12u32, "AM")
    } else if datetime.hour <= 11 {
        (datetime.hour, "AM")
    } else if datetime.hour == 12 {
        (12u32, "PM")
    } else {
        (datetime.hour - 12, "PM")
    };
    let space = " ";
    let comma = ", ";
    let colon = ":";
    let minus = "-";
    proof {
        reveal_strlit(" ");
        reveal_strlit(", ");
        reveal_strlit(":");
        reveal_strlit("-");
    }
    let mut out = month_name_text(datetime.month).to_owned();
    out.append(space);
    push_decimal(&mut out, datetime.day as u64);
    out.append(comma);
    if datetime.year < 0 {
        out.append(minus);
        push_decimal(&mut out, (-(datetime.year as i64)) as u64);
    } else {
        push_decimal(&mut out, datetime.year as u64);
    }
    out.append(comma);
    push_decimal(&mut out, hour as u64);
    out.append(colon);
    push_two_digits(&mut out, datetime.minute as u64);
    out.append(space);
    out.append(meridiem_text);
    proof {
        assert(out@ =~= datetime_label(datetime));
    }
    out
}

/// The UTC date and time of a Unix time in seconds.
pub open spec fn is_utc_datetime_of(seconds: int, dt: CivilDateTime) -> bool {
    let days = seconds / 86400;
    let second_of_day = seconds % 86400;
    &&& exists|y: int| #[trigger] is_date_of(days, y, dt.month as int, dt.day as int) && dt.year == y as i32
    &&& dt.hour == second_of_day / 3600
    &&& dt.minute == (second_of_day % 3600) / 60
}

pub fn utc_datetime_from_unix_seconds(seconds: i64) -> (r: CivilDateTime)
    ensures
        is_utc_datetime_of(seconds as int, r),
{
    let quotient = seconds / 86_400;
    let remainder = seconds % 86_400;
    let (days, seconds_of_day) = if remainder < 0 {
        (quotient - 1, remainder + 86_400)
    } else {
        (quotient, remainder)
    };
    proof {
        assert(days == (seconds as int) / 86400int && seconds_of_day == (seconds as int) % 86400int);
    }
    let (year, month, day) = civil_from_days(days);
    let r = CivilDateTime {
        year,
        month,
        day,
        hour: (seconds_of_day / 3_600) as u32,
        minute: ((seconds_of_day % 3_600) / 60) as u32,
    };
    proof {
        let y = choose|y: int| #[trigger] is_date_of(days as int, y, month as int, day as int) && year == y as i32;
        assert(is_date_of((seconds as int) / 86400, y, r.month as int, r.day as int) && r.year == y as i32);
        assert(r.hour == ((seconds as int) % 86400) / 3600);
        assert(r.minute == (((seconds as int) % 86400) % 3600) / 60);
    }
    r
}

/// A day count names a single date: two valid dates with the same count are equal.
pub proof fn law_one_date_per_day(y1: int, m1: int, d1: int, y2: int, m2: int, d2: int)
    requires
        valid_date(y1, m1, d1),
        valid_date(y2, m2, d2),
        days_from_civil(y1, m1, d1) == days_from_civil(y2, m2, d2),
    ensures
        y1 == y2 && m1 == m2 && d1 == d2,
{
    lemma_date_order(y1, m1, d1);
    lemma_date_order(y2, m2, d2);
    if y1 < y2 {
        lemma_years_increase(y1 + 1, y2);
    } else if y2 < y1 {
        lemma_years_increase(y2 + 1, y1);
    }
}

/// The days of a valid date fall within its year.
proof fn lemma_date_order(y: int, m: int, d: int)
    requires
        valid_date(y, m, d),
    ensures
        days_before_year(y) <= days_from_civil(y, m, d) < days_before_year(y + 1),
        days_from_civil(y, m, d) == days_before_year(y) + days_before_month(y, m) + d - 1,
        m < 12 ==> days_before_month(y, m) + month_length(y, m) <= days_before_month(y, m + 1),
{
    lemma_leap_step(y);
}

/// Later years start later.
proof fn lemma_years_increase(a: int, b: int)
    requires
        a <= b,
    ensures
        days_before_year(a) <= days_before_year(b),
    decreases b - a,
{
    if a < b {
        lemma_leap_step(b - 1);
        lemma_years_increase(a, b - 1);
    }
}

/// Whole seconds from the Unix epoch, given how far a time lies from it and on which
/// side; distances beyond `i64::MAX` are capped.
pub fn unix_seconds(distance_secs: u64, before_epoch: bool) -> (r: i64)
    ensures
        ({
            let capped = if distance_secs > i64::MAX { i64::MAX as int } else { distance_secs as int };
            r == (if before_epoch { -capped } else { capped })
        }),
{
    let capped = if distance_secs > i64::MAX as u64 {
        i64::MAX
    } else {
        distance_secs as i64
    };
    if before_epoch {
        -capped
    } else {
        capped
    }
}

/// The status label of a document last edited at `datetime`.
pub fn format_last_edited_time(datetime: CivilDateTime) -> (r: String)
    ensures
        r@ == "Last edited "@ + datetime_label(datetime),
{
    let mut out = "Last edited ".to_owned();
    let label = format_civil_datetime(datetime);
    out.append(label.as_str());
    out
}

} // verus!
