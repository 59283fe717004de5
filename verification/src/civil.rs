//! The proleptic Gregorian calendar in UTC.

use vstd::prelude::*;

verus! {

/// A date and a time of day.
#[derive(Debug, Clone, Copy, PartialEq, Eq, Structural)]
pub struct Civil {
    pub year: i64,
    pub month: u32,
    pub day: u32,
    pub hour: u32,
    pub min: u32,
    pub sec: u32,
}

/// Whether a year has a 29th of February.
pub open spec fn leap(y: int) -> bool {
    y % 4 == 0 && (y % 100 != 0 || y % 400 == 0)
}

/// The number of days of a month.
pub open spec fn month_days(y: int, m: int) -> int {
    if m == 2 {
        if leap(y) {
            29
        } else {
            28
        }
    } else if m == 4 || m == 6 || m == 9 || m == 11 {
        30
    } else {
        31
    }
}

/// The days of a year before a month.
pub open spec fn days_before_month(y: int, m: int) -> int
    decreases m,
{
    if m <= 1 {
        0
    } else {
        days_before_month(y, m - 1) + month_days(y, m - 1)
    }
}

/// The days from the start of 1970 to the start of a year.
pub open spec fn days_before_year(y: int) -> int {
    365 * (y - 1970) + (y - 1) / 4 - (y - 1) / 100 + (y - 1) / 400 - 477
}

/// Years follow one another by their lengths, counted from 1970.
pub proof fn years_have_365_or_366_days(y: int)
    ensures
        days_before_year(1970) == 0,
        days_before_year(y + 1) == days_before_year(y) + if leap(y) {
            366int
        } else {
            365
        },
{
}

impl Civil {
    /// The fields are those of an existing date and time of day.
    pub open spec fn valid(self) -> bool {
        &&& 1 <= self.month <= 12
        &&& 1 <= self.day <= month_days(self.year as int, self.month as int)
        &&& self.hour < 24
        &&& self.min < 60
        &&& self.sec < 60
    }

    /// The days from the start of 1970.
    pub open spec fn days(self) -> int {
        days_before_year(self.year as int) + days_before_month(self.year as int, self.month as int)
            + self.day - 1
    }

    /// The seconds from the start of 1970.
    pub open spec fn unix(self) -> int {
        86_400 * self.days() + 3600 * self.hour + 60 * self.min + self.sec
    }
}

proof fn lemma_month_table(y: int)
    ensures
        days_before_month(y, 1) == 0,
        days_before_month(y, 2) == 31,
        days_before_month(y, 3) == 59 + if leap(y) { 1int } else { 0 },
        days_before_month(y, 4) == 90 + if leap(y) { 1int } else { 0 },
        days_before_month(y, 5) == 120 + if leap(y) { 1int } else { 0 },
        days_before_month(y, 6) == 151 + if leap(y) { 1int } else { 0 },
        days_before_month(y, 7) == 181 + if leap(y) { 1int } else { 0 },
        days_before_month(y, 8) == 212 + if leap(y) { 1int } else { 0 },
        days_before_month(y, 9) == 243 + if leap(y) { 1int } else { 0 },
        days_before_month(y, 10) == 273 + if leap(y) { 1int } else { 0 },
        days_before_month(y, 11) == 304 + if leap(y) { 1int } else { 0 },
        days_before_month(y, 12) == 334 + if leap(y) { 1int } else { 0 },
        days_before_month(y, 13) == 365 + if leap(y) { 1int } else { 0 },
{
    reveal_with_fuel(days_before_month, 14);
}

/// The year of an era of 400 years, counted from March, in which a day falls.
proof fn lemma_year_of_era(doe: int)
    requires
        0 <= doe <= 146_096,
    ensures
        ({
            let yoe = (doe - doe / 1460 + doe / 36524 - doe / 146_096) / 365;
            let doy = doe - (365 * yoe + yoe / 4 - yoe / 100);
            &&& 0 <= yoe <= 399
            &&& 0 <= doy <= 365
            &&& doy == 365 ==> (yoe + 1) % 4 == 0 && ((yoe + 1) % 100 != 0 || (yoe + 1) % 400 == 0)
        }),
{
}

/// The month and day of a year that starts in March.
proof fn lemma_month_of_year(doy: int)
    requires
        0 <= doy <= 365,
    ensures
        ({
            let mp = (5 * doy + 2) / 153;
            let d = doy - (153 * mp + 2) / 5 + 1;
            &&& 0 <= mp <= 11
            &&& 1 <= d <= 31
            &&& mp == 11 ==> d <= 29 && (d == 29 ==> doy == 365)
            &&& (mp == 1 || mp == 3 || mp == 6 || mp == 8) ==> d <= 30
            &&& (153 * mp + 2) / 5 == if mp == 0 {
                0int
            } else if mp == 1 {
                31
            } else if mp == 2 {
                61
            } else if mp == 3 {
                92
            } else if mp == 4 {
                122
            } else if mp == 5 {
                153
            } else if mp == 6 {
                184
            } else if mp == 7 {
                214
            } else if mp == 8 {
                245
            } else if mp == 9 {
                275
            } else if mp == 10 {
                306
            } else {
                337
            }
        }),
{
}

/// The days from March of year 0 to March of a year of an era.
proof fn lemma_era_days(era: int, yoe: int)
    requires
        0 <= yoe <= 399,
    ensures
        ({
            let y = yoe + era * 400;
            let start = era * 146_097 + 365 * yoe + yoe / 4 - yoe / 100 - 719_468;
            &&& start == days_before_year(y) + 59 + if leap(y) { 1int } else { 0 }
            &&& start == days_before_year(y + 1) - 306
            &&& leap(y + 1) == ((yoe + 1) % 4 == 0 && ((yoe + 1) % 100 != 0 || (yoe + 1) % 400
                == 0))
        }),
{
    let y = yoe + era * 400;
    assert(y / 4 == yoe / 4 + era * 100);
    assert(y / 100 == yoe / 100 + era * 4);
    assert(y / 400 == era);
    years_have_365_or_366_days(y);
    assert(days_before_year(y + 1) == 365 * (y + 1 - 1970) + y / 4 - y / 100 + y / 400 - 477);
    assert((y + 1) % 4 == (yoe + 1) % 4);
    assert((y + 1) % 100 == (yoe + 1) % 100);
    assert((y + 1) % 400 == (yoe + 1) % 400);
}

/// The date that the year of the era, month and day counted from March stand for.
proof fn lemma_date(era: int, yoe: int, doy: int, mp: int, d: int)
    requires
        0 <= yoe <= 399,
        0 <= doy <= 365,
        doy == 365 ==> (yoe + 1) % 4 == 0 && ((yoe + 1) % 100 != 0 || (yoe + 1) % 400 == 0),
        mp == (5 * doy + 2) / 153,
        d == doy - (153 * mp + 2) / 5 + 1,
    ensures
        ({
            let m = if mp < 10 { mp + 3 } else { mp - 9 };
            let y = yoe + era * 400 + if m <= 2 { 1int } else { 0 };
            &&& 1 <= m <= 12
            &&& 1 <= d <= month_days(y, m)
            &&& days_before_year(y) + days_before_month(y, m) + d - 1 == era * 146_097 + 365 * yoe
                + yoe / 4 - yoe / 100 + doy - 719_468
        }),
{
    lemma_month_of_year(doy);
    lemma_era_days(era, yoe);
    lemma_month_table(yoe + era * 400);
    lemma_month_table(yoe + era * 400 + 1);
}

/// The year, month and day of a number of days since the start of 1970.
fn date_from_days(days: i64) -> (r: (i64, u32, u32))
    requires
        -0x1_0000_0000_0000 <= days <= 0x1_0000_0000_0000,
    ensures
        1 <= r.1 <= 12,
        1 <= r.2 <= month_days(r.0 as int, r.1 as int),
        days_before_year(r.0 as int) + days_before_month(r.0 as int, r.1 as int) + r.2 - 1 == days,
{
    let z: i64 = days + 719_468;
    let era: i64 = if z >= 0 { z / 146_097 } else { -((-(z + 1)) / 146_097) - 1 };
    let doe: i64 = z - era * 146_097;
    assert(0 <= doe <= 146_096);
    proof {
        lemma_year_of_era(doe as int);
    }
    let yoe: i64 = (doe - doe / 1460 + doe / 36524 - doe / 146_096) / 365;
    let doy: i64 = doe - (365 * yoe + yoe / 4 - yoe / 100);
    let mp: i64 = (5 * doy + 2) / 153;
    let d: i64 = doy - (153 * mp + 2) / 5 + 1;
    proof {
        lemma_month_of_year(doy as int);
        lemma_date(era as int, yoe as int, doy as int, mp as int, d as int);
    }
    let m: i64 = if mp < 10 { mp + 3 } else { mp - 9 };
    let march_year: i64 = yoe + era * 400;
    let year: i64 = if m <= 2 { march_year + 1 } else { march_year };
    (year, m as u32, d as u32)
}

/// The date and time of day, in UTC, of a number of seconds since the start of 1970.
pub fn civil_from_unix(secs: i64) -> (r: Civil)
    ensures
        r.valid(),
        r.unix() == secs,
{
    let days: i64 = if secs >= 0 { secs / 86_400 } else { -((-(secs + 1)) / 86_400) - 1 };
    let sod: i64 = (secs as i128 - days as i128 * 86_400) as i64;
    assert(0 <= sod < 86_400);
    let (year, month, day) = date_from_days(days);
    Civil {
        year,
        month,
        day,
        hour: (sod / 3600) as u32,
        min: ((sod % 3600) / 60) as u32,
        sec: (sod % 60) as u32,
    }
}

proof fn lemma_year_days_grow(a: int, b: int)
    requires
        a < b,
    ensures
        days_before_year(a) + if leap(a) { 366int } else { 365 } <= days_before_year(b),
    decreases b - a,
{
    years_have_365_or_366_days(b - 1);
    if a + 1 < b {
        lemma_year_days_grow(a, b - 1);
    }
}

/// Where in its year a date stands.
proof fn lemma_day_of_year(c: Civil)
    requires
        c.valid(),
    ensures
        0 <= days_before_month(c.year as int, c.month as int) + c.day - 1 < if leap(c.year as int) {
            366int
        } else {
            365
        },
{
    lemma_month_table(c.year as int);
}

/// Every number of seconds is that of a date and time of day.
pub proof fn every_second_has_a_date(secs: i64)
    ensures
        exists|c: Civil| c.valid() && #[trigger] c.unix() == secs,
{
    let days = secs as int / 86_400;
    let sod = secs as int % 86_400;
    let z = days + 719_468;
    let era = z / 146_097;
    let doe = z % 146_097;
    lemma_year_of_era(doe);
    let yoe = (doe - doe / 1460 + doe / 36524 - doe / 146_096) / 365;
    let doy = doe - (365 * yoe + yoe / 4 - yoe / 100);
    let mp = (5 * doy + 2) / 153;
    let d = doy - (153 * mp + 2) / 5 + 1;
    lemma_month_of_year(doy);
    lemma_date(era, yoe, doy, mp, d);
    let m = if mp < 10 { mp + 3 } else { mp - 9 };
    let y = yoe + era * 400 + if m <= 2 { 1int } else { 0 };
    let c = Civil {
        year: y as i64,
        month: m as u32,
        day: d as u32,
        hour: (sod / 3600) as u32,
        min: (sod % 3600 / 60) as u32,
        sec: (sod % 60) as u32,
    };
    assert(c.valid());
    assert(c.days() == days);
    assert(c.unix() == secs);
}

/// The lengths of months: 28 and 29 days for February, and 31 and 30 in turn from January to July and
/// from August to December. A leap year is one that 4 divides and 100 does not, or that 400 divides.
pub proof fn months_have_their_lengths(y: int, m: int)
    requires
        1 <= m <= 12,
    ensures
        m != 2 ==> month_days(y, m) == 30 + (m + m / 8) % 2,
        month_days(y, 2) == if leap(y) { 29int } else { 28 },
        y % 4 != 0 ==> !leap(y),
        y % 4 == 0 && y % 100 != 0 ==> leap(y),
        y % 100 == 0 && y % 400 != 0 ==> !leap(y),
        y % 400 == 0 ==> leap(y),
{
}

/// The day after a date is the next one of the month, and after the last one the first of the next
/// month; the time of day is counted in hours, minutes and seconds.
pub proof fn days_follow_one_another(a: Civil, b: Civil)
    requires
        a.valid(),
        b.valid(),
    ensures
        a.year == b.year && a.month == b.month ==> b.days() - a.days() == b.day - a.day,
        a.year == b.year && b.month == a.month + 1 && b.day == 1 && a.day == month_days(
            a.year as int,
            a.month as int,
        ) ==> b.days() == a.days() + 1,
        b.year == a.year + 1 && a.month == 12 && a.day == 31 && b.month == 1 && b.day == 1
            ==> b.days() == a.days() + 1,
        a.year == 1970 && a.month == 1 && a.day == 1 ==> a.days() == 0,
        a.unix() % 86_400 == 3600 * a.hour + 60 * a.min + a.sec,
        a.unix() / 86_400 == a.days(),
{
    lemma_time_of_day(a.days(), a.hour as int, a.min as int, a.sec as int);
    if b.year == a.year + 1 {
        lemma_last_day(a.year as int);
    }
    if b.month == a.month + 1 {
        assert(days_before_month(a.year as int, b.month as int) == days_before_month(
            a.year as int,
            a.month as int,
        ) + month_days(a.year as int, a.month as int));
    }
    if a.month == 1 {
        assert(days_before_month(a.year as int, 1) == 0);
    }
    if b.month == 1 {
        assert(days_before_month(b.year as int, 1) == 0);
    }
}

proof fn lemma_last_day(y: int)
    ensures
        days_before_year(y) + days_before_month(y, 12) + 31 == days_before_year(y + 1),
{
    lemma_month_table(y);
    years_have_365_or_366_days(y);
}

/// The parts of a number of seconds.
pub proof fn lemma_time_of_day(days: int, h: int, m: int, s: int)
    requires
        0 <= h < 24,
        0 <= m < 60,
        0 <= s < 60,
    ensures
        ({
            let u = 86_400 * days + 3600 * h + 60 * m + s;
            &&& u / 86_400 == days
            &&& u % 86_400 == 3600 * h + 60 * m + s
            &&& u % 86_400 / 3600 == h
            &&& u % 86_400 / 60 % 60 == m
            &&& u % 3600 / 60 == m
            &&& u % 60 == s
        }),
{
    let u = 86_400 * days + 3600 * h + 60 * m + s;
    let sod = 3600 * h + 60 * m + s;
    vstd::arithmetic::div_mod::lemma_fundamental_div_mod_converse(u, 86_400, days, sod);
    vstd::arithmetic::div_mod::lemma_fundamental_div_mod_converse(u, 3600, 24 * days + h, 60 * m + s);
    vstd::arithmetic::div_mod::lemma_fundamental_div_mod_converse(
        u,
        60,
        1440 * days + 60 * h + m,
        s,
    );
    vstd::arithmetic::div_mod::lemma_fundamental_div_mod_converse(sod, 3600, h, 60 * m + s);
    vstd::arithmetic::div_mod::lemma_fundamental_div_mod_converse(sod, 60, 60 * h + m, s);
    vstd::arithmetic::div_mod::lemma_fundamental_div_mod_converse(60 * h + m, 60, h, m);
    vstd::arithmetic::div_mod::lemma_fundamental_div_mod_converse(60 * m + s, 60, m, s);
}

/// A number of seconds is that of one date and time of day only.
pub proof fn civil_is_unique(a: Civil, b: Civil)
    requires
        a.valid(),
        b.valid(),
        a.unix() == b.unix(),
    ensures
        a == b,
{
    assert(a.days() == b.days());
    lemma_day_of_year(a);
    lemma_day_of_year(b);
    if a.year < b.year {
        lemma_year_days_grow(a.year as int, b.year as int);
    }
    if b.year < a.year {
        lemma_year_days_grow(b.year as int, a.year as int);
    }
    lemma_month_table(a.year as int);
}

} // verus!
