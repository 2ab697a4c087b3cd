//! Instants as UTC dates and times of day.

use vstd::prelude::*;
use vstd::string::*;

use crate::digits::{
    digit, lemma_digit, lemma_four_digits, lemma_padded_length, lemma_two_digits, padded,
    padded_text,
};
use crate::text::{chars_of, text_between};

verus! {

// ---------------------------------------------------------------------------
// The Gregorian calendar
// ---------------------------------------------------------------------------

pub struct Date {
    pub year: int,
    pub month: int,
    pub day: int,
}

pub open spec fn leap_year(year: int) -> bool {
    year % 4 == 0 && (year % 100 != 0 || year % 400 == 0)
}

pub open spec fn month_days(year: int, month: int) -> int {
    if month == 2 {
        if leap_year(year) {
            29
        } else {
            28
        }
    } else if month == 4 || month == 6 || month == 9 || month == 11 {
        30
    } else {
        31
    }
}

pub open spec fn valid_date(d: Date) -> bool {
    1 <= d.month <= 12 && 1 <= d.day <= month_days(d.year, d.month)
}

/// The days of `year` before its month `month`.
pub open spec fn days_before_month(year: int, month: int) -> int
    decreases month,
{
    if month <= 1 {
        0
    } else {
        days_before_month(year, month - 1) + month_days(year, month - 1)
    }
}

/// The days from the first day of year 1 to the first day of `year`.
pub open spec fn days_before_year(year: int) -> int {
    365 * (year - 1) + (year - 1) / 4 - (year - 1) / 100 + (year - 1) / 400
}

/// The days from the first day of 1970 to the given one.
pub open spec fn day_number(d: Date) -> int {
    days_before_year(d.year) - days_before_year(1970) + days_before_month(d.year, d.month) + d.day
        - 1
}

/// The date of a day, counted from the first day of 1970.
pub open spec fn date_of(days: int) -> Date {
    choose|d: Date| valid_date(d) && #[trigger] day_number(d) == days
}

/// The days before each month of a year.
pub proof fn lemma_months(year: int)
    ensures
        days_before_month(year, 1) == 0,
        days_before_month(year, 2) == 31,
        days_before_month(year, 3) == 59 + month_days(year, 2) - 28,
        days_before_month(year, 4) == 90 + month_days(year, 2) - 28,
        days_before_month(year, 5) == 120 + month_days(year, 2) - 28,
        days_before_month(year, 6) == 151 + month_days(year, 2) - 28,
        days_before_month(year, 7) == 181 + month_days(year, 2) - 28,
        days_before_month(year, 8) == 212 + month_days(year, 2) - 28,
        days_before_month(year, 9) == 243 + month_days(year, 2) - 28,
        days_before_month(year, 10) == 273 + month_days(year, 2) - 28,
        days_before_month(year, 11) == 304 + month_days(year, 2) - 28,
        days_before_month(year, 12) == 334 + month_days(year, 2) - 28,
{
    reveal_with_fuel(days_before_month, 13);
}

proof fn lemma_next_quotient(n: int, by: int, q: int, r: int)
    requires
        by > 1,
        q == n / by,
        r == n % by,
    ensures
        (n + 1) / by == q + (if r + 1 == by {
            1int
        } else {
            0
        }),
        (n + 1) % by == (if r + 1 == by {
            0
        } else {
            r + 1
        }),
{
    vstd::arithmetic::div_mod::lemma_fundamental_div_mod(n, by);
    assert(0 <= r < by) by (nonlinear_arith)
        requires
            by > 1,
            r == n % by,
    ;
    if r + 1 == by {
        assert(n + 1 == by * (q + 1) + 0) by (nonlinear_arith)
            requires
                n == by * q + r,
                r + 1 == by,
        ;
        vstd::arithmetic::div_mod::lemma_fundamental_div_mod_converse(n + 1, by, q + 1, 0);
    } else {
        vstd::arithmetic::div_mod::lemma_fundamental_div_mod_converse(n + 1, by, q, r + 1);
    }
}

/// Each year is 365 or 366 days long.
pub proof fn lemma_year_length(year: int)
    ensures
        days_before_year(year + 1) == days_before_year(year) + 365 + (if leap_year(year) {
            1int
        } else {
            0
        }),
{
    let y = year - 1;
    lemma_next_quotient(y, 4, y / 4, y % 4);
    lemma_next_quotient(y, 100, y / 100, y % 100);
    lemma_next_quotient(y, 400, y / 400, y % 400);
    assert(year % 400 == 0 ==> year % 100 == 0);
    assert(year % 100 == 0 ==> year % 4 == 0);
}

proof fn lemma_years_ascend(a: int, b: int)
    requires
        a <= b,
    ensures
        days_before_year(a) + 365 * (b - a) <= days_before_year(b),
        a < b ==> days_before_year(a + 1) <= days_before_year(b),
    decreases b - a,
{
    if a < b {
        lemma_years_ascend(a, b - 1);
        lemma_year_length(b - 1);
        lemma_year_length(a);
    }
}

proof fn lemma_day_in_year(d: Date)
    requires
        valid_date(d),
    ensures
        0 <= days_before_month(d.year, d.month) + d.day - 1 < 365 + (if leap_year(d.year) {
            1int
        } else {
            0
        }),
{
    lemma_months(d.year);
}

/// No two dates fall on one day.
pub proof fn lemma_date_unique(a: Date, b: Date)
    requires
        valid_date(a),
        valid_date(b),
        day_number(a) == day_number(b),
    ensures
        a == b,
{
    lemma_day_in_year(a);
    lemma_day_in_year(b);
    lemma_year_length(a.year);
    lemma_year_length(b.year);
    if a.year < b.year {
        lemma_years_ascend(a.year, b.year);
    } else if b.year < a.year {
        lemma_years_ascend(b.year, a.year);
    }
    assert(a.year == b.year);
    lemma_months(a.year);
}

/// The year of an era of 400 years, beginning in March, in which a day falls.
#[verifier::spinoff_prover]
proof fn lemma_year_of_era(doe: int, yoe: int, doy: int)
    requires
        0 <= doe < 146_097,
        yoe == (doe - doe / 1460 + doe / 36_524 - doe / 146_096) / 365,
        doy == doe - (365 * yoe + yoe / 4 - yoe / 100),
    ensures
        0 <= yoe <= 399,
        0 <= doy <= 365,
        doy == 365 ==> (yoe + 1) % 4 == 0 && ((yoe + 1) % 100 != 0 || yoe == 399),
{
}

#[verifier::spinoff_prover]
proof fn lemma_date_of_march(days: int, z: int, era: int, doe: int, yoe: int, doy: int, mp: int, day: int, month: int, year: int)
    requires
        z == days + 719_468,
        z == era * 146_097 + doe,
        0 <= doe < 146_097,
        yoe == (doe - doe / 1460 + doe / 36_524 - doe / 146_096) / 365,
        doy == doe - (365 * yoe + yoe / 4 - yoe / 100),
        mp == (5 * doy + 2) / 153,
        day == doy - (153 * mp + 2) / 5 + 1,
        month == if mp < 10 {
            mp + 3
        } else {
            mp - 9
        },
        year == yoe + era * 400 + (if month <= 2 {
            1int
        } else {
            0
        }),
    ensures
        0 <= yoe <= 399,
        0 <= doy <= 365,
        0 <= mp <= 11,
        1 <= month <= 12,
        1 <= day <= 31,
        valid_date(Date { year, month, day }),
        day_number(Date { year, month, day }) == days,
        date_of(days) == (Date { year, month, day }),
{
    lemma_year_of_era(doe, yoe, doy);
    lemma_months(year);
    let y = yoe + era * 400;
    let date = Date { year, month, day };
    assert(y / 4 == yoe / 4 + era * 100);
    assert(y / 100 == yoe / 100 + era * 4);
    assert(y / 400 == era);
    assert((y + 1) % 4 == (yoe + 1) % 4);
    assert((y + 1) % 100 == (yoe + 1) % 100);
    assert(yoe < 399 ==> (y + 1) % 400 == yoe + 1);
    assert(yoe == 399 ==> (y + 1) % 400 == 0);
    assert(doy == 365 ==> leap_year(y + 1));
    lemma_year_length(y);
    // The year `y` that begins in March is day 306 before the end of the
    // calendar year `y`.
    assert(days_before_year(y + 1) == 365 * y + y / 4 - y / 100 + y / 400);
    assert(z == 365 * y + y / 4 - y / 100 + y / 400 + doy);
    assert(valid_date(date));
    assert(day_number(date) == days);
    lemma_date_unique(date, date_of(days));
}

// ---------------------------------------------------------------------------
// Instants
// ---------------------------------------------------------------------------

/// The ISO 8601 text of an instant, given in seconds from the beginning of
/// 1970, in UTC.
pub open spec fn utc_text(unix: int) -> Seq<char> {
    let date = date_of(unix / 86_400);
    let secs = unix % 86_400;
    padded(date.year, 4) + seq!['-'] + padded(date.month, 2) + seq!['-'] + padded(date.day, 2)
        + seq!['T'] + padded(secs / 3600, 2) + seq![':'] + padded((secs % 3600) / 60, 2) + seq![':']
        + padded(secs % 60, 2) + seq!['Z']
}

/// The text of an instant holds a `T` and has sixteen characters or more.
proof fn lemma_utc_shape(unix: int)
    ensures
        utc_text(unix).len() >= 16,
        utc_text(unix).contains('T'),
{
    let date = date_of(unix / 86_400);
    let secs = unix % 86_400;
    lemma_padded_length(date.year, 4);
    lemma_padded_length(date.month, 2);
    lemma_padded_length(date.day, 2);
    lemma_padded_length(secs / 3600, 2);
    lemma_padded_length((secs % 3600) / 60, 2);
    lemma_padded_length(secs % 60, 2);
    let front = padded(date.year, 4) + seq!['-'] + padded(date.month, 2) + seq!['-'] + padded(
        date.day,
        2,
    );
    assert(utc_text(unix)[front.len() as int] == 'T');
}

/// The floor of `n / by` and what is left over.
fn floor_div(n: i64, by: i64) -> (r: (i64, i64))
    requires
        1 < by,
    ensures
        r.0 == n as int / by as int,
        r.1 == n as int % by as int,
{
    proof {
        let (m, d) = (n as int, by as int);
        assert(i64::MIN <= m / d <= i64::MAX && 0 <= m % d < d) by (nonlinear_arith)
            requires
                i64::MIN <= m <= i64::MAX,
                1 < d,
        ;
    }
    match (n.checked_div_euclid(by), n.checked_rem_euclid(by)) {
        (Some(quotient), Some(rest)) => (quotient, rest),
        _ => (0, 0),
    }
}

/// The UTC date and time of an instant in ISO 8601.
pub fn time_utc(unix: i64) -> (r: String)
    ensures
        r@ == utc_text(unix as int),
{
    let (days, secs) = floor_div(unix, 86_400);
    let h: i64 = secs / 3600;
    let m: i64 = (secs % 3600) / 60;
    let s: i64 = secs % 60;
    let z: i64 = days + 719_468;
    let (era, doe) = floor_div(z, 146_097);
    let yoe: i64 = (doe - doe / 1460 + doe / 36_524 - doe / 146_096) / 365;
    let ghost doy_value = doe - (365 * yoe + yoe / 4 - yoe / 100);
    proof {
        lemma_year_of_era(doe as int, yoe as int, doy_value);
    }
    let y: i64 = yoe + era * 400;
    let doy: i64 = doe - (365 * yoe + yoe / 4 - yoe / 100);
    let mp: i64 = (5 * doy + 2) / 153;
    let d: i64 = doy - (153 * mp + 2) / 5 + 1;
    let month: i64 = if mp < 10 {
        mp + 3
    } else {
        mp - 9
    };
    let year: i64 = if month <= 2 {
        y + 1
    } else {
        y
    };
    proof {
        lemma_date_of_march(
            days as int,
            z as int,
            era as int,
            doe as int,
            yoe as int,
            doy as int,
            mp as int,
            d as int,
            month as int,
            year as int,
        );
    }
    let mut out = padded_text(year as i128, 4);
    out.push('-');
    out.append(&padded_text(month as i128, 2));
    out.push('-');
    out.append(&padded_text(d as i128, 2));
    out.push('T');
    out.append(&padded_text(h as i128, 2));
    out.push(':');
    out.append(&padded_text(m as i128, 2));
    out.push(':');
    out.append(&padded_text(s as i128, 2));
    out.push('Z');
    assert(out@ =~= utc_text(unix as int));
    out
}

/// An instant to the minute: its ISO 8601 text with a space for the `T`, cut
/// after sixteen characters.
pub open spec fn minute_text(unix: int) -> Seq<char> {
    let whole = utc_text(unix);
    whole.update(whole.index_of_first('T')->0, ' ').take(16)
}

/// The UTC date and time of an instant, to the minute.
pub fn time_hm_pub(unix: i64) -> (r: String)
    ensures
        r@ == minute_text(unix as int),
{
    let text = time_utc(unix);
    let mut chars = chars_of(&text);
    proof {
        lemma_utc_shape(unix as int);
    }
    let mut at: usize = 0;
    while chars[at] != 'T'
        invariant
            chars@ == utc_text(unix as int),
            chars@.len() >= 16,
            at < chars.len(),
            chars@.contains('T'),
            forall|j: int| 0 <= j < at ==> chars@[j] != 'T',
        decreases chars.len() - at,
    {
        assert(at + 1 < chars.len()) by {
            let k = chars@.index_of('T');
            assert(chars@[k] == 'T');
        }
        at += 1;
    }
    proof {
        chars@.index_of_first_ensures('T');
        let k = chars@.index_of_first('T')->0;
        assert(k == at);
    }
    chars.set(at, ' ');
    text_between(&chars, 0, 16)
}

// ---------------------------------------------------------------------------
// Laws
// ---------------------------------------------------------------------------

/// Every day has a date.
pub proof fn lemma_day_has_date(days: int)
    ensures
        valid_date(date_of(days)),
        day_number(date_of(days)) == days,
{
    let z = days + 719_468;
    let era = z / 146_097;
    let doe = z % 146_097;
    let yoe = (doe - doe / 1460 + doe / 36_524 - doe / 146_096) / 365;
    let doy = doe - (365 * yoe + yoe / 4 - yoe / 100);
    let mp = (5 * doy + 2) / 153;
    let month = if mp < 10 {
        mp + 3
    } else {
        mp - 9
    };
    let year = yoe + era * 400 + (if month <= 2 {
        1int
    } else {
        0
    });
    lemma_date_of_march(
        days,
        z,
        era,
        doe,
        yoe,
        doy,
        mp,
        doy - (153 * mp + 2) / 5 + 1,
        month,
        year,
    );
}

/// The instants from the beginning of year 0 to the end of year 9999.
pub open spec fn four_digit_year(unix: int) -> bool {
    -62_167_219_200 <= unix <= 253_402_300_799
}

/// The years from 0 to 9999 are those of the instants between.
pub proof fn lemma_year_range(unix: int)
    requires
        four_digit_year(unix),
    ensures
        0 <= date_of(unix / 86_400).year <= 9999,
{
    let days = unix / 86_400;
    let date = date_of(days);
    lemma_day_has_date(days);
    lemma_day_in_year(date);
    lemma_year_length(date.year);
    assert(-719_528 <= days <= 2_932_896);
    assert(days_before_year(0) - days_before_year(1970) == -719_528);
    assert(days_before_year(10_000) - days_before_year(1970) == 2_932_897);
    if date.year < 0 {
        lemma_years_ascend(date.year, 0);
    } else if date.year > 9999 {
        lemma_years_ascend(10_000, date.year);
    }
}

/// The first sixteen characters of an instant's text, one by one.
spec fn minute_digits(date: Date, hour: int, minute: int) -> Seq<char> {
    seq![
        digit((date.year / 1000) as nat),
        digit((date.year / 100 % 10) as nat),
        digit((date.year / 10 % 10) as nat),
        digit((date.year % 10) as nat),
        '-',
        digit((date.month / 10) as nat),
        digit((date.month % 10) as nat),
        '-',
        digit((date.day / 10) as nat),
        digit((date.day % 10) as nat),
        'T',
        digit((hour / 10) as nat),
        digit((hour % 10) as nat),
        ':',
        digit((minute / 10) as nat),
        digit((minute % 10) as nat),
    ]
}

proof fn lemma_joined_digits(
    year: Seq<char>,
    month: Seq<char>,
    day: Seq<char>,
    hour: Seq<char>,
    minute: Seq<char>,
    second: Seq<char>,
)
    requires
        year.len() == 4,
        month.len() == 2,
        day.len() == 2,
        hour.len() == 2,
        minute.len() == 2,
        second.len() == 2,
    ensures
        ({
            let whole = year + seq!['-'] + month + seq!['-'] + day + seq!['T'] + hour + seq![':']
                + minute + seq![':'] + second + seq!['Z'];
            &&& whole.len() == 20
            &&& whole.take(16) == seq![
                year[0],
                year[1],
                year[2],
                year[3],
                '-',
                month[0],
                month[1],
                '-',
                day[0],
                day[1],
                'T',
                hour[0],
                hour[1],
                ':',
                minute[0],
                minute[1],
            ]
        }),
{
    let date = year + seq!['-'] + month + seq!['-'] + day;
    let clock = hour + seq![':'] + minute;
    let rest = seq![':'] + second + seq!['Z'];
    let whole = year + seq!['-'] + month + seq!['-'] + day + seq!['T'] + hour + seq![':'] + minute
        + seq![':'] + second + seq!['Z'];
    assert(whole =~= date + seq!['T'] + clock + rest);
    assert(whole.take(16) =~= date + seq!['T'] + clock);
    assert(date =~= seq![
        year[0], year[1], year[2], year[3], '-', month[0], month[1], '-', day[0], day[1],
    ]);
    assert(clock =~= seq![hour[0], hour[1], ':', minute[0], minute[1]]);
}

proof fn lemma_minute_digits(unix: int)
    requires
        four_digit_year(unix),
    ensures
        utc_text(unix).len() == 20,
        utc_text(unix).take(16) == minute_digits(
            date_of(unix / 86_400),
            (unix % 86_400) / 3600,
            (unix % 86_400 % 3600) / 60,
        ),
{
    let date = date_of(unix / 86_400);
    let secs = unix % 86_400;
    lemma_year_range(unix);
    lemma_day_has_date(unix / 86_400);
    lemma_four_digits(date.year);
    lemma_two_digits(date.month);
    lemma_two_digits(date.day);
    lemma_two_digits(secs / 3600);
    lemma_two_digits((secs % 3600) / 60);
    lemma_two_digits(secs % 60);
    lemma_joined_digits(
        padded(date.year, 4),
        padded(date.month, 2),
        padded(date.day, 2),
        padded(secs / 3600, 2),
        padded((secs % 3600) / 60, 2),
        padded(secs % 60, 2),
    );
}

/// The text to the minute is the date, a space and the time without its
/// seconds.
pub proof fn lemma_minute_shape(unix: int)
    requires
        four_digit_year(unix),
    ensures
        utc_text(unix).len() == 20,
        minute_text(unix) == utc_text(unix).take(10) + seq![' '] + utc_text(unix).subrange(11, 16),
{
    let whole = utc_text(unix);
    let date = date_of(unix / 86_400);
    let secs = unix % 86_400;
    let digits = minute_digits(date, secs / 3600, (secs % 3600) / 60);
    lemma_minute_digits(unix);
    lemma_year_range(unix);
    lemma_day_has_date(unix / 86_400);
    lemma_digit((date.year / 1000) as nat, 0);
    lemma_digit((date.year / 100 % 10) as nat, 0);
    lemma_digit((date.year / 10 % 10) as nat, 0);
    lemma_digit((date.year % 10) as nat, 0);
    lemma_digit((date.month / 10) as nat, 0);
    lemma_digit((date.month % 10) as nat, 0);
    lemma_digit((date.day / 10) as nat, 0);
    lemma_digit((date.day % 10) as nat, 0);
    assert forall|j: int| 0 <= j < 10 implies whole[j] != 'T' by {
        assert(whole[j] == whole.take(16)[j]);
        assert(whole[j] == digits[j]);
    }
    assert(whole[10] == whole.take(16)[10]);
    assert(whole[10] == 'T');
    assert(whole.contains('T'));
    whole.index_of_first_ensures('T');
    assert(whole.index_of_first('T') == Some(10int));
    assert(minute_text(unix) =~= whole.take(10) + seq![' '] + whole.subrange(11, 16));
}

proof fn lemma_minute_of_day(unix: int)
    ensures
        unix / 60 == 1440 * (unix / 86_400) + 60 * ((unix % 86_400) / 3600) + (unix % 86_400 % 3600)
            / 60,
        0 <= (unix % 86_400) / 3600 < 24,
        0 <= (unix % 86_400 % 3600) / 60 < 60,
{
}

proof fn lemma_mixed(da: int, ha: int, ma: int, db: int, hb: int, mb: int)
    requires
        0 <= ha < 24,
        0 <= hb < 24,
        0 <= ma < 60,
        0 <= mb < 60,
        1440 * da + 60 * ha + ma == 1440 * db + 60 * hb + mb,
    ensures
        da == db,
        ha == hb,
        ma == mb,
{
}

proof fn lemma_same_minute(a: int, b: int)
    ensures
        (a / 60 == b / 60) == (a / 86_400 == b / 86_400 && (a % 86_400) / 3600 == (b % 86_400)
            / 3600 && (a % 86_400 % 3600) / 60 == (b % 86_400 % 3600) / 60),
{
    lemma_minute_of_day(a);
    lemma_minute_of_day(b);
    if a / 60 == b / 60 {
        lemma_mixed(
            a / 86_400,
            (a % 86_400) / 3600,
            (a % 86_400 % 3600) / 60,
            b / 86_400,
            (b % 86_400) / 3600,
            (b % 86_400 % 3600) / 60,
        );
    }
}

proof fn lemma_minute_text(unix: int)
    requires
        four_digit_year(unix),
    ensures
        minute_text(unix) == minute_digits(
            date_of(unix / 86_400),
            (unix % 86_400) / 3600,
            (unix % 86_400 % 3600) / 60,
        ).update(10, ' '),
{
    let digits = minute_digits(
        date_of(unix / 86_400),
        (unix % 86_400) / 3600,
        (unix % 86_400 % 3600) / 60,
    );
    let whole = utc_text(unix);
    lemma_minute_digits(unix);
    lemma_minute_shape(unix);
    assert(whole.take(10) =~= whole.take(16).take(10));
    assert(whole.subrange(11, 16) =~= whole.take(16).subrange(11, 16));
    assert(minute_text(unix) =~= digits.take(10) + seq![' '] + digits.subrange(11, 16));
    assert(minute_text(unix) =~= digits.update(10, ' '));
}

proof fn lemma_two_apart(a: int, b: int)
    requires
        0 <= a < 100,
        0 <= b < 100,
        digit((a / 10) as nat) == digit((b / 10) as nat),
        digit((a % 10) as nat) == digit((b % 10) as nat),
    ensures
        a == b,
{
    lemma_digit((a / 10) as nat, (b / 10) as nat);
    lemma_digit((a % 10) as nat, (b % 10) as nat);
}

proof fn lemma_by_digits(n: int)
    requires
        0 <= n < 10_000,
    ensures
        n == 1000 * (n / 1000) + 100 * (n / 100 % 10) + 10 * (n / 10 % 10) + n % 10,
        0 <= n / 1000 < 10,
        0 <= n / 100 % 10 < 10,
        0 <= n / 10 % 10 < 10,
{
    assert(n / 100 == n / 10 / 10 && n / 1000 == n / 100 / 10);
    assert(n == 10 * (n / 10) + n % 10);
    assert(n / 10 == 10 * (n / 10 / 10) + n / 10 % 10);
    assert(n / 100 == 10 * (n / 100 / 10) + n / 100 % 10);
}

proof fn lemma_four_apart(a: int, b: int)
    requires
        0 <= a < 10_000,
        0 <= b < 10_000,
        digit((a / 1000) as nat) == digit((b / 1000) as nat),
        digit((a / 100 % 10) as nat) == digit((b / 100 % 10) as nat),
        digit((a / 10 % 10) as nat) == digit((b / 10 % 10) as nat),
        digit((a % 10) as nat) == digit((b % 10) as nat),
    ensures
        a == b,
{
    lemma_by_digits(a);
    lemma_by_digits(b);
    lemma_digit((a / 1000) as nat, (b / 1000) as nat);
    lemma_digit((a / 100 % 10) as nat, (b / 100 % 10) as nat);
    lemma_digit((a / 10 % 10) as nat, (b / 10 % 10) as nat);
    lemma_digit((a % 10) as nat, (b % 10) as nat);
}

proof fn lemma_digits_apart(a: Date, ha: int, ma: int, b: Date, hb: int, mb: int)
    requires
        0 <= a.year <= 9999,
        0 <= b.year <= 9999,
        valid_date(a),
        valid_date(b),
        0 <= ha < 24,
        0 <= hb < 24,
        0 <= ma < 60,
        0 <= mb < 60,
        minute_digits(a, ha, ma).update(10, ' ') == minute_digits(b, hb, mb).update(10, ' '),
    ensures
        a == b,
        ha == hb,
        ma == mb,
{
    let x = minute_digits(a, ha, ma);
    let y = minute_digits(b, hb, mb);
    assert forall|j: int| 0 <= j < 16 && j != 10 implies #[trigger] x[j] == y[j] by {
        assert(x.update(10, ' ')[j] == y.update(10, ' ')[j]);
    }
    assert(x[0] == y[0] && x[1] == y[1] && x[2] == y[2] && x[3] == y[3]);
    lemma_four_apart(a.year, b.year);
    assert(x[5] == y[5] && x[6] == y[6]);
    lemma_two_apart(a.month, b.month);
    assert(x[8] == y[8] && x[9] == y[9]);
    lemma_two_apart(a.day, b.day);
    assert(x[11] == y[11] && x[12] == y[12]);
    lemma_two_apart(ha, hb);
    assert(x[14] == y[14] && x[15] == y[15]);
    lemma_two_apart(ma, mb);
}

/// Two instants have the same text to the minute just where they fall into the
/// same minute.
pub proof fn lemma_minutes(a: int, b: int)
    requires
        four_digit_year(a),
        four_digit_year(b),
    ensures
        (minute_text(a) == minute_text(b)) == (a / 60 == b / 60),
{
    lemma_minute_text(a);
    lemma_minute_text(b);
    lemma_same_minute(a, b);
    if minute_text(a) == minute_text(b) {
        lemma_year_range(a);
        lemma_year_range(b);
        lemma_day_has_date(a / 86_400);
        lemma_day_has_date(b / 86_400);
        lemma_minute_of_day(a);
        lemma_minute_of_day(b);
        lemma_digits_apart(
            date_of(a / 86_400),
            (a % 86_400) / 3600,
            (a % 86_400 % 3600) / 60,
            date_of(b / 86_400),
            (b % 86_400) / 3600,
            (b % 86_400 % 3600) / 60,
        );
    }
}

} // verus!
