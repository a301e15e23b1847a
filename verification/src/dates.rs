//! Civil-date arithmetic on the proleptic Gregorian calendar, with days counted
//! from 1970-01-01.

use crate::numeral::{all_number_chars, is_number_char, lemma_number_chars};
use crate::text::{
    all_digits, before, chars_of, decimal, digit_char, digits_value, int_value, is_digit,
    is_white, joined, lacks, law_before_is_total_order, law_decimal_value, law_join_split,
    law_padded_value, law_trimmed, lemma_int_value_bound, lemma_pieces_short, lemma_ten_to_grows,
    lemma_trimmed_short, lemma_zero_filled_value, pad, padded, parse_int, split, split_on,
    string_of, ten_to, trim, trim_back, trim_front, trimmed, views, zero_filled,
};
use vstd::prelude::*;

verus! {

// ---- the calendar ----

pub open spec fn is_leap(y: int) -> bool {
    y % 4 == 0 && (y % 100 != 0 || y % 400 == 0)
}

pub open spec fn month_len(y: int, m: int) -> int {
    if m == 2 {
        if is_leap(y) {
            29
        } else {
            28
        }
    } else if m == 4 || m == 6 || m == 9 || m == 11 {
        30
    } else {
        31
    }
}

/// Whether `y`-`m`-`d` is a date of the calendar.
pub open spec fn is_date(y: int, m: int, d: int) -> bool {
    1 <= m <= 12 && 1 <= d <= month_len(y, m)
}

/// The days from the start of year 1 to the start of year `y`.
pub open spec fn days_before_year(y: int) -> int {
    365 * (y - 1) + (y - 1) / 4 - (y - 1) / 100 + (y - 1) / 400
}

/// The days of year `y` before its month `m`.
pub open spec fn days_before_month(y: int, m: int) -> int
    decreases m,
{
    if m <= 1 {
        0
    } else {
        days_before_month(y, m - 1) + month_len(y, m - 1)
    }
}

/// The days from 1970-01-01 to a date of the calendar.
pub open spec fn calendar_day(y: int, m: int, d: int) -> int {
    days_before_year(y) - days_before_year(1970) + days_before_month(y, m) + d - 1
}

// ---- the day number of any three integers ----

/// The quotient rounded towards zero.
pub open spec fn toward_zero(a: int, b: int) -> int {
    if a >= 0 {
        a / b
    } else {
        -((-a) / b)
    }
}

/// The year, counted from March, that month `m` of year `y` falls in.
pub open spec fn march_year(y: int, m: int) -> int {
    if m <= 2 {
        y - 1
    } else {
        y
    }
}

/// The days from the first of March to the first of month `m`: 153 for every five
/// months, with the fraction dropped.
pub open spec fn march_days(m: int) -> int {
    toward_zero(153 * (if m > 2 { m - 3 } else { m + 9 }) + 2, 5)
}

/// The day number of `y`-`m`-`d`. On the dates of the calendar it counts the days
/// from 1970-01-01; month and day may also lie outside the calendar.
pub open spec fn day_number(y: int, m: int, d: int) -> int {
    let c = march_year(y, m);
    365 * c + c / 4 - c / 100 + c / 400 + march_days(m) + d - 1 - 719468
}

pub open spec fn fits(n: int) -> bool {
    i64::MIN <= n <= i64::MAX
}

/// Whether the day number of `y`-`m`-`d`, and every partial sum on the way to it,
/// is a number that an `i64` holds.
pub open spec fn civil_fits(y: int, m: int, d: int) -> bool {
    let c = march_year(y, m);
    let cycle = 153 * (if m > 2 { m - 3 } else { m + 9 }) + 2;
    let of_year = march_days(m) + d - 1;
    let of_era = 365 * (c % 400) + (c % 400) / 4 - (c % 400) / 100 + of_year;
    &&& fits(c)
    &&& c < 0 ==> fits(c - 399)
    &&& fits(m + 9)
    &&& fits(cycle - 2)
    &&& fits(cycle)
    &&& fits(of_year + 1)
    &&& fits(of_year)
    &&& fits(of_era)
    &&& fits(c / 400 * 146097)
    &&& fits(c / 400 * 146097 + of_era)
    &&& fits(day_number(y, m, d))
}

/// Days since 1970-01-01 for the year, month and day.
#[verifier::spinoff_prover]
pub fn days_from_civil(y: i64, m: i64, d: i64) -> (r: i64)
    requires
        civil_fits(y as int, m as int, d as int),
    ensures
        r == day_number(y as int, m as int, d as int),
{
    let c: i64 = if m <= 2 { y - 1 } else { y };
    let era: i64 = (if c >= 0 { c } else { c - 399 }) / 400;
    assert(era == c as int / 400);
    let yoe: i64 = c - era * 400;
    assert(yoe == c as int % 400);
    let doy: i64 = (153 * (if m > 2 { m - 3 } else { m + 9 }) + 2) / 5 + d - 1;
    let doe: i64 = yoe * 365 + yoe / 4 - yoe / 100 + doy;
    assert(c as int / 4 == 100 * era + yoe as int / 4);
    assert(c as int / 100 == 4 * era + yoe as int / 100);
    era * 146097 + doe - 719468
}

/// Whether a day number can be turned into a date without leaving `i64`.
pub open spec fn day_in_range(z: int) -> bool {
    i64::MIN + 146096 <= z + 719468 <= i64::MAX
}

/// The days before year `yoe` of a cycle of 400 years that starts in March.
spec fn cycle_days(yoe: int) -> int {
    365 * yoe + yoe / 4 - yoe / 100
}

/// The year of the cycle that day `doe` of it falls in.
#[verifier::spinoff_prover]
#[verifier::rlimit(40)]
proof fn lemma_year_of_cycle(doe: int, yoe: int)
    requires
        0 <= doe <= 146096,
        yoe == (doe - doe / 1460 + doe / 36524 - doe / 146096) / 365,
    ensures
        0 <= yoe <= 399,
        0 <= doe - cycle_days(yoe) <= 365,
        doe - cycle_days(yoe) == 365 ==> is_leap(yoe + 1),
{
    let k = doe / 36524;
    if k == 4 {
        assert(doe == 146096);
    } else {
        assert(0 <= k <= 3);
        let r = doe - 36524 * k;
        assert(0 <= r < 36524);
        let u = (24 * k + r) / 1460;
        assert(doe == 1460 * (25 * k) + (24 * k + r));
        assert(doe / 1460 == 25 * k + u);
        let v = 24 * k + r - 1460 * u;
        assert(0 <= v < 1460 && 0 <= u <= 25);
        let w = (v - u - 24 * k) / 365;
        assert(doe / 146096 == 0);
        assert(yoe == 100 * k + 4 * u + w);
        assert(-1 <= w <= 3);
        if w >= 0 {
            assert(yoe / 4 == 25 * k + u);
        } else {
            assert(yoe / 4 == 25 * k + u - 1);
        }
        assert(0 <= 4 * u + w <= 99);
        assert(yoe / 100 == k);
    }
}

/// The month, counted from March, and the day in it that day `doy` of a year falls on.
#[verifier::spinoff_prover]
proof fn lemma_month_of_year(doy: int, mp: int)
    requires
        0 <= doy <= 365,
        mp == (5 * doy + 2) / 153,
    ensures
        0 <= mp <= 11,
        1 <= doy - (153 * mp + 2) / 5 + 1,
        mp < 11 ==> doy - (153 * mp + 2) / 5 + 1 <= (if mp == 1 || mp == 3 || mp == 6 || mp == 8 {
            30int
        } else {
            31int
        }),
        mp == 11 ==> doy - (153 * mp + 2) / 5 + 1 <= 29,
        mp == 11 && doy - (153 * mp + 2) / 5 + 1 == 29 ==> doy == 365,
{
}

/// The quotients of a year of cycle `era`, and whether the next one is a leap year.
#[verifier::spinoff_prover]
#[verifier::rlimit(40)]
proof fn lemma_year_in_cycle(era: int, yoe: int)
    requires
        0 <= yoe <= 399,
    ensures
        (yoe + era * 400) / 4 == 100 * era + yoe / 4,
        (yoe + era * 400) / 100 == 4 * era + yoe / 100,
        (yoe + era * 400) / 400 == era,
        is_leap(yoe + era * 400 + 1) == is_leap(yoe + 1),
{
    let c = yoe + era * 400;
    assert((c + 1) % 4 == (yoe + 1) % 4);
    assert((c + 1) % 100 == (yoe + 1) % 100);
    assert((c + 1) % 400 == (yoe + 1) % 400);
}

/// The date of day `doy` in year `yoe` of cycle `era`.
#[verifier::spinoff_prover]
#[verifier::rlimit(40)]
proof fn lemma_date_of_cycle(era: int, yoe: int, doy: int, mp: int)
    requires
        0 <= yoe <= 399,
        0 <= doy <= 365,
        doy == 365 ==> is_leap(yoe + 1),
        mp == (5 * doy + 2) / 153,
    ensures
        ({
            let c = yoe + era * 400;
            let m = if mp < 10 { mp + 3 } else { mp - 9 };
            let y = if m <= 2 { c + 1 } else { c };
            let d = doy - (153 * mp + 2) / 5 + 1;
            &&& is_date(y, m, d)
            &&& day_number(y, m, d) == era * 146097 + cycle_days(yoe) + doy - 719468
        }),
{
    lemma_month_of_year(doy, mp);
    let c = yoe + era * 400;
    let m = if mp < 10 { mp + 3 } else { mp - 9 };
    let d = doy - (153 * mp + 2) / 5 + 1;
    let y = if m <= 2 { c + 1 } else { c };
    lemma_year_in_cycle(era, yoe);
    assert(march_days(m) == (153 * mp + 2) / 5);
    assert(march_year(y, m) == c);
    assert(is_date(y, m, d)) by {
        if mp == 11 && d == 29 {
            assert(is_leap(y));
        }
    }
}

/// The date of a day number: its inverse on the dates of the calendar.
#[verifier::spinoff_prover]
pub fn civil_from_days(z: i64) -> (r: (i64, i64, i64))
    requires
        day_in_range(z as int),
    ensures
        is_date(r.0 as int, r.1 as int, r.2 as int),
        day_number(r.0 as int, r.1 as int, r.2 as int) == z,
{
    let z1: i64 = z + 719468;
    let era: i64 = (if z1 >= 0 { z1 } else { z1 - 146096 }) / 146097;
    let doe: i64 = z1 - era * 146097;
    assert(0 <= doe <= 146096);
    let yoe: i64 = (doe - doe / 1460 + doe / 36524 - doe / 146096) / 365;
    proof {
        lemma_year_of_cycle(doe as int, yoe as int);
    }
    let y: i64 = yoe + era * 400;
    let doy: i64 = doe - (365 * yoe + yoe / 4 - yoe / 100);
    let mp: i64 = (5 * doy + 2) / 153;
    proof {
        lemma_month_of_year(doy as int, mp as int);
    }
    let d: i64 = doy - (153 * mp + 2) / 5 + 1;
    let m: i64 = if mp < 10 { mp + 3 } else { mp - 9 };
    proof {
        lemma_date_of_cycle(era as int, yoe as int, doy as int, mp as int);
    }
    (if m <= 2 { y + 1 } else { y }, m, d)
}

/// The number of characters before the first blank or `T`.
pub open spec fn date_len(s: Seq<char>) -> nat
    decreases s.len(),
{
    if s.len() == 0 || s[0] == ' ' || s[0] == 'T' {
        0
    } else {
        1 + date_len(s.drop_first())
    }
}

/// What stands before the time of day.
pub open spec fn date_part(s: Seq<char>) -> Seq<char> {
    let t = trimmed(s);
    t.take(date_len(t) as int)
}

/// The day number that `YYYY-MM-DD`, with or without a time of day behind it,
/// stands for: the first three fields of the date, all of them integers, whose day
/// number an `i64` can be brought to.
pub open spec fn ymd_value(s: Seq<char>) -> Option<int> {
    let f = split(date_part(s), '-');
    if f.len() >= 3 {
        match (int_value(f[0]), int_value(f[1]), int_value(f[2])) {
            (Some(y), Some(m), Some(d)) => if civil_fits(y, m, d) {
                Some(day_number(y, m, d))
            } else {
                None
            },
            _ => None,
        }
    } else {
        None
    }
}

fn fits_exec(n: i128) -> (r: bool)
    ensures
        r == fits(n as int),
{
    -0x8000_0000_0000_0000 <= n && n <= 0x7fff_ffff_ffff_ffff
}

/// Whether the day number of the three integers stays within `i64`.
#[verifier::spinoff_prover]
pub fn within_i64(y: i64, m: i64, d: i64) -> (r: bool)
    ensures
        r == civil_fits(y as int, m as int, d as int),
{
    let c: i128 = if m <= 2 { y as i128 - 1 } else { y as i128 };
    let era: i128 = (if c >= 0 { c } else { c - 399 }) / 400;
    assert(era == c as int / 400);
    let yoe: i128 = c - era * 400;
    assert(yoe == c as int % 400);
    let shifted: i128 = if m > 2 { m as i128 - 3 } else { m as i128 + 9 };
    let cycle: i128 = 153 * shifted + 2;
    let of_year: i128 = cycle / 5 + d as i128 - 1;
    let of_era: i128 = yoe * 365 + yoe / 4 - yoe / 100 + of_year;
    assert(c as int / 4 == 100 * era + yoe as int / 4);
    assert(c as int / 100 == 4 * era + yoe as int / 100);
    let day: i128 = era * 146097 + of_era - 719468;
    assert(day == day_number(y as int, m as int, d as int));
    fits_exec(c) && (c >= 0 || fits_exec(c - 399)) && fits_exec(m as i128 + 9) && fits_exec(
        cycle - 2,
    ) && fits_exec(cycle) && fits_exec(of_year + 1) && fits_exec(of_year) && fits_exec(of_era)
        && fits_exec(era * 146097) && fits_exec(era * 146097 + of_era) && fits_exec(day)
}

/// Parse `YYYY-MM-DD`, with or without a time of day behind it, into days since
/// 1970-01-01. `None` where it is no date, or one that leaves `i64`.
pub fn parse_ymd(s: &str) -> (r: Option<i64>)
    ensures
        match r {
            Some(d) => ymd_value(s@) == Some(d as int),
            None => ymd_value(s@) is None,
        },
{
    let t: Vec<char> = chars_of(trim(s).as_str());
    let mut n: usize = 0;
    assert(t@.skip(0) =~= t@);
    while n < t.len() && t[n] != ' ' && t[n] != 'T'
        invariant
            n <= t@.len(),
            n + date_len(t@.skip(n as int)) == date_len(t@),
        decreases t@.len() - n,
    {
        assert(t@.skip(n as int).drop_first() =~= t@.skip(n + 1));
        n = n + 1;
    }
    let date: String = string_of(&t, 0, n);
    assert(date@ =~= date_part(s@));
    let f: Vec<String> = split_on(date.as_str(), '-');
    let ghost pieces = split(date_part(s@), '-');
    if f.len() < 3 {
        return None;
    }
    assert(pieces[0] == f@[0]@ && pieces[1] == f@[1]@ && pieces[2] == f@[2]@);
    match (parse_int(f[0].as_str()), parse_int(f[1].as_str()), parse_int(f[2].as_str())) {
        (Some(y), Some(m), Some(d)) => {
            if within_i64(y, m, d) {
                Some(days_from_civil(y, m, d))
            } else {
                None
            }
        },
        _ => None,
    }
}

/// `YYYY-MM-DD` for a date.
pub open spec fn date_text(y: int, m: int, d: int) -> Seq<char> {
    padded(y, 4) + seq!['-'] + padded(m, 2) + seq!['-'] + padded(d, 2)
}

/// Whether `text` is the date of day number `z`.
pub open spec fn is_text_of_day(text: Seq<char>, z: int) -> bool {
    exists|y: int, m: int, d: int|
        is_date(y, m, d) && day_number(y, m, d) == z && text == #[trigger] date_text(y, m, d)
}

/// The date of day number `z`, as text.
pub open spec fn day_text(z: int) -> Seq<char> {
    choose|t: Seq<char>| is_text_of_day(t, z)
}

/// Format days since 1970-01-01 as `YYYY-MM-DD`.
pub fn fmt_ymd(days: i64) -> (r: String)
    requires
        day_in_range(days as int),
    ensures
        is_text_of_day(r@, days as int),
        r@ == day_text(days as int),
{
    let (y, m, d) = civil_from_days(days);
    let mut s: String = pad(y, 4);
    s.push('-');
    s.append(pad(m, 2).as_str());
    s.push('-');
    s.append(pad(d, 2).as_str());
    assert(s@ =~= date_text(y as int, m as int, d as int));
    proof {
        law_one_text_per_day(s@, day_text(days as int), days as int);
    }
    s
}

/// Day of the week: 0 is Sunday, 6 is Saturday.
#[verifier::spinoff_prover]
pub fn weekday(days: i64) -> (r: i64)
    ensures
        r == (days as int + 4) % 7,
{
    ((days % 7) + 4 + 7) % 7
}

/// Whether a day number falls on a Saturday or a Sunday.
pub open spec fn falls_on_weekend(days: int) -> bool {
    (days + 4) % 7 == 0 || (days + 4) % 7 == 6
}

/// True for Saturday and Sunday.
pub fn is_weekend(days: i64) -> (r: bool)
    ensures
        r == falls_on_weekend(days as int),
{
    let w: i64 = weekday(days);
    w == 0 || w == 6
}

/// The working days from `from` to `to`, as text.
pub open spec fn working_days(from: int, to: int) -> Seq<Seq<char>>
    decreases to - from + 1,
{
    if to < from {
        Seq::empty()
    } else if falls_on_weekend(to) {
        working_days(from, to - 1)
    } else {
        working_days(from, to - 1).push(day_text(to))
    }
}

/// The dates of the working days from `from` to `to`, both included.
pub fn weekdays(from: i64, to: i64) -> (r: Vec<String>)
    requires
        from <= to ==> day_in_range(from as int) && day_in_range(to as int),
    ensures
        views(r@) == working_days(from as int, to as int),
{
    let mut out: Vec<String> = Vec::new();
    let mut d: i64 = from;
    assert(views(out@) =~= working_days(from as int, from - 1));
    while d <= to
        invariant
            from <= d,
            from <= to ==> d <= to + 1,
            from > to ==> d == from,
            from <= to ==> day_in_range(from as int) && day_in_range(to as int),
            views(out@) == working_days(from as int, d - 1),
        decreases to - d + 1,
    {
        if !is_weekend(d) {
            let ghost was = out@;
            let t: String = fmt_ymd(d);
            out.push(t);
            assert(views(out@) =~= views(was).push(t@));
        }
        d = d + 1;
    }
    out
}

/// The working days between two dates given as text; nothing where one is no date, or
/// a day of the range leaves `i64`.
pub open spec fn range_days(from: Seq<char>, to: Seq<char>) -> Option<Seq<Seq<char>>> {
    match (ymd_value(from), ymd_value(to)) {
        (Some(a), Some(b)) => if a <= b && !(day_in_range(a) && day_in_range(b)) {
            None
        } else {
            Some(working_days(a, b))
        },
        _ => None,
    }
}

fn in_range(z: i64) -> (r: bool)
    ensures
        r == day_in_range(z as int),
{
    let shifted: i128 = z as i128 + 719468;
    -0x8000_0000_0000_0000 + 146096 <= shifted && shifted <= 0x7fff_ffff_ffff_ffff
}

/// The dates of the working days between two dates given as text, both included.
pub fn weekdays_between(from: &str, to: &str) -> (r: Option<Vec<String>>)
    ensures
        match r {
            Some(days) => range_days(from@, to@) == Some(views(days@)),
            None => range_days(from@, to@) is None,
        },
{
    match (parse_ymd(from), parse_ymd(to)) {
        (Some(a), Some(b)) => {
            let inside: bool = in_range(a) && in_range(b);
            if a <= b && !inside {
                None
            } else {
                Some(weekdays(a, b))
            }
        },
        _ => None,
    }
}

// ---- laws ----

/// The days before March of year `c`, counted from March of year 0.
spec fn march_count(c: int) -> int {
    365 * c + c / 4 - c / 100 + c / 400
}

#[verifier::spinoff_prover]
#[verifier::rlimit(40)]
proof fn lemma_march_count_step(c: int)
    ensures
        march_count(c + 1) - march_count(c) == 365 + (if is_leap(c + 1) {
            1int
        } else {
            0int
        }),
{
    let n = c + 1;
    assert(n % 4 == 0 ==> n / 4 == c / 4 + 1);
    assert(n % 4 != 0 ==> n / 4 == c / 4);
    assert(n % 100 == 0 ==> n / 100 == c / 100 + 1 && n % 4 == 0);
    assert(n % 100 != 0 ==> n / 100 == c / 100);
    assert(n % 400 == 0 ==> n / 400 == c / 400 + 1 && n % 100 == 0);
    assert(n % 400 != 0 ==> n / 400 == c / 400);
}

#[verifier::spinoff_prover]
proof fn lemma_march_count_grows(a: int, b: int)
    requires
        a <= b,
    ensures
        march_count(a) <= march_count(b),
{
}

/// The place of a date in its year, counted from March.
proof fn lemma_place_in_march_year(y: int, m: int, d: int)
    requires
        is_date(y, m, d),
    ensures
        0 <= march_days(m) + d - 1,
        march_days(m) + d - 1 < 365 + (if is_leap(march_year(y, m) + 1) {
            1int
        } else {
            0int
        }),
{
    lemma_march_days(m);
}

proof fn lemma_march_days(m: int)
    requires
        1 <= m <= 12,
    ensures
        march_days(m) == (if m == 1 {
            306int
        } else if m == 2 {
            337
        } else if m == 3 {
            0
        } else if m == 4 {
            31
        } else if m == 5 {
            61
        } else if m == 6 {
            92
        } else if m == 7 {
            122
        } else if m == 8 {
            153
        } else if m == 9 {
            184
        } else if m == 10 {
            214
        } else if m == 11 {
            245
        } else {
            275
        }),
{
}

proof fn lemma_days_before_month(y: int, m: int)
    requires
        1 <= m <= 12,
    ensures
        m <= 2 ==> days_before_month(y, m) == 31 * (m - 1),
        m > 2 ==> days_before_month(y, m) == march_days(m) + 59 + (if is_leap(y) {
            1int
        } else {
            0int
        }),
    decreases m,
{
    reveal_with_fuel(days_before_month, 4);
    if m > 3 {
        lemma_days_before_month(y, m - 1);
        lemma_march_days(m - 1);
    }
    lemma_march_days(m);
}

/// On the dates of the calendar the day number counts the days from 1970-01-01.
#[verifier::spinoff_prover]
pub proof fn law_day_number_counts_days(y: int, m: int, d: int)
    requires
        is_date(y, m, d),
    ensures
        day_number(y, m, d) == calendar_day(y, m, d),
{
    lemma_days_before_month(y, m);
    lemma_march_days(m);
    lemma_march_count_step(y - 1);
}

/// A year of the calendar has 366 days where it is a leap year, else 365, and its
/// months add up to it.
#[verifier::spinoff_prover]
pub proof fn law_year_length(y: int)
    ensures
        days_before_year(y + 1) - days_before_year(y) == (if is_leap(y) {
            366int
        } else {
            365int
        }),
        days_before_month(y, 12) + month_len(y, 12) == days_before_year(y + 1) - days_before_year(y),
{
    lemma_days_before_month(y, 12);
    lemma_march_days(12);
    lemma_march_count_step(y - 1);
    assert(days_before_year(y + 1) == march_count(y));
    assert(days_before_year(y) == march_count(y - 1));
}

/// Later dates have greater day numbers: no two dates share one.
#[verifier::spinoff_prover]
pub proof fn law_day_number_orders_dates(
    y1: int,
    m1: int,
    d1: int,
    y2: int,
    m2: int,
    d2: int,
)
    requires
        is_date(y1, m1, d1),
        is_date(y2, m2, d2),
    ensures
        (y1 < y2 || (y1 == y2 && (m1 < m2 || (m1 == m2 && d1 < d2)))) <==> day_number(y1, m1, d1)
            < day_number(y2, m2, d2),
        (y1, m1, d1) == (y2, m2, d2) <==> day_number(y1, m1, d1) == day_number(y2, m2, d2),
{
    lemma_dates_apart(y1, m1, d1, y2, m2, d2);
    lemma_dates_apart(y2, m2, d2, y1, m1, d1);
}

proof fn lemma_dates_apart(y1: int, m1: int, d1: int, y2: int, m2: int, d2: int)
    requires
        is_date(y1, m1, d1),
        is_date(y2, m2, d2),
    ensures
        y1 < y2 || (y1 == y2 && (m1 < m2 || (m1 == m2 && d1 < d2))) ==> day_number(y1, m1, d1)
            < day_number(y2, m2, d2),
{
    let c1 = march_year(y1, m1);
    let c2 = march_year(y2, m2);
    lemma_place_in_march_year(y1, m1, d1);
    lemma_place_in_march_year(y2, m2, d2);
    lemma_march_count_step(c1);
    if c1 < c2 {
        lemma_march_count_grows(c1 + 1, c2);
    } else {
        lemma_march_days(m1);
        lemma_march_days(m2);
    }
}

/// Every day number is that of a date.
#[verifier::spinoff_prover]
pub proof fn law_every_day_has_a_date(z: int)
    ensures
        exists|y: int, m: int, d: int| #[trigger] is_date(y, m, d) && day_number(y, m, d) == z,
        is_text_of_day(day_text(z), z),
{
    let z1 = z + 719468;
    let era = z1 / 146097;
    let doe = z1 - era * 146097;
    let yoe = (doe - doe / 1460 + doe / 36524 - doe / 146096) / 365;
    lemma_year_of_cycle(doe, yoe);
    let doy = doe - cycle_days(yoe);
    let mp = (5 * doy + 2) / 153;
    lemma_date_of_cycle(era, yoe, doy, mp);
    let c = yoe + era * 400;
    let m = if mp < 10 { mp + 3 } else { mp - 9 };
    let y = if m <= 2 { c + 1 } else { c };
    let d = doy - (153 * mp + 2) / 5 + 1;
    assert(is_date(y, m, d) && day_number(y, m, d) == z);
    assert(is_text_of_day(date_text(y, m, d), z));
}

/// A day number has one text only.
pub proof fn law_one_text_per_day(a: Seq<char>, b: Seq<char>, z: int)
    requires
        is_text_of_day(a, z),
        is_text_of_day(b, z),
    ensures
        a == b,
{
    let (y1, m1, d1) = choose|y: int, m: int, d: int|
        is_date(y, m, d) && day_number(y, m, d) == z && a == #[trigger] date_text(y, m, d);
    let (y2, m2, d2) = choose|y: int, m: int, d: int|
        is_date(y, m, d) && day_number(y, m, d) == z && b == #[trigger] date_text(y, m, d);
    law_day_number_orders_dates(y1, m1, d1, y2, m2, d2);
}

/// Text that begins and ends with a digit and holds neither blank nor `T` is its own
/// date part.
proof fn lemma_date_part_whole(s: Seq<char>)
    requires
        s.len() > 0,
        is_digit(s[0]),
        is_digit(s.last()),
        forall|i: int| 0 <= i < s.len() ==> (is_digit(#[trigger] s[i]) || s[i] == '-'),
    ensures
        date_part(s) == s,
{
    assert(trim_front(s) == s);
    assert(trim_back(s) == s);
    lemma_date_len_whole(s);
    assert(s.take(s.len() as int) =~= s);
}

proof fn lemma_date_len_whole(s: Seq<char>)
    requires
        forall|i: int| 0 <= i < s.len() ==> (is_digit(#[trigger] s[i]) || s[i] == '-'),
    ensures
        date_len(s) == s.len(),
    decreases s.len(),
{
    if s.len() > 0 {
        let t = s.drop_first();
        assert forall|i: int| 0 <= i < t.len() implies (is_digit(#[trigger] t[i]) || t[i] == '-') by {
            assert(t[i] == s[i + 1]);
        }
        assert(is_digit(s[0]) || s[0] == '-');
        lemma_date_len_whole(t);
    }
}

proof fn lemma_digits_have_no_dash(s: Seq<char>)
    requires
        all_digits(s),
    ensures
        split(s, '-') == seq![s],
{
    assert forall|i: int| 0 <= i < s.len() implies #[trigger] s[i] != '-' by {
        assert(is_digit(s[i]));
    }
    crate::text::lemma_split_plain(s, '-');
}

/// The text of a date is its own date part, and its fields denote the date.
proof fn lemma_fields_of_date_text(y: int, m: int, d: int)
    requires
        is_date(y, m, d),
        0 <= y <= i64::MAX,
    ensures
        ({
            let f = split(date_part(date_text(y, m, d)), '-');
            &&& f.len() == 3
            &&& int_value(f[0]) == Some(y)
            &&& int_value(f[1]) == Some(m)
            &&& int_value(f[2]) == Some(d)
        }),
{
    let text = date_text(y, m, d);
    let (a, b, c) = (padded(y, 4), padded(m, 2), padded(d, 2));
    crate::text::law_padded_value(y as nat, 4);
    crate::text::law_padded_value(m as nat, 2);
    crate::text::law_padded_value(d as nat, 2);
    lemma_digits_have_no_dash(a);
    lemma_digits_have_no_dash(b);
    lemma_digits_have_no_dash(c);
    crate::text::lemma_split_across(a, b.push('-') + c, '-');
    crate::text::lemma_split_across(b, c, '-');
    assert(text =~= a.push('-') + (b.push('-') + c));
    assert(split(text, '-') =~= seq![a, b, c]);
    assert(is_digit(a[0]));
    assert(text[0] == a[0]);
    assert(is_digit(c[c.len() - 1]));
    assert(text.last() == c.last());
    assert forall|i: int| 0 <= i < text.len() implies (is_digit(#[trigger] text[i]) || text[i]
        == '-') by {
        if i < a.len() {
            assert(is_digit(a[i]));
        } else if i > a.len() && i < a.len() + 1 + b.len() {
            assert(is_digit(b[i - a.len() - 1]));
        } else if i > a.len() + 1 + b.len() {
            assert(is_digit(c[i - a.len() - 2 - b.len()]));
        }
    }
    lemma_date_part_whole(text);
}

/// Reading a formatted day gives the day back, from the first day of year 0 on.
pub proof fn law_parse_undoes_format(text: Seq<char>, z: int)
    requires
        is_text_of_day(text, z),
        day_in_range(z),
        z >= -719528,
    ensures
        ymd_value(text) == Some(z),
{
    let (y, m, d) = choose|y: int, m: int, d: int|
        is_date(y, m, d) && day_number(y, m, d) == z && text == #[trigger] date_text(y, m, d);
    lemma_year_of_day(y, m, d);
    lemma_fields_of_date_text(y, m, d);
    lemma_in_range_fits(y, m, d);
}

/// From the first day of year 0 on years are not negative, and those in range are
/// numbers that an `i64` holds.
#[verifier::spinoff_prover]
proof fn lemma_year_of_day(y: int, m: int, d: int)
    requires
        is_date(y, m, d),
        day_in_range(day_number(y, m, d)),
        day_number(y, m, d) >= -719528,
    ensures
        0 <= y <= i64::MAX,
{
    lemma_march_days(1);
    lemma_march_days(m);
    assert(day_number(0, 1, 1) == -719528);
    law_day_number_orders_dates(y, m, d, 0, 1, 1);
    let c = march_year(y, m);
    if c > 0 {
        lemma_march_count_grows(0, c);
        assert(c / 4 >= c / 100);
        assert(march_count(c) >= 365 * c);
    }
}

/// A date whose day number is in range reaches it without leaving `i64`.
#[verifier::spinoff_prover]
proof fn lemma_in_range_fits(y: int, m: int, d: int)
    requires
        is_date(y, m, d),
        y >= 0,
        day_in_range(day_number(y, m, d)),
    ensures
        civil_fits(y, m, d),
{
    lemma_march_days(m);
    let c = march_year(y, m);
    assert(c >= -1);
    assert(0 <= c % 400 < 400);
    assert(c / 4 == 100 * (c / 400) + (c % 400) / 4);
    assert(c / 100 == 4 * (c / 400) + (c % 400) / 100);
}

proof fn lemma_date_len_short(s: Seq<char>)
    ensures
        date_len(s) <= s.len(),
    decreases s.len(),
{
    if s.len() > 0 {
        lemma_date_len_short(s.drop_first());
    }
}

/// A date of at most ten characters is well within range.
pub proof fn lemma_short_date_in_range(s: Seq<char>)
    requires
        s.len() <= 10,
    ensures
        ymd_value(s) matches Some(z) ==> -1_000_000_000_000_000 < z < 1_000_000_000_000_000
            && day_in_range(z),
{
    let t = trimmed(s);
    let p = date_part(s);
    let f = split(p, '-');
    lemma_trimmed_short(s);
    lemma_date_len_short(t);
    lemma_pieces_short(p, '-');
    if ymd_value(s) is Some {
        lemma_int_value_bound(f[0]);
        lemma_int_value_bound(f[1]);
        lemma_int_value_bound(f[2]);
        lemma_ten_to_grows(f[0].len(), 10);
        lemma_ten_to_grows(f[1].len(), 10);
        lemma_ten_to_grows(f[2].len(), 10);
        reveal_with_fuel(ten_to, 11);
        let y = int_value(f[0])->0;
        let m = int_value(f[1])->0;
        let d = int_value(f[2])->0;
        let bound = 10_000_000_000int;
        assert(-bound < y < bound && -bound < m < bound && -bound < d < bound);
    }
}

/// Years, months and days of two characters or fewer reach their day number within
/// `i64`.
#[verifier::spinoff_prover]
pub proof fn lemma_short_fields_fit(y: int, m: int, d: int)
    requires
        0 <= y <= 3000,
        -100 < m < 100,
        -100 < d < 100,
    ensures
        civil_fits(y, m, d),
        -2_000_000 < day_number(y, m, d) < 2_000_000,
{
    let c = march_year(y, m);
    assert(0 <= c % 400 < 400);
    assert(-1 <= c / 400 <= 8);
}

/// The working days of a range are its days that do not fall on a weekend: each of
/// them stands there, in order, and there are no others.
pub proof fn law_working_days(from: int, to: int, z: int)
    requires
        from <= z <= to,
    ensures
        falls_on_weekend(z) ==> working_days(from, z) == working_days(from, z - 1),
        !falls_on_weekend(z) ==> working_days(from, z) == working_days(from, z - 1).push(day_text(z)),
        working_days(from, z).len() <= working_days(from, to).len(),
        working_days(from, to).take(working_days(from, z).len() as int) == working_days(from, z),
    decreases to - z,
{
    if z < to {
        law_working_days(from, to - 1, z);
        let (a, b) = (working_days(from, to - 1), working_days(from, to));
        let n = working_days(from, z).len() as int;
        assert(b.take(n) =~= a.take(n));
    } else {
        assert(working_days(from, z).take(working_days(from, z).len() as int) =~= working_days(from, z));
    }
}

/// The days of the week follow one another, seven to a week, and between two
/// weekends there are five working days.
#[verifier::spinoff_prover]
#[verifier::rlimit(40)]
pub proof fn law_week(z: int)
    ensures
        (z + 1 + 4) % 7 == ((z + 4) % 7 + 1) % 7,
        (z + 7 + 4) % 7 == (z + 4) % 7,
        falls_on_weekend(z) && !falls_on_weekend(z + 1) ==> !falls_on_weekend(z + 2)
            && !falls_on_weekend(z + 3) && !falls_on_weekend(z + 4) && !falls_on_weekend(z + 5)
            && falls_on_weekend(z + 6) && falls_on_weekend(z + 7),
{
}

// ---- the order of texts ----

proof fn lemma_padded_chars(n: int, width: nat)
    ensures
        all_number_chars(padded(n, width)),
        padded(n, width).len() > 0,
{
    let m = if n >= 0 { n as nat } else { (-n) as nat };
    let w = if n >= 0 {
        width
    } else if width > 0 {
        (width - 1) as nat
    } else {
        0
    };
    law_decimal_value(m);
    lemma_zero_filled_value(decimal(m), w);
    let f = zero_filled(decimal(m), w);
    let p = padded(n, width);
    assert forall|i: int| 0 <= i < p.len() implies is_number_char(#[trigger] p[i]) by {
        if n >= 0 {
            assert(is_digit(f[i]));
        } else if i > 0 {
            assert(p[i] == f[i - 1]);
        }
    }
}

/// The text of a day can stand in a field, with nothing to trim.
pub proof fn law_day_text_is_field(text: Seq<char>, z: int)
    requires
        is_text_of_day(text, z),
    ensures
        lacks(text, ','),
        lacks(text, '\n'),
        lacks(text, '\r'),
        trimmed(text) == text,
{
    let (y, m, d) = choose|y: int, m: int, d: int|
        is_date(y, m, d) && day_number(y, m, d) == z && text == #[trigger] date_text(y, m, d);
    let (a, b, c) = (padded(y, 4), padded(m, 2), padded(d, 2));
    lemma_padded_chars(y, 4);
    lemma_padded_chars(m, 2);
    lemma_padded_chars(d, 2);
    let p = a.len() + 1;
    let q = p + b.len() + 1;
    assert forall|i: int| 0 <= i < text.len() implies is_number_char(#[trigger] text[i]) by {
        if i < a.len() {
            assert(text[i] == a[i]);
        } else if p <= i < p + b.len() {
            assert(text[i] == b[i - p]);
        } else if i >= q {
            assert(text[i] == c[i - q]);
        }
    }
    lemma_number_chars(text);
}

/// Digit `i` of the four of `n`.
spec fn digit_of(n: int, i: int) -> int {
    if i == 0 {
        n / 1000
    } else if i == 1 {
        n / 100 % 10
    } else if i == 2 {
        n / 10 % 10
    } else {
        n % 10
    }
}

/// A number is made of its four digits.
proof fn lemma_made_of_digits(n: int)
    requires
        0 <= n <= 9999,
    ensures
        n / 100 == 10 * digit_of(n, 0) + digit_of(n, 1),
        n / 10 == 10 * (n / 100) + digit_of(n, 2),
        n == 10 * (n / 10) + digit_of(n, 3),
        0 <= digit_of(n, 1) < 10,
        0 <= digit_of(n, 2) < 10,
        0 <= digit_of(n, 3) < 10,
{
    assert(n / 100 / 10 == n / 1000);
    assert(n / 10 / 10 == n / 100);
}

/// The first of the four digits in which two numbers differ is less in the lesser one.
proof fn lemma_differing_digit(x: int, y: int) -> (k: int)
    requires
        0 <= x < y <= 9999,
    ensures
        0 <= k < 4,
        digit_of(x, k) < digit_of(y, k),
        forall|i: int| 0 <= i < k ==> digit_of(x, i) == digit_of(y, i),
{
    lemma_made_of_digits(x);
    lemma_made_of_digits(y);
    let (a, b) = (digit_of(x, 0), digit_of(y, 0));
    if a < b {
        0
    } else if x / 100 < y / 100 {
        1
    } else if x / 10 < y / 10 {
        2
    } else {
        3
    }
}

/// The text of a date of four-digit years, digit by digit.
proof fn lemma_digits_of_date_text(y: int, m: int, d: int)
    requires
        0 <= y <= 9999,
        0 <= m <= 99,
        0 <= d <= 99,
    ensures
        date_text(y, m, d).len() == 10,
        forall|i: int| 0 <= i < 4 ==> #[trigger] date_text(y, m, d)[i] == digit_char(digit_of(y, i)),
        date_text(y, m, d)[4] == '-',
        date_text(y, m, d)[5] == digit_char(digit_of(m, 2)),
        date_text(y, m, d)[6] == digit_char(digit_of(m, 3)),
        date_text(y, m, d)[7] == '-',
        date_text(y, m, d)[8] == digit_char(digit_of(d, 2)),
        date_text(y, m, d)[9] == digit_char(digit_of(d, 3)),
{
    reveal_with_fuel(decimal, 5);
    assert(padded(y, 4) =~= seq![
        digit_char(y / 1000),
        digit_char(y / 100 % 10),
        digit_char(y / 10 % 10),
        digit_char(y % 10),
    ]);
    assert(padded(m, 2) =~= seq![digit_char(m / 10), digit_char(m % 10)]);
    assert(padded(d, 2) =~= seq![digit_char(d / 10), digit_char(d % 10)]);
}

/// The first character in which two texts differ tells which comes first.
proof fn lemma_first_difference(a: Seq<char>, b: Seq<char>, k: int)
    requires
        0 <= k < a.len(),
        k < b.len(),
        a[k] < b[k],
        forall|i: int| 0 <= i < k ==> a[i] == b[i],
    ensures
        before(a, b),
    decreases k,
{
    if k > 0 {
        assert(a[0] == b[0]);
        lemma_first_difference(a.drop_first(), b.drop_first(), k - 1);
    }
}

proof fn lemma_earlier_date_first(y1: int, m1: int, d1: int, y2: int, m2: int, d2: int)
    requires
        0 <= y1 <= y2 <= 9999,
        0 <= m1 <= 99,
        0 <= m2 <= 99,
        0 <= d1 <= 99,
        0 <= d2 <= 99,
        y1 < y2 || (y1 == y2 && (m1 < m2 || (m1 == m2 && d1 < d2))),
    ensures
        before(date_text(y1, m1, d1), date_text(y2, m2, d2)),
{
    lemma_digits_of_date_text(y1, m1, d1);
    lemma_digits_of_date_text(y2, m2, d2);
    let (a, b) = (date_text(y1, m1, d1), date_text(y2, m2, d2));
    if y1 < y2 {
        let k = lemma_differing_digit(y1, y2);
        assert(a[k] < b[k]);
        lemma_first_difference(a, b, k);
    } else if m1 < m2 {
        let k = lemma_differing_digit(m1, m2);
        assert(k >= 2);
        assert(a[k + 3] < b[k + 3]);
        lemma_first_difference(a, b, k + 3);
    } else {
        let k = lemma_differing_digit(d1, d2);
        assert(k >= 2);
        assert(a[k + 6] < b[k + 6]);
        lemma_first_difference(a, b, k + 6);
    }
}

/// In the years 0 to 9999 the texts of days are in the order of the days.
pub proof fn law_texts_order_days(a: int, b: int)
    requires
        -719528 <= a <= 2932896,
        -719528 <= b <= 2932896,
    ensures
        before(day_text(a), day_text(b)) <==> a < b,
        day_text(a) == day_text(b) <==> a == b,
{
    law_every_day_has_a_date(a);
    law_every_day_has_a_date(b);
    let (y1, m1, d1) = choose|y: int, m: int, d: int|
        is_date(y, m, d) && day_number(y, m, d) == a && day_text(a) == #[trigger] date_text(y, m, d);
    let (y2, m2, d2) = choose|y: int, m: int, d: int|
        is_date(y, m, d) && day_number(y, m, d) == b && day_text(b) == #[trigger] date_text(y, m, d);
    lemma_four_digit_year(y1, m1, d1);
    lemma_four_digit_year(y2, m2, d2);
    law_day_number_orders_dates(y1, m1, d1, y2, m2, d2);
    law_day_number_orders_dates(y2, m2, d2, y1, m1, d1);
    law_before_is_total_order(day_text(a), day_text(b), day_text(a));
    if a < b {
        lemma_earlier_date_first(y1, m1, d1, y2, m2, d2);
    } else if b < a {
        lemma_earlier_date_first(y2, m2, d2, y1, m1, d1);
    }
}

proof fn lemma_four_digit_year(y: int, m: int, d: int)
    requires
        is_date(y, m, d),
        -719528 <= day_number(y, m, d) <= 2932896,
    ensures
        0 <= y <= 9999,
{
    lemma_march_days(1);
    lemma_march_days(12);
    assert(day_number(0, 1, 1) == -719528);
    assert(day_number(9999, 12, 31) == 2932896);
    law_day_number_orders_dates(y, m, d, 0, 1, 1);
    law_day_number_orders_dates(9999, 12, 31, y, m, d);
}

// ---- what dates owe to their text ----

proof fn lemma_date_len_stops(d: Seq<char>, rest: Seq<char>)
    requires
        forall|i: int| 0 <= i < d.len() ==> #[trigger] d[i] != ' ' && d[i] != 'T',
        rest.len() > 0 ==> rest[0] == ' ' || rest[0] == 'T',
    ensures
        date_len(d + rest) == d.len(),
    decreases d.len(),
{
    if d.len() == 0 {
        assert(d + rest =~= rest);
    } else {
        let t = d.drop_first();
        assert forall|i: int| 0 <= i < t.len() implies #[trigger] t[i] != ' ' && t[i] != 'T' by {
            assert(t[i] == d[i + 1]);
        }
        assert((d + rest)[0] == d[0]);
        assert((d + rest).drop_first() =~= t + rest);
        lemma_date_len_stops(t, rest);
    }
}

/// A blank or a `T` ends a date: what follows it changes nothing.
pub proof fn law_time_of_day(date: Seq<char>, c: char, time: Seq<char>)
    requires
        date.len() > 0,
        c == ' ' || c == 'T',
        forall|i: int| 0 <= i < date.len() ==> #[trigger] date[i] != 'T' && !is_white(date[i]),
        time.len() > 0,
        !is_white(time[time.len() - 1]),
    ensures
        ymd_value(date.push(c) + time) == ymd_value(date),
{
    let s = date.push(c) + time;
    let none = Seq::<char>::empty();
    let rest = seq![c] + time;
    assert(s =~= date + rest);
    assert(!is_white(date[0]) && !is_white(date[date.len() - 1]));
    assert(s[0] == date[0] && s[s.len() - 1] == time[time.len() - 1]);
    law_trimmed(none, s, none);
    assert(none + s + none =~= s);
    law_trimmed(none, date, none);
    assert(none + date + none =~= date);
    assert forall|i: int| 0 <= i < date.len() implies #[trigger] date[i] != ' ' && date[i] != 'T' by {}
    lemma_date_len_stops(date, rest);
    lemma_date_len_stops(date, none);
    assert(date + none =~= date);
    assert(s.take(date.len() as int) =~= date);
    assert(date.take(date.len() as int) =~= date);
}

/// Three runs of digits with hyphens between them are year, month and day, in that order.
pub proof fn law_date_fields(year: Seq<char>, month: Seq<char>, day: Seq<char>, y: int, m: int, d: int)
    requires
        all_digits(year) && all_digits(month) && all_digits(day),
        int_value(year) == Some(y) && int_value(month) == Some(m) && int_value(day) == Some(d),
        is_date(y, m, d),
        y <= 9999,
    ensures
        ymd_value(joined(seq![year, month, day], '-')) == Some(calendar_day(y, m, d)),
{
    let s = joined(seq![year, month, day], '-');
    let none = Seq::<char>::empty();
    reveal_with_fuel(joined, 4);
    assert(seq![year, month, day].drop_last() =~= seq![year, month]);
    assert(seq![year, month].drop_last() =~= seq![year]);
    assert(s =~= year + seq!['-'] + month + seq!['-'] + day);
    lemma_digits_not_empty(year, y);
    lemma_digits_not_empty(month, m);
    lemma_digits_not_empty(day, d);
    assert forall|i: int| 0 <= i < s.len() implies is_digit(#[trigger] s[i]) || s[i] == '-' by {
        if i < year.len() {
            assert(is_digit(year[i]));
        } else if year.len() < i < year.len() + 1 + month.len() {
            assert(is_digit(month[i - year.len() - 1]));
        } else if i > year.len() + 1 + month.len() {
            assert(is_digit(day[i - year.len() - month.len() - 2]));
        }
    }
    assert(!is_white(s[0]) && !is_white(s[s.len() - 1]));
    law_trimmed(none, s, none);
    assert(none + s + none =~= s);
    assert forall|i: int| 0 <= i < s.len() implies #[trigger] s[i] != ' ' && s[i] != 'T' by {
        assert(is_digit(s[i]) || s[i] == '-');
    }
    lemma_date_len_stops(s, none);
    assert(s + none =~= s);
    assert(s.take(s.len() as int) =~= s);
    let fields = seq![year, month, day];
    assert forall|i: int| 0 <= i < fields.len() implies lacks(#[trigger] fields[i], '-') by {
        assert forall|j: int| 0 <= j < fields[i].len() implies #[trigger] fields[i][j] != '-' by {
            assert(i == 0 || i == 1 || i == 2);
            assert(is_digit(fields[i][j]));
        }
    }
    law_join_split(fields, '-');
    lemma_digits_not_negative(year);
    lemma_small_date_fits(y, m, d);
    law_day_number_counts_days(y, m, d);
}

proof fn lemma_digits_not_empty(s: Seq<char>, n: int)
    requires
        int_value(s) == Some(n),
    ensures
        s.len() > 0,
{
}

proof fn lemma_digits_not_negative(s: Seq<char>)
    requires
        all_digits(s),
    ensures
        digits_value(s) >= 0,
        int_value(s) matches Some(n) ==> n >= 0,
    decreases s.len(),
{
    if s.len() > 0 {
        let t = s.drop_last();
        assert forall|i: int| 0 <= i < t.len() implies is_digit(#[trigger] t[i]) by {
            assert(t[i] == s[i]);
        }
        lemma_digits_not_negative(t);
        assert(is_digit(s[s.len() - 1]));
        assert(is_digit(s[0]));
    }
}

#[verifier::spinoff_prover]
proof fn lemma_small_date_fits(y: int, m: int, d: int)
    requires
        0 <= y <= 9999,
        1 <= m <= 12,
        1 <= d <= 31,
    ensures
        civil_fits(y, m, d),
{
}

/// The first of January 1970 was a Thursday: weekends are the third and the fourth day of
/// each seven from there.
#[verifier::spinoff_prover]
pub proof fn law_weekend(days: i64, r: bool, w: i64)
    requires
        call_ensures(is_weekend, (days,), r),
        call_ensures(weekday, (days,), w),
    ensures
        r <==> days as int % 7 == 2 || days as int % 7 == 3,
        0 <= w <= 6,
        w == 0 <==> days as int % 7 == 3,
        w == 6 <==> days as int % 7 == 2,
{
    lemma_weekend_by_rest(days as int);
}

/// The dates of the working days of a range, with their day numbers: they ascend, each is
/// in the range and on no weekend, and no such day is left out.
pub proof fn law_weekdays(from: int, to: int) -> (days: Seq<int>)
    ensures
        days.len() == working_days(from, to).len(),
        forall|k: int|
            0 <= k < days.len() ==> from <= #[trigger] days[k] <= to && days[k] % 7 != 2 && days[k] % 7 != 3
                && working_days(from, to)[k] == day_text(days[k]),
        forall|j: int, k: int| 0 <= j < k < days.len() ==> #[trigger] days[j] < #[trigger] days[k],
        forall|z: int| from <= z <= to && z % 7 != 2 && z % 7 != 3 ==> #[trigger] days.contains(z),
    decreases to - from + 1,
{
    if to < from {
        Seq::empty()
    } else {
        let front = law_weekdays(from, to - 1);
        lemma_weekend_by_rest(to);
        let days = if falls_on_weekend(to) {
            front
        } else {
            front.push(to)
        };
        assert forall|z: int| from <= z <= to && z % 7 != 2 && z % 7 != 3 implies #[trigger] days.contains(z) by {
            if z < to {
                assert(front.contains(z));
                let k = choose|k: int| 0 <= k < front.len() && front[k] == z;
                assert(days[k] == z);
            } else {
                assert(days[front.len() as int] == z);
            }
        }
        days
    }
}

#[verifier::spinoff_prover]
#[verifier::rlimit(40)]
proof fn lemma_weekend_by_rest(z: int)
    ensures
        falls_on_weekend(z) <==> z % 7 == 2 || z % 7 == 3,
        (z + 4) % 7 == 0 <==> z % 7 == 3,
        (z + 4) % 7 == 6 <==> z % 7 == 2,
{
}

/// White space around a date changes nothing.
pub proof fn law_white_around_date(a: Seq<char>, s: Seq<char>, b: Seq<char>)
    requires
        forall|i: int| 0 <= i < a.len() ==> is_white(#[trigger] a[i]),
        forall|i: int| 0 <= i < b.len() ==> is_white(#[trigger] b[i]),
        s.len() > 0,
        !is_white(s[0]) && !is_white(s[s.len() - 1]),
    ensures
        ymd_value(a + s + b) == ymd_value(s),
{
    let none = Seq::<char>::empty();
    law_trimmed(a, s, b);
    law_trimmed(none, s, none);
    assert(none + s + none =~= s);
}

/// What has fewer than three fields, or one that is no integer, is no date.
pub proof fn law_no_date(s: &str, r: Option<i64>, fields: Seq<Seq<char>>, i: int)
    requires
        call_ensures(parse_ymd, (s,), r),
        fields.len() > 0,
        s@ == joined(fields, '-'),
        forall|k: int| 0 <= k < s@.len() ==> !is_white(#[trigger] s@[k]) && s@[k] != 'T',
        forall|k: int| 0 <= k < fields.len() ==> lacks(#[trigger] fields[k], '-'),
    ensures
        fields.len() < 3 ==> r is None,
        0 <= i < 3 && i < fields.len() && int_value(fields[i]) is None ==> r is None,
        fields.len() >= 3 ==> (r matches Some(z) ==> int_value(fields[0]) matches Some(y) && int_value(
            fields[1],
        ) matches Some(m) && int_value(fields[2]) matches Some(d) && z == day_number(y, m, d)),
{
    let none = Seq::<char>::empty();
    let t = s@;
    if t.len() > 0 {
        assert(!is_white(t[0]) && !is_white(t[t.len() - 1]));
    }
    law_trimmed(none, t, none);
    assert(none + t + none =~= t);
    assert forall|k: int| 0 <= k < t.len() implies #[trigger] t[k] != ' ' && t[k] != 'T' by {
        assert(!is_white(t[k]));
    }
    lemma_date_len_stops(t, none);
    assert(t + none =~= t);
    assert(t.take(t.len() as int) =~= t);
    law_join_split(fields, '-');
}

/// The working days between two dates are asked for by their texts: there is an answer where
/// both are dates within range, and it is the working days from the first to the second.
pub proof fn law_weekdays_between(from: &str, to: &str, r: Option<Vec<String>>, a: int, b: int) -> (days: Seq<int>)
    requires
        call_ensures(weekdays_between, (from, to), r),
        ymd_value(from@) == Some(a),
        ymd_value(to@) == Some(b),
        day_in_range(a),
        day_in_range(b),
    ensures
        r is Some,
        days.len() == r->0@.len(),
        forall|k: int|
            0 <= k < days.len() ==> a <= #[trigger] days[k] <= b && days[k] % 7 != 2 && days[k] % 7 != 3
                && r->0@[k]@ == day_text(days[k]),
        forall|j: int, k: int| 0 <= j < k < days.len() ==> #[trigger] days[j] < #[trigger] days[k],
        forall|z: int| a <= z <= b && z % 7 != 2 && z % 7 != 3 ==> #[trigger] days.contains(z),
{
    let days = law_weekdays(a, b);
    let v = views(r->0@);
    assert(v.len() == r->0@.len());
    assert forall|k: int| 0 <= k < days.len() implies a <= #[trigger] days[k] <= b && r->0@[k]@ == day_text(
        days[k],
    ) by {
        assert(v[k] == r->0@[k]@);
    }
    days
}

/// Where either text is no date there are no days to ask for.
pub proof fn law_no_weekdays_between(from: &str, to: &str, r: Option<Vec<String>>)
    requires
        call_ensures(weekdays_between, (from, to), r),
        ymd_value(from@) is None || ymd_value(to@) is None,
    ensures
        r is None,
{
}

/// The date of a day from year 0 to 9999 has ten characters: four digits of the year, two of
/// the month and two of the day, with hyphens between them.
pub proof fn law_shape_of_date(days: i64, r: String, y: int, m: int, d: int)
    requires
        day_in_range(days as int),
        call_ensures(fmt_ymd, (days,), r),
        is_date(y, m, d),
        0 <= y <= 9999,
        calendar_day(y, m, d) == days,
    ensures
        r@.len() == 10,
        r@[4] == '-',
        r@[7] == '-',
        int_value(r@.subrange(0, 4)) == Some(y),
        int_value(r@.subrange(5, 7)) == Some(m),
        int_value(r@.subrange(8, 10)) == Some(d),
{
    law_day_number_counts_days(y, m, d);
    let t = date_text(y, m, d);
    assert(is_text_of_day(t, days as int));
    law_one_text_per_day(t, r@, days as int);
    lemma_padded_len(y as nat, 4);
    lemma_padded_len(m as nat, 2);
    lemma_padded_len(d as nat, 2);
    law_padded_value(y as nat, 4);
    law_padded_value(m as nat, 2);
    law_padded_value(d as nat, 2);
    assert(t.subrange(0, 4) =~= padded(y, 4));
    assert(t.subrange(5, 7) =~= padded(m, 2));
    assert(t.subrange(8, 10) =~= padded(d, 2));
}

proof fn lemma_padded_len(n: nat, width: nat)
    requires
        width == 4 && n <= 9999 || width == 2 && n <= 99,
    ensures
        padded(n as int, width).len() == width,
{
    reveal_with_fuel(decimal, 5);
}

/// Each day more counts one, also beyond the end of a month, and four hundred years are
/// 146097 days, whatever the month.
#[verifier::spinoff_prover]
pub proof fn law_day_number_steps(y: int, m: int, d: int)
    ensures
        day_number(y, m, d + 1) == day_number(y, m, d) + 1,
        day_number(y + 400, m, d) == day_number(y, m, d) + 146097,
{
    let c = march_year(y, m);
    lemma_cycle_quotients(c);
}

#[verifier::spinoff_prover]
#[verifier::rlimit(40)]
proof fn lemma_cycle_quotients(c: int)
    ensures
        (c + 400) / 4 == c / 4 + 100,
        (c + 400) / 100 == c / 100 + 4,
        (c + 400) / 400 == c / 400 + 1,
{
}

} // verus!
