//! Calendar arithmetic for timestamps: seconds since the Unix epoch to a
//! proleptic Gregorian date and time of day in UTC, and its ISO-8601 text.

use crate::text::push_char;
use vstd::prelude::*;

verus! {

/// The length of a day in seconds.
pub const SECONDS_PER_DAY: i64 = 86_400;

/// Whether `y` is a leap year of the Gregorian calendar: divisible by 4 and
/// not by 100, unless divisible by 400.
pub open spec fn leap_year(y: int) -> bool {
    (y % 4 == 0 && y % 100 != 0) || y % 400 == 0
}

/// The number of days of year `y`.
pub open spec fn days_in_year(y: int) -> int {
    if leap_year(y) {
        366
    } else {
        365
    }
}

/// Length of month `m` (1 = January) of year `y`; 0 for a month that does
/// not exist.
pub open spec fn days_in_month(y: int, m: int) -> int {
    if m == 2 {
        if leap_year(y) {
            29
        } else {
            28
        }
    } else if m == 4 || m == 6 || m == 9 || m == 11 {
        30
    } else if 1 <= m <= 12 {
        31
    } else {
        0
    }
}

/// Days of year `y` that lie before the first of month `m`.
pub open spec fn days_before_month(y: int, m: int) -> int
    decreases m,
{
    if m <= 1 {
        0
    } else {
        days_before_month(y, m - 1) + days_in_month(y, m - 1)
    }
}

/// Days from 1970-01-01 to the first of January of year `y`; negative for
/// years before 1970.
pub open spec fn days_before_year(y: int) -> int
    decreases
        (if y >= 1970 {
            y - 1970
        } else {
            1970 - y
        }),
{
    if y > 1970 {
        days_before_year(y - 1) + days_in_year(y - 1)
    } else if y < 1970 {
        days_before_year(y + 1) - days_in_year(y)
    } else {
        0
    }
}

/// A day that exists in the proleptic Gregorian calendar.
pub open spec fn valid_date(y: int, m: int, d: int) -> bool {
    1 <= m <= 12 && 1 <= d <= days_in_month(y, m)
}

/// The number of the day `y-m-d`, counted from 1970-01-01 as day 0.
pub open spec fn days_from_civil(y: int, m: int, d: int) -> int {
    days_before_year(y) + days_before_month(y, m) + d - 1
}

/// The calendar date of day number `days`: the one valid date that
/// `days_from_civil` maps to it (see `lemma_civil_date_unique`).
pub open spec fn civil_date(days: int) -> (int, int, int) {
    choose|t: (int, int, int)| valid_date(t.0, t.1, t.2) && days_from_civil(t.0, t.1, t.2) == days
}

/// Whole days from the epoch to the instant `secs`, rounded toward the past.
pub open spec fn epoch_day(secs: int) -> int {
    secs / 86_400
}

/// Seconds of the instant `secs` since the midnight that began its day.
pub open spec fn second_of_day(secs: int) -> int {
    secs % 86_400
}

/// Date and time of day of the instant `secs`, as
/// (year, month, day, hour, minute, second).
pub open spec fn broken_down(secs: int) -> (int, int, int, int, int, int) {
    let date = civil_date(epoch_day(secs));
    let tod = second_of_day(secs);
    (date.0, date.1, date.2, tod / 3600, (tod / 60) % 60, tod % 60)
}

/// A year has 365 or 366 days, and the next year begins right after it.
pub proof fn lemma_year_lengths(y: int)
    ensures
        days_before_year(y + 1) == days_before_year(y) + days_in_year(y),
        365 <= days_in_year(y) <= 366,
{
}

/// The first of January moves with the year: later years begin on later
/// days, at least 365 days apart per year.
pub proof fn lemma_years_increase(a: int, b: int)
    requires
        a <= b,
    ensures
        days_before_year(a) + 365 * (b - a) <= days_before_year(b),
    decreases b - a,
{
    if a < b {
        lemma_years_increase(a, b - 1);
        lemma_year_lengths(b - 1);
    }
}

/// The days before each month of year `y`, and that the months of a year
/// fill it.
pub proof fn lemma_month_offsets(y: int)
    ensures
        days_before_month(y, 1) == 0,
        days_before_month(y, 2) == 31,
        days_before_month(y, 3) == 31 + days_in_month(y, 2),
        days_before_month(y, 4) == 62 + days_in_month(y, 2),
        days_before_month(y, 5) == 92 + days_in_month(y, 2),
        days_before_month(y, 6) == 123 + days_in_month(y, 2),
        days_before_month(y, 7) == 153 + days_in_month(y, 2),
        days_before_month(y, 8) == 184 + days_in_month(y, 2),
        days_before_month(y, 9) == 215 + days_in_month(y, 2),
        days_before_month(y, 10) == 245 + days_in_month(y, 2),
        days_before_month(y, 11) == 276 + days_in_month(y, 2),
        days_before_month(y, 12) == 306 + days_in_month(y, 2),
        days_before_month(y, 13) == days_in_year(y),
{
    reveal_with_fuel(days_before_month, 14);
}

/// Within one year a valid date lies on a day of that year.
pub proof fn lemma_day_of_year_bounds(y: int, m: int, d: int)
    requires
        valid_date(y, m, d),
    ensures
        0 <= days_before_month(y, m) + d - 1 < days_in_year(y),
{
    lemma_month_offsets(y);
}

/// Day numbers follow the calendar: of two valid dates the earlier one has
/// the smaller number.
pub proof fn lemma_days_from_civil_increases(
    y1: int,
    m1: int,
    d1: int,
    y2: int,
    m2: int,
    d2: int,
)
    requires
        valid_date(y1, m1, d1),
        valid_date(y2, m2, d2),
        y1 < y2 || (y1 == y2 && (m1 < m2 || (m1 == m2 && d1 < d2))),
    ensures
        days_from_civil(y1, m1, d1) < days_from_civil(y2, m2, d2),
{
    lemma_day_of_year_bounds(y1, m1, d1);
    lemma_day_of_year_bounds(y2, m2, d2);
    if y1 < y2 {
        lemma_year_lengths(y1);
        lemma_years_increase(y1 + 1, y2);
    } else {
        lemma_month_offsets(y1);
    }
}

/// Every day has exactly one date: a valid date whose number is `days` is
/// `civil_date(days)`.
pub proof fn lemma_civil_date_unique(y: int, m: int, d: int, days: int)
    requires
        valid_date(y, m, d),
        days_from_civil(y, m, d) == days,
    ensures
        civil_date(days) == (y, m, d),
{
    let t = (y, m, d);
    assert(valid_date(t.0, t.1, t.2) && days_from_civil(t.0, t.1, t.2) == days);
    let c = civil_date(days);
    assert(valid_date(c.0, c.1, c.2) && days_from_civil(c.0, c.1, c.2) == days);
    if c.0 < y || (c.0 == y && (c.1 < m || (c.1 == m && c.2 < d))) {
        lemma_days_from_civil_increases(c.0, c.1, c.2, y, m, d);
    } else if c != t {
        lemma_days_from_civil_increases(y, m, d, c.0, c.1, c.2);
    }
}

/// Whether `y` is a leap year.
pub fn is_leap(y: i64) -> (leap: bool)
    ensures
        leap == leap_year(y as int),
{
    let by_4 = y % 4 == 0;
    assert(by_4 == (y as int % 4 == 0));
    let by_100 = y % 100 == 0;
    assert(by_100 == (y as int % 100 == 0));
    let by_400 = y % 400 == 0;
    assert(by_400 == (y as int % 400 == 0));
    (by_4 && !by_100) || by_400
}

fn year_length(y: i64) -> (n: i64)
    ensures
        n == days_in_year(y as int),
{
    if is_leap(y) {
        366
    } else {
        365
    }
}

fn month_length(y: i64, m: i64) -> (n: i64)
    requires
        1 <= m <= 12,
    ensures
        n == days_in_month(y as int, m as int),
{
    if m == 2 {
        if is_leap(y) {
            29
        } else {
            28
        }
    } else if m == 4 || m == 6 || m == 9 || m == 11 {
        30
    } else {
        31
    }
}

/// The date of day number `days`, as (year, month, day of month).
pub fn civil_from_days(days: i64) -> (date: (i64, i64, i64))
    ensures
        valid_date(date.0 as int, date.1 as int, date.2 as int),
        days_from_civil(date.0 as int, date.1 as int, date.2 as int) == days,
        (date.0 as int, date.1 as int, date.2 as int) == civil_date(days as int),
        days >= 0 <==> date.0 >= 1970,
{
    let mut y: i64 = 1970;
    let mut d: i64 = days;
    if days < 0 {
        while d < 0
            invariant
                days_before_year(y as int) + d == days,
                days <= d < days_in_year(y as int),
                y <= 1970,
                365 * (1970 - y) <= d - days,
            decreases 366 - d,
        {
            proof {
                lemma_year_lengths(y - 1);
            }
            y -= 1;
            d += year_length(y);
        }
    } else {
        while d >= year_length(y)
            invariant
                days_before_year(y as int) + d == days,
                0 <= d <= days,
                1970 <= y,
                365 * (y - 1970) <= days - d,
            decreases d,
        {
            proof {
                lemma_year_lengths(y as int);
            }
            d -= year_length(y);
            y += 1;
        }
    }
    let ghost day_of_year = d as int;
    let mut mo: i64 = 1;
    while mo < 12 && d >= month_length(y, mo)
        invariant
            1 <= mo <= 12,
            0 <= d,
            days_before_month(y as int, mo as int) + d == day_of_year,
            day_of_year < days_in_year(y as int),
        decreases 12 - mo,
    {
        d -= month_length(y, mo);
        mo += 1;
    }
    proof {
        lemma_month_offsets(y as int);
        lemma_civil_date_unique(y as int, mo as int, d + 1, days as int);
    }
    (y, mo, d + 1)
}

/// Breaks the instant `secs` seconds after the Unix epoch (before it, where
/// negative) into year, month, day, hour, minute and second in UTC.
pub fn epoch_to_ymd(secs: i64) -> (parts: (i64, i64, i64, i64, i64, i64))
    ensures
        valid_date(parts.0 as int, parts.1 as int, parts.2 as int),
        0 <= parts.3 < 24,
        0 <= parts.4 < 60,
        0 <= parts.5 < 60,
        days_from_civil(parts.0 as int, parts.1 as int, parts.2 as int) * 86_400 + parts.3 * 3600
            + parts.4 * 60 + parts.5 == secs,
        (
            parts.0 as int,
            parts.1 as int,
            parts.2 as int,
            parts.3 as int,
            parts.4 as int,
            parts.5 as int,
        ) == broken_down(secs as int),
{
    let mut days = secs / SECONDS_PER_DAY;
    let mut rem = secs % SECONDS_PER_DAY;
    if rem < 0 {
        rem += SECONDS_PER_DAY;
        days -= 1;
    }
    assert(days == epoch_day(secs as int) && rem == second_of_day(secs as int));
    let sec = rem % 60;
    let mins = rem / 60;
    let min = mins % 60;
    let hour = mins / 60;
    let (y, mo, d) = civil_from_days(days);
    (y, mo, d, hour, min, sec)
}

/// The character of the decimal digit `d`.
pub open spec fn digit_char(d: int) -> char {
    (48 + d) as char
}

/// The decimal digits of `n`, most significant first, without padding.
pub open spec fn decimal(n: nat) -> Seq<char>
    decreases n,
{
    if n < 10 {
        seq![digit_char(n as int)]
    } else {
        decimal(n / 10).push(digit_char((n % 10) as int))
    }
}

/// `n` in decimal, with zeros in front where it has fewer than `width`
/// digits.
pub open spec fn zero_padded(n: nat, width: nat) -> Seq<char> {
    let digits = decimal(n);
    if digits.len() >= width {
        digits
    } else {
        Seq::new((width - digits.len()) as nat, |i: int| '0') + digits
    }
}

/// `HH:MM:SSZ` for the given time of day.
pub open spec fn iso_time(h: nat, mi: nat, s: nat) -> Seq<char> {
    zero_padded(h, 2) + (seq![':'] + (zero_padded(mi, 2) + (seq![':'] + (zero_padded(s, 2)
        + seq!['Z']))))
}

/// `YYYY-MM-DDTHH:MM:SSZ` for the given date and time of day.
pub open spec fn iso_text(y: nat, mo: nat, d: nat, h: nat, mi: nat, s: nat) -> Seq<char> {
    zero_padded(y, 4) + (seq!['-'] + (zero_padded(mo, 2) + (seq!['-'] + (zero_padded(d, 2) + (
    seq!['T'] + iso_time(h, mi, s))))))
}

/// The ISO-8601 UTC timestamp, to the second, of the instant `secs` seconds
/// after the Unix epoch.
pub open spec fn iso_timestamp(secs: nat) -> Seq<char> {
    let p = broken_down(secs as int);
    iso_text(p.0 as nat, p.1 as nat, p.2 as nat, p.3 as nat, p.4 as nat, p.5 as nat)
}

fn decimal_len(n: u64) -> (len: usize)
    ensures
        len == decimal(n as nat).len(),
        1 <= len <= 20,
    decreases n,
{
    if n < 10 {
        1
    } else {
        let rest = decimal_len(n / 10);
        proof {
            lemma_decimal_len_bound((n / 10) as nat);
        }
        rest + 1
    }
}

proof fn lemma_decimal_len_bound(n: nat)
    ensures
        n < 10_000_000_000_000_000_000 ==> decimal(n).len() <= 19,
        decimal(n).len() >= 1,
{
    reveal_with_fuel(decimal, 20);
}

fn push_decimal(out: &mut String, n: u64)
    ensures
        final(out)@ == old(out)@ + decimal(n as nat),
    decreases n,
{
    if n >= 10 {
        push_decimal(out, n / 10);
    }
    push_char(out, (48u8 + (n % 10) as u8) as char);
}

fn push_padded(out: &mut String, n: u64, width: usize)
    ensures
        final(out)@ == old(out)@ + zero_padded(n as nat, width as nat),
{
    let len = decimal_len(n);
    let mut i: usize = len;
    while i < width
        invariant
            len <= i,
            len < width ==> i <= width,
            len >= width ==> i == len,
            out@ == old(out)@ + Seq::new((i - len) as nat, |k: int| '0'),
        decreases width - i,
    {
        push_char(out, '0');
        i += 1;
    }
    let ghost zeros = Seq::new((i - len) as nat, |k: int| '0');
    push_decimal(out, n);
    assert(out@ =~= old(out)@ + (zeros + decimal(n as nat)));
    assert(zeros + decimal(n as nat) =~= zero_padded(n as nat, width as nat));
}

/// Appends `HH:MM:SSZ` for the given time of day.
fn push_time(out: &mut String, h: u64, mi: u64, s: u64)
    ensures
        final(out)@ == old(out)@ + iso_time(h as nat, mi as nat, s as nat),
{
    push_padded(out, h, 2);
    push_char(out, ':');
    push_padded(out, mi, 2);
    push_char(out, ':');
    push_padded(out, s, 2);
    push_char(out, 'Z');
    assert(out@ =~= old(out)@ + iso_time(h as nat, mi as nat, s as nat));
}

/// Formats the instant `secs` seconds after the Unix epoch as
/// `YYYY-MM-DDTHH:MM:SSZ` in UTC.
pub fn system_time_to_iso(secs: u64) -> (iso: String)
    ensures
        iso@ == iso_timestamp(secs as nat),
{
    let days = (secs / 86_400) as i64;
    let rem = secs % 86_400;
    let (y, mo, d) = civil_from_days(days);
    let mut iso = String::new();
    push_padded(&mut iso, y as u64, 4);
    push_char(&mut iso, '-');
    push_padded(&mut iso, mo as u64, 2);
    push_char(&mut iso, '-');
    push_padded(&mut iso, d as u64, 2);
    push_char(&mut iso, 'T');
    push_time(&mut iso, rem / 3600, (rem / 60) % 60, rem % 60);
    assert(iso@ =~= iso_text(
        y as nat,
        mo as nat,
        d as nat,
        (rem / 3600) as nat,
        ((rem / 60) % 60) as nat,
        (rem % 60) as nat,
    ));
    iso
}

} // verus!
