//! Timestamps sort as the instants do: of two instants whose years have
//! four digits, the earlier one has the timestamp that comes first in the
//! order on text.

use crate::tags::{less_from, text_less};
use crate::time::{
    broken_down, civil_date, days_from_civil, days_in_month, decimal, digit_char, epoch_day,
    iso_text, iso_timestamp, lemma_civil_date_unique, lemma_days_from_civil_increases,
    lemma_month_offsets, lemma_year_lengths, second_of_day, valid_date, zero_padded,
};
use vstd::prelude::*;

verus! {

/// Every day has a date: `civil_date` of a day number is a valid date with
/// that number.
pub proof fn lemma_civil_date_exists(days: int)
    ensures
        valid_date(civil_date(days).0, civil_date(days).1, civil_date(days).2),
        days_from_civil(civil_date(days).0, civil_date(days).1, civil_date(days).2) == days,
    decreases
        (if days >= 0 {
            days
        } else {
            -days
        }),
{
    if days == 0 {
        lemma_month_offsets(1970);
        lemma_civil_date_unique(1970, 1, 1, 0);
    } else if days > 0 {
        lemma_civil_date_exists(days - 1);
        let (y, m, d) = civil_date(days - 1);
        lemma_month_offsets(y);
        lemma_month_offsets(y + 1);
        lemma_year_lengths(y);
        if d < days_in_month(y, m) {
            lemma_civil_date_unique(y, m, d + 1, days);
        } else if m < 12 {
            lemma_civil_date_unique(y, m + 1, 1, days);
        } else {
            lemma_civil_date_unique(y + 1, 1, 1, days);
        }
    } else {
        lemma_civil_date_exists(days + 1);
        let (y, m, d) = civil_date(days + 1);
        lemma_month_offsets(y);
        lemma_month_offsets(y - 1);
        lemma_year_lengths(y - 1);
        if d > 1 {
            lemma_civil_date_unique(y, m, d - 1, days);
        } else if m > 1 {
            lemma_civil_date_unique(y, m - 1, days_in_month(y, m - 1), days);
        } else {
            lemma_civil_date_unique(y - 1, 12, 31, days);
        }
    }
}

/// Whether the date `a` comes before the date `b` in the calendar.
pub open spec fn date_before(a: (int, int, int), b: (int, int, int)) -> bool {
    a.0 < b.0 || (a.0 == b.0 && (a.1 < b.1 || (a.1 == b.1 && a.2 < b.2)))
}

/// Dates follow the days: the earlier day has the earlier date.
pub proof fn lemma_dates_follow_days(earlier: int, later: int)
    requires
        earlier < later,
    ensures
        date_before(civil_date(earlier), civil_date(later)),
{
    lemma_civil_date_exists(earlier);
    lemma_civil_date_exists(later);
    let a = civil_date(earlier);
    let b = civil_date(later);
    if !date_before(a, b) && a != b {
        lemma_days_from_civil_increases(b.0, b.1, b.2, a.0, a.1, a.2);
    }
}

/// No day from the epoch on lies in a year before 1970.
pub proof fn lemma_years_from_the_epoch(days: int)
    requires
        days >= 0,
    ensures
        civil_date(days).0 >= 1970,
{
    lemma_civil_date_exists(days);
    let a = civil_date(days);
    lemma_month_offsets(1970);
    if a.0 < 1970 {
        lemma_days_from_civil_increases(a.0, a.1, a.2, 1970, 1, 1);
    }
}

/// Of two texts of the same length, the one with the smaller character
/// where they first differ comes first.
pub proof fn lemma_first_difference(a: Seq<char>, b: Seq<char>, at: int, from: int)
    requires
        a.len() == b.len(),
        0 <= from <= at < a.len(),
        forall|i: int| 0 <= i < at ==> a[i] == b[i],
        (a[at] as u32) < (b[at] as u32),
    ensures
        less_from(a, b, from),
    decreases at - from,
{
    if from < at {
        lemma_first_difference(a, b, at, from + 1);
    }
}

/// Comparing two texts behind a common start is comparing the texts.
proof fn lemma_shifted(p: Seq<char>, x: Seq<char>, y: Seq<char>, i: int)
    requires
        0 <= i,
    ensures
        less_from(p + x, p + y, p.len() + i) == less_from(x, y, i),
    decreases x.len() - i,
{
    if i < x.len() && i < y.len() {
        assert((p + x)[p.len() + i] == x[i]);
        assert((p + y)[p.len() + i] == y[i]);
        if x[i] == y[i] {
            lemma_shifted(p, x, y, i + 1);
        }
    }
}

/// A common start does not change the order of two texts.
pub proof fn lemma_common_start(p: Seq<char>, x: Seq<char>, y: Seq<char>, from: int)
    requires
        0 <= from <= p.len(),
    ensures
        less_from(p + x, p + y, from) == text_less(x, y),
    decreases p.len() - from,
{
    if from < p.len() {
        assert((p + x)[from] == p[from]);
        assert((p + y)[from] == p[from]);
        if from >= (p + y).len() || from >= (p + x).len() {
        } else {
            lemma_common_start(p, x, y, from + 1);
        }
    } else {
        lemma_shifted(p, x, y, 0);
    }
}

/// Of two texts that start with texts of the same length of which one comes
/// first, the one that starts with that one comes first.
pub proof fn lemma_decided_at_the_start(
    x: Seq<char>,
    y: Seq<char>,
    r: Seq<char>,
    t: Seq<char>,
    from: int,
)
    requires
        x.len() == y.len(),
        0 <= from,
        less_from(x, y, from),
    ensures
        less_from(x + r, y + t, from),
    decreases x.len() - from,
{
    assert(from < x.len());
    assert((x + r)[from] == x[from]);
    assert((y + t)[from] == y[from]);
    if x[from] == y[from] {
        lemma_decided_at_the_start(x, y, r, t, from + 1);
    }
}

/// One part of a timestamp and what follows it. Where the parts have the
/// same length, the text with the part that comes first comes first, and
/// with the same part what follows decides.
pub proof fn lemma_part_then_rest(x: Seq<char>, y: Seq<char>, r: Seq<char>, t: Seq<char>)
    requires
        x.len() == y.len(),
        text_less(x, y) || (x == y && text_less(r, t)),
    ensures
        text_less(x + r, y + t),
{
    if text_less(x, y) {
        lemma_decided_at_the_start(x, y, r, t, 0);
    } else {
        lemma_common_start(x, r, t, 0);
    }
}

/// The code of a digit's character is 48 more than the digit.
proof fn lemma_digit_code(d: int)
    requires
        0 <= d <= 9,
    ensures
        digit_char(d) as u32 == 48 + d,
{
}

/// Numbers below 100, padded to two digits, have two characters and sort
/// as the numbers do.
pub proof fn lemma_two_digits(m: nat, n: nat)
    requires
        m <= n < 100,
    ensures
        zero_padded(m, 2).len() == 2,
        zero_padded(n, 2).len() == 2,
        m < n ==> text_less(zero_padded(m, 2), zero_padded(n, 2)),
{
    reveal_with_fuel(decimal, 3);
    let x = zero_padded(m, 2);
    let y = zero_padded(n, 2);
    assert(x =~= seq![digit_char(m as int / 10), digit_char(m as int % 10)]);
    assert(y =~= seq![digit_char(n as int / 10), digit_char(n as int % 10)]);
    lemma_digit_code(m as int / 10);
    lemma_digit_code(m as int % 10);
    lemma_digit_code(n as int / 10);
    lemma_digit_code(n as int % 10);
    if m < n {
        if m / 10 < n / 10 {
            lemma_first_difference(x, y, 0, 0);
        } else {
            lemma_first_difference(x, y, 1, 0);
        }
    }
}

/// Numbers of four digits have four characters and sort as the numbers do.
pub proof fn lemma_four_digits(m: nat, n: nat)
    requires
        1000 <= m <= n < 10000,
    ensures
        zero_padded(m, 4).len() == 4,
        zero_padded(n, 4).len() == 4,
        m < n ==> text_less(zero_padded(m, 4), zero_padded(n, 4)),
{
    reveal_with_fuel(decimal, 5);
    let x = zero_padded(m, 4);
    let y = zero_padded(n, 4);
    let (m0, m1, m2, m3) = (m as int / 1000, m as int / 100 % 10, m as int / 10 % 10, m as int % 10);
    let (n0, n1, n2, n3) = (n as int / 1000, n as int / 100 % 10, n as int / 10 % 10, n as int % 10);
    assert(x =~= seq![digit_char(m0), digit_char(m1), digit_char(m2), digit_char(m3)]);
    assert(y =~= seq![digit_char(n0), digit_char(n1), digit_char(n2), digit_char(n3)]);
    lemma_digit_code(m0);
    lemma_digit_code(m1);
    lemma_digit_code(m2);
    lemma_digit_code(m3);
    lemma_digit_code(n0);
    lemma_digit_code(n1);
    lemma_digit_code(n2);
    lemma_digit_code(n3);
    assert(m == 1000 * m0 + 100 * m1 + 10 * m2 + m3);
    assert(n == 1000 * n0 + 100 * n1 + 10 * n2 + n3);
    if m < n {
        if m0 != n0 {
            lemma_first_difference(x, y, 0, 0);
        } else if m1 != n1 {
            lemma_first_difference(x, y, 1, 0);
        } else if m2 != n2 {
            lemma_first_difference(x, y, 2, 0);
        } else {
            lemma_first_difference(x, y, 3, 0);
        }
    }
}

/// Whether the parts are those of a date and time with a year of four
/// digits.
pub open spec fn four_digit_year(p: (int, int, int, int, int, int)) -> bool {
    &&& 1000 <= p.0 < 10000
    &&& 0 <= p.1 < 100
    &&& 0 <= p.2 < 100
    &&& 0 <= p.3 < 100
    &&& 0 <= p.4 < 100
    &&& 0 <= p.5 < 100
}

/// Whether the parts `a` come before the parts `b`, part by part from the
/// year down to the second.
pub open spec fn parts_before(
    a: (int, int, int, int, int, int),
    b: (int, int, int, int, int, int),
) -> bool {
    a.0 < b.0 || (a.0 == b.0 && (a.1 < b.1 || (a.1 == b.1 && (a.2 < b.2 || (a.2 == b.2 && (a.3
        < b.3 || (a.3 == b.3 && (a.4 < b.4 || (a.4 == b.4 && a.5 < b.5)))))))))
}

/// Two parts of two digits each, and what follows them after a mark.
proof fn lemma_two_digit_part(
    m: int,
    n: int,
    mark: char,
    r: Seq<char>,
    t: Seq<char>,
)
    requires
        0 <= m < 100,
        0 <= n < 100,
        m < n || (m == n && text_less(r, t)),
    ensures
        text_less(
            zero_padded(m as nat, 2) + (seq![mark] + r),
            zero_padded(n as nat, 2) + (seq![mark] + t),
        ),
{
    if m < n {
        lemma_two_digits(m as nat, n as nat);
    } else {
        lemma_two_digits(m as nat, n as nat);
        lemma_common_start(seq![mark], r, t, 0);
    }
    lemma_part_then_rest(
        zero_padded(m as nat, 2),
        zero_padded(n as nat, 2),
        seq![mark] + r,
        seq![mark] + t,
    );
}

/// Timestamps with years of four digits sort as their parts do.
pub proof fn lemma_iso_text_order(
    a: (int, int, int, int, int, int),
    b: (int, int, int, int, int, int),
)
    requires
        four_digit_year(a),
        four_digit_year(b),
        parts_before(a, b),
    ensures
        text_less(
            iso_text(a.0 as nat, a.1 as nat, a.2 as nat, a.3 as nat, a.4 as nat, a.5 as nat),
            iso_text(b.0 as nat, b.1 as nat, b.2 as nat, b.3 as nat, b.4 as nat, b.5 as nat),
        ),
{
    let end = seq!['Z'];
    let a5 = zero_padded(a.5 as nat, 2) + end;
    let b5 = zero_padded(b.5 as nat, 2) + end;
    let a4 = zero_padded(a.4 as nat, 2) + (seq![':'] + a5);
    let b4 = zero_padded(b.4 as nat, 2) + (seq![':'] + b5);
    let a3 = zero_padded(a.3 as nat, 2) + (seq![':'] + a4);
    let b3 = zero_padded(b.3 as nat, 2) + (seq![':'] + b4);
    let a2 = zero_padded(a.2 as nat, 2) + (seq!['T'] + a3);
    let b2 = zero_padded(b.2 as nat, 2) + (seq!['T'] + b3);
    let a1 = zero_padded(a.1 as nat, 2) + (seq!['-'] + a2);
    let b1 = zero_padded(b.1 as nat, 2) + (seq!['-'] + b2);
    if a.0 == b.0 {
        if a.1 == b.1 {
            if a.2 == b.2 {
                if a.3 == b.3 {
                    if a.4 == b.4 {
                        lemma_two_digits(a.5 as nat, b.5 as nat);
                        lemma_part_then_rest(
                            zero_padded(a.5 as nat, 2),
                            zero_padded(b.5 as nat, 2),
                            end,
                            end,
                        );
                    }
                    lemma_two_digit_part(a.4, b.4, ':', a5, b5);
                }
                lemma_two_digit_part(a.3, b.3, ':', a4, b4);
            }
            lemma_two_digit_part(a.2, b.2, 'T', a3, b3);
        }
        lemma_two_digit_part(a.1, b.1, '-', a2, b2);
        lemma_common_start(seq!['-'], a1, b1, 0);
    }
    lemma_four_digits(a.0 as nat, b.0 as nat);
    lemma_part_then_rest(
        zero_padded(a.0 as nat, 4),
        zero_padded(b.0 as nat, 4),
        seq!['-'] + a1,
        seq!['-'] + b1,
    );
}

/// The parts follow the instants: the earlier instant has the earlier
/// parts.
pub proof fn lemma_parts_follow_instants(earlier: int, later: int)
    requires
        earlier < later,
    ensures
        parts_before(broken_down(earlier), broken_down(later)),
{
    let d1 = epoch_day(earlier);
    let d2 = epoch_day(later);
    if d1 < d2 {
        lemma_dates_follow_days(d1, d2);
    } else {
        assert(d1 == d2);
        assert(second_of_day(earlier) < second_of_day(later));
    }
}

/// Timestamps sort as the instants do. Of two instants from the epoch on,
/// the later one in a year of at most four digits, the earlier has the
/// timestamp that comes first in the order on text.
pub proof fn lemma_timestamps_sort(earlier: nat, later: nat)
    requires
        earlier < later,
        broken_down(later as int).0 <= 9999,
    ensures
        text_less(iso_timestamp(earlier), iso_timestamp(later)),
{
    let a = broken_down(earlier as int);
    let b = broken_down(later as int);
    lemma_parts_follow_instants(earlier as int, later as int);
    lemma_years_from_the_epoch(epoch_day(earlier as int));
    lemma_years_from_the_epoch(epoch_day(later as int));
    lemma_civil_date_exists(epoch_day(earlier as int));
    lemma_civil_date_exists(epoch_day(later as int));
    lemma_iso_text_order(a, b);
}

} // verus!
