use vstd::arithmetic::div_mod::{
    lemma_fundamental_div_mod, lemma_fundamental_div_mod_converse, lemma_mod_multiples_vanish,
};
use vstd::prelude::*;

verus! {

/// Days in one 400-year Gregorian cycle.
pub const DAYS_PER_CYCLE: u64 = 146097;

pub open spec fn is_leap_year(y: int) -> bool {
    (y % 4 == 0 && y % 100 != 0) || y % 400 == 0
}

pub open spec fn year_length(y: int) -> int {
    if is_leap_year(y) {
        366
    } else {
        365
    }
}

pub open spec fn month_length(y: int, m: int) -> int {
    if m == 2 {
        if is_leap_year(y) {
            29
        } else {
            28
        }
    } else if m == 4 || m == 6 || m == 9 || m == 11 {
        30
    } else {
        31
    }
}

/// Leap years strictly before year `y` counted from year 0 (proleptic Gregorian).
pub open spec fn leaps_before(y: int) -> int {
    (y - 1) / 4 - (y - 1) / 100 + (y - 1) / 400
}

/// Day number of January 1st of year `y`, with 1970-01-01 as day 0.
pub open spec fn days_before_year(y: int) -> int {
    365 * (y - 1970) + leaps_before(y) - leaps_before(1970)
}

/// Days of year `y` that precede the first day of month `m`.
pub open spec fn days_before_month(y: int, m: int) -> int
    decreases m,
{
    if m <= 1 {
        0
    } else {
        days_before_month(y, m - 1) + month_length(y, m - 1)
    }
}

pub open spec fn is_civil_date(y: int, m: int, d: int) -> bool {
    1 <= m <= 12 && 1 <= d <= month_length(y, m)
}

/// Day number of the date `y-m-d`, with 1970-01-01 as day 0.
pub open spec fn days_from_epoch(y: int, m: int, d: int) -> int {
    days_before_year(y) + days_before_month(y, m) + d - 1
}

/// The calendar date `(year, month, day)` of day number `days`.
pub open spec fn civil_of(days: int) -> (int, int, int) {
    choose|c: (int, int, int)| is_civil_date(c.0, c.1, c.2) && days_from_epoch(c.0, c.1, c.2) == days
}

pub open spec fn digit_char(n: int) -> char {
    if n == 0 {
        '0'
    } else if n == 1 {
        '1'
    } else if n == 2 {
        '2'
    } else if n == 3 {
        '3'
    } else if n == 4 {
        '4'
    } else if n == 5 {
        '5'
    } else if n == 6 {
        '6'
    } else if n == 7 {
        '7'
    } else if n == 8 {
        '8'
    } else {
        '9'
    }
}

/// Decimal digits of `n`, without leading zeros.
pub open spec fn decimal(n: nat) -> Seq<char>
    decreases n,
{
    if n < 10 {
        seq![digit_char(n as int)]
    } else {
        decimal(n / 10) + seq![digit_char((n % 10) as int)]
    }
}

/// Decimal text of an integer, with a leading `-` when negative.
pub open spec fn integer_text(i: int) -> Seq<char> {
    if i < 0 {
        seq!['-'] + decimal((-i) as nat)
    } else {
        decimal(i as nat)
    }
}

/// `n` in two digits, zero-padded.
pub open spec fn two_digits(n: int) -> Seq<char> {
    seq![digit_char(n / 10), digit_char(n % 10)]
}

/// `n` in at least four digits, zero-padded.
pub open spec fn four_digits(n: nat) -> Seq<char> {
    if n < 10000 {
        seq![
            digit_char((n / 1000) as int),
            digit_char((n / 100 % 10) as int),
            digit_char((n / 10 % 10) as int),
            digit_char((n % 10) as int),
        ]
    } else {
        decimal(n)
    }
}

/// A year as zero-padded to four digits; a year before 0 carries a leading `-`.
pub open spec fn year_text(y: int) -> Seq<char> {
    if y < 0 {
        seq!['-'] + four_digits((-y) as nat)
    } else {
        four_digits(y as nat)
    }
}

/// `YYYY-MM-DD HH:MM:SS`.
pub open spec fn date_time_text(y: int, mo: int, d: int, h: int, mi: int, s: int) -> Seq<char> {
    year_text(y) + seq!['-'] + two_digits(mo) + seq!['-'] + two_digits(d) + seq![' ']
        + two_digits(h) + seq![':'] + two_digits(mi) + seq![':'] + two_digits(s)
}

/// The text of the instant `t` seconds after 1970-01-01 00:00:00, at offset zero.
pub open spec fn unix_time_text(t: int) -> Seq<char> {
    let c = civil_of(t / 86400);
    let sod = t % 86400;
    date_time_text(c.0, c.1, c.2, sod / 3600, sod % 3600 / 60, sod % 60)
}

proof fn lemma_step_div(y: int, d: int)
    requires
        d > 0,
    ensures
        y / d - (y - 1) / d == (if y % d == 0 {
            1int
        } else {
            0int
        }),
{
    lemma_fundamental_div_mod(y, d);
    let q = y / d;
    let r = y % d;
    assert(y == q * d + r) by (nonlinear_arith)
        requires
            y == d * q + r,
    ;
    if r > 0 {
        lemma_fundamental_div_mod_converse(y - 1, d, q, r - 1);
    } else {
        assert(y - 1 == (q - 1) * d + (d - 1)) by (nonlinear_arith)
            requires
                y == q * d + r,
                r == 0,
        ;
        lemma_fundamental_div_mod_converse(y - 1, d, q - 1, d - 1);
    }
}

proof fn lemma_divides_down(y: int, big: int, small: int)
    requires
        small > 0,
        big > 0,
        big % small == 0,
        y % big == 0,
    ensures
        y % small == 0,
{
    lemma_fundamental_div_mod(y, big);
    lemma_fundamental_div_mod(big, small);
    let q = y / big;
    let k = big / small;
    assert(y == (q * k) * small) by (nonlinear_arith)
        requires
            y == big * q + 0,
            big == small * k + 0,
    ;
    lemma_fundamental_div_mod_converse(y, small, q * k, 0);
}

/// One year further on lies one year's length of days further on.
pub proof fn lemma_next_year(y: int)
    ensures
        days_before_year(y + 1) == days_before_year(y) + year_length(y),
{
    lemma_step_div(y, 4);
    lemma_step_div(y, 100);
    lemma_step_div(y, 400);
    if y % 100 == 0 {
        lemma_divides_down(y, 100, 4);
    }
    if y % 400 == 0 {
        lemma_divides_down(y, 400, 100);
    }
}

proof fn lemma_cycle_start(j: int)
    ensures
        days_before_year(1970 + 400 * j) == 146097 * j,
{
    lemma_fundamental_div_mod_converse(1969 + 400 * j, 4, 492 + 100 * j, 1);
    lemma_fundamental_div_mod_converse(1969 + 400 * j, 100, 19 + 4 * j, 69);
    lemma_fundamental_div_mod_converse(1969 + 400 * j, 400, 4 + j, 369);
    lemma_fundamental_div_mod_converse(1969, 4, 492, 1);
    lemma_fundamental_div_mod_converse(1969, 100, 19, 69);
    lemma_fundamental_div_mod_converse(1969, 400, 4, 369);
}

proof fn lemma_years_ordered(a: int, b: int)
    requires
        a < b,
    ensures
        days_before_year(a) + year_length(a) <= days_before_year(b),
    decreases b - a,
{
    lemma_next_year(a);
    if b > a + 1 {
        lemma_years_ordered(a + 1, b);
    }
}

proof fn lemma_months_ordered(y: int, a: int, b: int)
    requires
        1 <= a < b,
    ensures
        days_before_month(y, a) + month_length(y, a) <= days_before_month(y, b),
    decreases b - a,
{
    if b > a + 1 {
        lemma_months_ordered(y, a + 1, b);
    }
}

proof fn lemma_months_fill_year(y: int)
    ensures
        days_before_month(y, 13) == year_length(y),
        days_before_month(y, 12) + 31 == year_length(y),
{
    reveal_with_fuel(days_before_month, 13);
}

proof fn lemma_date_in_year(y: int, m: int, d: int)
    requires
        is_civil_date(y, m, d),
    ensures
        days_before_year(y) <= days_from_epoch(y, m, d) < days_before_year(y) + year_length(y),
        days_before_month(y, m) <= days_from_epoch(y, m, d) - days_before_year(y)
            < days_before_month(y, m) + month_length(y, m),
{
    lemma_months_fill_year(y);
    if m > 1 {
        lemma_months_ordered(y, 1, m);
    }
    if m < 13 {
        lemma_months_ordered(y, m, 13);
    }
}

/// A day number names one calendar date only.
pub proof fn lemma_civil_unique(y1: int, m1: int, d1: int, y2: int, m2: int, d2: int)
    requires
        is_civil_date(y1, m1, d1),
        is_civil_date(y2, m2, d2),
        days_from_epoch(y1, m1, d1) == days_from_epoch(y2, m2, d2),
    ensures
        y1 == y2 && m1 == m2 && d1 == d2,
{
    lemma_date_in_year(y1, m1, d1);
    lemma_date_in_year(y2, m2, d2);
    if y1 < y2 {
        lemma_years_ordered(y1, y2);
    } else if y2 < y1 {
        lemma_years_ordered(y2, y1);
    }
    if m1 < m2 {
        lemma_months_ordered(y1, m1, m2);
    } else if m2 < m1 {
        lemma_months_ordered(y1, m2, m1);
    }
}

/// Once a date of day number `days` is known, `civil_of` names that date.
pub proof fn lemma_civil_of(days: int, y: int, m: int, d: int)
    requires
        is_civil_date(y, m, d),
        days_from_epoch(y, m, d) == days,
    ensures
        civil_of(days) == (y, m, d),
{
    let w = (y, m, d);
    assert(is_civil_date(w.0, w.1, w.2) && days_from_epoch(w.0, w.1, w.2) == days);
    let c = civil_of(days);
    lemma_civil_unique(c.0, c.1, c.2, y, m, d);
}

proof fn lemma_find_year(days: int, y: int, bound: int) -> (z: int)
    requires
        y < bound,
        days_before_year(y) <= days < days_before_year(bound),
    ensures
        days_before_year(z) <= days < days_before_year(z) + year_length(z),
    decreases bound - y,
{
    lemma_next_year(y);
    if days < days_before_year(y) + year_length(y) {
        y
    } else {
        if y + 1 < bound {
            lemma_find_year(days, y + 1, bound)
        } else {
            y
        }
    }
}

proof fn lemma_find_month(y: int, x: int, m: int) -> (n: int)
    requires
        1 <= m <= 12,
        days_before_month(y, m) <= x < year_length(y),
    ensures
        1 <= n <= 12,
        days_before_month(y, n) <= x < days_before_month(y, n) + month_length(y, n),
    decreases 12 - m,
{
    lemma_months_fill_year(y);
    if x < days_before_month(y, m) + month_length(y, m) {
        m
    } else {
        lemma_find_month(y, x, m + 1)
    }
}

/// Every day number has a calendar date, and `civil_of` gives it.
pub proof fn lemma_civil_of_total(days: int)
    ensures
        is_civil_date(civil_of(days).0, civil_of(days).1, civil_of(days).2),
        days_from_epoch(civil_of(days).0, civil_of(days).1, civil_of(days).2) == days,
{
    let j = days / 146097;
    lemma_fundamental_div_mod(days, 146097);
    lemma_cycle_start(j);
    lemma_cycle_start(j + 1);
    assert(1970 + 400 * (j + 1) == 1970 + 400 * j + 400);
    let y = lemma_find_year(days, 1970 + 400 * j, 1970 + 400 * j + 400);
    let x = days - days_before_year(y);
    let m = lemma_find_month(y, x, 1);
    lemma_civil_of(days, y, m, x - days_before_month(y, m) + 1);
}

/// Formatting is a function of the instant alone: any two renderings of `t` are equal.
pub proof fn lemma_format_deterministic(t: i64, a: String, b: String)
    requires
        a@ == unix_time_text(t as int),
        b@ == unix_time_text(t as int),
    ensures
        a@ == b@,
{
}

/// The epoch itself renders as `1970-01-01 00:00:00`.
pub proof fn lemma_epoch_text()
    ensures
        unix_time_text(0) == "1970-01-01 00:00:00"@,
{
    lemma_civil_of(0, 1970, 1, 1);
    reveal_strlit("1970-01-01 00:00:00");
    assert(unix_time_text(0) =~= "1970-01-01 00:00:00"@);
}

/// An instant before the epoch renders as a valid date of a year before 1970.
pub proof fn lemma_before_epoch(t: int)
    requires
        t < 0,
    ensures
        is_civil_date(civil_of(t / 86400).0, civil_of(t / 86400).1, civil_of(t / 86400).2),
        civil_of(t / 86400).0 < 1970,
{
    let c = civil_of(t / 86400);
    lemma_civil_of_total(t / 86400);
    lemma_date_in_year(c.0, c.1, c.2);
    if c.0 > 1970 {
        lemma_years_ordered(1970, c.0);
    }
}

/// The calendar repeats every 400 years.
proof fn lemma_leap_periodic(y: int, j: int)
    ensures
        is_leap_year(y + 400 * j) == is_leap_year(y),
{
    assert(y + 400 * j == 4 * (100 * j) + y);
    assert(y + 400 * j == 100 * (4 * j) + y);
    lemma_mod_multiples_vanish(100 * j, y, 4);
    lemma_mod_multiples_vanish(4 * j, y, 100);
    lemma_mod_multiples_vanish(j, y, 400);
}

/// The one-character text of decimal digit `n`.
fn digit_str(n: u64) -> (r: &'static str)
    requires
        n < 10,
    ensures
        r@ == seq![digit_char(n as int)],
{
    proof {
        reveal_strlit("0");
        reveal_strlit("1");
        reveal_strlit("2");
        reveal_strlit("3");
        reveal_strlit("4");
        reveal_strlit("5");
        reveal_strlit("6");
        reveal_strlit("7");
        reveal_strlit("8");
        reveal_strlit("9");
    }
    let r = if n == 0 {
        "0"
    } else if n == 1 {
        "1"
    } else if n == 2 {
        "2"
    } else if n == 3 {
        "3"
    } else if n == 4 {
        "4"
    } else if n == 5 {
        "5"
    } else if n == 6 {
        "6"
    } else if n == 7 {
        "7"
    } else if n == 8 {
        "8"
    } else {
        "9"
    };
    assert(r@ =~= seq![digit_char(n as int)]);
    r
}

/// Appends the decimal digits of `n`.
pub fn push_decimal(out: &mut String, n: u64)
    ensures
        final(out)@ == old(out)@ + decimal(n as nat),
    decreases n,
{
    let ghost start = out@;
    if n >= 10 {
        push_decimal(out, n / 10);
    }
    out.append(digit_str(n % 10));
    proof {
        if n >= 10 {
            assert(out@ =~= start + decimal(n as nat));
        } else {
            assert(out@ =~= start + decimal(n as nat));
        }
    }
}

/// Appends the decimal text of `i`, with a leading `-` when negative.
pub fn push_integer(out: &mut String, i: i64)
    ensures
        final(out)@ == old(out)@ + integer_text(i as int),
{
    let ghost start = out@;
    if i < 0 {
        out.append("-");
        proof {
            reveal_strlit("-");
        }
        push_decimal(out, (-(i as i128)) as u64);
        assert(out@ =~= start + integer_text(i as int));
    } else {
        push_decimal(out, i as u64);
    }
}

fn push_two_digits(out: &mut String, n: u64)
    requires
        n < 100,
    ensures
        final(out)@ == old(out)@ + two_digits(n as int),
{
    let ghost start = out@;
    out.append(digit_str(n / 10));
    out.append(digit_str(n % 10));
    assert(out@ =~= start + two_digits(n as int));
}

fn push_four_digits(out: &mut String, n: u64)
    ensures
        final(out)@ == old(out)@ + four_digits(n as nat),
{
    let ghost start = out@;
    if n < 10000 {
        out.append(digit_str(n / 1000));
        out.append(digit_str(n / 100 % 10));
        out.append(digit_str(n / 10 % 10));
        out.append(digit_str(n % 10));
        assert(out@ =~= start + four_digits(n as nat));
    } else {
        push_decimal(out, n);
    }
}

fn push_year(out: &mut String, y: i64)
    ensures
        final(out)@ == old(out)@ + year_text(y as int),
{
    let ghost start = out@;
    if y < 0 {
        out.append("-");
        proof {
            reveal_strlit("-");
        }
        push_four_digits(out, (-(y as i128)) as u64);
        assert(out@ =~= start + year_text(y as int));
    } else {
        push_four_digits(out, y as u64);
    }
}

/// Days since 1970-01-01 that `DAY_SHIFT` moves forward: a whole number of 400-year cycles,
/// enough to make every day number of an `i64` count of seconds non-negative.
const DAY_SHIFT: u64 = 146097000000000;

/// Whole 400-year cycles in `DAY_SHIFT`.
const CYCLE_SHIFT: u64 = 1000000000;

/// Days of the year whose position in the 400-year cycle is that of `y`.
fn year_length_of(y: u64) -> (r: u64)
    ensures
        r == year_length(y as int),
{
    if (y % 4 == 0 && y % 100 != 0) || y % 400 == 0 {
        366
    } else {
        365
    }
}

fn month_length_of(y: u64, m: u64) -> (r: u64)
    ensures
        r == month_length(y as int, m as int),
{
    if m == 2 {
        if (y % 4 == 0 && y % 100 != 0) || y % 400 == 0 {
            29
        } else {
            28
        }
    } else if m == 4 || m == 6 || m == 9 || m == 11 {
        30
    } else {
        31
    }
}

/// The calendar date of day number `days`, 1970-01-01 being day 0.
fn civil_from_days(days: i64) -> (r: (i64, u64, u64))
    requires
        -(DAY_SHIFT as int) <= days <= DAY_SHIFT,
    ensures
        is_civil_date(r.0 as int, r.1 as int, r.2 as int),
        days_from_epoch(r.0 as int, r.1 as int, r.2 as int) == days,
{
    let shifted: u64 = (days as i128 + DAY_SHIFT as i128) as u64;
    let cycle: u64 = shifted / DAYS_PER_CYCLE;
    let mut rem: u64 = shifted % DAYS_PER_CYCLE;
    let ghost j: int = cycle - CYCLE_SHIFT;
    let start: i64 = 1970 + 400 * (cycle as i64 - CYCLE_SHIFT as i64);
    proof {
        lemma_fundamental_div_mod(shifted as int, 146097);
        lemma_cycle_start(j);
        lemma_cycle_start(j + 1);
        assert(1970 + 400 * (j + 1) == start + 400);
    }
    // `k` counts years from `start`; year `1970 + k` has the same place in the cycle.
    let mut k: u64 = 0;
    while rem >= year_length_of(1970 + k)
        invariant
            k <= 400,
            start == 1970 + 400 * j,
            -1000000000000 <= start <= 1000000000000,
            days_before_year(start + k) + rem == days,
            days < days_before_year(start + 400),
        decreases rem,
    {
        proof {
            lemma_leap_periodic(1970 + k, j);
            lemma_next_year(start + k);
        }
        rem = rem - year_length_of(1970 + k);
        k = k + 1;
        proof {
            if k > 400 {
                lemma_years_ordered(start + 400, start + k);
            }
        }
    }
    let y: i64 = start + k as i64;
    proof {
        lemma_leap_periodic(1970 + k, j);
        lemma_months_fill_year(y as int);
    }
    let cycle_year: u64 = 1970 + k;
    let mut m: u64 = 1;
    while rem >= month_length_of(cycle_year, m)
        invariant
            1 <= m <= 12,
            is_leap_year(cycle_year as int) == is_leap_year(y as int),
            days_before_year(y as int) + days_before_month(y as int, m as int) + rem == days,
            days_before_month(y as int, m as int) + rem < year_length(y as int),
            days_before_month(y as int, 12) + 31 == year_length(y as int),
        decreases rem,
    {
        rem = rem - month_length_of(cycle_year, m);
        m = m + 1;
    }
    (y, m, rem + 1)
}

/// Splits `t` seconds into whole days, rounded down, and the seconds into the last day.
fn split_seconds(t: i64) -> (r: (i64, u64))
    ensures
        r.0 == t / 86400,
        r.1 == t % 86400,
        -106751991167301 <= r.0 <= 106751991167300,
{
    let shift_days: u128 = 106751991167301;
    let s: u128 = (t as i128 + (shift_days * 86400) as i128) as u128;
    let days = (s / 86400) as i128 - shift_days as i128;
    let sod = (s % 86400) as u64;
    proof {
        lemma_fundamental_div_mod(s as int, 86400);
        lemma_fundamental_div_mod_converse(t as int, 86400, days as int, sod as int);
    }
    (days as i64, sod)
}

/// Renders `t` seconds since 1970-01-01 00:00:00 as `YYYY-MM-DD HH:MM:SS`, at offset zero.
///
/// Every `i64` is accepted. Years 0 to 9999 take four digits; later years take as many
/// as they need, and years before 0 are written with a leading `-`.
pub fn format_unix_time(t: i64) -> (r: String)
    ensures
        r@ == unix_time_text(t as int),
{
    let (days, sod) = split_seconds(t);
    let (y, m, d) = civil_from_days(days);
    proof {
        lemma_civil_of(days as int, y as int, m as int, d as int);
        reveal_strlit("-");
        reveal_strlit(" ");
        reveal_strlit(":");
    }
    let mut out = String::new();
    push_year(&mut out, y);
    out.append("-");
    push_two_digits(&mut out, m);
    out.append("-");
    push_two_digits(&mut out, d);
    out.append(" ");
    push_two_digits(&mut out, sod / 3600);
    out.append(":");
    push_two_digits(&mut out, sod % 3600 / 60);
    out.append(":");
    push_two_digits(&mut out, sod % 60);
    assert(out@ =~= unix_time_text(t as int));
    out
}

} // verus!
