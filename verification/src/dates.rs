//! Plain-value calendar dates and their day-number arithmetic.
//!
//! A `Date` holds a year, month and day directly; `day_number` maps a valid
//! date to the count of days since 0001-01-01, which is the model every cycle
//! computation is stated over.

use vstd::prelude::*;
use vstd::string::*;

verus! {

/// A calendar date in the proleptic Gregorian calendar, held as plain values.
#[derive(Clone, Copy, Debug, PartialEq, Eq, Structural)]
pub struct Date {
    pub year: i64,
    pub month: i64,
    pub day: i64,
}

/// A year divisible by 4 is a leap year, except century years not divisible
/// by 400.
pub open spec fn is_leap_year(y: int) -> bool {
    y % 4 == 0 && (y % 100 != 0 || y % 400 == 0)
}

pub open spec fn days_in_year(y: int) -> int {
    if is_leap_year(y) {
        366
    } else {
        365
    }
}

pub open spec fn days_in_month(y: int, m: int) -> int {
    if m == 2 {
        if is_leap_year(y) {
            29
        } else {
            28
        }
    } else if m == 4 || m == 6 || m == 9 || m == 11 {
        30
    } else {
        31
    }
}

/// Days of year `y` that pass before month `m` begins.
pub open spec fn days_before_month(y: int, m: int) -> int {
    let l: int = if is_leap_year(y) {
        1
    } else {
        0
    };
    if m <= 1 {
        0
    } else if m == 2 {
        31
    } else if m == 3 {
        59 + l
    } else if m == 4 {
        90 + l
    } else if m == 5 {
        120 + l
    } else if m == 6 {
        151 + l
    } else if m == 7 {
        181 + l
    } else if m == 8 {
        212 + l
    } else if m == 9 {
        243 + l
    } else if m == 10 {
        273 + l
    } else if m == 11 {
        304 + l
    } else {
        334 + l
    }
}

/// Days that pass before year `y` begins, counting from 0001-01-01 as day 0.
pub open spec fn days_before_year(y: int) -> int
    decreases y,
{
    if y <= 1 {
        0
    } else {
        days_before_year(y - 1) + days_in_year(y - 1)
    }
}

pub open spec fn valid_date(d: Date) -> bool {
    &&& 1 <= d.year <= 9999
    &&& 1 <= d.month <= 12
    &&& 1 <= d.day <= days_in_month(d.year as int, d.month as int)
}

/// The number of days from 0001-01-01 to `d`.
pub open spec fn day_number(d: Date) -> int {
    days_before_year(d.year as int) + days_before_month(d.year as int, d.month as int) + d.day - 1
}

/// Lexicographic (and hence chronological) order on dates.
pub open spec fn date_lt(a: Date, b: Date) -> bool {
    ||| a.year < b.year
    ||| (a.year == b.year && a.month < b.month)
    ||| (a.year == b.year && a.month == b.month && a.day < b.day)
}

pub proof fn lemma_days_before_year_bounds(a: int, b: int)
    requires
        1 <= a <= b,
    ensures
        365 * (b - a) <= days_before_year(b) - days_before_year(a) <= 366 * (b - a),
    decreases b - a,
{
    if a < b {
        lemma_days_before_year_bounds(a, b - 1);
    }
}

pub proof fn lemma_month_step(y: int, m: int)
    requires
        1 <= m <= 12,
    ensures
        days_before_month(y, m) + days_in_month(y, m) == if m == 12 {
            days_in_year(y)
        } else {
            days_before_month(y, m + 1)
        },
{
}

proof fn lemma_days_before_month_bounds(y: int, m: int)
    requires
        1 <= m <= 12,
    ensures
        0 <= days_before_month(y, m),
        days_before_month(y, m) + days_in_month(y, m) <= days_in_year(y),
{
}

/// Every valid date's day number falls inside its year's span of days.
pub proof fn lemma_day_number_in_year(d: Date)
    requires
        valid_date(d),
    ensures
        days_before_year(d.year as int) <= day_number(d),
        day_number(d) < days_before_year(d.year as int) + days_in_year(d.year as int),
        day_number(d) < days_before_year(d.year as int + 1),
{
    lemma_days_before_month_bounds(d.year as int, d.month as int);
}

/// Chronological order of valid dates agrees with day-number order.
pub proof fn lemma_day_number_mono(a: Date, b: Date)
    requires
        valid_date(a),
        valid_date(b),
        date_lt(a, b),
    ensures
        day_number(a) < day_number(b),
{
    if a.year < b.year {
        lemma_day_number_in_year(a);
        lemma_day_number_in_year(b);
        lemma_days_before_year_bounds(a.year as int + 1, b.year as int);
    } else if a.month < b.month {
        lemma_days_before_month_bounds(a.year as int, a.month as int);
        lemma_month_step(a.year as int, a.month as int);
        if a.month as int + 1 <= b.month {
            lemma_days_before_month_mono(a.year as int, a.month as int + 1, b.month as int);
        }
    }
}

proof fn lemma_days_before_month_mono(y: int, m1: int, m2: int)
    requires
        1 <= m1 <= m2 <= 12,
    ensures
        days_before_month(y, m1) <= days_before_month(y, m2),
{
}

/// `day_number` is injective on valid dates.
pub proof fn lemma_day_number_injective(a: Date, b: Date)
    requires
        valid_date(a),
        valid_date(b),
        day_number(a) == day_number(b),
    ensures
        a == b,
{
    if date_lt(a, b) {
        lemma_day_number_mono(a, b);
    } else if date_lt(b, a) {
        lemma_day_number_mono(b, a);
    }
}

fn leap_year_check(y: i64) -> (r: bool)
    requires
        1 <= y <= 10000,
    ensures
        r == is_leap_year(y as int),
{
    y % 4 == 0 && (y % 100 != 0 || y % 400 == 0)
}

pub fn days_in_month_x(y: i64, m: i64) -> (r: i64)
    requires
        1 <= y <= 10000,
        1 <= m <= 12,
    ensures
        r == days_in_month(y as int, m as int),
{
    if m == 2 {
        if leap_year_check(y) {
            29
        } else {
            28
        }
    } else if m == 4 || m == 6 || m == 9 || m == 11 {
        30
    } else {
        31
    }
}

pub(crate) fn days_before_year_x(y: i64) -> (r: i64)
    requires
        1 <= y <= 10001,
    ensures
        r == days_before_year(y as int),
{
    let mut i: i64 = 1;
    let mut acc: i64 = 0;
    while i < y
        invariant
            1 <= i <= y <= 10001,
            acc == days_before_year(i as int),
        decreases y - i,
    {
        proof {
            lemma_days_before_year_bounds(1, i as int + 1);
        }
        acc = acc + if leap_year_check(i) {
            366
        } else {
            365
        };
        i = i + 1;
    }
    acc
}

fn days_before_month_x(y: i64, m: i64) -> (r: i64)
    requires
        1 <= y <= 10000,
        1 <= m <= 12,
    ensures
        r == days_before_month(y as int, m as int),
{
    let l: i64 = if leap_year_check(y) {
        1
    } else {
        0
    };
    if m == 1 {
        0
    } else if m == 2 {
        31
    } else if m == 3 {
        59 + l
    } else if m == 4 {
        90 + l
    } else if m == 5 {
        120 + l
    } else if m == 6 {
        151 + l
    } else if m == 7 {
        181 + l
    } else if m == 8 {
        212 + l
    } else if m == 9 {
        243 + l
    } else if m == 10 {
        273 + l
    } else if m == 11 {
        304 + l
    } else {
        334 + l
    }
}

/// Computes the day number of a valid date.
pub fn day_number_of(d: &Date) -> (n: i64)
    requires
        valid_date(*d),
    ensures
        n == day_number(*d),
        0 <= n < days_before_year(10000),
{
    proof {
        lemma_day_number_in_year(*d);
        lemma_days_before_year_bounds(1, d.year as int);
        lemma_days_before_year_bounds(d.year as int + 1, 10000);
    }
    let by = days_before_year_x(d.year);
    let bm = days_before_month_x(d.year, d.month);
    by + bm + d.day - 1
}

/// Recovers the unique valid date with the given day number.
pub fn date_of_day_number(n: i64) -> (d: Date)
    requires
        0 <= n < days_before_year(10000),
    ensures
        valid_date(d),
        day_number(d) == n,
{
    let mut y: i64 = 1;
    let mut rest: i64 = n;
    proof {
        lemma_days_before_year_bounds(1, 10000);
    }
    loop
        invariant
            1 <= y <= 9999,
            0 <= rest < days_before_year(10000),
            rest == n - days_before_year(y as int),
            n < days_before_year(10000),
        ensures
            1 <= y <= 9999,
            rest == n - days_before_year(y as int),
            0 <= rest < days_in_year(y as int),
        decreases 10000 - y,
    {
        let diy: i64 = if leap_year_check(y) {
            366
        } else {
            365
        };
        if rest < diy {
            break ;
        }
        proof {
            lemma_days_before_year_bounds(y as int + 1, 10000);
        }
        rest = rest - diy;
        y = y + 1;
    }
    let mut m: i64 = 1;
    loop
        invariant
            1 <= y <= 9999,
            1 <= m <= 12,
            0 <= rest,
            rest == n - days_before_year(y as int) - days_before_month(y as int, m as int),
            n - days_before_year(y as int) < days_in_year(y as int),
        ensures
            1 <= m <= 12,
            rest == n - days_before_year(y as int) - days_before_month(y as int, m as int),
            0 <= rest < days_in_month(y as int, m as int),
        decreases 12 - m,
    {
        proof {
            lemma_month_step(y as int, m as int);
        }
        let dim = days_in_month_x(y, m);
        if rest < dim {
            break ;
        }
        proof {
            if m == 12 {
                assert(false);
            }
        }
        rest = rest - dim;
        m = m + 1;
    }
    Date { year: y, month: m, day: rest + 1 }
}

pub open spec fn is_digit_char(c: char) -> bool {
    48 <= c as int <= 57
}

pub open spec fn digit_val(c: char) -> int {
    c as int - 48
}

pub open spec fn digit_char(v: int) -> char {
    if v == 0 {
        '0'
    } else if v == 1 {
        '1'
    } else if v == 2 {
        '2'
    } else if v == 3 {
        '3'
    } else if v == 4 {
        '4'
    } else if v == 5 {
        '5'
    } else if v == 6 {
        '6'
    } else if v == 7 {
        '7'
    } else if v == 8 {
        '8'
    } else {
        '9'
    }
}

pub proof fn lemma_digit_char_val(c: char)
    requires
        is_digit_char(c),
    ensures
        digit_char(digit_val(c)) == c,
{
}

pub proof fn lemma_digit_val_char(v: int)
    requires
        0 <= v <= 9,
    ensures
        is_digit_char(digit_char(v)),
        digit_val(digit_char(v)) == v,
{
}

/// Shape of the fixed `YYYY-MM-DD` textual date representation.
pub open spec fn date_str_wf(s: Seq<char>) -> bool {
    &&& s.len() == 10
    &&& is_digit_char(s[0])
    &&& is_digit_char(s[1])
    &&& is_digit_char(s[2])
    &&& is_digit_char(s[3])
    &&& s[4] == '-'
    &&& is_digit_char(s[5])
    &&& is_digit_char(s[6])
    &&& s[7] == '-'
    &&& is_digit_char(s[8])
    &&& is_digit_char(s[9])
}

pub open spec fn year_of(s: Seq<char>) -> int {
    digit_val(s[0]) * 1000 + digit_val(s[1]) * 100 + digit_val(s[2]) * 10 + digit_val(s[3])
}

pub open spec fn month_of(s: Seq<char>) -> int {
    digit_val(s[5]) * 10 + digit_val(s[6])
}

pub open spec fn day_of(s: Seq<char>) -> int {
    digit_val(s[8]) * 10 + digit_val(s[9])
}

pub open spec fn parsed_date(s: Seq<char>) -> Date {
    Date { year: year_of(s) as i64, month: month_of(s) as i64, day: day_of(s) as i64 }
}

/// The string is a well-formed `YYYY-MM-DD` naming of a valid calendar date.
pub open spec fn parse_ok(s: Seq<char>) -> bool {
    date_str_wf(s) && valid_date(parsed_date(s))
}

pub open spec fn format_date_spec(d: Date) -> Seq<char> {
    seq![
        digit_char(d.year as int / 1000),
        digit_char(d.year as int / 100 % 10),
        digit_char(d.year as int / 10 % 10),
        digit_char(d.year as int % 10),
        '-',
        digit_char(d.month as int / 10),
        digit_char(d.month as int % 10),
        '-',
        digit_char(d.day as int / 10),
        digit_char(d.day as int % 10),
    ]
}

/// Formatting a valid date yields a string that parses back to that date.
#[verifier::rlimit(50)]
pub proof fn lemma_format_parse(d: Date)
    requires
        valid_date(d),
    ensures
        parse_ok(format_date_spec(d)),
        parsed_date(format_date_spec(d)) == d,
{
    let y = d.year as int;
    let m = d.month as int;
    let dy = d.day as int;
    lemma_digit_val_char(y / 1000);
    lemma_digit_val_char(y / 100 % 10);
    lemma_digit_val_char(y / 10 % 10);
    lemma_digit_val_char(y % 10);
    lemma_digit_val_char(m / 10);
    lemma_digit_val_char(m % 10);
    lemma_digit_val_char(dy / 10);
    lemma_digit_val_char(dy % 10);
    assert((y / 1000) * 1000 + (y / 100 % 10) * 100 + (y / 10 % 10) * 10 + y % 10 == y)
        by (nonlinear_arith)
        requires
            1 <= y <= 9999,
    ;
    assert((m / 10) * 10 + m % 10 == m) by (nonlinear_arith)
        requires
            1 <= m <= 12,
    ;
    assert((dy / 10) * 10 + dy % 10 == dy) by (nonlinear_arith)
        requires
            1 <= dy <= 31,
    ;
}

/// A well-formed date string is recovered exactly by formatting its parse.
pub proof fn lemma_parse_format(s: Seq<char>)
    requires
        parse_ok(s),
    ensures
        format_date_spec(parsed_date(s)) == s,
{
    let y = year_of(s);
    let m = month_of(s);
    let dy = day_of(s);
    let a = digit_val(s[0]);
    let b = digit_val(s[1]);
    let c = digit_val(s[2]);
    let e = digit_val(s[3]);
    assert(y == a * 1000 + b * 100 + c * 10 + e && 0 <= a <= 9 && 0 <= b <= 9 && 0 <= c <= 9 && 0
        <= e <= 9);
    assert(y / 1000 == a && y / 100 % 10 == b && y / 10 % 10 == c && y % 10 == e) by (nonlinear_arith)
        requires
            y == a * 1000 + b * 100 + c * 10 + e,
            0 <= a <= 9,
            0 <= b <= 9,
            0 <= c <= 9,
            0 <= e <= 9,
    ;
    let f = digit_val(s[5]);
    let g = digit_val(s[6]);
    assert(m / 10 == f && m % 10 == g) by (nonlinear_arith)
        requires
            m == f * 10 + g,
            0 <= f <= 9,
            0 <= g <= 9,
    ;
    let h = digit_val(s[8]);
    let i = digit_val(s[9]);
    assert(dy / 10 == h && dy % 10 == i) by (nonlinear_arith)
        requires
            dy == h * 10 + i,
            0 <= h <= 9,
            0 <= i <= 9,
    ;
    lemma_digit_char_val(s[0]);
    lemma_digit_char_val(s[1]);
    lemma_digit_char_val(s[2]);
    lemma_digit_char_val(s[3]);
    lemma_digit_char_val(s[5]);
    lemma_digit_char_val(s[6]);
    lemma_digit_char_val(s[8]);
    lemma_digit_char_val(s[9]);
    assert(format_date_spec(parsed_date(s)) =~= s);
}

/// Reads the character at `i` as a decimal digit, or -1 if it is none.
pub(crate) fn get_digit(s: &str, i: usize) -> (r: i64)
    requires
        i < s@.len(),
    ensures
        is_digit_char(s@[i as int]) ==> r == digit_val(s@[i as int]),
        !is_digit_char(s@[i as int]) ==> r == -1,
{
    let c: char = s.get_char(i);
    let v: u32 = c as u32;
    proof {
        assert(c as u32 == c as int);
    }
    if 48 <= v && v <= 57 {
        (v - 48) as i64
    } else {
        -1
    }
}

/// Parses the fixed `YYYY-MM-DD` representation; `None` on any deviation.
pub fn parse_date(s: &str) -> (r: Option<Date>)
    ensures
        r is Some <==> parse_ok(s@),
        r is Some ==> r->Some_0 == parsed_date(s@),
{
    if s.unicode_len() != 10 {
        return None;
    }
    let d0: i64 = get_digit(s, 0);
    let d1: i64 = get_digit(s, 1);
    let d2: i64 = get_digit(s, 2);
    let d3: i64 = get_digit(s, 3);
    let d5: i64 = get_digit(s, 5);
    let d6: i64 = get_digit(s, 6);
    let d8: i64 = get_digit(s, 8);
    let d9: i64 = get_digit(s, 9);
    if d0 < 0 || d1 < 0 || d2 < 0 || d3 < 0 || d5 < 0 || d6 < 0 || d8 < 0 || d9 < 0 {
        return None;
    }
    if s.get_char(4) != '-' || s.get_char(7) != '-' {
        return None;
    }
    let y: i64 = d0 * 1000 + d1 * 100 + d2 * 10 + d3;
    let m: i64 = d5 * 10 + d6;
    let dy: i64 = d8 * 10 + d9;
    if y < 1 || m < 1 || m > 12 {
        return None;
    }
    if dy < 1 || dy > days_in_month_x(y, m) {
        return None;
    }
    Some(Date { year: y, month: m, day: dy })
}

pub(crate) fn digit_str(v: i64) -> (r: &'static str)
    requires
        0 <= v <= 9,
    ensures
        r@ == seq![digit_char(v as int)],
{
    proof {
        reveal_strlit("0");
        reveal_strlit("1");
        reveal_strlit("2");
        reveal_strlit("3");
        reveal_strlit("4");
        reveal_strlit("5");
        reveal_strlit("6");
        reveal_strlit("7");
        reveal_strlit("8");
        reveal_strlit("9");
    }
    let r: &'static str = if v == 0 {
        "0"
    } else if v == 1 {
        "1"
    } else if v == 2 {
        "2"
    } else if v == 3 {
        "3"
    } else if v == 4 {
        "4"
    } else if v == 5 {
        "5"
    } else if v == 6 {
        "6"
    } else if v == 7 {
        "7"
    } else if v == 8 {
        "8"
    } else {
        "9"
    };
    proof {
        assert(r@ =~= seq![digit_char(v as int)]);
    }
    r
}

/// Renders a valid date in the fixed `YYYY-MM-DD` representation.
pub fn format_date(d: &Date) -> (r: String)
    requires
        valid_date(*d),
    ensures
        r@ == format_date_spec(*d),
{
    proof {
        reveal_strlit("-");
    }
    let mut out: String = String::new();
    out.append(digit_str(d.year / 1000));
    out.append(digit_str(d.year / 100 % 10));
    out.append(digit_str(d.year / 10 % 10));
    out.append(digit_str(d.year % 10));
    out.append("-");
    out.append(digit_str(d.month / 10));
    out.append(digit_str(d.month % 10));
    out.append("-");
    out.append(digit_str(d.day / 10));
    out.append(digit_str(d.day % 10));
    proof {
        assert(out@ =~= format_date_spec(*d));
    }
    out
}

} // verus!
