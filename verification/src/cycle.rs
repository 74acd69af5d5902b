//! The 28-day publication-cycle engine.
//!
//! All reasoning is anchored at a single epoch date that is itself a cycle
//! start; a date is a cycle date exactly when its distance from the epoch is
//! a multiple of 28 days. Cycle codes are 4-digit strings: a two-digit year
//! followed by a zero-padded 1-based ordinal within that year.

use vstd::arithmetic::div_mod::lemma_fundamental_div_mod;
use vstd::arithmetic::div_mod::lemma_mod_add_multiples_vanish;
use vstd::arithmetic::div_mod::lemma_mod_multiples_basic;
use vstd::arithmetic::div_mod::lemma_sub_mod_noop;
use vstd::prelude::*;
use vstd::string::*;

use crate::dates::Date;
use crate::dates::date_of_day_number;
use crate::dates::day_number;
use crate::dates::day_number_of;
use crate::dates::days_before_year;
use crate::dates::days_before_year_x;
use crate::dates::days_in_year;
use crate::dates::digit_char;
use crate::dates::digit_str;
use crate::dates::digit_val;
use crate::dates::format_date;
use crate::dates::get_digit;
use crate::dates::format_date_spec;
use crate::dates::is_digit_char;
use crate::dates::lemma_day_number_in_year;
use crate::dates::lemma_day_number_injective;
use crate::dates::lemma_days_before_year_bounds;
use crate::dates::parse_date;
use crate::dates::parse_ok;
use crate::dates::parsed_date;
use crate::dates::valid_date;

verus! {

/// The fixed reference date: 2023-01-26, a known cycle start.
pub open spec fn epoch() -> Date {
    Date { year: 2023, month: 1, day: 26 }
}

pub open spec fn epoch_dn() -> int {
    day_number(epoch())
}

/// A day number lies on the 28-day lattice anchored at the epoch.
pub open spec fn is_cycle_dn(n: int) -> bool {
    (n - epoch_dn()) % 28 == 0
}

/// Day number of the first cycle start at or after January 1 of year `y`.
pub open spec fn first_cycle_dn(y: int) -> int {
    days_before_year(y) + (epoch_dn() - days_before_year(y)) % 28
}

/// That cycle start as a date; it always falls in January of `y`.
pub open spec fn first_cycle_date(y: int) -> Date {
    Date { year: y as i64, month: 1, day: (first_cycle_dn(y) - days_before_year(y) + 1) as i64 }
}

/// How many cycles start within year `y`.
pub open spec fn cycle_count(y: int) -> int {
    (first_cycle_dn(y + 1) - first_cycle_dn(y)) / 28
}

/// Two-digit year of the cycle a date belongs to; a date strictly before its
/// own year's first cycle start belongs to the previous year's final cycle.
pub open spec fn code_year(d: Date) -> int {
    if day_number(d) < first_cycle_dn(d.year as int) {
        d.year - 1
    } else {
        d.year as int
    }
}

/// 1-based ordinal of the cycle a date belongs to within `code_year(d)`.
pub open spec fn code_ord(d: Date) -> int {
    if day_number(d) < first_cycle_dn(d.year as int) {
        cycle_count(d.year - 1)
    } else {
        (day_number(d) - first_cycle_dn(d.year as int)) / 28 + 1
    }
}

/// Day number of the start of the cycle a date belongs to.
pub open spec fn cycle_start_dn(d: Date) -> int {
    first_cycle_dn(code_year(d)) + (code_ord(d) - 1) * 28
}

/// The era in which two-digit years name the years 2000-2099 faithfully.
pub open spec fn in_supported_era(d: Date) -> bool {
    first_cycle_dn(2000) <= day_number(d) < first_cycle_dn(2100)
}

pub proof fn lemma_first_cycle(y: int)
    requires
        1 <= y <= 9999,
    ensures
        days_before_year(y) <= first_cycle_dn(y) < days_before_year(y) + 28,
        is_cycle_dn(first_cycle_dn(y)),
        valid_date(first_cycle_date(y)),
        first_cycle_date(y).year == y,
        first_cycle_date(y).month == 1,
        day_number(first_cycle_date(y)) == first_cycle_dn(y),
{
    let j = days_before_year(y);
    let r = (epoch_dn() - j) % 28;
    assert(0 <= r < 28);
    lemma_fundamental_div_mod(epoch_dn() - j, 28);
    let q = (epoch_dn() - j) / 28;
    assert(j + r - epoch_dn() == (-q) * 28);
    lemma_mod_multiples_basic(-q, 28);
}

/// No day strictly between January 1 of `y` and the year's first cycle start
/// is a cycle day.
pub proof fn lemma_first_cycle_min(y: int, n: int)
    requires
        1 <= y <= 9999,
        days_before_year(y) <= n < first_cycle_dn(y),
    ensures
        !is_cycle_dn(n),
{
    lemma_first_cycle(y);
    if is_cycle_dn(n) {
        let f = first_cycle_dn(y);
        lemma_sub_mod_noop(f - epoch_dn(), n - epoch_dn(), 28);
        assert((f - n) % 28 == 0);
        assert(0 < f - n < 28);
    }
}

/// Two cycle days differ by an exact multiple of 28 days.
pub proof fn lemma_cycle_diff(n1: int, n2: int)
    requires
        is_cycle_dn(n1),
        is_cycle_dn(n2),
    ensures
        (n2 - n1) % 28 == 0,
        n2 - n1 == 28 * ((n2 - n1) / 28),
{
    lemma_sub_mod_noop(n2 - epoch_dn(), n1 - epoch_dn(), 28);
    lemma_fundamental_div_mod(n2 - n1, 28);
}

/// Consecutive years' first cycle starts are 13 or 14 cycles apart, exactly.
pub proof fn lemma_year_cycle_structure(y: int)
    requires
        1 <= y <= 9998,
    ensures
        first_cycle_dn(y + 1) == first_cycle_dn(y) + cycle_count(y) * 28,
        13 <= cycle_count(y) <= 14,
{
    lemma_first_cycle(y);
    lemma_first_cycle(y + 1);
    let f1 = first_cycle_dn(y);
    let f2 = first_cycle_dn(y + 1);
    assert(days_before_year(y + 1) == days_before_year(y) + days_in_year(y));
    assert(338 <= f2 - f1 <= 393);
    lemma_cycle_diff(f1, f2);
}

fn epoch_day_number() -> (n: i64)
    ensures
        n == epoch_dn(),
        0 <= n < days_before_year(10000),
{
    let d = Date { year: 2023, month: 1, day: 26 };
    day_number_of(&d)
}

#[verifier::rlimit(50)]
fn first_cycle_dn_x(y: i64) -> (n: i64)
    requires
        1 <= y <= 9999,
    ensures
        n == first_cycle_dn(y as int),
{
    let j: i64 = days_before_year_x(y);
    proof {
        lemma_days_before_year_bounds(1, y as int);
        lemma_days_before_year_bounds(y as int, 10000);
        assert(0 <= j <= 366 * 9999);
    }
    let e: i64 = epoch_day_number();
    let em: i64 = e % 28;
    let jm: i64 = j % 28;
    let off: i64 = (em + 28 - jm) % 28;
    proof {
        let ei = e as int;
        let ji = j as int;
        lemma_sub_mod_noop(ei, ji, 28);
        lemma_mod_add_multiples_vanish(ei % 28 - ji % 28, 28);
        assert(em == ei % 28 && jm == ji % 28);
        assert((em + 28 - jm) as int % 28 == (ei - ji) % 28);
        assert(off == (epoch_dn() - ji) % 28);
        assert(0 <= off < 28);
    }
    j + off
}

/// True iff the string names a valid calendar date an exact multiple of 28
/// days from the epoch. A malformed date is simply not a cycle date.
pub fn is_cycle_date(date: &str) -> (r: bool)
    ensures
        r <==> (parse_ok(date@) && is_cycle_dn(day_number(parsed_date(date@)))),
{
    match parse_date(date) {
        None => false,
        Some(d) => {
            let n: i64 = day_number_of(&d);
            let e: i64 = epoch_day_number();
            proof {
                lemma_sub_mod_noop(n as int, e as int, 28);
                if n % 28 == e % 28 {
                    assert((n - e) % 28 == 0);
                }
                if (n as int - e as int) % 28 == 0 {
                    assert((n % 28 - e % 28) % 28 == 0);
                    assert(n % 28 == e % 28);
                }
            }
            n % 28 == e % 28
        },
    }
}

/// The first cycle start of `year`, as a `YYYY-MM-DD` string.
pub fn first_cycle_of_year(year: i64) -> (r: String)
    requires
        1 <= year <= 9999,
    ensures
        r@ == format_date_spec(first_cycle_date(year as int)),
{
    proof {
        lemma_first_cycle(year as int);
    }
    let f: i64 = first_cycle_dn_x(year);
    let j: i64 = days_before_year_x(year);
    let d = Date { year, month: 1, day: f - j + 1 };
    proof {
        assert(d == first_cycle_date(year as int));
    }
    format_date(&d)
}

/// 1-based count of cycle starts from `date1`'s cycle up to `date2`'s,
/// counting `date1`'s as the first.
pub fn cycles_between_dates(date1: &str, date2: &str) -> (r: i64)
    requires
        parse_ok(date1@),
        parse_ok(date2@),
        day_number(parsed_date(date1@)) <= day_number(parsed_date(date2@)),
    ensures
        r == (day_number(parsed_date(date2@)) - day_number(parsed_date(date1@))) / 28 + 1,
{
    let d1 = match parse_date(date1) {
        Some(d) => d,
        None => Date { year: 1, month: 1, day: 1 },
    };
    let d2 = match parse_date(date2) {
        Some(d) => d,
        None => Date { year: 1, month: 1, day: 1 },
    };
    let n1: i64 = day_number_of(&d1);
    let n2: i64 = day_number_of(&d2);
    (n2 - n1) / 28 + 1
}

/// How many cycles start within `year`: always 13 or 14.
pub fn number_of_cycles_in_year(year: i64) -> (r: i64)
    requires
        1 <= year <= 9998,
    ensures
        r == cycle_count(year as int),
        13 <= r <= 14,
{
    proof {
        lemma_year_cycle_structure(year as int);
    }
    let f1: i64 = first_cycle_dn_x(year);
    let f2: i64 = first_cycle_dn_x(year + 1);
    (f2 - f1) / 28
}

/// The last two digits of a 4-digit year.
pub fn split_year(year: &i64) -> (r: i32)
    requires
        1000 <= *year <= 9999,
    ensures
        r == *year % 100,
{
    (*year % 100) as i32
}

/// Everything the code of a date's cycle determines, in one place: bounds on
/// the two parts of the code, and that the cycle's 28-day span contains the
/// date.
pub proof fn lemma_code_parts(d: Date)
    requires
        valid_date(d),
        in_supported_era(d),
    ensures
        2000 <= code_year(d) <= 2099,
        1 <= code_ord(d) <= cycle_count(code_year(d)),
        code_ord(d) <= 14,
        is_cycle_dn(cycle_start_dn(d)),
        cycle_start_dn(d) <= day_number(d) < cycle_start_dn(d) + 28,
        first_cycle_dn(code_year(d)) <= cycle_start_dn(d),
        0 <= cycle_start_dn(d),
        cycle_start_dn(d) + 27 < days_before_year(10000),
{
    let y = d.year as int;
    let dn = day_number(d);
    lemma_day_number_in_year(d);
    lemma_first_cycle(2000);
    lemma_first_cycle(2100);
    lemma_first_cycle(y);
    let f = first_cycle_dn(y);
    if dn < f {
        // The date sits before its own year's first cycle start, so it
        // belongs to the final cycle of the previous year.
        if y <= 2000 {
            lemma_days_before_year_bounds(y, 2000);
            assert(false);
        }
        if y >= 2101 {
            lemma_days_before_year_bounds(2101, y);
            lemma_days_before_year_bounds(2100, 2101);
            assert(false);
        }
        lemma_first_cycle(y - 1);
        lemma_year_cycle_structure(y - 1);
        let c = cycle_count(y - 1);
        assert(code_year(d) == y - 1 && code_ord(d) == c);
        assert(cycle_start_dn(d) == first_cycle_dn(y - 1) + (c - 1) * 28);
        assert(first_cycle_dn(y) == first_cycle_dn(y - 1) + c * 28);
        assert(cycle_start_dn(d) == f - 28);
        lemma_days_before_year_bounds(1, y - 1);
        lemma_days_before_year_bounds(y, 10000 - 1);
        lemma_days_before_year_bounds(10000 - 1, 10000);
    } else {
        if y <= 1999 {
            lemma_days_before_year_bounds(y + 1, 2000);
            assert(false);
        }
        if y >= 2100 {
            if y >= 2101 {
                lemma_days_before_year_bounds(2101, y);
                lemma_days_before_year_bounds(2100, 2101);
            }
            assert(false);
        }
        lemma_year_cycle_structure(y);
        let c = cycle_count(y);
        let k = (dn - f) / 28;
        lemma_fundamental_div_mod(dn - f, 28);
        assert(dn - f == 28 * k + (dn - f) % 28);
        assert(code_ord(d) == k + 1);
        assert(dn < first_cycle_dn(y + 1) == f + c * 28);
        assert(k + 1 <= c);
        assert(cycle_start_dn(d) == f + 28 * k);
        // The cycle start inherits the lattice property from the year's
        // first cycle start.
        lemma_mod_multiples_basic(k, 28);
        vstd::arithmetic::div_mod::lemma_add_mod_noop(f - epoch_dn(), 28 * k, 28);
        assert((f + 28 * k - epoch_dn()) % 28 == 0);
        lemma_days_before_year_bounds(1, y);
        lemma_days_before_year_bounds(y + 1, 10000 - 1);
        lemma_days_before_year_bounds(10000 - 1, 10000);
    }
}

/// Numeric cycle code and the day number of the cycle's start, for a valid
/// in-era date.
fn cycle_parts(d: &Date) -> (r: (i64, i64, i64))
    requires
        valid_date(*d),
        in_supported_era(*d),
    ensures
        r.0 == code_year(*d),
        r.1 == code_ord(*d),
        r.2 == cycle_start_dn(*d),
{
    proof {
        lemma_code_parts(*d);
    }
    let dn: i64 = day_number_of(d);
    let f: i64 = first_cycle_dn_x(d.year);
    if dn < f {
        let cy: i64 = d.year - 1;
        let f0: i64 = first_cycle_dn_x(cy);
        proof {
            lemma_year_cycle_structure(cy as int);
        }
        let c: i64 = (f - f0) / 28;
        (cy, c, f0 + (c - 1) * 28)
    } else {
        let k: i64 = (dn - f) / 28;
        (d.year, k + 1, f + k * 28)
    }
}

/// One cycle: its numeric code and the first and last dates it covers.
#[derive(Clone, Copy, Debug, PartialEq, Eq, Structural)]
pub struct Airac {
    pub code: u16,
    pub start: Date,
    pub end: Date,
}

impl Airac {
    /// Builds a cycle record from its numeric code and its start date given
    /// as `YYYY-MM-DD`; the end date is 27 days later.
    pub fn new(code: u16, start: &str) -> (a: Airac)
        requires
            parse_ok(start@),
            day_number(parsed_date(start@)) + 27 < days_before_year(10000),
        ensures
            a.code == code,
            a.start == parsed_date(start@),
            valid_date(a.end),
            day_number(a.end) == day_number(parsed_date(start@)) + 27,
    {
        let d = match parse_date(start) {
            Some(d) => d,
            None => Date { year: 1, month: 1, day: 1 },
        };
        let n: i64 = day_number_of(&d);
        proof {
            lemma_days_before_year_bounds(1, 10000);
        }
        let end = date_of_day_number(n + 27);
        Airac { code, start: d, end }
    }
}

/// The cycle that contains the given date: its code as a number (two-digit
/// year times 100 plus ordinal) and its start and end dates. `None` for a
/// malformed date or one outside the supported era.
pub fn get_cycle_for(date: &str) -> (r: Option<Airac>)
    ensures
        r is Some <==> (parse_ok(date@) && in_supported_era(parsed_date(date@))),
        r is Some ==> ({
            let d = parsed_date(date@);
            let a = r->Some_0;
            &&& a.code as int == (code_year(d) % 100) * 100 + code_ord(d)
            &&& valid_date(a.start)
            &&& day_number(a.start) == cycle_start_dn(d)
            &&& valid_date(a.end)
            &&& day_number(a.end) == cycle_start_dn(d) + 27
        }),
{
    let d = match parse_date(date) {
        Some(d) => d,
        None => { return None },
    };
    let dn: i64 = day_number_of(&d);
    let f2000: i64 = first_cycle_dn_x(2000);
    let f2100: i64 = first_cycle_dn_x(2100);
    if dn < f2000 || dn >= f2100 {
        return None;
    }
    proof {
        lemma_code_parts(d);
    }
    let (cy, ord, sdn) = cycle_parts(&d);
    let start = date_of_day_number(sdn);
    let end = date_of_day_number(sdn + 27);
    let code: u16 = ((cy % 100) * 100 + ord) as u16;
    Some(Airac { code, start, end })
}

/// Two decimal digits, zero padded.
pub open spec fn two_digits(v: int) -> Seq<char> {
    seq![digit_char(v / 10), digit_char(v % 10)]
}

/// The 4-digit code of the cycle a date belongs to.
pub open spec fn cycle_code_str(d: Date) -> Seq<char> {
    two_digits(code_year(d) % 100) + two_digits(code_ord(d))
}

/// The cycle code for the supplied `YYYY-MM-DD` date, as a 4-digit string.
/// `None` for a malformed date or one outside the supported era.
pub fn calculate_cycle(date: &str) -> (r: Option<String>)
    ensures
        r is Some <==> (parse_ok(date@) && in_supported_era(parsed_date(date@))),
        r is Some ==> r->Some_0@ == cycle_code_str(parsed_date(date@)),
{
    let d = match parse_date(date) {
        Some(d) => d,
        None => { return None },
    };
    let dn: i64 = day_number_of(&d);
    let f2000: i64 = first_cycle_dn_x(2000);
    let f2100: i64 = first_cycle_dn_x(2100);
    if dn < f2000 || dn >= f2100 {
        return None;
    }
    proof {
        lemma_code_parts(d);
    }
    let (cy, ord, _sdn) = cycle_parts(&d);
    let yy: i64 = cy % 100;
    let mut out: String = String::new();
    out.append(digit_str(yy / 10));
    out.append(digit_str(yy % 10));
    out.append(digit_str(ord / 10));
    out.append(digit_str(ord % 10));
    proof {
        assert(out@ =~= cycle_code_str(d));
    }
    Some(out)
}

/// A well-formed 4-digit cycle code: two digits of year, then an ordinal
/// between 01 and 14.
pub open spec fn code_str_wf(s: Seq<char>) -> bool {
    &&& s.len() == 4
    &&& is_digit_char(s[0])
    &&& is_digit_char(s[1])
    &&& is_digit_char(s[2])
    &&& is_digit_char(s[3])
    &&& 1 <= code_ord_of(s) <= 14
}

pub open spec fn code_yy_of(s: Seq<char>) -> int {
    digit_val(s[0]) * 10 + digit_val(s[1])
}

pub open spec fn code_ord_of(s: Seq<char>) -> int {
    digit_val(s[2]) * 10 + digit_val(s[3])
}

/// The unique valid date with the given day number.
pub open spec fn dn_date(n: int) -> Date {
    choose|d: Date| valid_date(d) && day_number(d) == n
}

/// The date range a 4-digit cycle code covers, both ends inclusive, as
/// `YYYY-MM-DD` strings. The two-digit year names 2000-2099.
pub fn calculate_cycle_dates(cycle: &str) -> (r: (String, String))
    requires
        code_str_wf(cycle@),
    ensures
        ({
            let sdn = first_cycle_dn(2000 + code_yy_of(cycle@)) + (code_ord_of(cycle@) - 1) * 28;
            &&& valid_date(dn_date(sdn))
            &&& day_number(dn_date(sdn)) == sdn
            &&& valid_date(dn_date(sdn + 27))
            &&& day_number(dn_date(sdn + 27)) == sdn + 27
            &&& r.0@ == format_date_spec(dn_date(sdn))
            &&& r.1@ == format_date_spec(dn_date(sdn + 27))
        }),
{
    let y0: i64 = get_digit(cycle, 0);
    let y1: i64 = get_digit(cycle, 1);
    let o0: i64 = get_digit(cycle, 2);
    let o1: i64 = get_digit(cycle, 3);
    let year: i64 = 2000 + y0 * 10 + y1;
    let ord: i64 = o0 * 10 + o1;
    let f: i64 = first_cycle_dn_x(year);
    proof {
        lemma_first_cycle(year as int);
        lemma_days_before_year_bounds(1, year as int);
        lemma_days_before_year_bounds(year as int + 1, 10000 - 1);
        lemma_days_before_year_bounds(10000 - 1, 10000);
    }
    let sdn: i64 = f + (ord - 1) * 28;
    let start = date_of_day_number(sdn);
    let end = date_of_day_number(sdn + 27);
    proof {
        assert(valid_date(start) && day_number(start) == sdn);
        assert(valid_date(dn_date(sdn as int)) && day_number(dn_date(sdn as int)) == sdn);
        lemma_day_number_injective(dn_date(sdn as int), start);
        assert(valid_date(dn_date(sdn as int + 27)) && day_number(dn_date(sdn as int + 27)) == sdn
            + 27);
        lemma_day_number_injective(dn_date(sdn as int + 27), end);
    }
    (format_date(&start), format_date(&end))
}

/// Every date 28k days from the epoch, in either direction, is a cycle date.
pub proof fn lemma_cycle_lattice(k: int)
    ensures
        is_cycle_dn(epoch_dn() + 28 * k),
{
    lemma_mod_multiples_basic(k, 28);
}

/// Conversely, a cycle day number is the epoch plus an exact multiple of 28.
pub proof fn lemma_cycle_lattice_only(n: int)
    requires
        is_cycle_dn(n),
    ensures
        n == epoch_dn() + 28 * ((n - epoch_dn()) / 28),
{
    lemma_fundamental_div_mod(n - epoch_dn(), 28);
}

/// The code string an in-era date yields is itself a well-formed cycle code,
/// and its two parts read back as the code's year and ordinal.
pub proof fn lemma_cycle_code_str_wf(d: Date)
    requires
        valid_date(d),
        in_supported_era(d),
    ensures
        code_str_wf(cycle_code_str(d)),
        code_yy_of(cycle_code_str(d)) == code_year(d) % 100,
        code_ord_of(cycle_code_str(d)) == code_ord(d),
{
    lemma_code_parts(d);
    let yy = code_year(d) % 100;
    let ord = code_ord(d);
    let s = cycle_code_str(d);
    crate::dates::lemma_digit_val_char(yy / 10);
    crate::dates::lemma_digit_val_char(yy % 10);
    crate::dates::lemma_digit_val_char(ord / 10);
    crate::dates::lemma_digit_val_char(ord % 10);
    assert(s[0] == digit_char(yy / 10) && s[1] == digit_char(yy % 10));
    assert(s[2] == digit_char(ord / 10) && s[3] == digit_char(ord % 10));
    assert((yy / 10) * 10 + yy % 10 == yy);
    assert((ord / 10) * 10 + ord % 10 == ord);
}

/// Round trip: for a cycle-start date in the supported era, the two parts of
/// its cycle code lead back to exactly its day number, and the two-digit
/// year names its year uniquely.
pub proof fn lemma_cycle_code_round_trip(d: Date)
    requires
        valid_date(d),
        is_cycle_dn(day_number(d)),
        in_supported_era(d),
    ensures
        2000 + (code_year(d) % 100) == code_year(d),
        first_cycle_dn(code_year(d)) + (code_ord(d) - 1) * 28 == day_number(d),
        cycle_start_dn(d) == day_number(d),
{
    let y = d.year as int;
    let dn = day_number(d);
    lemma_day_number_in_year(d);
    lemma_code_parts(d);
    if dn < first_cycle_dn(y) {
        lemma_first_cycle_min(y, dn);
        assert(false);
    }
    lemma_first_cycle(y);
    lemma_cycle_diff(first_cycle_dn(y), dn);
}

/// The full round-trip law over strings: for a cycle-start date in the
/// supported era, its cycle code is well formed, and the date range of that
/// code starts at exactly the original date string.
pub proof fn lemma_code_date_range_round_trip(s: Seq<char>)
    requires
        parse_ok(s),
        is_cycle_dn(day_number(parsed_date(s))),
        in_supported_era(parsed_date(s)),
    ensures
        code_str_wf(cycle_code_str(parsed_date(s))),
        ({
            let d = parsed_date(s);
            let c = cycle_code_str(d);
            let sdn = first_cycle_dn(2000 + code_yy_of(c)) + (code_ord_of(c) - 1) * 28;
            &&& sdn == day_number(d)
            &&& format_date_spec(dn_date(sdn)) == s
        }),
{
    let d = parsed_date(s);
    lemma_cycle_code_str_wf(d);
    lemma_cycle_code_round_trip(d);
    let c = cycle_code_str(d);
    let sdn = first_cycle_dn(2000 + code_yy_of(c)) + (code_ord_of(c) - 1) * 28;
    assert(sdn == day_number(d));
    assert(valid_date(d) && day_number(d) == sdn);
    let dd = dn_date(sdn);
    assert(valid_date(dd) && day_number(dd) == sdn);
    lemma_day_number_injective(dd, d);
    crate::dates::lemma_parse_format(s);
}

} // verus!
