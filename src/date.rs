//! Calendar dates as the task file writes them: `YYYY-MM-DD`.

use vstd::prelude::*;
use crate::text::{chars_of, push_char};

verus! {

/// A calendar day of the proleptic Gregorian calendar.
#[derive(Clone, Copy, PartialEq, Eq, Structural, Debug)]
pub struct Date {
    pub year: i32,
    pub month: u32,
    pub day: u32,
}

pub open spec fn is_leap_year(y: int) -> bool {
    y % 4 == 0 && (y % 100 != 0 || y % 400 == 0)
}

pub open spec fn days_in_month(y: int, m: int) -> int {
    if m == 2 {
        if is_leap_year(y) {
            29
        } else {
            28
        }
    } else if m == 4 || m == 6 || m == 9 || m == 11 {
        30
    } else {
        31
    }
}

/// `(y, m, d)` names a day of the calendar.
pub open spec fn is_calendar_date(y: int, m: int, d: int) -> bool {
    1 <= m <= 12 && 1 <= d <= days_in_month(y, m)
}

/// `a` falls on or before `b`.
pub open spec fn date_le(a: Date, b: Date) -> bool {
    ||| a.year < b.year
    ||| a.year == b.year && a.month < b.month
    ||| a.year == b.year && a.month == b.month && a.day <= b.day
}

/// Relies on `chrono::NaiveDate::from_ymd_opt`: within chrono's range of
/// years it gives a date exactly when the month is 1 to 12 and the day lies
/// within that month.
#[verifier::external_body]
fn calendar_has(year: i32, month: u32, day: u32) -> (r: bool)
    requires
        0 <= year <= 9999,
    ensures
        r == is_calendar_date(year as int, month as int, day as int),
{
    chrono::NaiveDate::from_ymd_opt(year, month, day).is_some()
}

impl Date {
    /// A date whose year has four digits and which exists in the calendar.
    pub open spec fn valid(self) -> bool {
        0 <= self.year <= 9999 && is_calendar_date(
            self.year as int,
            self.month as int,
            self.day as int,
        )
    }

    /// The date `year-month-day`, if it exists and its year has four digits.
    pub fn from_ymd(year: i32, month: u32, day: u32) -> (r: Option<Date>)
        ensures
            r == (if 0 <= year <= 9999 && is_calendar_date(year as int, month as int, day as int) {
                Some(Date { year, month, day })
            } else {
                None
            }),
    {
        if 0 <= year && year <= 9999 && calendar_has(year, month, day) {
            Some(Date { year, month, day })
        } else {
            None
        }
    }

    /// Whether `self` falls on or before `other`.
    pub fn is_on_or_before(&self, other: &Date) -> (r: bool)
        ensures
            r == date_le(*self, *other),
    {
        self.year < other.year || (self.year == other.year && (self.month < other.month || (
        self.month == other.month && self.day <= other.day)))
    }
}

pub open spec fn is_digit(c: char) -> bool {
    0x30 <= c as u32 <= 0x39
}

pub open spec fn digit_value(c: char) -> int {
    c as u32 - 0x30
}

pub open spec fn digit_char(d: int) -> char {
    seq!['0', '1', '2', '3', '4', '5', '6', '7', '8', '9'][d]
}

/// `n` as two decimal digits.
pub open spec fn two_digits(n: int) -> Seq<char> {
    seq![digit_char(n / 10 % 10), digit_char(n % 10)]
}

/// `n` as four decimal digits.
pub open spec fn four_digits(n: int) -> Seq<char> {
    seq![
        digit_char(n / 1000 % 10),
        digit_char(n / 100 % 10),
        digit_char(n / 10 % 10),
        digit_char(n % 10),
    ]
}

/// The text of a date: `YYYY-MM-DD`.
pub open spec fn date_chars(d: Date) -> Seq<char> {
    four_digits(d.year as int) + seq!['-'] + two_digits(d.month as int) + seq!['-'] + two_digits(
        d.day as int,
    )
}

/// `s` is ten characters `YYYY-MM-DD`, each letter a decimal digit.
pub open spec fn has_date_shape(s: Seq<char>) -> bool {
    &&& s.len() == 10
    &&& s[4] == '-'
    &&& s[7] == '-'
    &&& forall|i: int| 0 <= i < 10 && i != 4 && i != 7 ==> #[trigger] is_digit(s[i])
}

/// The year, month and day written in a text of date shape.
pub open spec fn date_fields(s: Seq<char>) -> Date {
    Date {
        year: (digit_value(s[0]) * 1000 + digit_value(s[1]) * 100 + digit_value(s[2]) * 10
            + digit_value(s[3])) as i32,
        month: (digit_value(s[5]) * 10 + digit_value(s[6])) as u32,
        day: (digit_value(s[8]) * 10 + digit_value(s[9])) as u32,
    }
}

/// The date that `s` names: `YYYY-MM-DD`, zero-padded, a day that exists.
pub open spec fn date_of(s: Seq<char>) -> Option<Date> {
    if has_date_shape(s) && date_fields(s).valid() {
        Some(date_fields(s))
    } else {
        None
    }
}

fn digit_at(cs: &Vec<char>, i: usize) -> (r: Option<u32>)
    requires
        i < cs.len(),
    ensures
        r == (if is_digit(cs@[i as int]) {
            Some(digit_value(cs@[i as int]) as u32)
        } else {
            None::<u32>
        }),
{
    let u = cs[i] as u32;
    if 0x30 <= u && u <= 0x39 {
        Some(u - 0x30)
    } else {
        None
    }
}

/// Reads a date written `YYYY-MM-DD`.
pub fn parse_date(s: &str) -> (r: Option<Date>)
    ensures
        r == date_of(s@),
{
    let cs = chars_of(s);
    if cs.len() != 10 || cs[4] != '-' || cs[7] != '-' {
        return None;
    }
    let mut v: Vec<u32> = Vec::new();
    let mut i: usize = 0;
    while i < 10
        invariant
            cs@ == s@,
            cs.len() == 10,
            i <= 10,
            v@.len() == i,
            forall|k: int|
                0 <= k < i && k != 4 && k != 7 ==> is_digit(#[trigger] cs@[k]) && v@[k]
                    == digit_value(cs@[k]),
        decreases 10 - i,
    {
        if i == 4 || i == 7 {
            v.push(0);
        } else {
            match digit_at(&cs, i) {
                Some(d) => v.push(d),
                None => {
                    assert(!has_date_shape(s@));
                    return None;
                },
            }
        }
        i = i + 1;
    }
    let year = (v[0] * 1000 + v[1] * 100 + v[2] * 10 + v[3]) as i32;
    let month = v[5] * 10 + v[6];
    let day = v[8] * 10 + v[9];
    assert(has_date_shape(s@));
    Date::from_ymd(year, month, day)
}

pub(crate) fn digit(d: u32) -> (c: char)
    requires
        d < 10,
    ensures
        c == digit_char(d as int),
{
    match d {
        0 => '0',
        1 => '1',
        2 => '2',
        3 => '3',
        4 => '4',
        5 => '5',
        6 => '6',
        7 => '7',
        8 => '8',
        _ => '9',
    }
}

/// Appends `d` as `YYYY-MM-DD`.
pub fn push_date(out: &mut String, d: &Date)
    requires
        d.valid(),
    ensures
        final(out)@ == old(out)@ + date_chars(*d),
{
    let y = d.year as u32;
    push_char(out, digit(y / 1000 % 10));
    push_char(out, digit(y / 100 % 10));
    push_char(out, digit(y / 10 % 10));
    push_char(out, digit(y % 10));
    push_char(out, '-');
    push_char(out, digit(d.month / 10 % 10));
    push_char(out, digit(d.month % 10));
    push_char(out, '-');
    push_char(out, digit(d.day / 10 % 10));
    push_char(out, digit(d.day % 10));
    assert(out@ =~= old(out)@ + date_chars(*d));
}

proof fn lemma_digit_char(k: int)
    requires
        0 <= k < 10,
    ensures
        is_digit(digit_char(k)),
        digit_value(digit_char(k)) == k,
        digit_char(k) != '-',
{
    if k == 0 {
    } else if k == 1 {
    } else if k == 2 {
    } else if k == 3 {
    } else if k == 4 {
    } else if k == 5 {
    } else if k == 6 {
    } else if k == 7 {
    } else if k == 8 {
    } else {
    }
}

/// Writing a valid date and reading it back gives the same date.
pub proof fn lemma_date_round_trip(d: Date)
    requires
        d.valid(),
    ensures
        date_of(date_chars(d)) == Some(d),
{
    let y = d.year as int;
    let m = d.month as int;
    let dd = d.day as int;
    let s = date_chars(d);
    lemma_digit_char(y / 1000 % 10);
    lemma_digit_char(y / 100 % 10);
    lemma_digit_char(y / 10 % 10);
    lemma_digit_char(y % 10);
    lemma_digit_char(m / 10 % 10);
    lemma_digit_char(m % 10);
    lemma_digit_char(dd / 10 % 10);
    lemma_digit_char(dd % 10);
    assert(s[0] == digit_char(y / 1000 % 10));
    assert(s[1] == digit_char(y / 100 % 10));
    assert(s[2] == digit_char(y / 10 % 10));
    assert(s[3] == digit_char(y % 10));
    assert(s[4] == '-');
    assert(s[5] == digit_char(m / 10 % 10));
    assert(s[6] == digit_char(m % 10));
    assert(s[7] == '-');
    assert(s[8] == digit_char(dd / 10 % 10));
    assert(s[9] == digit_char(dd % 10));
    assert(y / 1000 % 10 * 1000 + y / 100 % 10 * 100 + y / 10 % 10 * 10 + y % 10 == y) by (
    nonlinear_arith)
        requires
            0 <= y <= 9999,
    ;
    assert(m / 10 % 10 * 10 + m % 10 == m) by (nonlinear_arith)
        requires
            0 <= m <= 12,
    ;
    assert(dd / 10 % 10 * 10 + dd % 10 == dd) by (nonlinear_arith)
        requires
            0 <= dd <= 31,
    ;
    assert(has_date_shape(s));
    assert(date_fields(s) == d);
}

/// `n` in decimal, without leading zeros.
pub open spec fn decimal_chars(n: nat) -> Seq<char>
    decreases n,
{
    if n < 10 {
        seq![digit_char(n as int)]
    } else {
        decimal_chars(n / 10) + seq![digit_char((n % 10) as int)]
    }
}

/// Appends `n` in decimal.
pub fn push_decimal(out: &mut String, n: u64)
    ensures
        final(out)@ == old(out)@ + decimal_chars(n as nat),
    decreases n,
{
    if n >= 10 {
        push_decimal(out, n / 10);
    }
    push_char(out, digit((n % 10) as u32));
    assert(out@ =~= old(out)@ + decimal_chars(n as nat));
}

} // verus!
