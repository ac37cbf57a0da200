//! Calendar dates as plain year/month/day numbers, with parsing of the
//! `YYYY-MM-DD` shape and the chronological order used for range filtering.

use vstd::prelude::*;

verus! {

/// A date in the proleptic Gregorian calendar, held as plain numbers so that
/// validity and order can be stated directly over the fields.
#[derive(Clone, Copy, PartialEq, Eq, Structural, Debug)]
pub struct Date {
    pub year: u32,
    pub month: u32,
    pub day: u32,
}

pub open spec fn is_leap_year(y: int) -> bool {
    (y % 4 == 0 && y % 100 != 0) || y % 400 == 0
}

pub open spec fn days_in_month(y: int, m: int) -> int {
    if m == 2 {
        if is_leap_year(y) {
            29
        } else {
            28
        }
    } else if m == 4 || m == 6 || m == 9 || m == 11 {
        30
    } else {
        31
    }
}

/// A well-formed date: the month exists and the day exists in that month.
/// Years are capped at four digits because every date of interest is written
/// with a four-digit year.
pub open spec fn date_valid(d: Date) -> bool {
    &&& d.year <= 9999
    &&& 1 <= d.month <= 12
    &&& 1 <= d.day <= days_in_month(d.year as int, d.month as int)
}

/// Chronological order on dates: lexicographic on (year, month, day).
pub open spec fn date_le(a: Date, b: Date) -> bool {
    ||| a.year < b.year
    ||| (a.year == b.year && a.month < b.month)
    ||| (a.year == b.year && a.month == b.month && a.day <= b.day)
}

pub open spec fn is_digit(c: char) -> bool {
    48 <= c as u32 <= 57
}

pub open spec fn digit_val(c: char) -> int {
    c as u32 - 48
}

/// Ten characters of the exact shape `YYYY-MM-DD`: digits everywhere but the
/// two dashes.
pub open spec fn date_shape(s: Seq<char>) -> bool {
    &&& s.len() == 10
    &&& forall|i: int| 0 <= i < 10 && i != 4 && i != 7 ==> is_digit(#[trigger] s[i])
    &&& s[4] == '-'
    &&& s[7] == '-'
}

pub open spec fn year_of(s: Seq<char>) -> int {
    digit_val(s[0]) * 1000 + digit_val(s[1]) * 100 + digit_val(s[2]) * 10 + digit_val(s[3])
}

pub open spec fn month_of(s: Seq<char>) -> int {
    digit_val(s[5]) * 10 + digit_val(s[6])
}

pub open spec fn day_of(s: Seq<char>) -> int {
    digit_val(s[8]) * 10 + digit_val(s[9])
}

/// What parsing ten characters as a date yields: `Some` exactly when the
/// characters have the `YYYY-MM-DD` shape and the numbers form a well-formed
/// calendar date.
pub open spec fn parse_ymd(s: Seq<char>) -> Option<Date> {
    let d = Date {
        year: year_of(s) as u32,
        month: month_of(s) as u32,
        day: day_of(s) as u32,
    };
    if date_shape(s) && date_valid(d) {
        Some(d)
    } else {
        None
    }
}

/// The `YYYY-MM-DD` shape occurs in `s` at position `i`.
pub open spec fn shape_at(s: Seq<char>, i: int) -> bool {
    0 <= i && i + 10 <= s.len() && date_shape(s.subrange(i, i + 10))
}

/// The first position at or after `i` where the `YYYY-MM-DD` shape occurs.
pub open spec fn first_shape_from(s: Seq<char>, i: int) -> Option<int>
    decreases s.len() - i,
{
    if i < 0 || i + 10 > s.len() {
        None
    } else if date_shape(s.subrange(i, i + 10)) {
        Some(i)
    } else {
        first_shape_from(s, i + 1)
    }
}

/// The date embedded in a string: the first substring of shape `YYYY-MM-DD`,
/// parsed; `None` when no such substring exists or the first one is not a
/// well-formed date.
pub open spec fn embedded_date(s: Seq<char>) -> Option<Date> {
    match first_shape_from(s, 0) {
        Some(i) => parse_ymd(s.subrange(i, i + 10)),
        None => None,
    }
}

impl Date {
    pub fn le(&self, other: &Date) -> (r: bool)
        ensures
            r == date_le(*self, *other),
    {
        self.year < other.year || (self.year == other.year && self.month < other.month) || (
        self.year == other.year && self.month == other.month && self.day <= other.day)
    }

    pub fn is_valid(&self) -> (r: bool)
        ensures
            r == date_valid(*self),
    {
        let days: u32 = if self.month == 2 {
            if (self.year % 4 == 0 && self.year % 100 != 0) || self.year % 400 == 0 {
                29
            } else {
                28
            }
        } else if self.month == 4 || self.month == 6 || self.month == 9 || self.month == 11 {
            30
        } else {
            31
        };
        self.year <= 9999 && 1 <= self.month && self.month <= 12 && 1 <= self.day && self.day
            <= days
    }
}

/// Whether the ten characters of `v` starting at `at` have the `YYYY-MM-DD`
/// shape.
pub fn shape_check(v: &Vec<char>, at: usize) -> (r: bool)
    requires
        at + 10 <= v@.len(),
    ensures
        r == date_shape(v@.subrange(at as int, at as int + 10)),
{
    let ghost s = v@.subrange(at as int, at as int + 10);
    let n = v.len();
    let mut i: usize = 0;
    while i < 10
        invariant
            n == v@.len(),
            at + 10 <= v@.len(),
            0 <= i <= 10,
            s == v@.subrange(at as int, at as int + 10),
            forall|j: int| 0 <= j < i && j != 4 && j != 7 ==> is_digit(#[trigger] s[j]),
            i > 4 ==> s[4] == '-',
            i > 7 ==> s[7] == '-',
        decreases 10 - i,
    {
        let c = v[at + i];
        assert(c == s[i as int]);
        if i == 4 || i == 7 {
            if c != '-' {
                return false;
            }
        } else {
            let d = c as u32;
            if d < 48 || d > 57 {
                return false;
            }
        }
        i = i + 1;
    }
    true
}

/// Reads the two-digit number at positions `at` and `at + 1`.
fn two_digits(v: &Vec<char>, at: usize) -> (r: u32)
    requires
        at + 2 <= v@.len(),
        is_digit(v@[at as int]),
        is_digit(v@[at as int + 1]),
    ensures
        r == digit_val(v@[at as int]) * 10 + digit_val(v@[at as int + 1]),
{
    let n = v.len();
    (v[at] as u32 - 48) * 10 + (v[at + 1] as u32 - 48)
}

/// Parses the ten characters of `v` starting at `at` as a `YYYY-MM-DD` date.
/// Returns `Some` exactly when the characters have that shape and name a
/// well-formed calendar date.
pub fn parse_date_at(v: &Vec<char>, at: usize) -> (r: Option<Date>)
    requires
        at + 10 <= v@.len(),
    ensures
        r == parse_ymd(v@.subrange(at as int, at as int + 10)),
{
    let ghost s = v@.subrange(at as int, at as int + 10);
    let n = v.len();
    if !shape_check(v, at) {
        return None;
    }
    proof {
        assert forall|k: int| 0 <= k < 10 && k != 4 && k != 7 implies is_digit(
            #[trigger] v@[at as int + k],
        ) by {
            assert(is_digit(s[k]));
            assert(s[k] == v@[at as int + k]);
        }
        assert(is_digit(v@[at as int]));
        assert(is_digit(v@[at as int + 1]));
        assert(is_digit(v@[at as int + 2]));
        assert(is_digit(v@[at as int + 3]));
        assert(is_digit(v@[at as int + 5]));
        assert(is_digit(v@[at as int + 6]));
        assert(is_digit(v@[at as int + 8]));
        assert(is_digit(v@[at as int + 9]));
    }
    let c0 = v[at];
    let c1 = v[at + 1];
    let c2 = v[at + 2];
    let c3 = v[at + 3];
    assert(is_digit(c0) && is_digit(c1) && is_digit(c2) && is_digit(c3));
    let y = (c0 as u32 - 48) * 1000 + (c1 as u32 - 48) * 100 + (c2 as u32 - 48) * 10 + (
    c3 as u32 - 48);
    let m = two_digits(v, at + 5);
    let d = two_digits(v, at + 8);
    assert(y == year_of(s) && m == month_of(s) && d == day_of(s));
    let date = Date { year: y, month: m, day: d };
    if date.is_valid() {
        Some(date)
    } else {
        None
    }
}

/// Parses a whole string of exactly ten characters as a `YYYY-MM-DD` date.
pub fn parse_date(v: &Vec<char>) -> (r: Option<Date>)
    ensures
        r == parse_ymd(v@),
{
    if v.len() != 10 {
        assert(!date_shape(v@));
        return None;
    }
    let r = parse_date_at(v, 0);
    assert(v@.subrange(0, 10) =~= v@);
    r
}

/// The first position in `v` where the `YYYY-MM-DD` shape occurs.
pub fn find_date_shape(v: &Vec<char>) -> (r: Option<usize>)
    ensures
        r matches Some(i) ==> shape_at(v@, i as int) && first_shape_from(v@, 0) == Some(i as int),
        r is None ==> first_shape_from(v@, 0) is None,
{
    if v.len() < 10 {
        assert(first_shape_from(v@, 0) is None);
        return None;
    }
    let mut i: usize = 0;
    while i <= v.len() - 10
        invariant
            v@.len() >= 10,
            0 <= i <= v@.len(),
            forall|j: int| 0 <= j < i ==> !shape_at(v@, j),
            first_shape_from(v@, 0) == first_shape_from(v@, i as int),
        decreases v@.len() - i,
    {
        if shape_check(v, i) {
            return Some(i);
        }
        assert(first_shape_from(v@, i as int) == first_shape_from(v@, i + 1));
        i = i + 1;
    }
    assert(first_shape_from(v@, i as int) is None);
    None
}

/// The embedded date of `v`: its first `YYYY-MM-DD` substring, parsed.
pub fn extract_embedded_date(v: &Vec<char>) -> (r: Option<Date>)
    ensures
        r == embedded_date(v@),
{
    match find_date_shape(v) {
        Some(i) => parse_date_at(v, i),
        None => None,
    }
}

} // verus!
