//! Calendar dates from page frontmatter.

use chrono::NaiveDate;
use vstd::prelude::*;
use vstd::string::StringExecFns;
use crate::error::MangoError;
use crate::text::chars_of;

verus! {

#[verifier::external_type_specification]
#[verifier::external_body]
pub struct ExNaiveDate(NaiveDate);

/// A Gregorian leap year.
pub open spec fn is_leap_year(y: int) -> bool {
    (y % 4 == 0 && y % 100 != 0) || y % 400 == 0
}

/// The number of days in month `m` of year `y`.
pub open spec fn days_in_month(y: int, m: int) -> int {
    if m == 2 {
        if is_leap_year(y) {
            29
        } else {
            28
        }
    } else if m == 4 || m == 6 || m == 9 || m == 11 {
        30
    } else {
        31
    }
}

/// A day that exists in the (proleptic) Gregorian calendar.
pub open spec fn valid_ymd(y: int, m: int, d: int) -> bool {
    1 <= m <= 12 && 1 <= d <= days_in_month(y, m)
}

/// The decimal digit for `n` (0 to 9).
pub open spec fn digit_char(n: int) -> char {
    (n + 48) as char
}

/// The value of a decimal digit character.
pub open spec fn digit_value(c: char) -> int {
    c as int - 48
}

/// A decimal digit character.
pub open spec fn is_digit(c: char) -> bool {
    '0' <= c && c <= '9'
}

/// `YYYY-MM-DD`, each field zero-padded.
pub open spec fn ymd_text(y: int, m: int, d: int) -> Seq<char> {
    seq![
        digit_char(y / 1000 % 10),
        digit_char(y / 100 % 10),
        digit_char(y / 10 % 10),
        digit_char(y % 10),
        '-',
        digit_char(m / 10 % 10),
        digit_char(m % 10),
        '-',
        digit_char(d / 10 % 10),
        digit_char(d % 10),
    ]
}

/// The day of the week of a day of the proleptic Gregorian calendar, `0`
/// for Sunday to `6` for Saturday.
pub open spec fn day_of_week(y: int, m: int, d: int) -> int {
    let offsets = seq![0int, 3, 2, 5, 0, 3, 5, 1, 4, 6, 2, 4];
    let yy = if m < 3 {
        y - 1
    } else {
        y
    };
    (yy + yy / 4 - yy / 100 + yy / 400 + offsets[m - 1] + d) % 7
}

/// English weekday abbreviations, Sunday first.
pub open spec fn weekday_abbreviation(w: int) -> Seq<char> {
    seq!["Sun"@, "Mon"@, "Tue"@, "Wed"@, "Thu"@, "Fri"@, "Sat"@][w]
}

/// English month abbreviations, January first.
pub open spec fn month_abbreviation(m: int) -> Seq<char> {
    seq![
        "Jan"@,
        "Feb"@,
        "Mar"@,
        "Apr"@,
        "May"@,
        "Jun"@,
        "Jul"@,
        "Aug"@,
        "Sep"@,
        "Oct"@,
        "Nov"@,
        "Dec"@,
    ][m - 1]
}

/// The RFC 822 timestamp of a day's midnight in UTC, as
/// `%a, %d %b %Y 00:00:00 +0000` writes it: `Sat, 07 Feb 2026 00:00:00 +0000`.
pub open spec fn rfc822_midnight(y: int, m: int, d: int) -> Seq<char> {
    weekday_abbreviation(day_of_week(y, m, d)) + ", "@ + seq![
        digit_char(d / 10 % 10),
        digit_char(d % 10),
    ] + " "@ + month_abbreviation(m) + " "@ + ymd_text(y, m, d).subrange(0, 4)
        + " 00:00:00 +0000"@
}

/// Text in the shape `YYYY-MM-DD`: ten characters, digits but for the two
/// hyphens.
pub open spec fn date_shaped(s: Seq<char>) -> bool {
    s.len() == 10 && forall|i: int|
        0 <= i < 10 ==> if i == 4 || i == 7 {
            s[i] == '-'
        } else {
            is_digit(#[trigger] s[i])
        }
}

/// The year, month and day written in date-shaped text.
pub open spec fn shaped_year(s: Seq<char>) -> int {
    1000 * digit_value(s[0]) + 100 * digit_value(s[1]) + 10 * digit_value(s[2]) + digit_value(s[3])
}

pub open spec fn shaped_month(s: Seq<char>) -> int {
    10 * digit_value(s[5]) + digit_value(s[6])
}

pub open spec fn shaped_day(s: Seq<char>) -> int {
    10 * digit_value(s[8]) + digit_value(s[9])
}

/// Text that `parse_date` accepts.
pub open spec fn valid_date_text(s: Seq<char>) -> bool {
    date_shaped(s) && valid_ymd(shaped_year(s), shaped_month(s), shaped_day(s))
}

/// The message for a value that is not a valid date.
pub open spec fn date_message(value: Seq<char>) -> Seq<char> {
    "invalid date '"@ + value + "': expected a valid YYYY-MM-DD date"@
}

/// chrono's `NaiveDate::from_ymd_opt`. Its documentation: `None` when the
/// calendar day does not exist, the month or day is invalid, or the year is
/// out of range; for years 0 to 9999 that is exactly `valid_ymd`.
#[verifier::external_body]
fn chrono_from_ymd(year: i32, month: u32, day: u32) -> (r: Option<NaiveDate>)
    requires
        0 <= year <= 9999,
    ensures
        r is Some <==> valid_ymd(year as int, month as int, day as int),
{
    NaiveDate::from_ymd_opt(year, month, day)
}

/// chrono's `format("%Y-%m-%d")` of an existing day: the year zero-padded to
/// four digits, month and day to two, joined by hyphens.
#[verifier::external_body]
fn chrono_format_ymd(year: i32, month: u32, day: u32) -> (r: String)
    requires
        0 <= year <= 9999,
        valid_ymd(year as int, month as int, day as int),
    ensures
        r@ == ymd_text(year as int, month as int, day as int),
{
    NaiveDate::from_ymd_opt(year, month, day).unwrap().format("%Y-%m-%d").to_string()
}

/// chrono's `format("%a, %d %b %Y 00:00:00 +0000")` of an existing day:
/// English weekday and month abbreviations (chrono's only locale without the
/// `unstable-locales` feature), the day zero-padded to two digits and the
/// year to four.
#[verifier::external_body]
fn chrono_format_rfc822(year: i32, month: u32, day: u32) -> (r: String)
    requires
        0 <= year <= 9999,
        valid_ymd(year as int, month as int, day as int),
    ensures
        r@ == rfc822_midnight(year as int, month as int, day as int),
{
    NaiveDate::from_ymd_opt(year, month, day).unwrap().format("%a, %d %b %Y 00:00:00 +0000").to_string()
}

/// A day of the Gregorian calendar between the years 0 and 9999.
#[derive(Clone, Copy, Debug, PartialEq, Eq)]
pub struct Date {
    year: i32,
    month: u32,
    day: u32,
}

impl View for Date {
    type V = (int, int, int);

    closed spec fn view(&self) -> (int, int, int) {
        (self.year as int, self.month as int, self.day as int)
    }
}

/// Whether day `a` comes strictly before day `b`.
pub open spec fn date_before(a: (int, int, int), b: (int, int, int)) -> bool {
    a.0 < b.0 || (a.0 == b.0 && (a.1 < b.1 || (a.1 == b.1 && a.2 < b.2)))
}

/// A day written as the number `YYYYMMDD`: later days have larger numbers.
pub open spec fn day_number(d: (int, int, int)) -> int {
    d.0 * 10000 + d.1 * 100 + d.2
}

/// Days are ordered as the calendar orders them: for two days that exist,
/// one comes before the other exactly when its year is smaller, or the year
/// is the same and its month is smaller, or the month is the same too and
/// its day is smaller; that is, when its `YYYYMMDD` number is smaller. The
/// order is strict and total: of two different days, exactly one comes first.
pub proof fn lemma_date_order_is_calendar_order(a: (int, int, int), b: (int, int, int))
    requires
        valid_ymd(a.0, a.1, a.2),
        valid_ymd(b.0, b.1, b.2),
    ensures
        date_before(a, b) <==> day_number(a) < day_number(b),
        date_before(a, b) ==> !date_before(b, a),
        a != b ==> date_before(a, b) || date_before(b, a),
        !date_before(a, a),
{
    assert(days_in_month(a.0, a.1) <= 31 && days_in_month(b.0, b.1) <= 31);
    if a.0 < b.0 {
        assert(day_number(a) <= a.0 * 10000 + 1231);
        assert(a.0 * 10000 + 10000 <= b.0 * 10000);
    } else if a.0 > b.0 {
        assert(day_number(b) <= b.0 * 10000 + 1231);
        assert(b.0 * 10000 + 10000 <= a.0 * 10000);
    }
}

impl Date {
    #[verifier::type_invariant]
    spec fn wf(self) -> bool {
        0 <= self.year <= 9999 && valid_ymd(self.year as int, self.month as int, self.day as int)
    }

    /// The day with the given year, month and day, if it exists and the year
    /// is between 0 and 9999.
    pub fn from_ymd(year: i32, month: u32, day: u32) -> (r: Option<Date>)
        ensures
            r is Some <==> (0 <= year <= 9999 && valid_ymd(year as int, month as int, day as int)),
            r matches Some(d) ==> d@ == (year as int, month as int, day as int),
    {
        if year < 0 || year > 9999 {
            return None;
        }
        match chrono_from_ymd(year, month, day) {
            Some(_) => Some(Date { year, month, day }),
            None => None,
        }
    }

    pub fn year(&self) -> (r: i32)
        ensures
            r as int == self@.0,
    {
        self.year
    }

    pub fn month(&self) -> (r: u32)
        ensures
            r as int == self@.1,
    {
        self.month
    }

    pub fn day(&self) -> (r: u32)
        ensures
            r as int == self@.2,
    {
        self.day
    }

    /// `YYYY-MM-DD`.
    pub fn to_text(&self) -> (r: String)
        ensures
            r@ == ymd_text(self@.0, self@.1, self@.2),
    {
        proof {
            use_type_invariant(self);
        }
        chrono_format_ymd(self.year, self.month, self.day)
    }

    /// The RFC 822 timestamp of the day's midnight in UTC, as feeds use.
    pub fn to_rfc822(&self) -> (r: String)
        ensures
            r@ == rfc822_midnight(self@.0, self@.1, self@.2),
    {
        proof {
            use_type_invariant(self);
        }
        chrono_format_rfc822(self.year, self.month, self.day)
    }

    /// Whether this day comes strictly before `other`: its `YYYYMMDD`
    /// number is smaller.
    pub fn is_before(&self, other: &Date) -> (r: bool)
        ensures
            r == date_before(self@, other@),
            r == (day_number(self@) < day_number(other@)),
    {
        proof {
            use_type_invariant(self);
            use_type_invariant(other);
            lemma_date_order_is_calendar_order(self@, other@);
        }
        self.year < other.year || (self.year == other.year && (self.month < other.month || (
        self.month == other.month && self.day < other.day)))
    }

    /// Whether two dates are the same day.
    pub fn same_as(&self, other: &Date) -> (r: bool)
        ensures
            r == (self@ == other@),
    {
        self.year == other.year && self.month == other.month && self.day == other.day
    }
}

/// Parses a strict `YYYY-MM-DD` date: four-digit year, two-digit month and
/// day, and a day that exists.
pub fn parse_date(value: &str) -> (r: Result<Date, MangoError>)
    ensures
        valid_date_text(value@) ==> (r matches Ok(d) && d@ == (
            shaped_year(value@),
            shaped_month(value@),
            shaped_day(value@),
        )),
        !valid_date_text(value@) ==> (r matches Err(MangoError::Frontmatter(m)) && m@
            == date_message(value@)),
{
    let cs = chars_of(value);
    let mut shaped = cs.len() == 10;
    let mut i: usize = 0;
    while shaped && i < 10
        invariant
            shaped ==> cs@.len() == 10,
            i <= 10,
            cs@ == value@,
            shaped ==> forall|k: int|
                0 <= k < i ==> if k == 4 || k == 7 {
                    cs@[k] == '-'
                } else {
                    is_digit(#[trigger] cs@[k])
                },
            !shaped ==> !date_shaped(value@),
        decreases 10 - i,
    {
        let c = cs[i];
        let ok = if i == 4 || i == 7 {
            c == '-'
        } else {
            '0' <= c && c <= '9'
        };
        if !ok {
            shaped = false;
        }
        i += 1;
    }
    if !shaped {
        return Err(invalid_date(value));
    }
    proof {
        assert(date_shaped(value@));
    }
    let year = 1000 * digit(cs[0]) + 100 * digit(cs[1]) + 10 * digit(cs[2]) + digit(cs[3]);
    let month = 10 * digit(cs[5]) + digit(cs[6]);
    let day = 10 * digit(cs[8]) + digit(cs[9]);
    match Date::from_ymd(year as i32, month, day) {
        Some(d) => Ok(d),
        None => Err(invalid_date(value)),
    }
}

fn digit(c: char) -> (r: u32)
    requires
        is_digit(c),
    ensures
        r as int == digit_value(c),
        r <= 9,
{
    (c as u32) - 48
}

fn invalid_date(value: &str) -> (r: MangoError)
    ensures
        r matches MangoError::Frontmatter(m) && m@ == date_message(value@),
{
    MangoError::Frontmatter(
        String::from_str("invalid date '").concat(value).concat("': expected a valid YYYY-MM-DD date"),
    )
}

/// A page date for templates: `YYYY-MM-DD`, or `""` when unset.
pub fn serialize_date(date: &Option<Date>) -> (r: String)
    ensures
        match date {
            Some(d) => r@ == ymd_text(d@.0, d@.1, d@.2),
            None => r@ == Seq::<char>::empty(),
        },
{
    match date {
        Some(d) => d.to_text(),
        None => String::new(),
    }
}

/// A date written with `parse_date`'s shape comes back unchanged from
/// `Date::to_text`.
pub proof fn lemma_date_text_round_trip(s: Seq<char>)
    requires
        date_shaped(s),
    ensures
        ymd_text(shaped_year(s), shaped_month(s), shaped_day(s)) == s,
{
    let a = digit_value(s[0]);
    let b = digit_value(s[1]);
    let c = digit_value(s[2]);
    let d = digit_value(s[3]);
    assert(is_digit(s[0]) && is_digit(s[1]) && is_digit(s[2]) && is_digit(s[3]));
    assert(is_digit(s[5]) && is_digit(s[6]) && is_digit(s[8]) && is_digit(s[9]));
    lemma_four_digits(a, b, c, d);
    lemma_two_digits(digit_value(s[5]), digit_value(s[6]));
    lemma_two_digits(digit_value(s[8]), digit_value(s[9]));
    let t = ymd_text(shaped_year(s), shaped_month(s), shaped_day(s));
    assert forall|i: int| 0 <= i < 10 implies t[i] == s[i] by {
        if i != 4 && i != 7 {
            assert(is_digit(s[i]));
        } else {
            assert(s[i] == '-');
        }
    }
    assert(t =~= s);
}

proof fn lemma_four_digits(a: int, b: int, c: int, d: int)
    requires
        0 <= a <= 9,
        0 <= b <= 9,
        0 <= c <= 9,
        0 <= d <= 9,
    ensures
        (1000 * a + 100 * b + 10 * c + d) / 1000 % 10 == a,
        (1000 * a + 100 * b + 10 * c + d) / 100 % 10 == b,
        (1000 * a + 100 * b + 10 * c + d) / 10 % 10 == c,
        (1000 * a + 100 * b + 10 * c + d) % 10 == d,
{
    assert((1000 * a + 100 * b + 10 * c + d) / 1000 == a) by (nonlinear_arith)
        requires
            0 <= a <= 9,
            0 <= b <= 9,
            0 <= c <= 9,
            0 <= d <= 9,
    ;
    assert((1000 * a + 100 * b + 10 * c + d) / 100 == 10 * a + b) by (nonlinear_arith)
        requires
            0 <= a <= 9,
            0 <= b <= 9,
            0 <= c <= 9,
            0 <= d <= 9,
    ;
    assert((1000 * a + 100 * b + 10 * c + d) / 10 == 100 * a + 10 * b + c) by (nonlinear_arith)
        requires
            0 <= a <= 9,
            0 <= b <= 9,
            0 <= c <= 9,
            0 <= d <= 9,
    ;
    assert((10 * a + b) % 10 == b) by (nonlinear_arith)
        requires
            0 <= a <= 9,
            0 <= b <= 9,
    ;
    assert((100 * a + 10 * b + c) % 10 == c) by (nonlinear_arith)
        requires
            0 <= a <= 9,
            0 <= b <= 9,
            0 <= c <= 9,
    ;
    assert((1000 * a + 100 * b + 10 * c + d) % 10 == d) by (nonlinear_arith)
        requires
            0 <= a <= 9,
            0 <= b <= 9,
            0 <= c <= 9,
            0 <= d <= 9,
    ;
}

proof fn lemma_two_digits(a: int, b: int)
    requires
        0 <= a <= 9,
        0 <= b <= 9,
    ensures
        (10 * a + b) / 10 % 10 == a,
        (10 * a + b) % 10 == b,
{
    assert((10 * a + b) / 10 == a) by (nonlinear_arith)
        requires
            0 <= a <= 9,
            0 <= b <= 9,
    ;
    assert((10 * a + b) % 10 == b) by (nonlinear_arith)
        requires
            0 <= a <= 9,
            0 <= b <= 9,
    ;
}

} // verus!
