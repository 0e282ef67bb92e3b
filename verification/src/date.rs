//! Calendar dates as they appear at the front of archive names.

use crate::text::chars_of;
use chrono::NaiveDate;
use vstd::prelude::*;

verus! {

/// Seconds in one day; a midnight timestamp is a multiple of it.
pub const SECONDS_PER_DAY: i64 = 86_400;

/// Days from 0001-01-01 to 1970-01-01 in the proleptic Gregorian calendar.
pub const EPOCH_OFFSET_DAYS: i64 = 719_162;

/// Largest year that four digits can write.
pub const MAX_YEAR: i32 = 9999;

/// The character that ends the date at the front of an archive name.
pub const SEPARATOR: char = '_';

/// Number of characters in a date written as `YYYY-MM-DD`.
pub const TOKEN_LEN: usize = 10;

/// The Gregorian leap-year rule, extended backwards to year 0.
pub open spec fn is_leap_year(year: int) -> bool {
    year % 4 == 0 && (year % 100 != 0 || year % 400 == 0)
}

/// Number of days in `month` of `year`; meaningful for months 1 to 12.
pub open spec fn days_in_month(year: int, month: int) -> int {
    if month == 2 {
        if is_leap_year(year) {
            29
        } else {
            28
        }
    } else if month == 4 || month == 6 || month == 9 || month == 11 {
        30
    } else {
        31
    }
}

/// Number of days in `year`.
pub open spec fn days_in_year(year: int) -> int {
    if is_leap_year(year) {
        366
    } else {
        365
    }
}

/// Whether `year`-`month`-`day` names a day that exists in the calendar.
pub open spec fn is_calendar_date(year: int, month: int, day: int) -> bool {
    1 <= month <= 12 && 1 <= day <= days_in_month(year, month)
}

/// Days of `year` that lie before the first day of `month`.
pub open spec fn days_before_month(year: int, month: int) -> int
    decreases month,
{
    if month <= 1 {
        0
    } else {
        days_before_month(year, month - 1) + days_in_month(year, month - 1)
    }
}

/// Days between 0001-01-01 and the first day of `year` (negative for year 0).
pub open spec fn days_before_year(year: int) -> int {
    365 * (year - 1) + (year - 1) / 4 - (year - 1) / 100 + (year - 1) / 400
}

/// Days between 1970-01-01 and the given calendar date.
pub open spec fn epoch_day(year: int, month: int, day: int) -> int {
    days_before_year(year) + days_before_month(year, month) + (day - 1) - EPOCH_OFFSET_DAYS
}

/// Seconds between 1970-01-01T00:00:00 and midnight at the start of the date.
pub open spec fn midnight_seconds(year: int, month: int, day: int) -> int {
    SECONDS_PER_DAY * epoch_day(year, month, day)
}

/// A day of the proleptic Gregorian calendar with a four-digit year.
#[derive(Clone, Copy, Debug, PartialEq, Eq, Structural)]
pub struct Date {
    pub year: i32,
    pub month: u32,
    pub day: u32,
}

impl Date {
    /// The date names an existing day and its year fits four digits.
    pub open spec fn is_valid(self) -> bool {
        &&& 0 <= self.year <= MAX_YEAR
        &&& is_calendar_date(self.year as int, self.month as int, self.day as int)
    }

    /// Days since 1970-01-01.
    pub open spec fn epoch_day(self) -> int {
        epoch_day(self.year as int, self.month as int, self.day as int)
    }

    /// `self` lies strictly before `other` in the calendar.
    pub open spec fn is_before(self, other: Date) -> bool {
        self.year < other.year || (self.year == other.year && (self.month < other.month || (
        self.month == other.month && self.day < other.day)))
    }

    /// Seconds since 1970-01-01T00:00:00 at the start of the day.
    pub fn timestamp(&self) -> (seconds: i64)
        requires
            self.is_valid(),
        ensures
            seconds == SECONDS_PER_DAY * self.epoch_day(),
    {
        match midnight_timestamp(self.year, self.month, self.day) {
            Some(seconds) => seconds,
            None => 0,
        }
    }
}

/// Why the front of a name is not a date.
#[derive(Clone, Copy, Debug, PartialEq, Eq, Structural)]
pub enum DateError {
    /// The name holds no separator, so no date token can be cut from it.
    MissingSeparator,
    /// The token is not four digits, a hyphen, two digits, a hyphen, two digits.
    Malformed,
    /// The token has the right shape but names no day of the calendar.
    NoSuchDate,
}

/// `i` is the place of the first separator in `name`.
pub open spec fn is_first_separator(name: Seq<char>, i: int) -> bool {
    &&& 0 <= i < name.len()
    &&& name[i] == SEPARATOR
    &&& forall|j: int| 0 <= j < i ==> name[j] != SEPARATOR
}

/// What stands before the first separator of `name`, if it has one.
pub open spec fn date_token(name: Seq<char>) -> Option<Seq<char>> {
    if exists|i: int| is_first_separator(name, i) {
        Some(name.take(choose|i: int| is_first_separator(name, i)))
    } else {
        None
    }
}

/// `c` is one of the ten decimal digits.
pub open spec fn is_digit(c: char) -> bool {
    '0' as u32 <= c as u32 <= '9' as u32
}

/// The number that the digit `c` stands for.
pub open spec fn digit_value(c: char) -> int {
    c as u32 - '0' as u32
}

/// `token` is written as `YYYY-MM-DD`: digits and hyphens in their places.
pub open spec fn has_date_shape(token: Seq<char>) -> bool {
    &&& token.len() == TOKEN_LEN
    &&& is_digit(token[0]) && is_digit(token[1]) && is_digit(token[2]) && is_digit(token[3])
    &&& token[4] == '-'
    &&& is_digit(token[5]) && is_digit(token[6])
    &&& token[7] == '-'
    &&& is_digit(token[8]) && is_digit(token[9])
}

/// The year that the first four digits of a well-shaped token denote.
pub open spec fn token_year(token: Seq<char>) -> int {
    1000 * digit_value(token[0]) + 100 * digit_value(token[1]) + 10 * digit_value(token[2])
        + digit_value(token[3])
}

/// The month that the middle two digits of a well-shaped token denote.
pub open spec fn token_month(token: Seq<char>) -> int {
    10 * digit_value(token[5]) + digit_value(token[6])
}

/// The day that the last two digits of a well-shaped token denote.
pub open spec fn token_day(token: Seq<char>) -> int {
    10 * digit_value(token[8]) + digit_value(token[9])
}

/// The date that `token` denotes, or the reason why it denotes none.
pub open spec fn read_token(token: Seq<char>) -> Result<Date, DateError> {
    if !has_date_shape(token) {
        Err(DateError::Malformed)
    } else if !is_calendar_date(token_year(token), token_month(token), token_day(token)) {
        Err(DateError::NoSuchDate)
    } else {
        Ok(
            Date {
                year: token_year(token) as i32,
                month: token_month(token) as u32,
                day: token_day(token) as u32,
            },
        )
    }
}

/// The date at the front of `name`, or the reason why there is none.
pub open spec fn read_date_prefix(name: Seq<char>) -> Result<Date, DateError> {
    match date_token(name) {
        None => Err(DateError::MissingSeparator),
        Some(token) => read_token(token),
    }
}

/// Midnight of a calendar date as seconds since 1970-01-01, through
/// `chrono::NaiveDate::from_ymd_opt`, `NaiveDate::and_hms_opt(0, 0, 0)` and
/// `DateTime::<Utc>::timestamp`.
///
/// Trusted: chrono returns a date exactly for the days that exist in the
/// proleptic Gregorian calendar (years 0 to 9999 are all within its range),
/// and the timestamp of midnight is 86 400 times the number of days since
/// 1970-01-01.
#[verifier::external_body]
fn midnight_timestamp(year: i32, month: u32, day: u32) -> (seconds: Option<i64>)
    requires
        0 <= year <= MAX_YEAR,
    ensures
        seconds is Some <==> is_calendar_date(year as int, month as int, day as int),
        seconds matches Some(s) ==> s == midnight_seconds(year as int, month as int, day as int),
{
    let date = NaiveDate::from_ymd_opt(year, month, day)?;
    Some(date.and_hms_opt(0, 0, 0)?.and_utc().timestamp())
}

/// The number that a run of decimal digits denotes, most significant first.
spec fn digits_value(digits: Seq<char>) -> int
    decreases digits.len(),
{
    if digits.len() == 0 {
        0
    } else {
        10 * digits_value(digits.drop_last()) + digit_value(digits.last())
    }
}

/// Ten to the power `n`.
spec fn pow10(n: nat) -> nat
    decreases n,
{
    if n == 0 {
        1
    } else {
        10 * pow10((n - 1) as nat)
    }
}

/// The value of `c` if it is a decimal digit.
fn digit_of(c: char) -> (value: Option<u32>)
    ensures
        value is Some <==> is_digit(c),
        value matches Some(v) ==> v == digit_value(c) && v <= 9,
{
    let code: u32 = c as u32;
    if 48 <= code && code <= 57 {
        Some(code - 48)
    } else {
        None
    }
}

/// Reads the number written in `chars[from..from + count]`, if all of those
/// characters are digits.
fn read_digits(chars: &Vec<char>, from: usize, count: usize) -> (value: Option<u32>)
    requires
        count <= 4,
        from + count <= chars.len(),
    ensures
        value is Some <==> forall|k: int| from <= k < from + count ==> is_digit(#[trigger] chars[k]),
        value matches Some(v) ==> v == digits_value(chars@.subrange(from as int, from + count)),
{
    let mut value: u32 = 0;
    let mut k: usize = 0;
    while k < count
        invariant
            k <= count <= 4,
            from + count <= chars.len(),
            forall|j: int| from <= j < from + k ==> is_digit(#[trigger] chars[j]),
            value == digits_value(chars@.subrange(from as int, from + k)),
            value < pow10(k as nat),
        decreases count - k,
    {
        proof {
            let upto = chars@.subrange(from as int, from + k + 1);
            assert(upto.drop_last() == chars@.subrange(from as int, from + k));
            assert(upto.last() == chars[from + k]);
            reveal_with_fuel(pow10, 5);
        }
        match digit_of(chars[from + k]) {
            Some(d) => {
                value = value * 10 + d;
            },
            None => {
                return None;
            },
        }
        k += 1;
    }
    Some(value)
}

/// Cuts the date token off the front of `filename` at its first separator and
/// reads it as `YYYY-MM-DD`: a four-digit year, a two-digit month and a
/// two-digit day that together name an existing day.
pub fn parse_date_prefix(filename: &str) -> (parsed: Result<Date, DateError>)
    ensures
        parsed == read_date_prefix(filename@),
        parsed matches Ok(date) ==> date.is_valid(),
{
    let chars = chars_of(filename);
    let mut end: usize = 0;
    while end < chars.len() && chars[end] != SEPARATOR
        invariant
            end <= chars.len(),
            forall|j: int| 0 <= j < end ==> chars[j] != SEPARATOR,
        decreases chars.len() - end,
    {
        end += 1;
    }
    if end == chars.len() {
        return Err(DateError::MissingSeparator);
    }
    assert(is_first_separator(chars@, end as int));
    let ghost token = chars@.take(end as int);
    assert(date_token(chars@) == Some(token)) by {
        let i = choose|i: int| is_first_separator(chars@, i);
        assert(i == end);
    }
    if end != TOKEN_LEN || chars[4] != '-' || chars[7] != '-' {
        return Err(DateError::Malformed);
    }
    let year = read_digits(&chars, 0, 4);
    let month = read_digits(&chars, 5, 2);
    let day = read_digits(&chars, 8, 2);
    proof {
        assert(is_digit(token[0]) <==> is_digit(chars[0]));
        lemma_digits_of_token(chars@, token);
    }
    match (year, month, day) {
        (Some(year), Some(month), Some(day)) => {
            match midnight_timestamp(year as i32, month, day) {
                Some(_) => Ok(Date { year: year as i32, month, day }),
                None => Err(DateError::NoSuchDate),
            }
        },
        _ => Err(DateError::Malformed),
    }
}

/// The three digit runs of a token with ten characters are worth what
/// `token_year`, `token_month` and `token_day` say.
proof fn lemma_digits_of_token(chars: Seq<char>, token: Seq<char>)
    requires
        chars.len() >= TOKEN_LEN,
        token == chars.take(TOKEN_LEN as int),
    ensures
        digits_value(chars.subrange(0, 4)) == token_year(token),
        digits_value(chars.subrange(5, 7)) == token_month(token),
        digits_value(chars.subrange(8, 10)) == token_day(token),
{
    reveal_with_fuel(digits_value, 5);
    let y = chars.subrange(0, 4);
    assert(y.drop_last() == chars.subrange(0, 3));
    assert(y.drop_last().drop_last() == chars.subrange(0, 2));
    assert(y.drop_last().drop_last().drop_last() == chars.subrange(0, 1));
    assert(y.drop_last().drop_last().drop_last().drop_last() == chars.subrange(0, 0));
    let m = chars.subrange(5, 7);
    assert(m.drop_last() == chars.subrange(5, 6));
    assert(m.drop_last().drop_last() == chars.subrange(5, 5));
    let d = chars.subrange(8, 10);
    assert(d.drop_last() == chars.subrange(8, 9));
    assert(d.drop_last().drop_last() == chars.subrange(8, 8));
}

/// One year further on, the count of days before the year grows by the
/// length of the year.
pub proof fn lemma_days_before_year_step(year: int)
    ensures
        days_before_year(year + 1) == days_before_year(year) + days_in_year(year),
{
    let p = year - 1;
    assert((p + 1) / 4 == p / 4 + (if (p + 1) % 4 == 0 { 1int } else { 0int }));
    assert((p + 1) / 100 == p / 100 + (if (p + 1) % 100 == 0 { 1int } else { 0int }));
    assert((p + 1) / 400 == p / 400 + (if (p + 1) % 400 == 0 { 1int } else { 0int }));
    assert(year % 400 == 0 ==> year % 100 == 0);
    assert(year % 100 == 0 ==> year % 4 == 0);
}

/// A later year starts at least 365 days per year of distance later.
pub proof fn lemma_days_before_year_grows(earlier: int, later: int)
    requires
        earlier <= later,
    ensures
        days_before_year(earlier) + 365 * (later - earlier) <= days_before_year(later),
    decreases later - earlier,
{
    if earlier < later {
        lemma_days_before_year_grows(earlier, later - 1);
        lemma_days_before_year_step(later - 1);
    }
}

/// The day of the year of an existing date lies between one and the length
/// of the year.
pub proof fn lemma_day_of_year_bounds(year: int, month: int, day: int)
    requires
        is_calendar_date(year, month, day),
    ensures
        1 <= days_before_month(year, month) + day <= days_in_year(year),
{
    reveal_with_fuel(days_before_month, 13);
}

/// Within one year, the day of the year grows with month and day.
pub proof fn lemma_day_of_year_grows(year: int, month: int, day: int, m: int, d: int)
    requires
        is_calendar_date(year, month, day),
        is_calendar_date(year, m, d),
        month < m || (month == m && day < d),
    ensures
        days_before_month(year, month) + day < days_before_month(year, m) + d,
{
    reveal_with_fuel(days_before_month, 13);
}

/// Counting days since 1970-01-01 orders dates as the calendar does: an
/// earlier date has the smaller count, and equal counts mean the same date.
pub proof fn lemma_epoch_day_orders_dates(a: Date, b: Date)
    requires
        a.is_valid(),
        b.is_valid(),
    ensures
        a.is_before(b) <==> a.epoch_day() < b.epoch_day(),
        a == b <==> a.epoch_day() == b.epoch_day(),
{
    let (ay, am, ad) = (a.year as int, a.month as int, a.day as int);
    let (by, bm, bd) = (b.year as int, b.month as int, b.day as int);
    lemma_day_of_year_bounds(ay, am, ad);
    lemma_day_of_year_bounds(by, bm, bd);
    if ay < by {
        lemma_days_before_year_step(ay);
        lemma_days_before_year_grows(ay + 1, by);
    } else if by < ay {
        lemma_days_before_year_step(by);
        lemma_days_before_year_grows(by + 1, ay);
    } else {
        if am < bm || (am == bm && ad < bd) {
            lemma_day_of_year_grows(ay, am, ad, bm, bd);
        } else if bm < am || (am == bm && bd < ad) {
            lemma_day_of_year_grows(ay, bm, bd, am, ad);
        }
    }
}

} // verus!
