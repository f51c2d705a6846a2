//! Dates with and without a year, their order, and calendar arithmetic.

use vstd::prelude::*;
use std::cmp::Ordering;
use vstd::std_specs::cmp::PartialOrdSpec;
use chrono::Datelike;
use vstd::arithmetic::div_mod::lemma_mod_multiples_vanish;
use crate::error::{Error, Field};
use crate::text::{
    all_space, decimal, fields, i32_of, lemma_decimal, lemma_digits_no_delimiter,
    lemma_fields_nonempty, lemma_fields_push, lemma_fields_single, lemma_i32_of_signed_decimal,
    lemma_trim_padding, lemma_u32_of_decimal, padded, parse_i32, parse_u32, push_padded,
    signed_decimal, split_on, trim, trim_str, u32_of,
};

verus! {

/// A day of a month, in no particular year. Day and month are not checked
/// against each other: the calendar arithmetic rolls over what does not exist.
#[derive(Debug, Clone, Copy, PartialEq, Eq, Structural, Ord)]
pub struct Recurring {
    pub month: u32,
    pub day: u32,
}

/// A calendar date.
#[derive(Debug, Clone, Copy, PartialEq, Eq, Structural, Ord)]
pub struct Fixed {
    pub year: i32,
    pub date: Recurring,
}

/// A date that may or may not carry a year.
#[derive(Debug, Clone, Copy, PartialEq, Eq, Structural)]
pub enum AnyDate {
    Recurring(Recurring),
    Fixed(Fixed),
}

impl View for Fixed {
    type V = (int, int, int);

    /// Year, month and day.
    open spec fn view(&self) -> (int, int, int) {
        (self.year as int, self.date.month as int, self.date.day as int)
    }
}

pub open spec fn compare_int(a: int, b: int) -> Ordering {
    if a < b {
        Ordering::Less
    } else if a == b {
        Ordering::Equal
    } else {
        Ordering::Greater
    }
}

/// Lexicographic comparison of (year, month, day).
pub open spec fn compare_ymd(a: (int, int, int), b: (int, int, int)) -> Ordering {
    if a.0 != b.0 {
        compare_int(a.0, b.0)
    } else if a.1 != b.1 {
        compare_int(a.1, b.1)
    } else {
        compare_int(a.2, b.2)
    }
}

pub open spec fn before(a: (int, int, int), b: (int, int, int)) -> bool {
    compare_ymd(a, b) == Ordering::Less
}

fn compare_u(a: u32, b: u32) -> (r: Ordering)
    ensures
        r == compare_int(a as int, b as int),
{
    if a < b {
        Ordering::Less
    } else if a == b {
        Ordering::Equal
    } else {
        Ordering::Greater
    }
}

fn compare_i(a: i32, b: i32) -> (r: Ordering)
    ensures
        r == compare_int(a as int, b as int),
{
    if a < b {
        Ordering::Less
    } else if a == b {
        Ordering::Equal
    } else {
        Ordering::Greater
    }
}

impl PartialOrd for Recurring {
    fn partial_cmp(&self, other: &Recurring) -> (r: Option<Ordering>) {
        if self.month != other.month {
            Some(compare_u(self.month, other.month))
        } else {
            Some(compare_u(self.day, other.day))
        }
    }
}

impl vstd::std_specs::cmp::PartialOrdSpecImpl for Recurring {
    open spec fn obeys_partial_cmp_spec() -> bool {
        true
    }

    open spec fn partial_cmp_spec(&self, other: &Recurring) -> Option<Ordering> {
        Some(compare_ymd((0, self.month as int, self.day as int), (0, other.month as int, other.day as int)))
    }
}

impl PartialOrd for Fixed {
    fn partial_cmp(&self, other: &Fixed) -> (r: Option<Ordering>) {
        let r = if self.year != other.year {
            compare_i(self.year, other.year)
        } else if self.date.month != other.date.month {
            compare_u(self.date.month, other.date.month)
        } else {
            compare_u(self.date.day, other.date.day)
        };
        assert(r == compare_ymd(self@, other@));
        Some(r)
    }
}

impl vstd::std_specs::cmp::PartialOrdSpecImpl for Fixed {
    open spec fn obeys_partial_cmp_spec() -> bool {
        true
    }

    open spec fn partial_cmp_spec(&self, other: &Fixed) -> Option<Ordering> {
        Some(
            compare_ymd(
                (self.year as int, self.date.month as int, self.date.day as int),
                (other.year as int, other.date.month as int, other.date.day as int),
            ),
        )
    }
}

/// The order of dates is a strict total order, lexicographic on
/// (year, month, day), under which a date is equal only to itself.
pub proof fn lemma_order_total(a: Fixed, b: Fixed, c: Fixed)
    ensures
        a.partial_cmp_spec(&a) == Some(Ordering::Equal),
        a.partial_cmp_spec(&b) == Some(Ordering::Equal) <==> a == b,
        a.partial_cmp_spec(&b) == Some(Ordering::Less) <==> b.partial_cmp_spec(&a) == Some(
            Ordering::Greater,
        ),
        a.partial_cmp_spec(&b) is Some,
        a.partial_cmp_spec(&b) == Some(Ordering::Less) && b.partial_cmp_spec(&c) == Some(
            Ordering::Less,
        ) ==> a.partial_cmp_spec(&c) == Some(Ordering::Less),
        a.partial_cmp_spec(&b) == Some(Ordering::Less) <==> (a.year < b.year || (a.year == b.year
            && a.date.month < b.date.month) || (a.year == b.year && a.date.month == b.date.month
            && a.date.day < b.date.day)),
{
}

pub open spec fn leap(y: int) -> bool {
    y % 400 == 0 || (y % 4 == 0 && y % 100 != 0)
}

/// Days in month `m` of year `y`; a month outside 1..=12 counts 31.
pub open spec fn month_length(m: int, y: int) -> int {
    if m == 1 || m == 3 || m == 5 || m == 7 || m == 8 || m == 10 || m == 12 {
        31
    } else if m == 4 || m == 6 || m == 9 || m == 11 {
        30
    } else if m == 2 {
        if leap(y) {
            29
        } else {
            28
        }
    } else {
        31
    }
}

/// A date that exists in the calendar.
pub open spec fn valid_ymd(a: (int, int, int)) -> bool {
    1 <= a.1 <= 12 && 1 <= a.2 <= month_length(a.1, a.0)
}

/// The day after `a`: past the month's end to day 1 of the next month, past
/// month 12 to 1 January of the next year.
pub open spec fn following(a: (int, int, int)) -> (int, int, int) {
    let (day, month) = if a.2 + 1 > month_length(a.1, a.0) {
        (1, a.1 + 1)
    } else {
        (a.2 + 1, a.1)
    };
    if month > 12 {
        (a.0 + 1, 1, 1)
    } else {
        (a.0, month, day)
    }
}

/// The date `n` days after `a`.
pub open spec fn walk(a: (int, int, int), n: nat) -> (int, int, int)
    decreases n,
{
    if n == 0 {
        a
    } else {
        walk(following(a), (n - 1) as nat)
    }
}


/// The occurrence of the month and day of `a` in the year from `today` on:
/// this year's if it is not before `today`, else next year's; 29 February
/// becomes 28 February in a year that is not leap.
pub open spec fn match_from(a: (int, int, int), today: (int, int, int)) -> (int, int, int) {
    let y = if before((today.0, a.1, a.2), today) {
        today.0 + 1
    } else {
        today.0
    };
    if a.1 == 2 && a.2 == 29 && !leap(y) {
        (y, 2, 28)
    } else {
        (y, a.1, a.2)
    }
}

/// Bounds of the years that the clock can report.
pub open spec fn clock_year(y: int) -> bool {
    -262144 <= y <= 262143
}

/// Relies on chrono's `Utc::now` with `Datelike::{year, month, day}`: today's
/// date in UTC, a real date (month 1 to 12, a day of that month) within
/// chrono's range of years.
#[verifier::external_body]
fn clock_today() -> (r: (i32, u32, u32))
    ensures
        valid_ymd((r.0 as int, r.1 as int, r.2 as int)),
        clock_year(r.0 as int),
{
    let now = chrono::Utc::now();
    (now.year(), now.month(), now.day())
}

/// Days from `a` until the first day that is not before `b`.
pub open spec fn days_between(a: (int, int, int), b: (int, int, int)) -> nat
    decreases (if before(a, b) { key(b) - key(a) } else { 0 }),
    when in_range(a) && in_range(b)
    via lemma_days_between_decreases
{
    if before(a, b) {
        1 + days_between(following(a), b)
    } else {
        0
    }
}

pub open spec fn in_range(a: (int, int, int)) -> bool {
    0 <= a.1 <= u32::MAX && 0 <= a.2 <= u32::MAX
}

pub open spec fn key(a: (int, int, int)) -> int {
    a.0 * 0x1_0000_0000_0000_0000 + a.1 * 0x1_0000_0000 + a.2
}

proof fn lemma_key_order(a: (int, int, int), b: (int, int, int))
    requires
        in_range(a),
        in_range(b),
        before(a, b),
    ensures
        key(a) < key(b),
{
    if a.0 < b.0 {
        assert(a.0 * 0x1_0000_0000_0000_0000 + 0x1_0000_0000_0000_0000 <= b.0 * 0x1_0000_0000_0000_0000) by (nonlinear_arith)
            requires a.0 < b.0;
        assert(a.1 * 0x1_0000_0000 <= 0xFFFF_FFFF * 0x1_0000_0000) by (nonlinear_arith)
            requires a.1 <= 0xFFFF_FFFF;
        assert(0 <= b.1 * 0x1_0000_0000) by (nonlinear_arith)
            requires b.1 >= 0;
    } else if a.1 < b.1 {
        assert(a.1 * 0x1_0000_0000 + 0x1_0000_0000 <= b.1 * 0x1_0000_0000) by (nonlinear_arith)
            requires a.1 < b.1;
    }
}

proof fn lemma_following_after(a: (int, int, int))
    requires
        in_range(a),
    ensures
        in_range(following(a)),
        before(a, following(a)),
        key(a) < key(following(a)),
{
    lemma_key_order(a, following(a));
}

#[via_fn]
proof fn lemma_days_between_decreases(a: (int, int, int), b: (int, int, int)) {
    if before(a, b) {
        lemma_following_after(a);
        lemma_key_order(a, b);
        if before(following(a), b) {
            lemma_key_order(following(a), b);
        }
    }
}

/// Every step before `days_between(a, b)` is before `b`, and the one at it is not.
pub proof fn lemma_walk_days(a: (int, int, int), b: (int, int, int), k: nat)
    requires
        in_range(a),
        in_range(b),
    ensures
        k < days_between(a, b) ==> before(walk(a, k), b),
        !before(walk(a, days_between(a, b)), b),
    decreases days_between(a, b),
{
    if before(a, b) {
        lemma_following_after(a);
        if k > 0 {
            lemma_walk_days(following(a), b, (k - 1) as nat);
        }
        lemma_walk_days(following(a), b, 0);
    }
}

pub proof fn lemma_walk_step(a: (int, int, int), n: nat)
    ensures
        walk(a, n + 1) == following(walk(a, n)),
    decreases n,
{
    if n > 0 {
        lemma_walk_step(following(a), (n - 1) as nat);
        assert(walk(a, n) == walk(following(a), (n - 1) as nat));
        assert(walk(a, n + 1) == walk(following(a), n));
    } else {
        assert(walk(a, 1) == walk(following(a), 0));
    }
}

pub proof fn lemma_walk_in_range(a: (int, int, int), n: nat)
    requires
        in_range(a),
    ensures
        in_range(walk(a, n)),
    decreases n,
{
    if n > 0 {
        lemma_following_after(a);
        lemma_walk_in_range(following(a), (n - 1) as nat);
    }
}

pub fn is_leap(year: i32) -> (r: bool)
    ensures
        r == leap(year as int),
{
    // shifted by a multiple of 400 so that the remainders are taken of a non-negative value
    let u: u64 = (year as i64 + 2147484000) as u64;
    proof {
        let y = year as int;
        lemma_mod_multiples_vanish(5368710, y, 400);
        lemma_mod_multiples_vanish(21474840, y, 100);
        lemma_mod_multiples_vanish(536871000, y, 4);
        assert(u as int == 400 * 5368710 + y);
        assert(u as int == 100 * 21474840 + y);
        assert(u as int == 4 * 536871000 + y);
    }
    u % 400 == 0 || (u % 4 == 0 && u % 100 != 0)
}

pub fn last_day(month: u32, year: i32) -> (r: u32)
    ensures
        r as int == month_length(month as int, year as int),
{
    if month == 1 || month == 3 || month == 5 || month == 7 || month == 8 || month == 10 || month
        == 12 {
        31
    } else if month == 4 || month == 6 || month == 9 || month == 11 {
        30
    } else if month == 2 {
        if is_leap(year) {
            29
        } else {
            28
        }
    } else {
        31
    }
}

/// `dd/mm`.
pub open spec fn recurring_text(r: Recurring) -> Seq<char> {
    padded(r.day as nat, 2) + "/"@ + padded(r.month as nat, 2)
}

/// The year in four digits at least, a minus sign counted among them.
pub open spec fn year_text(y: int) -> Seq<char> {
    if y < 0 {
        "-"@ + padded((-y) as nat, 3)
    } else {
        padded(y as nat, 4)
    }
}

/// `dd/mm/yyyy`.
pub open spec fn fixed_text(f: Fixed) -> Seq<char> {
    recurring_text(f.date) + "/"@ + year_text(f.year as int)
}

impl Recurring {
    /// The date as `dd/mm`.
    pub fn to_text(&self) -> (r: String)
        ensures
            r@ == recurring_text(*self),
    {
        let mut out = String::new();
        self.write_to(&mut out);
        assert(out@ =~= recurring_text(*self));
        out
    }

    fn write_to(&self, out: &mut String)
        ensures
            final(out)@ == old(out)@ + recurring_text(*self),
    {
        push_padded(out, self.day as u64, 2);
        out.append("/");
        push_padded(out, self.month as u64, 2);
        assert(final(out)@ =~= old(out)@ + recurring_text(*self));
    }

    /// Today's day and month.
    pub fn now() -> (r: Recurring)
        ensures
            1 <= r.month <= 12,
            1 <= r.day <= 31,
    {
        let (_year, month, day) = clock_today();
        Recurring::new(day, month)
    }

    pub fn new(day: u32, month: u32) -> (r: Recurring)
        ensures
            r.day == day,
            r.month == month,
    {
        Recurring { month, day }
    }
}

impl Fixed {
    /// The date as `dd/mm/yyyy`.
    pub fn to_text(&self) -> (r: String)
        ensures
            r@ == fixed_text(*self),
    {
        let mut out = String::new();
        self.date.write_to(&mut out);
        out.append("/");
        if self.year < 0 {
            out.append("-");
            push_padded(&mut out, (0 - self.year as i64) as u64, 3);
        } else {
            push_padded(&mut out, self.year as u64, 4);
        }
        assert(out@ =~= fixed_text(*self));
        out
    }

    pub fn new(day: u32, month: u32, year: i32) -> (r: Fixed)
        ensures
            r.date.day == day,
            r.date.month == month,
            r.year == year,
    {
        Fixed { year, date: Recurring::new(day, month) }
    }


    /// Whether this date comes before `other`.
    pub fn precedes(&self, other: &Fixed) -> (r: bool)
        ensures
            r == before(self@, other@),
    {
        self.year < other.year || (self.year == other.year && (self.date.month < other.date.month
            || (self.date.month == other.date.month && self.date.day < other.date.day)))
    }

    /// Today's date.
    pub fn now() -> (r: Fixed)
        ensures
            valid_ymd(r@),
            clock_year(r.year as int),
    {
        let (year, month, day) = clock_today();
        Fixed::new(day, month, year)
    }

    /// The occurrence of this date's month and day in the year from `today` on.
    pub fn next_match_at(self, today: Fixed) -> (r: Fixed)
        requires
            today.year < i32::MAX,
        ensures
            r@ == match_from(self@, today@),
    {
        let this_year = Fixed { year: today.year, date: self.date };
        let year = if this_year.precedes(&today) {
            today.year + 1
        } else {
            today.year
        };
        if self.date.month == 2 && self.date.day == 29 && !is_leap(year) {
            Fixed::new(28, 2, year)
        } else {
            Fixed { year, date: self.date }
        }
    }

    /// The occurrence of this date's month and day in the year from today on.
    pub fn next_match(self) -> (r: Fixed)
        ensures
            exists|today: Fixed|
                valid_ymd(today@) && clock_year(today.year as int) && r@ == match_from(
                    self@,
                    #[trigger] today@,
                ),
    {
        let today = Fixed::now();
        self.next_match_at(today)
    }

    /// Years from this date to `target`.
    pub fn year_diff(self, target: Fixed) -> (r: i32)
        requires
            i32::MIN <= target.year - self.year <= i32::MAX,
        ensures
            r == target.year - self.year,
    {
        target.year - self.year
    }

    /// Days from this date until `target` (0 where `target` is not later).
    pub fn to(self, target: Fixed) -> (r: u32)
        requires
            days_between(self@, target@) <= u32::MAX,
        ensures
            r == days_between(self@, target@),
    {
        let mut current = self;
        let mut count: u32 = 0;
        while current.precedes(&target)
            invariant
                in_range(current@),
                in_range(target@),
                count + days_between(current@, target@) == days_between(self@, target@),
                days_between(self@, target@) <= u32::MAX,
            decreases days_between(current@, target@),
        {
            proof {
                lemma_following_after(current@);
                assert(before(current@, target@));
                assert(days_between(current@, target@) == 1 + days_between(
                    following(current@),
                    target@,
                ));
            }
            count = count + 1;
            match current.checked_next() {
                Some(n) => {
                    current = n;
                },
                None => {
                    proof {
                        assert(!before(following(current@), target@));
                        assert(days_between(following(current@), target@) == 0);
                    }
                    return count;
                },
            }
        }
        count
    }

    /// The next day.
    pub fn next(self) -> (r: Fixed)
        requires
            following(self@).0 <= i32::MAX,
        ensures
            r@ == following(self@),
    {
        let last = last_day(self.date.month, self.year);
        if self.date.month > 12 || (self.date.day >= last && self.date.month >= 12) {
            Fixed::new(1, 1, self.year + 1)
        } else if self.date.day >= last {
            Fixed::new(1, self.date.month + 1, self.year)
        } else {
            Fixed::new(self.date.day + 1, self.date.month, self.year)
        }
    }

    /// The next day, or `None` where its year does not fit.
    pub fn checked_next(self) -> (r: Option<Fixed>)
        ensures
            r is None <==> following(self@).0 > i32::MAX,
            r is Some ==> r->0@ == following(self@),
    {
        if self.year == i32::MAX {
            let last = last_day(self.date.month, self.year);
            if self.date.month > 12 || (self.date.day >= last && self.date.month >= 12) {
                return None;
            }
        }
        Some(self.next())
    }
}

/// A day slot and a month slot, each trimmed; the month is read first.
pub open spec fn number_pair(day: Seq<char>, month: Seq<char>) -> Result<Recurring, Error> {
    match u32_of(trim(month)) {
        None => Err(Error::Invalid(Field::Month)),
        Some(m) => match u32_of(trim(day)) {
            None => Err(Error::Invalid(Field::Day)),
            Some(d) => Ok(Recurring { month: m, day: d }),
        },
    }
}

/// `day,month`.
pub open spec fn recurring_of(s: Seq<char>) -> Result<Recurring, Error> {
    let p = fields(s, ',');
    if p.len() < 2 {
        Err(Error::Missing(Field::Month))
    } else if p.len() > 2 {
        Err(Error::Extra(','))
    } else {
        number_pair(p[0], p[1])
    }
}

/// `day,month,year`.
pub open spec fn fixed_of(s: Seq<char>) -> Result<Fixed, Error> {
    let p = fields(s, ',');
    if p.len() < 2 {
        Err(Error::Missing(Field::Month))
    } else if p.len() < 3 {
        Err(Error::Missing(Field::Year))
    } else {
        match number_pair(p[0], p[1]) {
            Err(e) => Err(e),
            Ok(date) => if p.len() > 3 {
                Err(Error::Extra(','))
            } else {
                match i32_of(trim(p[2])) {
                    None => Err(Error::Invalid(Field::Year)),
                    Some(year) => Ok(Fixed { year, date }),
                }
            },
        }
    }
}

/// `day,month` where that reads, else `day,month,year`.
pub open spec fn any_date_of(s: Seq<char>) -> Result<AnyDate, Error> {
    match recurring_of(s) {
        Ok(r) => Ok(AnyDate::Recurring(r)),
        Err(_) => match fixed_of(s) {
            Ok(f) => Ok(AnyDate::Fixed(f)),
            Err(_) => Err(Error::NoDateFormat),
        },
    }
}

fn parse_pair(day: &str, month: &str) -> (r: Result<Recurring, Error>)
    ensures
        r == number_pair(day@, month@),
{
    let month = match parse_u32(trim_str(month)) {
        None => return Err(Error::Invalid(Field::Month)),
        Some(m) => m,
    };
    let day = match parse_u32(trim_str(day)) {
        None => return Err(Error::Invalid(Field::Day)),
        Some(d) => d,
    };
    Ok(Recurring { month, day })
}

impl Recurring {
    /// Reads `day,month`, each slot trimmed.
    pub fn parse(value: &str) -> (r: Result<Recurring, Error>)
        ensures
            r == recurring_of(value@),
    {
        let parts = split_on(value, ',');
        proof {
            lemma_fields_nonempty(value@, ',');
        }
        if parts.len() < 2 {
            return Err(Error::Missing(Field::Month));
        }
        if parts.len() > 2 {
            return Err(Error::Extra(','));
        }
        assert(parts@[0]@ == fields(value@, ',')[0]);
        assert(parts@[1]@ == fields(value@, ',')[1]);
        parse_pair(parts[0], parts[1])
    }
}

impl Fixed {
    /// Reads `day,month,year`, each slot trimmed.
    pub fn parse(value: &str) -> (r: Result<Fixed, Error>)
        ensures
            r == fixed_of(value@),
    {
        let parts = split_on(value, ',');
        proof {
            lemma_fields_nonempty(value@, ',');
        }
        if parts.len() < 2 {
            return Err(Error::Missing(Field::Month));
        }
        if parts.len() < 3 {
            return Err(Error::Missing(Field::Year));
        }
        assert(parts@[0]@ == fields(value@, ',')[0]);
        assert(parts@[1]@ == fields(value@, ',')[1]);
        assert(parts@[2]@ == fields(value@, ',')[2]);
        let date = match parse_pair(parts[0], parts[1]) {
            Err(e) => return Err(e),
            Ok(d) => d,
        };
        if parts.len() > 3 {
            return Err(Error::Extra(','));
        }
        match parse_i32(trim_str(parts[2])) {
            None => Err(Error::Invalid(Field::Year)),
            Some(year) => Ok(Fixed { year, date }),
        }
    }
}

impl AnyDate {
    /// Reads `day,month`, or else `day,month,year`.
    pub fn parse(value: &str) -> (r: Result<AnyDate, Error>)
        ensures
            r == any_date_of(value@),
    {
        if let Ok(recurring) = Recurring::parse(value) {
            return Ok(AnyDate::Recurring(recurring));
        }
        if let Ok(fixed) = Fixed::parse(value) {
            return Ok(AnyDate::Fixed(fixed));
        }
        Err(Error::NoDateFormat)
    }
}

impl<'a> TryFrom<&'a str> for Recurring {
    type Error = Error;

    fn try_from(value: &'a str) -> Result<Recurring, Error> {
        Recurring::parse(value)
    }
}

impl<'a> vstd::std_specs::convert::TryFromSpecImpl<&'a str> for Recurring {
    open spec fn obeys_try_from_spec() -> bool {
        true
    }

    open spec fn try_from_spec(value: &'a str) -> Result<Recurring, Error> {
        recurring_of(value@)
    }
}

impl<'a> TryFrom<&'a str> for Fixed {
    type Error = Error;

    fn try_from(value: &'a str) -> Result<Fixed, Error> {
        Fixed::parse(value)
    }
}

impl<'a> vstd::std_specs::convert::TryFromSpecImpl<&'a str> for Fixed {
    open spec fn obeys_try_from_spec() -> bool {
        true
    }

    open spec fn try_from_spec(value: &'a str) -> Result<Fixed, Error> {
        fixed_of(value@)
    }
}

impl<'a> TryFrom<&'a str> for AnyDate {
    type Error = Error;

    fn try_from(value: &'a str) -> Result<AnyDate, Error> {
        AnyDate::parse(value)
    }
}

impl<'a> vstd::std_specs::convert::TryFromSpecImpl<&'a str> for AnyDate {
    open spec fn obeys_try_from_spec() -> bool {
        true
    }

    open spec fn try_from_spec(value: &'a str) -> Result<AnyDate, Error> {
        any_date_of(value@)
    }
}

/// Writing a day and a month in decimal as `d,m` and reading it gives the
/// same date back, which shows as `dd/mm`, each part zero-padded to two digits.
pub proof fn lemma_recurring_round_trip(day: u32, month: u32)
    ensures
        recurring_of(decimal(day as nat) + seq![','] + decimal(month as nat)) == Ok::<
            Recurring,
            Error,
        >(Recurring { month, day }),
        recurring_text(Recurring { month, day }) == padded(day as nat, 2) + "/"@ + padded(
            month as nat,
            2,
        ),
{
    let d = decimal(day as nat);
    let m = decimal(month as nat);
    lemma_u32_of_decimal(day);
    lemma_u32_of_decimal(month);
    lemma_decimal(day as nat);
    lemma_decimal(month as nat);
    lemma_digits_no_delimiter(d, ',');
    lemma_digits_no_delimiter(m, ',');
    lemma_fields_single(d, ',');
    lemma_fields_push(d, m, ',');
    assert(fields(d + seq![','] + m, ',') =~= seq![d, m]);
}

/// Writing a date in decimal as `d,m,y` and reading it gives the same date
/// back, which shows as `dd/mm/yyyy`.
pub proof fn lemma_fixed_round_trip(day: u32, month: u32, year: i32)
    ensures
        fixed_of(
            decimal(day as nat) + seq![','] + decimal(month as nat) + seq![','] + signed_decimal(
                year as int,
            ),
        ) == Ok::<Fixed, Error>(Fixed { year, date: Recurring { month, day } }),
        fixed_text(Fixed { year, date: Recurring { month, day } }) == padded(day as nat, 2) + "/"@
            + padded(month as nat, 2) + "/"@ + year_text(year as int),
{
    let d = decimal(day as nat);
    let m = decimal(month as nat);
    let y = signed_decimal(year as int);
    lemma_u32_of_decimal(day);
    lemma_u32_of_decimal(month);
    lemma_i32_of_signed_decimal(year);
    lemma_decimal(day as nat);
    lemma_decimal(month as nat);
    lemma_digits_no_delimiter(d, ',');
    lemma_digits_no_delimiter(m, ',');
    lemma_fields_single(d, ',');
    lemma_fields_push(d, m, ',');
    lemma_fields_push(d + seq![','] + m, y, ',');
    assert(fields(d + seq![','] + m + seq![','] + y, ',') =~= seq![d, m, y]);
}

/// A 29 February falls on 28 February in a year that is not leap, and on
/// 29 February in one that is.
pub proof fn lemma_leap_day_fallback(a: (int, int, int), today: (int, int, int))
    requires
        a.1 == 2,
        a.2 == 29,
    ensures
        match_from(a, today).1 == 2,
        !leap(match_from(a, today).0) ==> match_from(a, today).2 == 28,
        leap(match_from(a, today).0) ==> match_from(a, today).2 == 29,
        valid_ymd(match_from(a, today)),
{
}

/// The next occurrence lies in the year from `today` on: not before `today`,
/// and before the same day a year later; it keeps the month and day where
/// they exist in its year.
pub proof fn lemma_next_match_window(a: (int, int, int), today: (int, int, int))
    requires
        valid_ymd(today),
        1 <= a.1 <= 12,
    ensures
        !before(match_from(a, today), today),
        before(match_from(a, today), (today.0 + 1, today.1, today.2)),
        match_from(a, today).1 == a.1,
        !(a.1 == 2 && a.2 == 29) ==> match_from(a, today).2 == a.2,
{
}

/// A line of any kind whose slot count is wrong at the top level is refused.
pub proof fn lemma_date_slot_counts(s: Seq<char>)
    ensures
        fields(s, ',').len() != 2 ==> recurring_of(s) is Err,
        fields(s, ',').len() != 3 ==> fixed_of(s) is Err,
        fields(s, ',').len() != 2 && fields(s, ',').len() != 3 ==> any_date_of(s) is Err,
{
}

proof fn lemma_no_comma(a: Seq<char>, b: Seq<char>, c: Seq<char>)
    requires
        all_space(a),
        !b.contains(','),
        all_space(c),
    ensures
        !(a + b + c).contains(','),
{
    let s = a + b + c;
    if s.contains(',') {
        let i = choose|i: int| 0 <= i < s.len() && s[i] == ',';
        if i < a.len() {
            assert(s[i] == a[i]);
        } else if i < a.len() + b.len() {
            assert(s[i] == b[i - a.len()]);
        } else {
            assert(s[i] == c[i - a.len() - b.len()]);
        }
    }
}

/// White space around either slot of `d,m` leaves the date that is read unchanged.
pub proof fn lemma_recurring_padding(
    w1: Seq<char>,
    d: Seq<char>,
    w2: Seq<char>,
    w3: Seq<char>,
    m: Seq<char>,
    w4: Seq<char>,
)
    requires
        all_space(w1),
        all_space(w2),
        all_space(w3),
        all_space(w4),
        !d.contains(','),
        !m.contains(','),
    ensures
        recurring_of(w1 + d + w2 + seq![','] + (w3 + m + w4)) == recurring_of(d + seq![','] + m),
{
    lemma_no_comma(w1, d, w2);
    lemma_no_comma(w3, m, w4);
    lemma_fields_single(w1 + d + w2, ',');
    lemma_fields_push(w1 + d + w2, w3 + m + w4, ',');
    lemma_fields_single(d, ',');
    lemma_fields_push(d, m, ',');
    lemma_trim_padding(w1, d, w2);
    lemma_trim_padding(w3, m, w4);
    assert(fields(w1 + d + w2 + seq![','] + (w3 + m + w4), ',') =~= seq![w1 + d + w2, w3 + m + w4]);
    assert(fields(d + seq![','] + m, ',') =~= seq![d, m]);
}

} // verus!
