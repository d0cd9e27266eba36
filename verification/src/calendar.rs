//! Calendar days.

use vstd::prelude::*;
use chrono::{Datelike, Days, NaiveDate};
use crate::text::nat_text;

verus! {

/// A day of the proleptic Gregorian calendar, as numbers.
pub struct Day {
    pub year: int,
    pub month: int,
    pub day: int,
}

/// A day of the proleptic Gregorian calendar.
#[derive(Debug, Clone, Copy, PartialEq, Eq, Structural)]
pub struct CivilDate {
    pub year: i32,
    pub month: u32,
    pub day: u32,
}

impl View for CivilDate {
    type V = Day;

    open spec fn view(&self) -> Day {
        Day { year: self.year as int, month: self.month as int, day: self.day as int }
    }
}

/// The first year of the calendar.
pub const FIRST_YEAR: i32 = -262_143;

/// The last year of the calendar.
pub const LAST_YEAR: i32 = 262_142;

/// Whether a year is a leap year.
pub open spec fn leap(year: int) -> bool {
    year % 4 == 0 && (year % 100 != 0 || year % 400 == 0)
}

/// How many days a month has.
pub open spec fn month_days(year: int, month: int) -> int {
    if month == 2 {
        if leap(year) { 29 } else { 28 }
    } else if month == 4 || month == 6 || month == 9 || month == 11 {
        30
    } else {
        31
    }
}

/// How many days a year has.
pub open spec fn year_days(year: int) -> int {
    if leap(year) { 366 } else { 365 }
}

/// Whether a day exists.
pub open spec fn exists_on_calendar(d: Day) -> bool {
    &&& FIRST_YEAR <= d.year <= LAST_YEAR
    &&& 1 <= d.month <= 12
    &&& 1 <= d.day <= month_days(d.year, d.month)
}

/// The day after a day.
pub open spec fn next_day(d: Day) -> Day {
    if d.day < month_days(d.year, d.month) {
        Day { day: d.day + 1, ..d }
    } else if d.month < 12 {
        Day { month: d.month + 1, day: 1, ..d }
    } else {
        Day { year: d.year + 1, month: 1, day: 1 }
    }
}

/// The day before a day.
pub open spec fn previous_day(d: Day) -> Day {
    if d.day > 1 {
        Day { day: d.day - 1, ..d }
    } else if d.month > 1 {
        Day { month: d.month - 1, day: month_days(d.year, d.month - 1), ..d }
    } else {
        Day { year: d.year - 1, month: 12, day: 31 }
    }
}

/// The day a number of days after a day.
pub open spec fn days_after(d: Day, n: nat) -> Day
    decreases n,
{
    if n == 0 { d } else { next_day(days_after(d, (n - 1) as nat)) }
}

/// The day a number of days before a day.
pub open spec fn days_before(d: Day, n: nat) -> Day
    decreases n,
{
    if n == 0 { d } else { previous_day(days_before(d, (n - 1) as nat)) }
}

/// How many days of its year a month has before it.
pub open spec fn days_before_month(year: int, month: int) -> int
    decreases month,
{
    if month <= 1 { 0 } else { days_before_month(year, month - 1) + month_days(year, month - 1) }
}

/// The number of a day in its year, counted from one.
pub open spec fn day_of_year(d: Day) -> int {
    days_before_month(d.year, d.month) + d.day
}

/// The first day of a year.
pub open spec fn new_year(year: int) -> Day {
    Day { year, month: 1, day: 1 }
}

proof fn lemma_month_offsets(year: int)
    ensures
        days_before_month(year, 12) == year_days(year) - 31,
{
    reveal_with_fuel(days_before_month, 13);
}

/// Counting on from the first day of a year gives every day of the year, the
/// n-th one after n steps less one.
pub proof fn law_year_is_counted(year: int, n: nat)
    requires
        n < year_days(year),
    ensures
        days_after(new_year(year), n).year == year,
        1 <= days_after(new_year(year), n).month <= 12,
        1 <= days_after(new_year(year), n).day <= month_days(
            year,
            days_after(new_year(year), n).month,
        ),
        day_of_year(days_after(new_year(year), n)) == n + 1,
    decreases n,
{
    if n > 0 {
        law_year_is_counted(year, (n - 1) as nat);
        lemma_month_offsets(year);
        let d = days_after(new_year(year), (n - 1) as nat);
        if d.day == month_days(year, d.month) && d.month == 12 {
            assert(day_of_year(d) == year_days(year));
        }
    } else {
        assert(days_before_month(year, 1) == 0);
    }
}

/// Going back undoes going forward.
pub proof fn law_previous_undoes_next(d: Day)
    requires
        1 <= d.month <= 12,
        1 <= d.day <= month_days(d.year, d.month),
    ensures
        previous_day(next_day(d)) == d,
{
}

/// A text with zeros put before it up to a length.
pub open spec fn zero_padded(s: Seq<char>, width: nat) -> Seq<char>
    decreases width - s.len(),
{
    if s.len() >= width { s } else { zero_padded(seq!['0'] + s, width) }
}

/// A year in four digits or more, with a sign where it has not exactly four.
pub open spec fn year_text(year: int) -> Seq<char> {
    if 0 <= year <= 9999 {
        zero_padded(nat_text(year as nat), 4)
    } else if year < 0 {
        seq!['-'] + zero_padded(nat_text((-year) as nat), 4)
    } else {
        seq!['+'] + zero_padded(nat_text(year as nat), 4)
    }
}

/// A day as year, month and day with hyphens between them.
pub open spec fn day_text(d: Day) -> Seq<char> {
    year_text(d.year) + seq!['-'] + zero_padded(nat_text(d.month as nat), 2) + seq!['-']
        + zero_padded(nat_text(d.day as nat), 2)
}

/// `chrono::NaiveDate::from_ymd_opt` gives a date exactly for the days that
/// exist between the first and the last year of its calendar.
#[verifier::external_body]
pub(crate) fn date_exists(date: CivilDate) -> (r: bool)
    ensures
        r == exists_on_calendar(date@),
{
    NaiveDate::from_ymd_opt(date.year, date.month, date.day).is_some()
}

/// `chrono::NaiveDate::checked_add_days` gives the day that many days later,
/// unless it lies behind the last year of its calendar.
#[verifier::external_body]
pub(crate) fn add_days(date: CivilDate, days: u64) -> (r: Option<CivilDate>)
    requires
        exists_on_calendar(date@),
        days <= 0x7fff_ffff,
    ensures
        r is Some <==> days_after(date@, days as nat).year <= LAST_YEAR,
        r matches Some(d) ==> d@ == days_after(date@, days as nat),
{
    let start = NaiveDate::from_ymd_opt(date.year, date.month, date.day)?;
    let end = start.checked_add_days(Days::new(days))?;
    Some(CivilDate { year: end.year(), month: end.month(), day: end.day() })
}

/// `chrono::NaiveDate::checked_sub_days` gives the day that many days earlier,
/// unless it lies before the first year of its calendar.
#[verifier::external_body]
pub(crate) fn subtract_days(date: CivilDate, days: u64) -> (r: Option<CivilDate>)
    requires
        exists_on_calendar(date@),
        days <= 0x7fff_ffff,
    ensures
        r is Some <==> days_before(date@, days as nat).year >= FIRST_YEAR,
        r matches Some(d) ==> d@ == days_before(date@, days as nat),
{
    let start = NaiveDate::from_ymd_opt(date.year, date.month, date.day)?;
    let end = start.checked_sub_days(Days::new(days))?;
    Some(CivilDate { year: end.year(), month: end.month(), day: end.day() })
}

/// `chrono::NaiveDate::format` with `%Y-%m-%d` writes the year in four digits or
/// more, with a sign where it has not exactly four, and month and day in two
/// digits each.
#[verifier::external_body]
pub(crate) fn write_day(date: CivilDate) -> (r: String)
    requires
        exists_on_calendar(date@),
    ensures
        r@ == day_text(date@),
{
    match NaiveDate::from_ymd_opt(date.year, date.month, date.day) {
        Some(d) => d.format("%Y-%m-%d").to_string(),
        None => String::new(),
    }
}

/// The days from `days` days before a day up to the day itself, oldest first.
pub open spec fn days_up_to(d: Day, days: nat) -> Seq<Seq<char>> {
    Seq::new(days, |i: int| day_text(days_before(d, (days - 1 - i) as nat)))
}

/// The days of a year, in order.
pub open spec fn days_of_year(year: int) -> Seq<Seq<char>> {
    Seq::new(
        year_days(year) as nat,
        |i: int| day_text(days_after(new_year(year), i as nat)),
    )
}

/// What a list of days spells.
pub open spec fn day_views(list: Seq<String>) -> Seq<Seq<char>> {
    list.map_values(|t: String| t@)
}

proof fn lemma_days_before_exist(d: Day, n: nat)
    requires
        exists_on_calendar(d),
        d.year > FIRST_YEAR,
        n <= 300,
    ensures
        exists_on_calendar(days_before(d, n)),
        days_before(d, n).year == d.year || (days_before(d, n).year == d.year - 1 && day_of_year(
            days_before(d, n),
        ) >= year_days(d.year - 1) - n),
    decreases n,
{
    if n > 0 {
        lemma_days_before_exist(d, (n - 1) as nat);
        lemma_month_offsets(d.year - 1);
        let p = days_before(d, (n - 1) as nat);
        let q = previous_day(p);
        assert(days_before_month(p.year, 1) == 0);
        if p.day == 1 && p.month == 1 {
            assert(p.year == d.year) by {
                if p.year == d.year - 1 {
                    assert(day_of_year(p) == 1);
                }
            }
            assert(day_of_year(q) == year_days(d.year - 1));
        } else if p.year == d.year - 1 {
            assert(day_of_year(q) == day_of_year(p) - 1);
        }
    }
}

/// The last `days` days up to `today`, oldest first. No more than three hundred.
pub fn recent_days(today: CivilDate, days: u64) -> (r: Vec<String>)
    requires
        exists_on_calendar(today@),
        today.year > FIRST_YEAR,
        days <= 300,
    ensures
        day_views(r@) == days_up_to(today@, days as nat),
{
    let mut out: Vec<String> = Vec::new();
    let mut left: u64 = days;
    while left > 0
        invariant
            exists_on_calendar(today@),
            today.year > FIRST_YEAR,
            left <= days <= 300,
            out@.len() == days - left,
            forall|i: int|
                0 <= i < out@.len() ==> (#[trigger] out@[i])@ == day_text(
                    days_before(today@, (days - 1 - i) as nat),
                ),
        decreases left,
    {
        left -= 1;
        proof {
            lemma_days_before_exist(today@, left as nat);
        }
        if let Some(d) = subtract_days(today, left) {
            out.push(write_day(d));
        }
    }
    assert(day_views(out@) =~= days_up_to(today@, days as nat));
    out
}

/// The days of a year, in order.
pub fn all_days(year: i32) -> (r: Vec<String>)
    requires
        FIRST_YEAR <= year <= LAST_YEAR,
    ensures
        day_views(r@) == days_of_year(year as int),
{
    let is_leap: bool = date_exists(CivilDate { year, month: 2, day: 29 });
    let count: u64 = if is_leap { 366 } else { 365 };
    let start = CivilDate { year, month: 1, day: 1 };
    let mut out: Vec<String> = Vec::new();
    let mut i: u64 = 0;
    while i < count
        invariant
            FIRST_YEAR <= year <= LAST_YEAR,
            start@ == new_year(year as int),
            exists_on_calendar(start@),
            count == year_days(year as int),
            i <= count,
            out@.len() == i,
            forall|k: int|
                0 <= k < out@.len() ==> (#[trigger] out@[k])@ == day_text(
                    days_after(new_year(year as int), k as nat),
                ),
        decreases count - i,
    {
        proof {
            law_year_is_counted(year as int, i as nat);
        }
        if let Some(d) = add_days(start, i) {
            out.push(write_day(d));
        }
        i += 1;
    }
    assert(day_views(out@) =~= days_of_year(year as int));
    out
}

} // verus!
