//! Days: how many a year has, and how one is written.

use vstd::prelude::*;
use crate::calendar::{
    day_of_year, day_text, days_after, days_before_month, days_of_year, exists_on_calendar, leap,
    month_days, new_year, next_day, previous_day, year_days, year_text, zero_padded, Day,
};
use crate::db::activity::{
    active_years, counted_days, dated, descending, first_day, marked_year, stamped, stamps,
};
use crate::db::numbers::{digits_value, leading_integer};
use crate::db::EpisodeRow;
use crate::laws::lists::lemma_filter_member;
use crate::laws::numbering::law_digits_are_decimal;
use crate::laws::texts::law_number_is_read_back;
use crate::models::DayCount;
use crate::text::{ascii_digit, ascii_int, nat_text, precedes};

verus! {

/// Every fourth year is a leap year; of those that end a century only every fourth
/// is. The years repeat after four hundred.
pub proof fn law_leap_years(n: int)
    ensures
        leap(4 * n) <==> n % 25 != 0 || n % 100 == 0,
        !leap(4 * n + 1),
        !leap(4 * n + 2),
        !leap(4 * n + 3),
        leap(n + 400) <==> leap(n),
{
    assert((4 * n) % 100 == 0 <==> n % 25 == 0);
    assert((4 * n) % 400 == 0 <==> n % 100 == 0);
}

/// The months of a year have its days, twenty-eight to thirty-one each; February
/// alone differs from year to year.
pub proof fn law_months_make_the_year(year: int, other: int, month: int)
    ensures
        month_days(year, 1) + month_days(year, 2) + month_days(year, 3) + month_days(year, 4)
            + month_days(year, 5) + month_days(year, 6) + month_days(year, 7) + month_days(year, 8)
            + month_days(year, 9) + month_days(year, 10) + month_days(year, 11) + month_days(
            year,
            12,
        ) == year_days(year),
        28 <= month_days(year, month) <= 31,
        month != 2 ==> month_days(year, month) == month_days(other, month) >= 30,
        1 <= month <= 7 && month != 2 ==> (month_days(year, month) == 31 <==> month % 2 == 1),
        8 <= month <= 12 ==> (month_days(year, month) == 31 <==> month % 2 == 0),
        year_days(year) == 366 <==> leap(year),
        year_days(year) == 365 <==> !leap(year),
{
}

/// A text is padded with zeros to a width, which does not change the number that it
/// stands for.
pub proof fn law_padding(s: Seq<char>, width: nat)
    requires
        ascii_int(s),
    ensures
        zero_padded(s, width).len() == if s.len() >= width { s.len() } else { width },
        digits_value(zero_padded(s, width)) == digits_value(s),
        ascii_int(zero_padded(s, width)),
    decreases width - s.len(),
{
    if s.len() < width {
        let t = seq!['0'] + s;
        assert forall|i: int| 0 <= i < t.len() implies ascii_digit(#[trigger] t[i]) by {
            if i > 0 {
                assert(ascii_digit(s[i - 1]));
            }
        }
        law_padding(t, width);
        law_digits_are_decimal(seq!['0'], s);
        assert(seq!['0'].drop_last() =~= Seq::empty());
        assert(digits_value(Seq::empty()) == 0);
        assert(digits_value(seq!['0']) == 0);
        assert(0 * crate::natural::ten_to(s.len()) == 0) by (nonlinear_arith);
    }
}

proof fn lemma_short_numbers(n: nat)
    ensures
        n < 10 ==> nat_text(n).len() == 1,
        n < 100 ==> nat_text(n).len() <= 2,
        n < 1000 ==> nat_text(n).len() <= 3,
        n < 10000 ==> nat_text(n).len() <= 4,
{
    if n >= 10 {
        assert(nat_text(n).len() == nat_text(n / 10).len() + 1);
        if n / 10 >= 10 {
            assert(nat_text(n / 10).len() == nat_text(n / 100).len() + 1) by {
                assert((n / 10) / 10 == n / 100);
            }
            if n / 100 >= 10 {
                assert(nat_text(n / 100).len() == nat_text(n / 1000).len() + 1) by {
                    assert((n / 100) / 10 == n / 1000);
                }
            }
        }
    }
}

/// A day is written with four digits for the year, two for the month and two for the
/// day, and is read back from them.
pub proof fn law_day_is_read_back(d: Day)
    requires
        0 <= d.year <= 9999,
        1 <= d.month <= 12,
        1 <= d.day <= 31,
    ensures
        day_text(d).len() == 10,
        day_text(d)[4] == '-',
        day_text(d)[7] == '-',
        digits_value(day_text(d).subrange(0, 4)) == d.year,
        digits_value(day_text(d).subrange(5, 7)) == d.month,
        digits_value(day_text(d).subrange(8, 10)) == d.day,
{
    let y = zero_padded(nat_text(d.year as nat), 4);
    let m = zero_padded(nat_text(d.month as nat), 2);
    let n = zero_padded(nat_text(d.day as nat), 2);
    lemma_short_numbers(d.year as nat);
    lemma_short_numbers(d.month as nat);
    lemma_short_numbers(d.day as nat);
    law_number_is_read_back(d.year as nat);
    law_number_is_read_back(d.month as nat);
    law_number_is_read_back(d.day as nat);
    law_padding(nat_text(d.year as nat), 4);
    law_padding(nat_text(d.month as nat), 2);
    law_padding(nat_text(d.day as nat), 2);
    let t = day_text(d);
    assert(t.subrange(0, 4) =~= y);
    assert(t.subrange(5, 7) =~= m);
    assert(t.subrange(8, 10) =~= n);
}

/// Different days are written differently.
pub proof fn law_days_are_told_apart(a: Day, b: Day)
    requires
        0 <= a.year <= 9999,
        1 <= a.month <= 12,
        1 <= a.day <= 31,
        0 <= b.year <= 9999,
        1 <= b.month <= 12,
        1 <= b.day <= 31,
    ensures
        day_text(a) == day_text(b) ==> a == b,
{
    law_day_is_read_back(a);
    law_day_is_read_back(b);
}

/// The day after a day is in the same month, the first of the next, or the first of
/// the next year; the day before is what it is the day after of.
pub proof fn law_next_day(d: Day)
    requires
        1 <= d.month <= 12,
        1 <= d.day <= month_days(d.year, d.month),
    ensures
        d.day < month_days(d.year, d.month) ==> next_day(d).day == d.day + 1 && next_day(d).month
            == d.month && next_day(d).year == d.year,
        d.day == month_days(d.year, d.month) && d.month < 12 ==> next_day(d).day == 1 && next_day(
            d,
        ).month == d.month + 1 && next_day(d).year == d.year,
        d.day == 31 && d.month == 12 ==> next_day(d) == new_year(d.year + 1),
        next_day(previous_day(d)) == d,
        1 <= previous_day(d).month <= 12,
        1 <= previous_day(d).day <= month_days(previous_day(d).year, previous_day(d).month),
        day_of_year(next_day(d)) == day_of_year(d) + 1 || next_day(d) == new_year(d.year + 1),
{
    if d.day == month_days(d.year, d.month) && d.month < 12 {
        assert(days_before_month(d.year, d.month + 1) == days_before_month(d.year, d.month)
            + month_days(d.year, d.month));
    }
}

/// The days of a year: all of them, from the first of January to the last of
/// December.
pub proof fn law_days_of_year(year: int)
    ensures
        days_of_year(year).len() == if leap(year) { 366nat } else { 365 },
        days_of_year(year)[0] == day_text(new_year(year)),
        days_of_year(year)[year_days(year) - 1] == day_text(Day { year, month: 12, day: 31 }),
{
    let n = (year_days(year) - 1) as nat;
    crate::calendar::law_year_is_counted(year, n);
    let d = days_after(new_year(year), n);
    lemma_offsets(year);
    if d.month < 12 {
        lemma_month_by_month(year, d.month);
    }
}

proof fn lemma_offsets(year: int)
    ensures
        days_before_month(year, 12) == year_days(year) - 31,
{
    reveal_with_fuel(days_before_month, 13);
}

proof fn lemma_month_by_month(year: int, month: int)
    requires
        1 <= month <= 11,
    ensures
        days_before_month(year, month) + month_days(year, month) <= days_before_month(year, 12),
    decreases 12 - month,
{
    assert(days_before_month(year, month + 1) == days_before_month(year, month) + month_days(
        year,
        month,
    ));
    if month < 11 {
        lemma_month_by_month(year, month + 1);
    }
}

/// The times of watching: those of the episodes that have one.
pub proof fn law_stamps(episodes: Seq<EpisodeRow>, t: String)
    ensures
        stamps(episodes).contains(t) <==> exists|k: int|
            0 <= k < episodes.len() && (#[trigger] episodes[k]).seen_at == Some(t),
{
    let own = episodes.filter(stamped());
    let all = stamps(episodes);
    if all.contains(t) {
        let p = choose|p: int| 0 <= p < all.len() && all[p] == t;
        lemma_filter_member(episodes, stamped(), own[p]);
        assert(own.contains(own[p]));
        let k = choose|k: int| 0 <= k < episodes.len() && episodes[k] == own[p];
        assert(episodes[k].seen_at == Some(t));
    }
    if exists|k: int| 0 <= k < episodes.len() && (#[trigger] episodes[k]).seen_at == Some(t) {
        let k = choose|k: int|
            0 <= k < episodes.len() && (#[trigger] episodes[k]).seen_at == Some(t);
        lemma_filter_member(episodes, stamped(), episodes[k]);
        assert(episodes.contains(episodes[k]));
        let p = choose|p: int| 0 <= p < own.len() && own[p] == episodes[k];
        assert(all[p] == t);
    }
}

/// Every day counts the marks that fall on it; the first day with a mark is behind
/// none.
pub proof fn law_marks_by_day(
    list: Seq<DayCount>,
    days: Seq<Seq<char>>,
    seen_days: Seq<String>,
    first: Option<Seq<char>>,
    i: int,
    k: int,
)
    requires
        counted_days(list, days, seen_days),
        first_day(first, seen_days),
        0 <= i < days.len(),
        0 <= k < seen_days.len(),
    ensures
        list.len() == days.len(),
        list[i].day@ == days[i],
        seen_days[k]@ == days[i] ==> list[i].count > 0,
        list[i].count > 0 ==> exists|j: int|
            0 <= j < seen_days.len() && (#[trigger] seen_days[j])@ == days[i],
        list[i].count <= seen_days.len(),
        first matches Some(d) && !precedes(seen_days[k]@, d),
{
    let hit = crate::db::activity::on_day(days[i]);
    crate::rows::lemma_count_zero(seen_days, hit);
    assert(list[i].day@ == days[i]);
    if seen_days[k]@ == days[i] {
        assert(hit(seen_days[k]));
    }
    if list[i].count > 0 {
        let j = choose|j: int| 0 <= j < seen_days.len() && hit(#[trigger] seen_days[j]);
        assert(seen_days[j]@ == days[i]);
    }
}

/// The years with a mark are those that a day with one starts with.
pub proof fn law_marked_years(seen_days: Seq<String>, year: i64, rest: Seq<char>, k: int)
    requires
        0 <= k < seen_days.len(),
        0 <= year,
        rest.len() > 0 ==> !ascii_digit(rest[0]),
        seen_days[k]@ == nat_text(year as nat) + rest,
    ensures
        marked_year(seen_days, year as int),
        dated(seen_days) ==> year <= 9999,
{
    crate::laws::numbering::law_leading_number(year, rest, ' ');
    assert(leading_integer(seen_days[k]@) == year);
}

/// Years are listed from the latest down, each once.
pub proof fn law_years_descend(list: Seq<i32>, i: int, j: int)
    requires
        descending(list),
        0 <= i < j < list.len(),
    ensures
        list[i] > list[j],
{
}

/// A year of more than four digits has a plus sign and one before the year zero a
/// minus sign; the day is on the calendar where its month has it.
pub proof fn law_far_years(year: int, d: Day)
    ensures
        year > 9999 ==> year_text(year)[0] == '+' && digits_value(year_text(year).skip(1)) == year,
        year < 0 ==> year_text(year)[0] == '-' && digits_value(year_text(year).skip(1)) == -year,
        exists_on_calendar(d) <==> -262_143 <= d.year <= 262_142 && 1 <= d.month <= 12 && 1
            <= d.day <= month_days(d.year, d.month),
{
    if year > 9999 {
        law_number_is_read_back(year as nat);
        law_padding(nat_text(year as nat), 4);
        assert(year_text(year).skip(1) =~= zero_padded(nat_text(year as nat), 4));
    }
    if year < 0 {
        law_number_is_read_back((-year) as nat);
        law_padding(nat_text((-year) as nat), 4);
        assert(year_text(year).skip(1) =~= zero_padded(nat_text((-year) as nat), 4));
    }
}

/// The years that can be looked at: the current one and those with a mark, from the
/// latest down.
pub proof fn law_years_to_look_at(
    list: Seq<i32>,
    seen_days: Seq<String>,
    this_year: i32,
    year: i32,
    rest: Seq<char>,
    k: int,
)
    requires
        active_years(list, seen_days, this_year),
        0 <= k < seen_days.len(),
        0 <= year,
        rest.len() > 0 ==> !ascii_digit(rest[0]),
        seen_days[k]@ == nat_text(year as nat) + rest,
    ensures
        list.contains(this_year),
        list.contains(year),
        forall|i: int, j: int| 0 <= i < j < list.len() ==> #[trigger] list[i] > #[trigger] list[j],
{
    crate::laws::numbering::law_leading_number(year as i64, rest, ' ');
    assert(leading_integer(seen_days[k]@) == year);
}

} // verus!
