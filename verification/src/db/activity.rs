//! When episodes were marked seen, by day and year.
//!
//! Marks are stamped in universal time. Which local day a stamp falls on depends
//! on the machine's time zone, so the days come in as an argument: one for every
//! stamp that `seen_stamps` gives.

use vstd::prelude::*;
use crate::calendar::{all_days, day_views, days_of_year, FIRST_YEAR, LAST_YEAR};
use crate::db::grouping::{later_text, latest, lemma_latest_push};
use crate::db::numbers::{cast_integer, leading_integer};
use crate::db::{lemma_episode_count, lemma_series_count, opt_text, Db, DbError, EpisodeRow};
use crate::models::{DayCount, YearlyActivity};
use crate::rows::{count_where, lemma_filter_none, lemma_filter_step};
use crate::text::{
    chars_of, lemma_precedes_total, lemma_precedes_transitive, precedes, same_text, text_precedes,
};

verus! {

/// The condition of having a stamp of when it was marked seen.
pub open spec fn stamped() -> spec_fn(EpisodeRow) -> bool {
    |e: EpisodeRow| e.seen_at is Some
}

/// The stamps of all marks.
pub open spec fn stamps(episodes: Seq<EpisodeRow>) -> Seq<String> {
    episodes.filter(stamped()).map_values(|e: EpisodeRow| e.seen_at->Some_0)
}

/// The condition of being a day.
pub open spec fn on_day(day: Seq<char>) -> spec_fn(String) -> bool {
    |d: String| d@ == day
}

/// Whether a list holds the given days in order, each with the number of marks
/// that fall on it.
pub open spec fn counted_days(
    list: Seq<DayCount>,
    days: Seq<Seq<char>>,
    seen_days: Seq<String>,
) -> bool {
    &&& list.len() == days.len()
    &&& forall|i: int|
        0 <= i < list.len() ==> (#[trigger] list[i]).day@ == days[i] && list[i].count
            == count_where(seen_days, on_day(days[i]))
}

/// Whether a day is the first with a mark.
pub open spec fn first_day(day: Option<Seq<char>>, seen_days: Seq<String>) -> bool {
    match day {
        Some(d) => {
            &&& exists|k: int| 0 <= k < seen_days.len() && (#[trigger] seen_days[k])@ == d
            &&& forall|k: int|
                0 <= k < seen_days.len() ==> !precedes((#[trigger] seen_days[k])@, d)
        },
        None => seen_days.len() == 0,
    }
}

/// Whether every text starts with a year of four digits at most.
pub open spec fn dated(seen_days: Seq<String>) -> bool {
    forall|k: int|
        0 <= k < seen_days.len() ==> 0 <= leading_integer((#[trigger] seen_days[k])@) <= 9999
}

/// Whether a year has a mark.
pub open spec fn marked_year(seen_days: Seq<String>, year: int) -> bool {
    exists|k: int| 0 <= k < seen_days.len() && leading_integer((#[trigger] seen_days[k])@) == year
}

/// Whether every number of a list is larger than the later ones.
pub open spec fn descending(list: Seq<i32>) -> bool {
    forall|i: int, j: int| 0 <= i < j < list.len() ==> #[trigger] list[i] > #[trigger] list[j]
}

/// Whether every text starts with a year of four digits at most.
pub fn check_days(seen_days: &Vec<String>) -> (r: bool)
    ensures
        r == dated(seen_days@),
{
    let mut i: usize = 0;
    while i < seen_days.len()
        invariant
            i <= seen_days@.len(),
            forall|k: int|
                0 <= k < i ==> 0 <= leading_integer((#[trigger] seen_days@[k])@) <= 9999,
        decreases seen_days@.len() - i,
    {
        let year: i64 = cast_integer(seen_days[i].as_str());
        if year < 0 || year > 9999 {
            assert(!(0 <= leading_integer(seen_days@[i as int]@) <= 9999));
            return false;
        }
        i += 1;
    }
    true
}

/// Puts a year into its place in a descending list, unless it is there.
fn list_year(years: &mut Vec<i32>, year: i32)
    requires
        descending(old(years)@),
    ensures
        descending(final(years)@),
        forall|y: i32| #[trigger]
            final(years)@.contains(y) <==> y == year || old(years)@.contains(y),
{
    let ghost before = years@;
    let mut i: usize = 0;
    while i < years.len() && years[i] > year
        invariant
            i <= years@.len(),
            before == years@,
            forall|k: int| 0 <= k < i ==> #[trigger] before[k] > year,
        decreases years@.len() - i,
    {
        i += 1;
    }
    if i < years.len() && years[i] == year {
        assert(before.contains(year));
        return ;
    }
    years.insert(i, year);
    proof {
        let after = years@;
        assert(after =~= before.insert(i as int, year));
        assert forall|k: int| i <= k < before.len() implies year > #[trigger] before[k] by {
            assert(before[i as int] < year);
        }
        assert forall|y: i32| #[trigger] after.contains(y) <==> y == year || before.contains(y) by {
            if after.contains(y) {
                let k = choose|k: int| 0 <= k < after.len() && after[k] == y;
                if k < i {
                    assert(before[k] == y);
                } else if k > i {
                    assert(before[k - 1] == y);
                }
            }
            if before.contains(y) {
                let k = choose|k: int| 0 <= k < before.len() && before[k] == y;
                if k < i {
                    assert(after[k] == y);
                } else {
                    assert(after[k + 1] == y);
                }
            }
            assert(after[i as int] == year);
        }
        assert forall|p: int, q: int| 0 <= p < q < after.len() implies #[trigger] after[p]
            > #[trigger] after[q] by {
            if q < i {
                assert(before[p] > before[q]);
            } else if q == i {
                assert(before[p] > year);
            } else if p < i {
                assert(before[p] > before[q - 1]);
            } else if p == i {
                assert(year > before[q - 1]);
            } else {
                assert(before[p - 1] > before[q - 1]);
            }
        }
    }
}

/// How many marks fall on a day.
fn marks_on(seen_days: &Vec<String>, day: &str) -> (r: i64)
    requires
        seen_days@.len() <= i64::MAX,
    ensures
        r == count_where(seen_days@, on_day(day@)),
{
    let mut n: usize = 0;
    let mut i: usize = 0;
    proof {
        lemma_filter_none(seen_days@, on_day(day@));
    }
    while i < seen_days.len()
        invariant
            i <= seen_days@.len(),
            n <= i,
            n == seen_days@.take(i as int).filter(on_day(day@)).len(),
        decreases seen_days@.len() - i,
    {
        proof {
            lemma_filter_step(seen_days@, on_day(day@), i as int);
        }
        if same_text(seen_days[i].as_str(), day) {
            n += 1;
        }
        i += 1;
    }
    proof {
        lemma_filter_none(seen_days@, on_day(day@));
    }
    n as i64
}

/// The given days, each with the number of marks that fall on it.
pub fn count_days(days: &Vec<String>, seen_days: &Vec<String>) -> (r: Vec<DayCount>)
    requires
        seen_days@.len() <= i64::MAX,
    ensures
        counted_days(r@, day_views(days@), seen_days@),
{
    let mut out: Vec<DayCount> = Vec::new();
    let mut i: usize = 0;
    while i < days.len()
        invariant
            seen_days@.len() <= i64::MAX,
            i <= days@.len(),
            out@.len() == i,
            forall|k: int|
                0 <= k < i ==> (#[trigger] out@[k]).day@ == day_views(days@)[k] && out@[k].count
                    == count_where(seen_days@, on_day(day_views(days@)[k])),
        decreases days@.len() - i,
    {
        let count: i64 = marks_on(seen_days, days[i].as_str());
        out.push(DayCount { day: days[i].clone(), count });
        i += 1;
    }
    out
}

/// The first day with a mark.
pub fn earliest_day(seen_days: &Vec<String>) -> (r: Option<String>)
    ensures
        first_day(opt_text(r), seen_days@),
{
    if seen_days.len() == 0 {
        return None;
    }
    let mut best: usize = 0;
    let mut i: usize = 0;
    while i < seen_days.len()
        invariant
            i <= seen_days@.len(),
            best < seen_days@.len(),
            forall|k: int|
                0 <= k < i ==> !precedes(
                    (#[trigger] seen_days@[k])@,
                    seen_days@[best as int]@,
                ),
        decreases seen_days@.len() - i,
    {
        let ghost a = seen_days@[i as int]@;
        let ghost b = seen_days@[best as int]@;
        proof {
            lemma_precedes_total(a, a);
        }
        if text_precedes(
            &chars_of(seen_days[i].as_str()),
            &chars_of(seen_days[best].as_str()),
        ) {
            proof {
                assert forall|k: int| 0 <= k < i implies !precedes(
                    (#[trigger] seen_days@[k])@,
                    a,
                ) by {
                    lemma_precedes_transitive(seen_days@[k]@, a, b);
                }
            }
            best = i;
        }
        i += 1;
    }
    Some(seen_days[best].clone())
}

/// Whether years are those with a mark and the current one, latest first.
pub open spec fn active_years(list: Seq<i32>, seen_days: Seq<String>, this_year: i32) -> bool {
    &&& descending(list)
    &&& forall|y: i32| #[trigger]
        list.contains(y) <==> y == this_year || marked_year(seen_days, y as int)
}

impl Db {
    /// The stamps of all marks, in universal time.
    pub fn seen_stamps(&self) -> (r: Vec<String>)
        ensures
            r@ == stamps(self.episodes@),
    {
        let ghost rows = self.episodes@;
        let ghost get = |e: EpisodeRow| e.seen_at->Some_0;
        let mut out: Vec<String> = Vec::new();
        let mut i: usize = 0;
        proof {
            lemma_filter_none(rows, stamped());
            assert(out@ =~= rows.take(0).filter(stamped()).map_values(get));
        }
        while i < self.episodes.len()
            invariant
                i <= rows.len(),
                rows == self.episodes@,
                get == (|e: EpisodeRow| e.seen_at->Some_0),
                out@ == rows.take(i as int).filter(stamped()).map_values(get),
            decreases rows.len() - i,
        {
            let ghost before = rows.take(i as int).filter(stamped());
            proof {
                lemma_filter_step(rows, stamped(), i as int);
            }
            if let Some(t) = &self.episodes[i].seen_at {
                out.push(t.clone());
                assert(before.push(rows[i as int]).map_values(get) =~= before.map_values(get).push(
                    *t,
                ));
            }
            i += 1;
        }
        proof {
            lemma_filter_none(rows, stamped());
        }
        out
    }

    /// The years with a mark and the current one, latest first.
    pub fn get_activity_years(&self, seen_days: &Vec<String>, this_year: i32) -> (r: Result<
        Vec<i32>,
        DbError,
    >)
        requires
            dated(seen_days@),
        ensures
            r is Ok,
            active_years(r->Ok_0@, seen_days@, this_year),
    {
        let mut years: Vec<i32> = Vec::new();
        years.push(this_year);
        assert forall|y: i32| #[trigger] years@.contains(y) <==> y == this_year by {
            assert(years@[0] == this_year);
        }
        let mut i: usize = 0;
        while i < seen_days.len()
            invariant
                dated(seen_days@),
                i <= seen_days@.len(),
                descending(years@),
                forall|y: i32| #[trigger]
                    years@.contains(y) <==> y == this_year || exists|k: int|
                        0 <= k < i && leading_integer((#[trigger] seen_days@[k])@) == y,
            decreases seen_days@.len() - i,
        {
            let ghost had = years@;
            let year: i64 = cast_integer(seen_days[i].as_str());
            assert(0 <= leading_integer(seen_days@[i as int]@) <= 9999);
            list_year(&mut years, year as i32);
            i += 1;
            proof {
                assert forall|y: i32| #[trigger]
                    years@.contains(y) <==> y == this_year || exists|k: int|
                        0 <= k < i && leading_integer((#[trigger] seen_days@[k])@) == y by {
                    if y == year {
                        assert(leading_integer(seen_days@[i - 1]@) == y);
                    }
                    if had.contains(y) && y != this_year {
                        let k = choose|k: int|
                            0 <= k < i - 1 && leading_integer((#[trigger] seen_days@[k])@) == y;
                        assert(leading_integer(seen_days@[k]@) == y);
                    }
                }
            }
        }
        Ok(years)
    }

    /// Every day of a year with its number of marks, quiet days among them.
    pub fn get_yearly_activity(&self, seen_days: &Vec<String>, year: i32) -> (r: Result<
        YearlyActivity,
        DbError,
    >)
        requires
            FIRST_YEAR <= year <= LAST_YEAR,
            seen_days@.len() <= i64::MAX,
        ensures
            r is Ok,
            r->Ok_0.year == year,
            counted_days(r->Ok_0.days@, days_of_year(year as int), seen_days@),
    {
        let days = all_days(year);
        Ok(YearlyActivity { year, days: count_days(&days, seen_days) })
    }

    /// A cheap fingerprint of the data: how many series and episodes there are,
    /// the last episode's id, and when a mark was last made.
    pub fn signature_counts(&self) -> (r: Result<(i64, i64, i64, Option<String>), DbError>)
        requires
            self.well_formed(),
        ensures
            r is Ok,
            r->Ok_0.0 == self.series@.len(),
            r->Ok_0.1 == self.episodes@.len(),
            r->Ok_0.2 == if self.episodes@.len() == 0 { 0 } else { self.episodes@.last().id },
            forall|k: int| 0 <= k < self.episodes@.len() ==> (#[trigger] self.episodes@[k]).id
                <= r->Ok_0.2,
            opt_text(r->Ok_0.3) == latest(
                self.episodes@.map_values(|e: EpisodeRow| opt_text(e.seen_at)),
            ),
    {
        let ghost rows = self.episodes@;
        let ghost stamp = |e: EpisodeRow| opt_text(e.seen_at);
        let mut last: Option<String> = None;
        let mut i: usize = 0;
        assert(rows.take(0).map_values(stamp) =~= Seq::empty());
        while i < self.episodes.len()
            invariant
                i <= rows.len(),
                rows == self.episodes@,
                stamp == (|e: EpisodeRow| opt_text(e.seen_at)),
                opt_text(last) == latest(rows.take(i as int).map_values(stamp)),
            decreases rows.len() - i,
        {
            proof {
                let before = rows.take(i as int);
                assert(rows.take(i + 1) =~= before.push(rows[i as int]));
                assert(before.push(rows[i as int]).map_values(stamp) =~= before.map_values(
                    stamp,
                ).push(stamp(rows[i as int])));
                lemma_latest_push(before.map_values(stamp), stamp(rows[i as int]));
            }
            last = later_text(last, &self.episodes[i].seen_at);
            i += 1;
        }
        assert(rows.take(i as int) =~= rows);
        proof {
            lemma_series_count(self.series@);
            lemma_episode_count(self.episodes@);
        }
        let max: i64 = if self.episodes.len() == 0 {
            0
        } else {
            self.episodes[self.episodes.len() - 1].id
        };
        Ok((self.series.len() as i64, self.episodes.len() as i64, max, last))
    }
}

} // verus!
