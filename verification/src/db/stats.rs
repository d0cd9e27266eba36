//! Statistics over all sites. A show that is on several sites counts once.

use vstd::prelude::*;
use crate::calendar::{days_up_to, exists_on_calendar, recent_days, CivilDate, FIRST_YEAR};
use crate::db::activity::{count_days, counted_days, earliest_day, first_day};
use crate::db::followed::followed;
use crate::db::franchise::{franchise, franchise_key, larger, FranchiseRollup};
use crate::db::identity::{canon_key, canon_of};
use crate::db::library_list::seen_count_of;
use crate::db::parents::{minutes_figure, same_rollup, size};
use crate::db::rollups::{
    law_rollups_determined, lemma_stake_sum_monotone, rollup_sum, rollups_of, stake_figure,
};
use crate::db::series::series_at;
use crate::db::{
    lemma_episode_count, lemma_series_count, opt_text, text_is, Db, DbError, EpisodeRow, SeriesRow,
};
use crate::models::{Mean, TitleCount, WatchInsights, WatchSummary};
use crate::rows::{
    count_where, gathered, lemma_filter_none, lemma_filter_step, lemma_gathered, sort_rows, sorted,
};
use crate::text::{chars_of, precedes, text_precedes};
use crate::text_set::TextSet;

verus! {

/// The series that a count of shows is taken over.
#[derive(Debug, Clone, Copy, PartialEq, Eq, Structural)]
pub enum ShowFilter {
    Followed,
    FollowedAiring,
    FollowedFinished,
    /// Followed with an unseen episode.
    Pending,
    Want,
    Discarded,
    WatchedExternally,
}

/// Whether a series has an unseen episode.
pub open spec fn has_unseen(episodes: Seq<EpisodeRow>, id: i64) -> bool {
    exists|k: int| 0 <= k < episodes.len() && (#[trigger] episodes[k]).series_id == id
        && !episodes[k].seen
}

impl ShowFilter {
    /// Whether a series counts.
    pub open spec fn holds(self, db: Db, s: SeriesRow) -> bool {
        match self {
            ShowFilter::Followed => s.followed,
            ShowFilter::FollowedAiring => s.followed && s.is_airing,
            ShowFilter::FollowedFinished => s.followed && !s.is_airing,
            ShowFilter::Pending => s.followed && has_unseen(db.episodes@, s.id),
            ShowFilter::Want => opt_text(s.backlog_status) == Some("want"@),
            ShowFilter::Discarded => opt_text(s.backlog_status) == Some("discarded"@),
            ShowFilter::WatchedExternally => s.watched_externally,
        }
    }

    /// The condition of counting.
    pub open spec fn condition(self, db: Db) -> spec_fn(SeriesRow) -> bool {
        |s: SeriesRow| self.holds(db, s)
    }
}

/// The keys of the shows with a series that satisfies a filter.
pub open spec fn shows_with(db: Db, filter: ShowFilter) -> Set<Seq<char>> {
    gathered(db.series@, filter.condition(db), |s: SeriesRow| canon_of(s))
}

/// The condition of having been seen.
pub open spec fn seen() -> spec_fn(EpisodeRow) -> bool {
    |e: EpisodeRow| e.seen
}

/// The condition of being an episode of a series that is followed or has a seen
/// episode.
pub open spec fn counts_toward_total(db: Db) -> spec_fn(EpisodeRow) -> bool {
    |e: EpisodeRow|
        series_at(db.series@, e.series_id) matches Some(s) && (s.followed || seen_count_of(
            db.episodes@,
            s.id,
        ) > 0)
}

/// The episodes credited beyond those marked seen.
pub open spec fn extra_figure() -> spec_fn(FranchiseRollup) -> int {
    |r: FranchiseRollup| larger(r.external_episodes - r.real_seen, 0)
}

/// The minutes credited beyond those of episodes marked seen.
pub open spec fn extra_minutes_figure() -> spec_fn(FranchiseRollup) -> int {
    |r: FranchiseRollup|
        if r.external_episodes > r.real_seen {
            larger(r.external_minutes - r.real_minutes, 0)
        } else {
            0
        }
}

/// Whether a summary is that of the tables.
pub open spec fn summary_of(w: WatchSummary, db: Db, rs: Seq<FranchiseRollup>) -> bool {
    &&& rollups_of(rs, db)
    &&& w.followed_series == shows_with(db, ShowFilter::Followed).len()
    &&& w.distinct_anime == rs.len()
    &&& w.episodes_watched == count_where(db.episodes@, seen())
    &&& w.episodes_total == count_where(db.episodes@, counts_toward_total(db))
    &&& w.episodes_watched_external == rollup_sum(rs, rs.len() as int, extra_figure())
    &&& w.airing_followed == shows_with(db, ShowFilter::FollowedAiring).len()
    &&& w.pending_to_watch == shows_with(db, ShowFilter::Pending).len()
    &&& w.backlog_want == shows_with(db, ShowFilter::Want).len()
}

impl Db {
    /// Whether a series counts.
    fn admits(&self, filter: ShowFilter, s: &SeriesRow) -> (r: bool)
        ensures
            r == filter.holds(*self, *s),
    {
        match filter {
            ShowFilter::Followed => s.followed,
            ShowFilter::FollowedAiring => s.followed && s.is_airing,
            ShowFilter::FollowedFinished => s.followed && !s.is_airing,
            ShowFilter::Pending => s.followed && self.has_unseen_episode(s.id),
            ShowFilter::Want => text_is(&s.backlog_status, "want"),
            ShowFilter::Discarded => text_is(&s.backlog_status, "discarded"),
            ShowFilter::WatchedExternally => s.watched_externally,
        }
    }

    /// Whether a series has an unseen episode.
    fn has_unseen_episode(&self, id: i64) -> (r: bool)
        ensures
            r == has_unseen(self.episodes@, id),
    {
        let mut i: usize = 0;
        while i < self.episodes.len()
            invariant
                i <= self.episodes@.len(),
                forall|k: int|
                    0 <= k < i ==> (#[trigger] self.episodes@[k]).series_id != id
                        || self.episodes@[k].seen,
            decreases self.episodes@.len() - i,
        {
            if self.episodes[i].series_id == id && !self.episodes[i].seen {
                assert(!self.episodes@[i as int].seen);
                return true;
            }
            i += 1;
        }
        false
    }

    /// How many shows have a series that satisfies a filter.
    pub fn distinct_canon_count(&self, filter: ShowFilter) -> (r: i64)
        requires
            self.well_formed(),
        ensures
            r == shows_with(*self, filter).len(),
    {
        let mut keys = TextSet::new();
        let ghost hit = filter.condition(*self);
        let ghost key = |s: SeriesRow| canon_of(s);
        let mut i: usize = 0;
        assert(self.series@.take(0) =~= Seq::empty());
        while i < self.series.len()
            invariant
                i <= self.series@.len(),
                hit == filter.condition(*self),
                key == (|s: SeriesRow| canon_of(s)),
                keys@ == gathered(self.series@.take(i as int), hit, key),
            decreases self.series@.len() - i,
        {
            assert(self.series@.take(i + 1).drop_last() =~= self.series@.take(i as int));
            let s = &self.series[i];
            if self.admits(filter, s) {
                keys.insert(canon_key(s.anilist_id, s.title.as_str()));
            }
            i += 1;
        }
        assert(self.series@.take(i as int) =~= self.series@);
        proof {
            lemma_gathered(self.series@, hit, key);
            lemma_series_count(self.series@);
        }
        keys.len() as i64
    }

    /// How many episodes have been seen.
    fn count_seen(&self) -> (r: i64)
        requires
            self.well_formed(),
        ensures
            r == count_where(self.episodes@, seen()),
    {
        let mut n: usize = 0;
        let mut i: usize = 0;
        proof {
            lemma_filter_none(self.episodes@, seen());
        }
        while i < self.episodes.len()
            invariant
                i <= self.episodes@.len(),
                n <= i,
                n == self.episodes@.take(i as int).filter(seen()).len(),
            decreases self.episodes@.len() - i,
        {
            proof {
                lemma_filter_step(self.episodes@, seen(), i as int);
            }
            if self.episodes[i].seen {
                n += 1;
            }
            i += 1;
        }
        proof {
            lemma_filter_none(self.episodes@, seen());
            lemma_episode_count(self.episodes@);
        }
        n as i64
    }

    /// How many episodes the series that are followed or have a seen episode
    /// have.
    fn count_total(&self) -> (r: i64)
        requires
            self.well_formed(),
        ensures
            r == count_where(self.episodes@, counts_toward_total(*self)),
    {
        let ghost hit = counts_toward_total(*self);
        let mut counted: Vec<bool> = Vec::new();
        let mut k: usize = 0;
        while k < self.series.len()
            invariant
                k <= self.series@.len(),
                counted@.len() == k,
                forall|j: int|
                    0 <= j < k ==> #[trigger] counted@[j] == (self.series@[j].followed
                        || seen_count_of(self.episodes@, self.series@[j].id) > 0),
            decreases self.series@.len() - k,
        {
            counted.push(self.series[k].followed || self.seen_episodes(self.series[k].id) > 0);
            k += 1;
        }
        let mut n: usize = 0;
        let mut i: usize = 0;
        proof {
            lemma_filter_none(self.episodes@, hit);
        }
        while i < self.episodes.len()
            invariant
                i <= self.episodes@.len(),
                hit == counts_toward_total(*self),
                counted@.len() == self.series@.len(),
                forall|j: int|
                    0 <= j < counted@.len() ==> #[trigger] counted@[j] == (
                    self.series@[j].followed || seen_count_of(self.episodes@, self.series@[j].id)
                        > 0),
                n <= i,
                n == self.episodes@.take(i as int).filter(hit).len(),
            decreases self.episodes@.len() - i,
        {
            proof {
                lemma_filter_step(self.episodes@, hit, i as int);
            }
            if let Some(j) = self.find_series(self.episodes[i].series_id) {
                if counted[j] {
                    n += 1;
                }
            }
            i += 1;
        }
        proof {
            lemma_filter_none(self.episodes@, hit);
            lemma_episode_count(self.episodes@);
        }
        n as i64
    }

    /// The watch counts over all sites.
    pub fn get_watch_summary(&self) -> (r: Result<WatchSummary, DbError>)
        requires
            self.well_formed(),
            self.sums_fit(),
        ensures
            r is Ok,
            exists|rs: Seq<FranchiseRollup>| summary_of(r->Ok_0, *self, rs),
    {
        let rollups = match self.franchise_rollups() {
            Ok(v) => v,
            Err(e) => {
                return Err(e);
            },
        };
        let ghost rs = rollups@;
        let mut extra: i64 = 0;
        let mut i: usize = 0;
        while i < rollups.len()
            invariant
                i <= rollups@.len(),
                rs == rollups@,
                rollup_sum(rs, rs.len() as int, stake_figure()) <= i64::MAX,
                extra == rollup_sum(rs, i as int, extra_figure()),
                0 <= extra <= rollup_sum(rs, i as int, stake_figure()),
            decreases rollups@.len() - i,
        {
            proof {
                lemma_stake_sum_monotone(rs, 0, i as int);
                lemma_stake_sum_monotone(rs, i + 1, rs.len() as int);
            }
            extra = extra + rollups[i].extra_external_episodes();
            i += 1;
        }
        proof {
            lemma_series_count(self.series@);
        }
        let summary = WatchSummary {
            followed_series: self.distinct_canon_count(ShowFilter::Followed),
            distinct_anime: rollups.len() as i64,
            episodes_watched: self.count_seen(),
            episodes_total: self.count_total(),
            episodes_watched_external: extra,
            airing_followed: self.distinct_canon_count(ShowFilter::FollowedAiring),
            pending_to_watch: self.distinct_canon_count(ShowFilter::Pending),
            backlog_want: self.distinct_canon_count(ShowFilter::Want),
        };
        let out: Result<WatchSummary, DbError> = Ok(summary);
        assert(summary_of(out->Ok_0, *self, rs));
        out
    }
}

/// The condition of being an episode of a followed series.
pub open spec fn of_followed(db: Db) -> spec_fn(EpisodeRow) -> bool {
    |e: EpisodeRow| series_at(db.series@, e.series_id) matches Some(s) && s.followed
}

/// The condition of a franchise's length being known from the catalog.
pub open spec fn estimated() -> spec_fn(FranchiseRollup) -> bool {
    |r: FranchiseRollup| r.external_episodes > 0
}

/// The condition of having been watched elsewhere.
pub open spec fn elsewhere() -> spec_fn(SeriesRow) -> bool {
    |s: SeriesRow| s.watched_externally
}

/// The franchise that a series belongs to.
pub open spec fn by_franchise() -> spec_fn(SeriesRow) -> Seq<char> {
    |s: SeriesRow| franchise(s.title@)
}

/// The condition of having an episode to its credit.
pub open spec fn credited() -> spec_fn(FranchiseRollup) -> bool {
    |r: FranchiseRollup| larger(r.real_seen as int, r.external_episodes as int) > 0
}

/// A franchise with the episodes credited to it.
pub open spec fn title_count(r: FranchiseRollup) -> TitleCount {
    TitleCount {
        title: r.display_title,
        count: larger(r.real_seen as int, r.external_episodes as int) as i64,
    }
}

/// The franchises with an episode to their credit.
pub open spec fn title_counts(rs: Seq<FranchiseRollup>) -> Seq<TitleCount> {
    rs.filter(credited()).map_values(|r: FranchiseRollup| title_count(r))
}

/// The order of franchises: the most episodes first, equal ones by title.
pub open spec fn by_episodes() -> spec_fn(TitleCount, TitleCount) -> bool {
    |a: TitleCount, b: TitleCount|
        a.count > b.count || a.count == b.count && precedes(a.title@, b.title@)
}

/// The eight franchises with the most episodes, or all where there are fewer.
pub open spec fn top_titles(rs: Seq<FranchiseRollup>) -> Seq<TitleCount> {
    let all = sorted(title_counts(rs), by_episodes());
    if all.len() > 8 { all.take(8) } else { all }
}

/// Whether insights are those of the tables and the days of the marks.
pub open spec fn insights_of(
    w: WatchInsights,
    db: Db,
    rs: Seq<FranchiseRollup>,
    seen_days: Seq<String>,
    today: CivilDate,
) -> bool {
    &&& rollups_of(rs, db)
    &&& w.estimated_minutes_tracked == rollup_sum(rs, rs.len() as int, minutes_figure())
    &&& w.estimated_minutes_external == rollup_sum(rs, rs.len() as int, extra_minutes_figure())
    &&& w.external_titles_estimated == count_where(rs, estimated())
    &&& w.external_titles_total == gathered(db.series@, elsewhere(), by_franchise()).len()
    &&& w.avg_episodes_per_series.total == count_where(db.episodes@, of_followed(db))
    &&& w.avg_episodes_per_series.count == count_where(db.series@, followed())
    &&& w.followed_airing == shows_with(db, ShowFilter::FollowedAiring).len()
    &&& w.followed_finished == shows_with(db, ShowFilter::FollowedFinished).len()
    &&& w.discarded == shows_with(db, ShowFilter::Discarded).len()
    &&& w.want == shows_with(db, ShowFilter::Want).len()
    &&& w.watched_externally == shows_with(db, ShowFilter::WatchedExternally).len()
    &&& w.top_series@ == top_titles(rs)
    &&& counted_days(w.marks_by_day@, days_up_to(today@, 30), seen_days)
    &&& first_day(opt_text(w.marks_tracked_since), seen_days)
}

fn more_episodes(a: &TitleCount, b: &TitleCount) -> (r: bool)
    ensures
        r == by_episodes()(*a, *b),
{
    if a.count != b.count {
        return a.count > b.count;
    }
    text_precedes(&chars_of(a.title.as_str()), &chars_of(b.title.as_str()))
}

/// The eight franchises with the most episodes.
fn top_series(rollups: &Vec<FranchiseRollup>) -> (r: Vec<TitleCount>)
    ensures
        r@ == top_titles(rollups@),
{
    let ghost rs = rollups@;
    let ghost get = |r: FranchiseRollup| title_count(r);
    let mut list: Vec<TitleCount> = Vec::new();
    let mut i: usize = 0;
    proof {
        lemma_filter_none(rs, credited());
        assert(list@ =~= rs.take(0).filter(credited()).map_values(get));
    }
    while i < rollups.len()
        invariant
            i <= rs.len(),
            rs == rollups@,
            get == (|r: FranchiseRollup| title_count(r)),
            list@ == rs.take(i as int).filter(credited()).map_values(get),
        decreases rs.len() - i,
    {
        let ghost before = rs.take(i as int).filter(credited());
        proof {
            lemma_filter_step(rs, credited(), i as int);
        }
        let n: i64 = rollups[i].episodes();
        if n > 0 {
            list.push(TitleCount { title: rollups[i].display_title.clone(), count: n });
            assert(before.push(rs[i as int]).map_values(get) =~= before.map_values(get).push(
                title_count(rs[i as int]),
            ));
        }
        i += 1;
    }
    proof {
        lemma_filter_none(rs, credited());
    }
    let mut out = sort_rows(list, more_episodes, Ghost(by_episodes()));
    if out.len() > 8 {
        out.truncate(8);
    }
    out
}

impl Db {
    /// How many franchises were marked as watched elsewhere.
    fn franchises_elsewhere(&self) -> (r: i64)
        requires
            self.well_formed(),
        ensures
            r == gathered(self.series@, elsewhere(), by_franchise()).len(),
    {
        let mut keys = TextSet::new();
        let mut i: usize = 0;
        assert(self.series@.take(0) =~= Seq::empty());
        while i < self.series.len()
            invariant
                i <= self.series@.len(),
                keys@ == gathered(self.series@.take(i as int), elsewhere(), by_franchise()),
            decreases self.series@.len() - i,
        {
            assert(self.series@.take(i + 1).drop_last() =~= self.series@.take(i as int));
            if self.series[i].watched_externally {
                keys.insert(franchise_key(self.series[i].title.as_str()));
            }
            i += 1;
        }
        assert(self.series@.take(i as int) =~= self.series@);
        proof {
            lemma_gathered(self.series@, elsewhere(), by_franchise());
            lemma_series_count(self.series@);
        }
        keys.len() as i64
    }

    /// How many episodes the followed series have, and how many those are.
    fn mean_length(&self) -> (r: Mean)
        requires
            self.well_formed(),
        ensures
            r.total == count_where(self.episodes@, of_followed(*self)),
            r.count == count_where(self.series@, followed()),
    {
        let ghost hit = of_followed(*self);
        let mut total: usize = 0;
        let mut i: usize = 0;
        proof {
            lemma_filter_none(self.episodes@, hit);
        }
        while i < self.episodes.len()
            invariant
                i <= self.episodes@.len(),
                hit == of_followed(*self),
                total <= i,
                total == self.episodes@.take(i as int).filter(hit).len(),
            decreases self.episodes@.len() - i,
        {
            proof {
                lemma_filter_step(self.episodes@, hit, i as int);
            }
            if let Some(j) = self.find_series(self.episodes[i].series_id) {
                if self.series[j].followed {
                    total += 1;
                }
            }
            i += 1;
        }
        let mut count: usize = 0;
        let mut k: usize = 0;
        proof {
            lemma_filter_none(self.episodes@, hit);
            lemma_episode_count(self.episodes@);
            lemma_filter_none(self.series@, followed());
        }
        while k < self.series.len()
            invariant
                k <= self.series@.len(),
                count <= k,
                count == self.series@.take(k as int).filter(followed()).len(),
            decreases self.series@.len() - k,
        {
            proof {
                lemma_filter_step(self.series@, followed(), k as int);
            }
            if self.series[k].followed {
                count += 1;
            }
            k += 1;
        }
        proof {
            lemma_filter_none(self.series@, followed());
            lemma_series_count(self.series@);
        }
        Mean { total: total as i64, count: count as i64 }
    }

    /// Watch metrics over all sites, `seen_days` being the local days of all
    /// marks.
    pub fn get_watch_insights(&self, seen_days: &Vec<String>, today: CivilDate) -> (r: Result<
        WatchInsights,
        DbError,
    >)
        requires
            self.well_formed(),
            self.sums_fit(),
            seen_days@.len() <= i64::MAX,
            exists_on_calendar(today@),
            today.year > FIRST_YEAR,
        ensures
            r is Ok,
            exists|rs: Seq<FranchiseRollup>|
                insights_of(r->Ok_0, *self, rs, seen_days@, today),
    {
        let rollups = match self.franchise_rollups() {
            Ok(v) => v,
            Err(e) => {
                return Err(e);
            },
        };
        let ghost rs = rollups@;
        let mut minutes: i64 = 0;
        let mut external: i64 = 0;
        let mut known: usize = 0;
        let mut i: usize = 0;
        proof {
            lemma_filter_none(rs, estimated());
        }
        while i < rollups.len()
            invariant
                i <= rollups@.len(),
                rs == rollups@,
                rollup_sum(rs, rs.len() as int, stake_figure()) <= i64::MAX,
                minutes == rollup_sum(rs, i as int, minutes_figure()),
                external == rollup_sum(rs, i as int, extra_minutes_figure()),
                size(minutes as int) <= rollup_sum(rs, i as int, stake_figure()),
                0 <= external <= rollup_sum(rs, i as int, stake_figure()),
                known <= i,
                known == rs.take(i as int).filter(estimated()).len(),
            decreases rollups@.len() - i,
        {
            proof {
                lemma_stake_sum_monotone(rs, 0, i as int);
                lemma_stake_sum_monotone(rs, i + 1, rs.len() as int);
                assert(rollup_sum(rs, i + 1, minutes_figure()) == minutes
                    + rs[i as int].real_minutes);
                lemma_filter_step(rs, estimated(), i as int);
            }
            minutes = minutes + rollups[i].real_minutes;
            external = external + rollups[i].extra_external_minutes();
            if rollups[i].external_episodes > 0 {
                known += 1;
            }
            i += 1;
        }
        proof {
            lemma_filter_none(rs, estimated());
            lemma_series_count(self.series@);
        }
        let days = recent_days(today, 30);
        let out: Result<WatchInsights, DbError> = Ok(
            WatchInsights {
                estimated_minutes_tracked: minutes,
                estimated_minutes_external: external,
                external_titles_estimated: known as i64,
                external_titles_total: self.franchises_elsewhere(),
                avg_episodes_per_series: self.mean_length(),
                followed_airing: self.distinct_canon_count(ShowFilter::FollowedAiring),
                followed_finished: self.distinct_canon_count(ShowFilter::FollowedFinished),
                discarded: self.distinct_canon_count(ShowFilter::Discarded),
                want: self.distinct_canon_count(ShowFilter::Want),
                watched_externally: self.distinct_canon_count(ShowFilter::WatchedExternally),
                top_series: top_series(&rollups),
                marks_by_day: count_days(&days, seen_days),
                marks_tracked_since: earliest_day(seen_days),
            },
        );
        assert(insights_of(out->Ok_0, *self, rs, seen_days@, today));
        out
    }
}

proof fn lemma_same_sum(
    x: Seq<FranchiseRollup>,
    y: Seq<FranchiseRollup>,
    n: int,
    figure: spec_fn(FranchiseRollup) -> int,
)
    requires
        0 <= n <= x.len(),
        x.len() == y.len(),
        forall|i: int| 0 <= i < x.len() ==> figure(#[trigger] x[i]) == figure(y[i]),
    ensures
        rollup_sum(x, n, figure) == rollup_sum(y, n, figure),
    decreases n,
{
    if n > 0 {
        lemma_same_sum(x, y, n - 1, figure);
        assert(figure(x[n - 1]) == figure(y[n - 1]));
    }
}

/// The summary is determined by the tables.
pub proof fn law_summary_determined(
    db: Db,
    v: WatchSummary,
    w: WatchSummary,
    x: Seq<FranchiseRollup>,
    y: Seq<FranchiseRollup>,
)
    requires
        summary_of(v, db, x),
        summary_of(w, db, y),
    ensures
        v == w,
{
    law_rollups_determined(db, x, y);
    assert forall|i: int| 0 <= i < x.len() implies extra_figure()(#[trigger] x[i])
        == extra_figure()(y[i]) by {
        assert(same_rollup(x[i], y[i]));
    }
    lemma_same_sum(x, y, x.len() as int, extra_figure());
}

/// The summary and the insights of the same tables never disagree: they count
/// the same airing and wanted shows, rest on equally many franchises, and the
/// minutes of the insights are those of the summary's franchises.
pub proof fn law_screens_agree(
    db: Db,
    v: WatchSummary,
    w: WatchInsights,
    x: Seq<FranchiseRollup>,
    y: Seq<FranchiseRollup>,
    seen_days: Seq<String>,
    today: CivilDate,
)
    requires
        summary_of(v, db, x),
        insights_of(w, db, y, seen_days, today),
    ensures
        v.airing_followed == w.followed_airing,
        v.backlog_want == w.want,
        v.distinct_anime == y.len(),
        w.estimated_minutes_tracked == rollup_sum(x, x.len() as int, minutes_figure()),
        w.estimated_minutes_external == rollup_sum(x, x.len() as int, extra_minutes_figure()),
{
    law_rollups_determined(db, x, y);
    assert forall|i: int| 0 <= i < x.len() implies extra_minutes_figure()(#[trigger] x[i])
        == extra_minutes_figure()(y[i]) && minutes_figure()(x[i]) == minutes_figure()(y[i]) by {
        assert(same_rollup(x[i], y[i]));
    }
    lemma_same_sum(x, y, x.len() as int, extra_minutes_figure());
    lemma_same_sum(x, y, x.len() as int, minutes_figure());
}

} // verus!
