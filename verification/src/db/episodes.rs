//! Episodes: storing what a scan finds, and gap-free watching.

use vstd::prelude::*;
use crate::db::numbers::{
    cast_integer, episode_value, leading_integer, parse_ep_number, EpisodePlace, Rank,
};
use crate::db::{
    copy_text, episodes_keyed, lemma_episode_count, only_episodes, opt_str, opt_text, own_text, Db,
    DbError, EpisodeRow, SeriesRow,
};
use crate::models::{Episode, NextEpisode};
use crate::rows::{
    count_where, first_where, gathered, lemma_filter_none, lemma_filter_step, lemma_first_where_at,
    lemma_first_where_none, lemma_max_push, max_of, sort_rows, sorted, updated,
};
use crate::text::same_text;
use crate::text_set::TextSet;

verus! {

/// Whether a row is another with its mark set: stamped when it is marked seen,
/// without a stamp when it is not.
pub open spec fn marked(before: EpisodeRow, after: EpisodeRow, seen: bool, now: Seq<char>) -> bool {
    &&& after == (EpisodeRow { seen, seen_at: after.seen_at, ..before })
    &&& opt_text(after.seen_at) == if seen { Some(now) } else { None }
}

/// Whether marking the episode with the given number also marks this one: the
/// same and every earlier one when it is marked seen, the same and every later
/// one when the mark is taken back. A number without a place marks only the
/// episodes with exactly that number.
pub open spec fn cascades(row: EpisodeRow, series_id: i64, number: Seq<char>, seen: bool) -> bool {
    &&& row.series_id == series_id
    &&& match episode_value(number) {
        None => row.number@ == number,
        Some(target) => match episode_value(row.number@) {
            None => false,
            Some(v) => if seen { v.at_most(target) } else { target.at_most(v) },
        },
    }
}

impl Db {
    /// Sets or takes back the mark of one row.
    fn mark_row(&mut self, i: usize, seen: bool, now: &str)
        requires
            i < old(self).episodes@.len(),
        ensures
            only_episodes(*old(self), *final(self)),
            marked(old(self).episodes@[i as int], final(self).episodes@[i as int], seen, now@),
            final(self).episodes@ == old(self).episodes@.update(
                i as int,
                final(self).episodes@[i as int],
            ),
    {
        self.episodes[i].seen = seen;
        self.episodes[i].seen_at = if seen { Some(now.to_owned()) } else { None };
    }

    /// Keeps watching gap-free. Marking an episode seen marks every earlier
    /// episode of the series seen too; taking a mark back takes every later
    /// one's back. `now` is the stamp that marked episodes get.
    pub fn set_seen_cascade(
        &mut self,
        series_id: i64,
        number: &str,
        seen: bool,
        now: &str,
    ) -> (r: Result<(), DbError>)
        ensures
            r is Ok,
            only_episodes(*old(self), *final(self)),
            updated(
                old(self).episodes@,
                final(self).episodes@,
                |e: EpisodeRow| cascades(e, series_id, number@, seen),
                |a: EpisodeRow, b: EpisodeRow| marked(a, b, seen, now@),
            ),
            old(self).well_formed() ==> final(self).well_formed(),
    {
        let target = parse_ep_number(number);
        let mut i: usize = 0;
        while i < self.episodes.len()
            invariant
                i <= self.episodes@.len(),
                target is Some <==> episode_value(number@) is Some,
                target matches Some(v) ==> episode_value(number@) == Some(v.rank()),
                only_episodes(*old(self), *self),
                self.episodes@.len() == old(self).episodes@.len(),
                forall|k: int|
                    0 <= k < i ==> if cascades(old(self).episodes@[k], series_id, number@, seen) {
                        marked(old(self).episodes@[k], #[trigger] self.episodes@[k], seen, now@)
                    } else {
                        self.episodes@[k] == old(self).episodes@[k]
                    },
                forall|k: int|
                    i <= k < self.episodes@.len() ==> #[trigger] self.episodes@[k] == old(
                        self,
                    ).episodes@[k],
            decreases self.episodes@.len() - i,
        {
            let hit: bool = self.episodes[i].series_id == series_id && match &target {
                None => same_text(self.episodes[i].number.as_str(), number),
                Some(t) => match parse_ep_number(self.episodes[i].number.as_str()) {
                    None => false,
                    Some(v) => if seen { v.at_most(t) } else { t.at_most(&v) },
                },
            };
            if hit {
                self.mark_row(i, seen, now);
            }
            i += 1;
        }
        Ok(())
    }
}

/// The condition of belonging to a series.
pub open spec fn of_series(series_id: i64) -> spec_fn(EpisodeRow) -> bool {
    |e: EpisodeRow| e.series_id == series_id
}

/// Whether an episode comes before another in the list of a series: by the
/// whole number that its number starts with, then by id.
pub open spec fn numbered_before(a: EpisodeRow, b: EpisodeRow) -> bool {
    leading_integer(a.number@) < leading_integer(b.number@) || (leading_integer(a.number@)
        == leading_integer(b.number@) && a.id < b.id)
}

/// The order of the episodes in the list of a series.
pub open spec fn by_number() -> spec_fn(EpisodeRow, EpisodeRow) -> bool {
    |a: EpisodeRow, b: EpisodeRow| numbered_before(a, b)
}

/// The episodes of a series, lowest number first.
pub open spec fn in_number_order(episodes: Seq<EpisodeRow>, series_id: i64) -> Seq<EpisodeRow> {
    sorted(episodes.filter(of_series(series_id)), by_number())
}

/// The order of the episodes in the list of a series is an order.
pub proof fn law_numbering_orders()
    ensures
        crate::rows::orders(by_number()),
{
}

/// The condition of not having been seen.
pub open spec fn unseen() -> spec_fn(EpisodeRow) -> bool {
    |e: EpisodeRow| !e.seen
}

/// What is shown of the episode to go on with.
pub open spec fn next_of(e: EpisodeRow) -> NextEpisode {
    NextEpisode { number: e.number, title: e.title, url: e.url }
}

/// The episode to go on with: the first unseen one in the series' list.
pub open spec fn next_unseen(episodes: Seq<EpisodeRow>, series_id: i64) -> Option<NextEpisode> {
    match first_where(in_number_order(episodes, series_id), unseen()) {
        Some(e) => Some(next_of(e)),
        None => None,
    }
}

/// The whole numbers that the numbers of a series' episodes start with.
pub open spec fn whole_numbers(episodes: Seq<EpisodeRow>, series_id: i64) -> Seq<int> {
    episodes.filter(of_series(series_id)).map_values(|e: EpisodeRow| leading_integer(e.number@))
}

/// The date of a series' first episode, if the series has one and it is dated.
pub open spec fn first_date(episodes: Seq<EpisodeRow>, series_id: i64) -> Option<String> {
    let list = in_number_order(episodes, series_id);
    if list.len() == 0 {
        None
    } else {
        match list[0].released_at {
            Some(d) => if d@.len() > 0 { Some(d) } else { None },
            None => None,
        }
    }
}

/// The numbers of a series' episodes.
pub open spec fn numbers_of(episodes: Seq<EpisodeRow>, series_id: i64) -> Set<Seq<char>> {
    gathered(episodes, of_series(series_id), |e: EpisodeRow| e.number@)
}

/// The addresses of a site's series.
pub open spec fn urls_of(series: Seq<SeriesRow>, source_id: i64) -> Set<Seq<char>> {
    gathered(series, |s: SeriesRow| s.source_id == source_id, |s: SeriesRow| s.url@)
}

/// Whether a row is the stored form of an episode that a scan found.
pub open spec fn stored(e: Episode, row: EpisodeRow, now: Seq<char>) -> bool {
    &&& row.shown() == (Episode {
        id: row.id,
        number: row.number,
        title: row.title,
        url: row.url,
        released_at: row.released_at,
        ..e
    })
    &&& row.number@ == e.number@
    &&& opt_text(row.title) == opt_text(e.title)
    &&& row.url@ == e.url@
    &&& opt_text(row.released_at) == opt_text(e.released_at)
    &&& row.added_at@ == now
    &&& row.seen_at is None
}

/// The condition of being the episode of a series at an address.
pub open spec fn at_url(series_id: i64, url: Seq<char>) -> spec_fn(EpisodeRow) -> bool {
    |e: EpisodeRow| e.series_id == series_id && e.url@ == url
}

/// The id that a new episode gets.
pub open spec fn next_episode_id(episodes: Seq<EpisodeRow>) -> int {
    match max_of(episodes.map_values(|e: EpisodeRow| e.id as int)) {
        Some(m) => m + 1,
        None => 1,
    }
}

/// Whether the first of two numbers ranks above the second. A number without a
/// Whether an episode was inserted: one at the address of another is that one, and a
/// new one comes last, with a new id.
pub open spec fn episode_inserted(
    before: Db,
    after: Db,
    e: Episode,
    now: Seq<char>,
    r: Result<i64, DbError>,
) -> bool {
    let known = first_where(before.episodes@, at_url(e.series_id, e.url@));
    let id = next_episode_id(before.episodes@);
    match known {
        Some(row) => r == Ok::<i64, DbError>(row.id) && after == before,
        None => if id > i64::MAX {
            r == Err::<i64, DbError>(DbError::Full) && after == before
        } else {
            &&& r is Ok
            &&& r->Ok_0 == id
            &&& after.episodes@.len() == before.episodes@.len() + 1
            &&& after.episodes@.drop_last() == before.episodes@
            &&& after.episodes@.last().id == id
            &&& stored(e, after.episodes@.last(), now)
        },
    }
}

/// place stands below all places, but above what is below all numbers.
pub open spec fn ranks_above(a: Option<Rank>, b: Option<Rank>) -> bool {
    match (a, b) {
        (Some(x), Some(y)) => y.at_most(x) && !x.at_most(y),
        (Some(x), None) => x is At || x is Highest,
        (None, Some(y)) => y is Lowest,
        (None, None) => false,
    }
}

/// The last of the highest among the first `n` episodes that are of a series:
/// going through them, an episode takes the place of the one before unless that
/// ranks above it.
pub open spec fn top_of(episodes: Seq<EpisodeRow>, series_id: i64, n: int) -> Option<int>
    decreases n,
{
    if n <= 0 {
        None
    } else {
        let top = top_of(episodes, series_id, n - 1);
        if episodes[n - 1].series_id != series_id || (top is Some && ranks_above(
            episode_value(episodes[top->0].number@),
            episode_value(episodes[n - 1].number@),
        )) {
            top
        } else {
            Some(n - 1)
        }
    }
}

/// No episode of a series ranks above its highest, where all of them are in
/// order.
pub proof fn law_top_is_highest(episodes: Seq<EpisodeRow>, series_id: i64, n: int, i: int)
    requires
        0 <= i < n <= episodes.len(),
        episodes[i].series_id == series_id,
        forall|k: int|
            0 <= k < n && (#[trigger] episodes[k]).series_id == series_id ==> episode_value(
                episodes[k].number@,
            ) != Some(Rank::Unordered),
    ensures
        top_of(episodes, series_id, n) matches Some(t) && 0 <= t < n && episodes[t].series_id
            == series_id && !ranks_above(
            episode_value(episodes[i].number@),
            episode_value(episodes[t].number@),
        ),
    decreases n,
{
    let last = episodes[n - 1];
    let top = top_of(episodes, series_id, n - 1);
    lemma_top_bounded(episodes, series_id, n - 1);
    if i < n - 1 {
        law_top_is_highest(episodes, series_id, n - 1, i);
        assert(episodes[top->0].series_id == series_id);
    } else if top is Some {
        assert(episodes[top->0].series_id == series_id);
    }
    assert(episode_value(last.number@) != Some(Rank::Unordered) || last.series_id != series_id);
}

proof fn lemma_top_bounded(episodes: Seq<EpisodeRow>, series_id: i64, n: int)
    ensures
        top_of(episodes, series_id, n) matches Some(t) ==> 0 <= t < n && episodes[t].series_id
            == series_id,
    decreases n,
{
    if n > 0 {
        lemma_top_bounded(episodes, series_id, n - 1);
    }
}

/// There is a highest episode exactly where there is one.
proof fn lemma_top_exists(episodes: Seq<EpisodeRow>, series_id: i64, n: int)
    requires
        0 <= n <= episodes.len(),
    ensures
        top_of(episodes, series_id, n) is None <==> forall|k: int|
            0 <= k < n ==> (#[trigger] episodes[k]).series_id != series_id,
    decreases n,
{
    if n > 0 {
        lemma_top_exists(episodes, series_id, n - 1);
    }
}

/// The condition of being marked when a series is marked to its end: the cascade
/// of the given number reaches the episode, or it is still unseen.
pub open spec fn finished(series_id: i64, number: Seq<char>) -> spec_fn(EpisodeRow) -> bool {
    |e: EpisodeRow|
        cascades(e, series_id, number, true) || (e.series_id == series_id && !e.seen)
}

/// Whether the first of two places ranks above the second.
fn above(a: &Option<EpisodePlace>, b: &Option<EpisodePlace>) -> (r: bool)
    ensures
        r == ranks_above(
            match a {
                Some(x) => Some(x.rank()),
                None => None,
            },
            match b {
                Some(y) => Some(y.rank()),
                None => None,
            },
        ),
{
    match (a, b) {
        (Some(x), Some(y)) => y.at_most(x) && !x.at_most(y),
        (Some(x), None) => matches!(x, EpisodePlace::At(_, _) | EpisodePlace::Highest),
        (None, Some(y)) => matches!(y, EpisodePlace::Lowest),
        (None, None) => false,
    }
}

/// Whether an episode comes before another in the list of a series.
pub fn comes_before(a: &EpisodeRow, b: &EpisodeRow) -> (r: bool)
    ensures
        r == numbered_before(*a, *b),
{
    let x: i64 = cast_integer(a.number.as_str());
    let y: i64 = cast_integer(b.number.as_str());
    if x == y {
        a.id < b.id
    } else {
        x < y
    }
}

impl Db {
    /// The rows of a series' episodes.
    fn episodes_of(&self, series_id: i64) -> (r: Vec<EpisodeRow>)
        ensures
            r@ == self.episodes@.filter(of_series(series_id)),
    {
        let mut out: Vec<EpisodeRow> = Vec::new();
        let mut i: usize = 0;
        proof {
            lemma_filter_none(self.episodes@, of_series(series_id));
        }
        while i < self.episodes.len()
            invariant
                i <= self.episodes@.len(),
                out@ == self.episodes@.take(i as int).filter(of_series(series_id)),
            decreases self.episodes@.len() - i,
        {
            proof {
                lemma_filter_step(self.episodes@, of_series(series_id), i as int);
            }
            if self.episodes[i].series_id == series_id {
                out.push(self.episodes[i].copy());
            }
            i += 1;
        }
        proof {
            lemma_filter_none(self.episodes@, of_series(series_id));
        }
        out
    }

    /// The rows of a series' episodes, lowest number first.
    pub fn ordered_episodes(&self, series_id: i64) -> (r: Vec<EpisodeRow>)
        ensures
            r@ == in_number_order(self.episodes@, series_id),
    {
        let rows = self.episodes_of(series_id);
        sort_rows(rows, comes_before, Ghost(by_number()))
    }

    /// How many episodes of a series are stored.
    pub fn episode_count(&self, series_id: i64) -> (r: Result<i64, DbError>)
        requires
            self.well_formed(),
        ensures
            r is Ok,
            r->Ok_0 == count_where(self.episodes@, of_series(series_id)),
    {
        let rows = self.episodes_of(series_id);
        proof {
            lemma_episode_count(self.episodes@);
            self.episodes@.lemma_filter_len(of_series(series_id));
        }
        Ok(rows.len() as i64)
    }

    /// The highest whole number that an episode number of the series starts
    /// with; 0 when the series has no episodes.
    pub fn max_episode_number(&self, series_id: i64) -> (r: Result<i64, DbError>)
        ensures
            r is Ok,
            r->Ok_0 == match max_of(whole_numbers(self.episodes@, series_id)) {
                Some(m) => m,
                None => 0,
            },
    {
        let rows = self.episodes_of(series_id);
        let ghost all = whole_numbers(self.episodes@, series_id);
        let mut best: Option<i64> = None;
        let mut i: usize = 0;
        assert(all.take(0) =~= Seq::empty());
        while i < rows.len()
            invariant
                i <= rows@.len(),
                rows@ == self.episodes@.filter(of_series(series_id)),
                all == whole_numbers(self.episodes@, series_id),
                best is None <==> max_of(all.take(i as int)) is None,
                best matches Some(m) ==> max_of(all.take(i as int)) == Some(m as int),
            decreases rows@.len() - i,
        {
            let n: i64 = cast_integer(rows[i].number.as_str());
            proof {
                lemma_max_push(all.take(i as int), n as int);
                assert(all.take(i + 1) =~= all.take(i as int).push(n as int));
            }
            best = match best {
                Some(m) => if m >= n { Some(m) } else { Some(n) },
                None => Some(n),
            };
            i += 1;
        }
        assert(all.take(i as int) =~= all);
        match best {
            Some(m) => Ok(m),
            None => Ok(0),
        }
    }

    /// The date of a series' first episode, if the series has one and it is
    /// dated.
    fn first_episode_date(&self, series_id: i64) -> (r: Option<String>)
        ensures
            r == first_date(self.episodes@, series_id),
    {
        let list = self.ordered_episodes(series_id);
        if list.len() == 0 {
            return None;
        }
        match &list[0].released_at {
            Some(d) => if d.as_str().is_empty() { None } else { Some(d.clone()) },
            None => None,
        }
    }

    /// The date of the first episode of every airing series of a site that has
    /// one, as pairs of the series' id and the date. A series without dated
    /// episodes is left out: its date is unknown.
    pub fn first_episode_dates(&self, source_id: i64) -> (r: Result<Vec<(i64, String)>, DbError>)
        ensures
            r is Ok,
            r->Ok_0@ == dated_series(self.series@, self.episodes@, source_id),
    {
        let mut out: Vec<(i64, String)> = Vec::new();
        let mut i: usize = 0;
        assert(self.series@.take(0) =~= Seq::empty());
        while i < self.series.len()
            invariant
                i <= self.series@.len(),
                out@ == dated_series(self.series@.take(i as int), self.episodes@, source_id),
            decreases self.series@.len() - i,
        {
            assert(self.series@.take(i + 1).drop_last() =~= self.series@.take(i as int));
            if self.series[i].source_id == source_id && self.series[i].is_airing {
                if let Some(d) = self.first_episode_date(self.series[i].id) {
                    out.push((self.series[i].id, d));
                }
            }
            i += 1;
        }
        assert(self.series@.take(i as int) =~= self.series@);
        Ok(out)
    }

    /// The episode numbers that are stored for a series. The number, not the
    /// address, is what an episode is known by: sites move between addresses.
    pub fn existing_episode_numbers(&self, series_id: i64) -> (r: Result<TextSet, DbError>)
        ensures
            r is Ok,
            r->Ok_0@ == numbers_of(self.episodes@, series_id),
    {
        let mut out = TextSet::new();
        let mut i: usize = 0;
        assert(self.episodes@.take(0) =~= Seq::empty());
        while i < self.episodes.len()
            invariant
                i <= self.episodes@.len(),
                out@ == numbers_of(self.episodes@.take(i as int), series_id),
            decreases self.episodes@.len() - i,
        {
            assert(self.episodes@.take(i + 1).drop_last() =~= self.episodes@.take(i as int));
            if self.episodes[i].series_id == series_id {
                out.insert(self.episodes[i].number.clone());
            }
            i += 1;
        }
        assert(self.episodes@.take(i as int) =~= self.episodes@);
        Ok(out)
    }

    /// The addresses of all series of a site, whatever was decided on them: the
    /// swipe deck offers none of them again.
    pub fn known_series_urls(&self, source_id: i64) -> (r: Result<TextSet, DbError>)
        ensures
            r is Ok,
            r->Ok_0@ == urls_of(self.series@, source_id),
    {
        let mut out = TextSet::new();
        let mut i: usize = 0;
        assert(self.series@.take(0) =~= Seq::empty());
        while i < self.series.len()
            invariant
                i <= self.series@.len(),
                out@ == urls_of(self.series@.take(i as int), source_id),
            decreases self.series@.len() - i,
        {
            assert(self.series@.take(i + 1).drop_last() =~= self.series@.take(i as int));
            if self.series[i].source_id == source_id {
                out.insert(self.series[i].url.clone());
            }
            i += 1;
        }
        assert(self.series@.take(i as int) =~= self.series@);
        Ok(out)
    }

    /// Stores an episode unless the series already has one at its address. The
    /// id of the episode at that address is returned either way.
    pub fn insert_episode(&mut self, e: &Episode, now: &str) -> (r: Result<i64, DbError>)
        ensures
            only_episodes(*old(self), *final(self)),
            episode_inserted(*old(self), *final(self), *e, now@, r),
            old(self).well_formed() ==> final(self).well_formed(),
    {
        let ghost rows = self.episodes@;
        let ghost ids = rows.map_values(|e: EpisodeRow| e.id as int);
        let ghost hit = at_url(e.series_id, e.url@);
        let mut top: Option<i64> = None;
        let mut i: usize = 0;
        assert(ids.take(0) =~= Seq::empty());
        while i < self.episodes.len()
            invariant
                i <= self.episodes@.len(),
                *self == *old(self),
                rows == self.episodes@,
                ids == rows.map_values(|e: EpisodeRow| e.id as int),
                hit == at_url(e.series_id, e.url@),
                forall|k: int| 0 <= k < i ==> !hit(#[trigger] rows[k]),
                top is None <==> max_of(ids.take(i as int)) is None,
                top matches Some(m) ==> max_of(ids.take(i as int)) == Some(m as int),
            decreases self.episodes@.len() - i,
        {
            let id: i64 = self.episodes[i].id;
            if self.episodes[i].series_id == e.series_id && same_text(
                self.episodes[i].url.as_str(),
                e.url.as_str(),
            ) {
                proof {
                    lemma_first_where_at(rows, hit, i as int);
                }
                return Ok(id);
            }
            proof {
                lemma_max_push(ids.take(i as int), id as int);
                assert(ids.take(i + 1) =~= ids.take(i as int).push(id as int));
            }
            top = match top {
                Some(m) => if m >= id { Some(m) } else { Some(id) },
                None => Some(id),
            };
            i += 1;
        }
        assert(ids.take(i as int) =~= ids);
        proof {
            lemma_first_where_none(rows, hit);
            crate::rows::law_max_of(ids);
        }
        let id: i64 = match top {
            Some(m) => {
                if m == i64::MAX {
                    return Err(DbError::Full);
                }
                m + 1
            },
            None => 1,
        };
        self.episodes.push(
            EpisodeRow {
                id,
                series_id: e.series_id,
                number: e.number.clone(),
                title: copy_text(&e.title),
                url: e.url.clone(),
                released_at: copy_text(&e.released_at),
                seen: e.seen,
                added_at: now.to_owned(),
                seen_at: None,
            },
        );
        proof {
            assert(self.episodes@.drop_last() =~= rows);
            if old(self).well_formed() {
                assert forall|k: int| 0 <= k < rows.len() implies (#[trigger] rows[k]).id < id by {
                    assert(ids[k] == rows[k].id);
                }
                if rows.len() > 0 {
                    assert(rows[0].id >= 1);
                }
                assert forall|k: int| 0 <= k < rows.len() implies #[trigger] rows[k].series_id
                    != e.series_id || rows[k].url@ != e.url@ by {
                    assert(!hit(rows[k]));
                }
            }
        }
        Ok(id)
    }

    /// Sets or takes back the mark of one episode.
    pub fn set_seen(&mut self, episode_id: i64, seen: bool, now: &str) -> (r: Result<(), DbError>)
        ensures
            r is Ok,
            only_episodes(*old(self), *final(self)),
            updated(
                old(self).episodes@,
                final(self).episodes@,
                |e: EpisodeRow| e.id == episode_id,
                |a: EpisodeRow, b: EpisodeRow| marked(a, b, seen, now@),
            ),
            old(self).well_formed() ==> final(self).well_formed(),
    {
        let mut i: usize = 0;
        while i < self.episodes.len()
            invariant
                i <= self.episodes@.len(),
                only_episodes(*old(self), *self),
                self.episodes@.len() == old(self).episodes@.len(),
                forall|k: int|
                    0 <= k < i ==> if old(self).episodes@[k].id == episode_id {
                        marked(old(self).episodes@[k], #[trigger] self.episodes@[k], seen, now@)
                    } else {
                        self.episodes@[k] == old(self).episodes@[k]
                    },
                forall|k: int|
                    i <= k < self.episodes@.len() ==> #[trigger] self.episodes@[k] == old(
                        self,
                    ).episodes@[k],
            decreases self.episodes@.len() - i,
        {
            if self.episodes[i].id == episode_id {
                self.mark_row(i, seen, now);
            }
            i += 1;
        }
        Ok(())
    }

    /// All episodes of a series, lowest number first.
    pub fn list_series_episodes(&self, series_id: i64) -> (r: Result<Vec<Episode>, DbError>)
        ensures
            r is Ok,
            r->Ok_0@ == in_number_order(self.episodes@, series_id).map_values(
                |e: EpisodeRow| e.shown(),
            ),
    {
        let rows = self.ordered_episodes(series_id);
        let mut out: Vec<Episode> = Vec::new();
        let mut i: usize = 0;
        while i < rows.len()
            invariant
                i <= rows@.len(),
                out@ == rows@.take(i as int).map_values(|e: EpisodeRow| e.shown()),
            decreases rows@.len() - i,
        {
            out.push(rows[i].to_episode());
            i += 1;
            assert(rows@.take(i as int) =~= rows@.take(i - 1).push(rows@[i - 1]));
            assert(out@ =~= rows@.take(i as int).map_values(|e: EpisodeRow| e.shown()));
        }
        assert(rows@.take(i as int) =~= rows@);
        Ok(out)
    }

    /// The episode to go on with: the lowest-numbered unseen one, in the order
    /// of [`Db::list_series_episodes`].
    pub fn next_unseen_episode(&self, series_id: i64) -> (r: Result<Option<NextEpisode>, DbError>)
        ensures
            r == Ok::<Option<NextEpisode>, DbError>(next_unseen(self.episodes@, series_id)),
    {
        let rows = self.ordered_episodes(series_id);
        let mut i: usize = 0;
        while i < rows.len()
            invariant
                i <= rows@.len(),
                rows@ == in_number_order(self.episodes@, series_id),
                forall|k: int| 0 <= k < i ==> !unseen()(#[trigger] rows@[k]),
            decreases rows@.len() - i,
        {
            if !rows[i].seen {
                proof {
                    lemma_first_where_at(rows@, unseen(), i as int);
                }
                return Ok(
                    Some(
                        NextEpisode {
                            number: rows[i].number.clone(),
                            title: copy_text(&rows[i].title),
                            url: rows[i].url.clone(),
                        },
                    ),
                );
            }
            i += 1;
        }
        proof {
            lemma_first_where_none(rows@, unseen());
        }
        Ok(None)
    }

    /// Marks every episode of a series seen: the cascade of its highest episode,
    /// and then what has no place in it. A series without episodes is left alone.
    pub fn mark_all_episodes_seen(&mut self, series_id: i64, now: &str) -> (r: Result<(), DbError>)
        ensures
            r is Ok,
            only_episodes(*old(self), *final(self)),
            final(self).episodes@.len() == old(self).episodes@.len(),
            forall|i: int|
                0 <= i < old(self).episodes@.len() && old(self).episodes@[i].series_id == series_id
                    ==> (#[trigger] final(self).episodes@[i]).seen,
            forall|i: int|
                0 <= i < old(self).episodes@.len() && old(self).episodes@[i].series_id != series_id
                    ==> #[trigger] final(self).episodes@[i] == old(self).episodes@[i],
            count_where(old(self).episodes@, of_series(series_id)) == 0 ==> *final(self) == *old(
                self,
            ),
            top_of(old(self).episodes@, series_id, old(self).episodes@.len() as int) matches Some(
                t,
            ) ==> updated(
                old(self).episodes@,
                final(self).episodes@,
                finished(series_id, old(self).episodes@[t].number@),
                |a: EpisodeRow, b: EpisodeRow| marked(a, b, true, now@),
            ),
            top_of(old(self).episodes@, series_id, old(self).episodes@.len() as int) is None <==>
                count_where(old(self).episodes@, of_series(series_id)) == 0,
            old(self).well_formed() ==> final(self).well_formed(),
    {
        let ghost rows = self.episodes@;
        let mut top: Option<usize> = None;
        let mut value: Option<EpisodePlace> = None;
        let mut i: usize = 0;
        while i < self.episodes.len()
            invariant
                i <= self.episodes@.len(),
                *self == *old(self),
                rows == self.episodes@,
                top is None <==> top_of(rows, series_id, i as int) is None,
                top matches Some(t) ==> {
                    &&& t < i
                    &&& top_of(rows, series_id, i as int) == Some(t as int)
                    &&& value is Some <==> episode_value(rows[t as int].number@) is Some
                    &&& value matches Some(v) ==> episode_value(rows[t as int].number@) == Some(
                        v.rank(),
                    )
                },
            decreases self.episodes@.len() - i,
        {
            if self.episodes[i].series_id == series_id {
                let v = parse_ep_number(self.episodes[i].number.as_str());
                let beaten: bool = match top {
                    None => true,
                    Some(_) => !above(&value, &v),
                };
                if beaten {
                    top = Some(i);
                    value = v;
                }
            }
            i += 1;
        }
        proof {
            lemma_top_exists(rows, series_id, rows.len() as int);
            lemma_top_bounded(rows, series_id, rows.len() as int);
            crate::rows::lemma_count_zero(rows, of_series(series_id));
        }
        if let Some(t) = top {
            assert(of_series(series_id)(rows[t as int]));
            let number = self.episodes[t].number.clone();
            let done = self.set_seen_cascade(series_id, number.as_str(), true, now);
            let ghost first = self.episodes@;
            let ghost hit = finished(series_id, number@);
            let mut j: usize = 0;
            while j < self.episodes.len()
                invariant
                    j <= self.episodes@.len(),
                    self.episodes@.len() == first.len(),
                    first.len() == rows.len(),
                    rows == old(self).episodes@,
                    hit == finished(series_id, number@),
                    only_episodes(*old(self), *self),
                    cascaded(rows, first, series_id, number@, true, now@),
                    forall|k: int|
                        j <= k < first.len() ==> #[trigger] self.episodes@[k] == first[k],
                    forall|k: int|
                        0 <= k < j ==> if hit(rows[k]) {
                            marked(rows[k], #[trigger] self.episodes@[k], true, now@)
                        } else {
                            self.episodes@[k] == rows[k]
                        },
                decreases self.episodes@.len() - j,
            {
                assert(self.episodes@[j as int] == first[j as int]);
                if self.episodes[j].series_id == series_id && !self.episodes[j].seen {
                    self.mark_row(j, true, now);
                }
                j += 1;
            }
            return done;
        }
        Ok(())
    }
}

/// The airing series of a site with the dates of their first episodes.
pub open spec fn dated_series(
    series: Seq<SeriesRow>,
    episodes: Seq<EpisodeRow>,
    source_id: i64,
) -> Seq<(i64, String)>
    decreases series.len(),
{
    if series.len() == 0 {
        Seq::empty()
    } else {
        let before = dated_series(series.drop_last(), episodes, source_id);
        let s = series.last();
        let date = first_date(episodes, s.id);
        if s.source_id == source_id && s.is_airing && date is Some {
            before.push((s.id, date->0))
        } else {
            before
        }
    }
}

/// The condition of being the episode of a series with a number.
pub open spec fn numbered(series_id: i64, number: Seq<char>) -> spec_fn(EpisodeRow) -> bool {
    |e: EpisodeRow| e.series_id == series_id && e.number@ == number
}

/// Whether giving an address to the episodes with a number would give two
/// episodes of the series the same address.
pub open spec fn address_clash(
    rows: Seq<EpisodeRow>,
    series_id: i64,
    number: Seq<char>,
    url: Seq<char>,
) -> bool {
    exists|i: int, j: int|
        0 <= i < rows.len() && 0 <= j < rows.len() && i != j && numbered(series_id, number)(
            #[trigger] rows[i],
        ) && (#[trigger] rows[j]).series_id == series_id && (numbered(series_id, number)(rows[j])
            || rows[j].url@ == url)
}

/// Whether a row is another with its address, title and date replaced.
pub open spec fn refreshed(
    before: EpisodeRow,
    after: EpisodeRow,
    url: Seq<char>,
    title: Option<Seq<char>>,
    released_at: Option<Seq<char>>,
) -> bool {
    &&& after == (EpisodeRow {
        url: after.url,
        title: after.title,
        released_at: after.released_at,
        ..before
    })
    &&& after.url@ == url
    &&& opt_text(after.title) == title
    &&& opt_text(after.released_at) == released_at
}

impl Db {
    /// Replaces the address, title and date of the episode with a number. Marks
    /// are kept. Refused when two episodes would end up at one address.
    pub fn refresh_episode_meta(
        &mut self,
        series_id: i64,
        number: &str,
        url: &str,
        title: Option<&str>,
        released_at: Option<&str>,
    ) -> (r: Result<(), DbError>)
        ensures
            only_episodes(*old(self), *final(self)),
            r is Ok <==> !address_clash(old(self).episodes@, series_id, number@, url@),
            r matches Err(e) ==> e == DbError::Conflict && *final(self) == *old(self),
            r is Ok ==> updated(
                old(self).episodes@,
                final(self).episodes@,
                numbered(series_id, number@),
                |a: EpisodeRow, b: EpisodeRow|
                    refreshed(a, b, url@, opt_str(title), opt_str(released_at)),
            ),
            old(self).well_formed() ==> final(self).well_formed(),
    {
        let ghost rows = self.episodes@;
        let ghost hit = numbered(series_id, number@);
        let mut found: Option<usize> = None;
        let mut taken: Option<usize> = None;
        let mut i: usize = 0;
        while i < self.episodes.len()
            invariant
                i <= self.episodes@.len(),
                *self == *old(self),
                rows == self.episodes@,
                hit == numbered(series_id, number@),
                found is None ==> forall|k: int| 0 <= k < i ==> !hit(#[trigger] rows[k]),
                found matches Some(f) ==> f < i && hit(rows[f as int]) && forall|k: int|
                    0 <= k < i && k != f ==> !hit(#[trigger] rows[k]),
                taken is None ==> forall|k: int|
                    0 <= k < i && !hit(#[trigger] rows[k]) ==> rows[k].series_id != series_id
                        || rows[k].url@ != url@,
                taken matches Some(t) ==> t < i && !hit(rows[t as int]) && rows[t as int].series_id
                    == series_id && rows[t as int].url@ == url@,
            decreases self.episodes@.len() - i,
        {
            if self.episodes[i].series_id == series_id {
                if same_text(self.episodes[i].number.as_str(), number) {
                    if let Some(f) = found {
                        assert(hit(rows[f as int]) && hit(rows[i as int]));
                        return Err(DbError::Conflict);
                    }
                    found = Some(i);
                } else if same_text(self.episodes[i].url.as_str(), url) {
                    taken = Some(i);
                }
            }
            i += 1;
        }
        if let Some(f) = found {
            if let Some(t) = taken {
                assert(hit(rows[f as int]));
                assert(rows[t as int].url@ == url@);
                return Err(DbError::Conflict);
            }
            self.episodes[f].url = url.to_owned();
            self.episodes[f].title = own_text(title);
            self.episodes[f].released_at = own_text(released_at);
            assert(self.episodes@ =~= rows.update(f as int, self.episodes@[f as int]));
        }
        Ok(())
    }
}

/// Whether a series has been watched without gaps: an episode is seen when one
/// of the same or a later place is.
pub open spec fn gap_free(rows: Seq<EpisodeRow>, series_id: i64) -> bool {
    forall|i: int, j: int|
        0 <= i < rows.len() && 0 <= j < rows.len() && (#[trigger] rows[i]).series_id == series_id
            && (#[trigger] rows[j]).series_id == series_id && episode_value(rows[i].number@) is Some
            && episode_value(rows[j].number@) is Some && episode_value(rows[i].number@)->0.at_most(
            episode_value(rows[j].number@)->0,
        ) && rows[j].seen ==> rows[i].seen
}

/// Whether the second table is the first after a cascade.
pub open spec fn cascaded(
    before: Seq<EpisodeRow>,
    after: Seq<EpisodeRow>,
    series_id: i64,
    number: Seq<char>,
    seen: bool,
    now: Seq<char>,
) -> bool {
    updated(
        before,
        after,
        |e: EpisodeRow| cascades(e, series_id, number, seen),
        |a: EpisodeRow, b: EpisodeRow| marked(a, b, seen, now),
    )
}

/// Watching stays gap-free, whichever episode is marked or has its mark taken
/// back.
pub proof fn law_cascade_keeps_gap_free(
    before: Seq<EpisodeRow>,
    after: Seq<EpisodeRow>,
    series_id: i64,
    number: Seq<char>,
    seen: bool,
    now: Seq<char>,
)
    requires
        cascaded(before, after, series_id, number, seen, now),
        gap_free(before, series_id),
    ensures
        gap_free(after, series_id),
{
    assert forall|i: int, j: int|
        0 <= i < after.len() && 0 <= j < after.len() && (#[trigger] after[i]).series_id == series_id
            && (#[trigger] after[j]).series_id == series_id && episode_value(
            after[i].number@,
        ) is Some && episode_value(after[j].number@) is Some && episode_value(
            after[i].number@,
        )->0.at_most(episode_value(after[j].number@)->0) && after[j].seen implies after[i].seen by {
        assert(after[i].number == before[i].number && after[i].series_id == before[i].series_id);
        assert(after[j].number == before[j].number && after[j].series_id == before[j].series_id);
    }
}

/// Taking back the mark that was just set leaves exactly the earlier episodes
/// seen, of those that are in an order with it.
pub proof fn law_cascade_undone(
    first: Seq<EpisodeRow>,
    second: Seq<EpisodeRow>,
    third: Seq<EpisodeRow>,
    series_id: i64,
    number: Seq<char>,
    now: Seq<char>,
    later: Seq<char>,
    i: int,
)
    requires
        cascaded(first, second, series_id, number, true, now),
        cascaded(second, third, series_id, number, false, later),
        episode_value(number) is Some,
        !(episode_value(number)->0 is Unordered),
        0 <= i < first.len(),
        first[i].series_id == series_id,
        episode_value(first[i].number@) is Some,
        !(episode_value(first[i].number@)->0 is Unordered),
    ensures
        third[i].seen <==> !episode_value(number)->0.at_most(episode_value(first[i].number@)->0),
{
    assert(second[i].number == first[i].number && second[i].series_id == series_id);
    assert(third[i].number == first[i].number);
}

/// Marking twice is marking once, but for the stamps.
pub proof fn law_cascade_idempotent(
    first: Seq<EpisodeRow>,
    second: Seq<EpisodeRow>,
    third: Seq<EpisodeRow>,
    series_id: i64,
    number: Seq<char>,
    seen: bool,
    now: Seq<char>,
    later: Seq<char>,
    i: int,
)
    requires
        cascaded(first, second, series_id, number, seen, now),
        cascaded(second, third, series_id, number, seen, later),
        0 <= i < first.len(),
    ensures
        third[i].seen == second[i].seen,
{
    assert(second[i].number == first[i].number && second[i].series_id == first[i].series_id);
    assert(third[i].number == first[i].number);
}

/// A table whose rows have the same keys is keyed too.
pub proof fn lemma_same_keys(before: Seq<EpisodeRow>, after: Seq<EpisodeRow>)
    requires
        episodes_keyed(before),
        after.len() == before.len(),
        forall|k: int|
            0 <= k < before.len() ==> (#[trigger] after[k]).id == before[k].id && after[k].series_id
                == before[k].series_id && after[k].url == before[k].url,
    ensures
        episodes_keyed(after),
{
    assert forall|j: int, k: int| 0 <= j < k < after.len() implies #[trigger] after[j].id
        < #[trigger] after[k].id by {
        assert(before[j].id < before[k].id);
    }
    assert forall|j: int, k: int| 0 <= j < k < after.len() implies #[trigger] after[j].series_id
        != #[trigger] after[k].series_id || after[j].url@ != after[k].url@ by {
        assert(before[j].series_id != before[k].series_id || before[j].url@ != before[k].url@);
    }
    assert forall|k: int| 0 <= k < after.len() implies (#[trigger] after[k]).id >= 1 by {
        assert(before[k].id >= 1);
    }
}

} // verus!
