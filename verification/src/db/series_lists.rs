//! Lists of series, their genres, and taking series away.

use vstd::prelude::*;
use crate::db::numbers::{cast_integer, leading_integer};
use crate::db::series::{series_at, with_id};
use crate::db::{
    copy_text, genres_keyed, lemma_episodes_filtered, lemma_genres_filtered, lemma_series_filtered,
    only_series_genres, opt_text, text_is, Db, DbError, EpisodeRow, SeriesGenreRow, SeriesRow,
};
use crate::models::Series;
use crate::rows::{
    lemma_filter_none, lemma_filter_step, lemma_max_push, max_of, sort_rows, sorted, updated,
};
use crate::text::{chars_of, precedes, same_text, text_precedes};

verus! {

/// The order of series by title.
pub open spec fn by_title() -> spec_fn(SeriesRow, SeriesRow) -> bool {
    |a: SeriesRow, b: SeriesRow| precedes(a.title@, b.title@)
}

/// The series that satisfy a condition, by title.
pub open spec fn listed(series: Seq<SeriesRow>, hit: spec_fn(SeriesRow) -> bool) -> Seq<Series> {
    sorted(series.filter(hit), by_title()).map_values(|s: SeriesRow| s.shown())
}

/// Whether a series' title stands before another's.
fn title_before(a: &SeriesRow, b: &SeriesRow) -> (r: bool)
    ensures
        r == precedes(a.title@, b.title@),
{
    text_precedes(&chars_of(a.title.as_str()), &chars_of(b.title.as_str()))
}

/// What is shown of series, by title.
fn show_by_title(rows: Vec<SeriesRow>) -> (r: Vec<Series>)
    ensures
        r@ == sorted(rows@, by_title()).map_values(|s: SeriesRow| s.shown()),
{
    let list = sort_rows(rows, title_before, Ghost(by_title()));
    let mut out: Vec<Series> = Vec::new();
    let mut i: usize = 0;
    while i < list.len()
        invariant
            i <= list@.len(),
            out@ == list@.take(i as int).map_values(|s: SeriesRow| s.shown()),
        decreases list@.len() - i,
    {
        out.push(list[i].to_series());
        i += 1;
        assert(list@.take(i as int) =~= list@.take(i - 1).push(list@[i - 1]));
        assert(out@ =~= list@.take(i as int).map_values(|s: SeriesRow| s.shown()));
    }
    assert(list@.take(i as int) =~= list@);
    out
}

/// The condition of being a site's series with a tag.
pub open spec fn tagged(source_id: i64, status: Seq<char>) -> spec_fn(SeriesRow) -> bool {
    |s: SeriesRow| s.source_id == source_id && opt_text(s.backlog_status) == Some(status)
}

/// The condition of being a site's series that was watched elsewhere.
pub open spec fn watched_on(source_id: i64) -> spec_fn(SeriesRow) -> bool {
    |s: SeriesRow| s.source_id == source_id && s.watched_externally
}

/// The condition of being a site's followed series.
pub open spec fn followed_on(source_id: i64) -> spec_fn(SeriesRow) -> bool {
    |s: SeriesRow| s.source_id == source_id && s.followed
}

/// Whether a series has no episodes.
pub open spec fn without_episodes(episodes: Seq<EpisodeRow>, id: i64) -> bool {
    forall|k: int| 0 <= k < episodes.len() ==> (#[trigger] episodes[k]).series_id != id
}

/// The condition of being a site's followed series without episodes.
pub open spec fn followed_empty(
    episodes: Seq<EpisodeRow>,
    source_id: i64,
) -> spec_fn(SeriesRow) -> bool {
    |s: SeriesRow| s.source_id == source_id && s.followed && without_episodes(episodes, s.id)
}

impl Db {
    /// Whether a series has no episodes.
    fn has_no_episodes(&self, id: i64) -> (r: bool)
        ensures
            r == without_episodes(self.episodes@, id),
    {
        let mut i: usize = 0;
        while i < self.episodes.len()
            invariant
                i <= self.episodes@.len(),
                forall|k: int| 0 <= k < i ==> (#[trigger] self.episodes@[k]).series_id != id,
            decreases self.episodes@.len() - i,
        {
            if self.episodes[i].series_id == id {
                return false;
            }
            i += 1;
        }
        true
    }

    /// A site's series with a tag, by title.
    pub fn list_backlog(&self, source_id: i64, status: &str) -> (r: Result<Vec<Series>, DbError>)
        ensures
            r is Ok,
            r->Ok_0@ == listed(self.series@, tagged(source_id, status@)),
    {
        let ghost hit = tagged(source_id, status@);
        let mut rows: Vec<SeriesRow> = Vec::new();
        let mut i: usize = 0;
        proof {
            lemma_filter_none(self.series@, hit);
        }
        while i < self.series.len()
            invariant
                i <= self.series@.len(),
                hit == tagged(source_id, status@),
                rows@ == self.series@.take(i as int).filter(hit),
            decreases self.series@.len() - i,
        {
            proof {
                lemma_filter_step(self.series@, hit, i as int);
            }
            if self.series[i].source_id == source_id && text_is(&self.series[i].backlog_status, status) {
                rows.push(self.series[i].copy());
            }
            i += 1;
        }
        proof {
            lemma_filter_none(self.series@, hit);
        }
        Ok(show_by_title(rows))
    }

    /// A site's series that were watched elsewhere, by title.
    pub fn list_watched_externally(&self, source_id: i64) -> (r: Result<Vec<Series>, DbError>)
        ensures
            r is Ok,
            r->Ok_0@ == listed(self.series@, watched_on(source_id)),
    {
        let ghost hit = watched_on(source_id);
        let mut rows: Vec<SeriesRow> = Vec::new();
        let mut i: usize = 0;
        proof {
            lemma_filter_none(self.series@, hit);
        }
        while i < self.series.len()
            invariant
                i <= self.series@.len(),
                hit == watched_on(source_id),
                rows@ == self.series@.take(i as int).filter(hit),
            decreases self.series@.len() - i,
        {
            proof {
                lemma_filter_step(self.series@, hit, i as int);
            }
            if self.series[i].source_id == source_id && self.series[i].watched_externally {
                rows.push(self.series[i].copy());
            }
            i += 1;
        }
        proof {
            lemma_filter_none(self.series@, hit);
        }
        Ok(show_by_title(rows))
    }

    /// A site's followed series, by title.
    pub fn list_followed(&self, source_id: i64) -> (r: Result<Vec<Series>, DbError>)
        ensures
            r is Ok,
            r->Ok_0@ == listed(self.series@, followed_on(source_id)),
    {
        let ghost hit = followed_on(source_id);
        let mut rows: Vec<SeriesRow> = Vec::new();
        let mut i: usize = 0;
        proof {
            lemma_filter_none(self.series@, hit);
        }
        while i < self.series.len()
            invariant
                i <= self.series@.len(),
                hit == followed_on(source_id),
                rows@ == self.series@.take(i as int).filter(hit),
            decreases self.series@.len() - i,
        {
            proof {
                lemma_filter_step(self.series@, hit, i as int);
            }
            if self.series[i].source_id == source_id && self.series[i].followed {
                rows.push(self.series[i].copy());
            }
            i += 1;
        }
        proof {
            lemma_filter_none(self.series@, hit);
        }
        Ok(show_by_title(rows))
    }

    /// A site's followed series whose episodes have never been fetched, by title.
    pub fn followed_series_without_episodes(&self, source_id: i64) -> (r: Result<Vec<Series>, DbError>)
        ensures
            r is Ok,
            r->Ok_0@ == listed(self.series@, followed_empty(self.episodes@, source_id)),
    {
        let ghost hit = followed_empty(self.episodes@, source_id);
        let mut rows: Vec<SeriesRow> = Vec::new();
        let mut i: usize = 0;
        proof {
            lemma_filter_none(self.series@, hit);
        }
        while i < self.series.len()
            invariant
                i <= self.series@.len(),
                hit == followed_empty(self.episodes@, source_id),
                rows@ == self.series@.take(i as int).filter(hit),
            decreases self.series@.len() - i,
        {
            proof {
                lemma_filter_step(self.series@, hit, i as int);
            }
            if self.series[i].source_id == source_id && self.series[i].followed && self.has_no_episodes(
                self.series[i].id,
            ) {
                rows.push(self.series[i].copy());
            }
            i += 1;
        }
        proof {
            lemma_filter_none(self.series@, hit);
        }
        Ok(show_by_title(rows))
    }
}

/// The condition of being a seen episode of a series.
pub open spec fn seen_of(series_id: i64) -> spec_fn(EpisodeRow) -> bool {
    |e: EpisodeRow| e.series_id == series_id && e.seen
}

/// How far a series has been watched: the highest whole number that a seen
/// episode's number starts with, 0 when none has been seen.
pub open spec fn watermark(episodes: Seq<EpisodeRow>, series_id: i64) -> int {
    match max_of(
        episodes.filter(seen_of(series_id)).map_values(
            |e: EpisodeRow| leading_integer(e.number@),
        ),
    ) {
        Some(m) => m,
        None => 0,
    }
}

/// The condition of being followed on another site.
pub open spec fn followed_elsewhere(source_id: i64) -> spec_fn(SeriesRow) -> bool {
    |s: SeriesRow| s.followed && s.source_id != source_id
}

/// The condition of belonging to a series.
pub open spec fn genres_of(series_id: i64) -> spec_fn(SeriesGenreRow) -> bool {
    |g: SeriesGenreRow| g.series_id == series_id
}

/// The order of genres by name.
pub open spec fn by_genre() -> spec_fn(SeriesGenreRow, SeriesGenreRow) -> bool {
    |a: SeriesGenreRow, b: SeriesGenreRow| precedes(a.genre@, b.genre@)
}

/// The genres of a series in alphabetical order.
pub open spec fn genre_list(genres: Seq<SeriesGenreRow>, series_id: i64) -> Seq<String> {
    sorted(genres.filter(genres_of(series_id)), by_genre()).map_values(|g: SeriesGenreRow| g.genre)
}

/// Whether a series carries a genre.
pub open spec fn has_genre(genres: Seq<SeriesGenreRow>, series_id: i64, genre: Seq<char>) -> bool {
    exists|k: int|
        0 <= k < genres.len() && (#[trigger] genres[k]).series_id == series_id && genres[k].genre@
            == genre
}

/// Whether the second table is the first with a genre added to a series that
/// may not carry it yet.
pub open spec fn genre_added(
    before: Seq<SeriesGenreRow>,
    after: Seq<SeriesGenreRow>,
    series_id: i64,
    genre: Seq<char>,
) -> bool {
    if has_genre(before, series_id, genre) {
        after == before
    } else {
        &&& after.len() == before.len() + 1
        &&& after.drop_last() == before
        &&& after.last().series_id == series_id
        &&& after.last().genre@ == genre
    }
}

/// The genres that a series does not carry yet, each once, in order.
pub open spec fn fresh_genres(
    before: Seq<SeriesGenreRow>,
    series_id: i64,
    genres: Seq<Seq<char>>,
) -> Seq<Seq<char>>
    decreases genres.len(),
{
    if genres.len() == 0 {
        Seq::empty()
    } else {
        let init = fresh_genres(before, series_id, genres.drop_last());
        if has_genre(before, series_id, genres.last()) || init.contains(genres.last()) {
            init
        } else {
            init.push(genres.last())
        }
    }
}

/// Whether the second table is the first with genres added to a series, those
/// that it carries left out.
pub open spec fn genres_added(
    before: Seq<SeriesGenreRow>,
    after: Seq<SeriesGenreRow>,
    series_id: i64,
    genres: Seq<Seq<char>>,
) -> bool {
    let fresh = fresh_genres(before, series_id, genres);
    &&& after.len() == before.len() + fresh.len()
    &&& forall|k: int| 0 <= k < before.len() ==> #[trigger] after[k] == before[k]
    &&& forall|k: int|
        before.len() <= k < after.len() ==> (#[trigger] after[k]).series_id == series_id
            && after[k].genre@ == fresh[k - before.len()]
}

proof fn lemma_genre_step(
    before: Seq<SeriesGenreRow>,
    mid: Seq<SeriesGenreRow>,
    after: Seq<SeriesGenreRow>,
    series_id: i64,
    genres: Seq<Seq<char>>,
)
    requires
        genres.len() > 0,
        genres_added(before, mid, series_id, genres.drop_last()),
        genre_added(mid, after, series_id, genres.last()),
    ensures
        genres_added(before, after, series_id, genres),
{
    let init = fresh_genres(before, series_id, genres.drop_last());
    let g = genres.last();
    if has_genre(before, series_id, g) {
        let k = choose|k: int|
            0 <= k < before.len() && (#[trigger] before[k]).series_id == series_id
                && before[k].genre@ == g;
        assert(mid[k] == before[k]);
    }
    if init.contains(g) {
        let k = choose|k: int| 0 <= k < init.len() && init[k] == g;
        assert(mid[before.len() + k].genre@ == init[k]);
    }
    if has_genre(mid, series_id, g) {
        let k = choose|k: int|
            0 <= k < mid.len() && (#[trigger] mid[k]).series_id == series_id && mid[k].genre@ == g;
        if k < before.len() {
            assert(before[k] == mid[k]);
        } else {
            assert(init[k - before.len()] == g);
        }
    } else {
        assert forall|k: int| 0 <= k < mid.len() implies #[trigger] after[k] == mid[k] by {
            assert(after.drop_last()[k] == after[k]);
        }
    }
}

/// What a list of texts spells.
pub open spec fn spelled(list: Seq<String>) -> Seq<Seq<char>> {
    list.map_values(|t: String| t@)
}

/// Whether a genre's name stands before another's.
fn genre_before(a: &SeriesGenreRow, b: &SeriesGenreRow) -> (r: bool)
    ensures
        r == precedes(a.genre@, b.genre@),
{
    text_precedes(&chars_of(a.genre.as_str()), &chars_of(b.genre.as_str()))
}

impl Db {
    /// How far a series has been watched.
    pub fn seen_watermark(&self, series_id: i64) -> (r: i64)
        ensures
            r == watermark(self.episodes@, series_id),
    {
        let ghost hit = seen_of(series_id);
        let ghost f = |e: EpisodeRow| leading_integer(e.number@);
        let mut best: Option<i64> = None;
        let mut i: usize = 0;
        proof {
            lemma_filter_none(self.episodes@, hit);
            assert(self.episodes@.take(0).filter(hit).map_values(f) =~= Seq::<int>::empty());
        }
        while i < self.episodes.len()
            invariant
                i <= self.episodes@.len(),
                hit == seen_of(series_id),
                f == (|e: EpisodeRow| leading_integer(e.number@)),
                best is None <==> max_of(
                    self.episodes@.take(i as int).filter(hit).map_values(f),
                ) is None,
                best matches Some(m) ==> max_of(
                    self.episodes@.take(i as int).filter(hit).map_values(f),
                ) == Some(m as int),
            decreases self.episodes@.len() - i,
        {
            let ghost before = self.episodes@.take(i as int).filter(hit);
            proof {
                lemma_filter_step(self.episodes@, hit, i as int);
            }
            if self.episodes[i].series_id == series_id && self.episodes[i].seen {
                let n: i64 = cast_integer(self.episodes[i].number.as_str());
                proof {
                    lemma_max_push(before.map_values(f), n as int);
                    assert(before.push(self.episodes@[i as int]).map_values(f)
                        =~= before.map_values(f).push(n as int));
                }
                best = match best {
                    Some(m) => if m >= n { Some(m) } else { Some(n) },
                    None => Some(n),
                };
            }
            i += 1;
        }
        proof {
            lemma_filter_none(self.episodes@, hit);
        }
        match best {
            Some(m) => m,
            None => 0,
        }
    }

    /// The titles of all series followed on other sites and how far each has
    /// been watched, by title.
    pub fn followed_titles_with_watermark(&self, exclude_source_id: i64) -> (r: Result<
        Vec<(String, i64)>,
        DbError,
    >)
        ensures
            r is Ok,
            ({
                let rows = sorted(
                    self.series@.filter(followed_elsewhere(exclude_source_id)),
                    by_title(),
                );
                &&& r->Ok_0@.len() == rows.len()
                &&& forall|i: int|
                    0 <= i < rows.len() ==> (#[trigger] r->Ok_0@[i]).0 == rows[i].title
                        && r->Ok_0@[i].1 == watermark(self.episodes@, rows[i].id)
            }),
    {
        let ghost hit = followed_elsewhere(exclude_source_id);
        let mut rows: Vec<SeriesRow> = Vec::new();
        let mut i: usize = 0;
        proof {
            lemma_filter_none(self.series@, hit);
        }
        while i < self.series.len()
            invariant
                i <= self.series@.len(),
                hit == followed_elsewhere(exclude_source_id),
                rows@ == self.series@.take(i as int).filter(hit),
            decreases self.series@.len() - i,
        {
            proof {
                lemma_filter_step(self.series@, hit, i as int);
            }
            if self.series[i].followed && self.series[i].source_id != exclude_source_id {
                rows.push(self.series[i].copy());
            }
            i += 1;
        }
        proof {
            lemma_filter_none(self.series@, hit);
        }
        let list = sort_rows(rows, title_before, Ghost(by_title()));
        let mut out: Vec<(String, i64)> = Vec::new();
        let mut j: usize = 0;
        while j < list.len()
            invariant
                j <= list@.len(),
                out@.len() == j,
                forall|k: int|
                    0 <= k < j ==> (#[trigger] out@[k]).0 == list@[k].title && out@[k].1
                        == watermark(self.episodes@, list@[k].id),
            decreases list@.len() - j,
        {
            out.push((list[j].title.clone(), self.seen_watermark(list[j].id)));
            j += 1;
        }
        Ok(out)
    }

    /// The genres of a series in alphabetical order.
    pub fn list_series_genres(&self, series_id: i64) -> (r: Result<Vec<String>, DbError>)
        ensures
            r is Ok,
            r->Ok_0@ == genre_list(self.series_genres@, series_id),
    {
        let ghost hit = genres_of(series_id);
        let mut rows: Vec<SeriesGenreRow> = Vec::new();
        let mut i: usize = 0;
        proof {
            lemma_filter_none(self.series_genres@, hit);
        }
        while i < self.series_genres.len()
            invariant
                i <= self.series_genres@.len(),
                hit == genres_of(series_id),
                rows@ == self.series_genres@.take(i as int).filter(hit),
            decreases self.series_genres@.len() - i,
        {
            proof {
                lemma_filter_step(self.series_genres@, hit, i as int);
            }
            if self.series_genres[i].series_id == series_id {
                rows.push(self.series_genres[i].copy());
            }
            i += 1;
        }
        proof {
            lemma_filter_none(self.series_genres@, hit);
        }
        let list = sort_rows(rows, genre_before, Ghost(by_genre()));
        let mut out: Vec<String> = Vec::new();
        let mut j: usize = 0;
        while j < list.len()
            invariant
                j <= list@.len(),
                out@ == list@.take(j as int).map_values(|g: SeriesGenreRow| g.genre),
            decreases list@.len() - j,
        {
            out.push(list[j].genre.clone());
            j += 1;
            assert(list@.take(j as int) =~= list@.take(j - 1).push(list@[j - 1]));
            assert(out@ =~= list@.take(j as int).map_values(|g: SeriesGenreRow| g.genre));
        }
        assert(list@.take(j as int) =~= list@);
        Ok(out)
    }

    /// Whether a series carries no genre yet.
    pub fn series_needs_genre_backfill(&self, series_id: i64) -> (r: Result<bool, DbError>)
        ensures
            r == Ok::<bool, DbError>(
                forall|k: int|
                    0 <= k < self.series_genres@.len() ==> (
                    #[trigger] self.series_genres@[k]).series_id != series_id,
            ),
    {
        let mut i: usize = 0;
        while i < self.series_genres.len()
            invariant
                i <= self.series_genres@.len(),
                forall|k: int|
                    0 <= k < i ==> (#[trigger] self.series_genres@[k]).series_id != series_id,
            decreases self.series_genres@.len() - i,
        {
            if self.series_genres[i].series_id == series_id {
                return Ok(false);
            }
            i += 1;
        }
        Ok(true)
    }

    /// Adds one genre to a series unless it carries it.
    fn insert_genre(&mut self, series_id: i64, genre: &String)
        ensures
            only_series_genres(*old(self), *final(self)),
            genre_added(
                old(self).series_genres@,
                final(self).series_genres@,
                series_id,
                genre@,
            ),
            genres_keyed(old(self).series_genres@) ==> genres_keyed(final(self).series_genres@),
    {
        let ghost rows = self.series_genres@;
        let mut i: usize = 0;
        while i < self.series_genres.len()
            invariant
                i <= self.series_genres@.len(),
                *self == *old(self),
                rows == self.series_genres@,
                forall|k: int|
                    0 <= k < i ==> (#[trigger] rows[k]).series_id != series_id || rows[k].genre@
                        != genre@,
            decreases self.series_genres@.len() - i,
        {
            if self.series_genres[i].series_id == series_id && same_text(
                self.series_genres[i].genre.as_str(),
                genre.as_str(),
            ) {
                assert(rows[i as int].genre@ == genre@);
                return ;
            }
            i += 1;
        }
        self.series_genres.push(SeriesGenreRow { series_id, genre: genre.clone() });
        assert(self.series_genres@.drop_last() =~= rows);
    }

    /// Adds genres to a series; those that it carries already are left alone.
    pub fn insert_series_genres(&mut self, series_id: i64, genres: &[String]) -> (r: Result<
        (),
        DbError,
    >)
        ensures
            r is Ok,
            only_series_genres(*old(self), *final(self)),
            genres_added(
                old(self).series_genres@,
                final(self).series_genres@,
                series_id,
                spelled(genres@),
            ),
            old(self).well_formed() ==> final(self).well_formed(),
    {
        let ghost all = spelled(genres@);
        let mut i: usize = 0;
        assert(all.take(0) =~= Seq::empty());
        while i < genres.len()
            invariant
                i <= genres@.len(),
                all == spelled(genres@),
                only_series_genres(*old(self), *self),
                genres_added(
                    old(self).series_genres@,
                    self.series_genres@,
                    series_id,
                    all.take(i as int),
                ),
                genres_keyed(old(self).series_genres@) ==> genres_keyed(self.series_genres@),
            decreases genres@.len() - i,
        {
            let ghost mid = self.series_genres@;
            self.insert_genre(series_id, &genres[i]);
            proof {
                assert(all.take(i + 1).drop_last() =~= all.take(i as int));
                assert(all.take(i + 1).last() == genres@[i as int]@);
                lemma_genre_step(
                    old(self).series_genres@,
                    mid,
                    self.series_genres@,
                    series_id,
                    all.take(i + 1),
                );
            }
            i += 1;
        }
        assert(all.take(i as int) =~= all);
        Ok(())
    }

    /// Takes all genres of a series away.
    fn remove_genres(&mut self, series_id: i64)
        ensures
            only_series_genres(*old(self), *final(self)),
            final(self).series_genres@ == old(self).series_genres@.filter(
                other_genres(series_id),
            ),
            genres_keyed(old(self).series_genres@) ==> genres_keyed(final(self).series_genres@),
    {
        let ghost hit = other_genres(series_id);
        let ghost rows = self.series_genres@;
        let mut kept: Vec<SeriesGenreRow> = Vec::new();
        let mut i: usize = 0;
        proof {
            lemma_filter_none(rows, hit);
        }
        while i < self.series_genres.len()
            invariant
                i <= self.series_genres@.len(),
                *self == *old(self),
                rows == self.series_genres@,
                hit == other_genres(series_id),
                kept@ == rows.take(i as int).filter(hit),
            decreases self.series_genres@.len() - i,
        {
            proof {
                lemma_filter_step(rows, hit, i as int);
            }
            if self.series_genres[i].series_id != series_id {
                kept.push(self.series_genres[i].copy());
            }
            i += 1;
        }
        proof {
            lemma_filter_none(rows, hit);
            if genres_keyed(rows) {
                lemma_genres_filtered(rows, hit);
            }
        }
        self.series_genres = kept;
    }

    /// Replaces the genres of a series.
    pub fn replace_series_genres(&mut self, series_id: i64, genres: &[String]) -> (r: Result<
        (),
        DbError,
    >)
        ensures
            r is Ok,
            only_series_genres(*old(self), *final(self)),
            genres_added(
                old(self).series_genres@.filter(other_genres(series_id)),
                final(self).series_genres@,
                series_id,
                spelled(genres@),
            ),
            old(self).well_formed() ==> final(self).well_formed(),
    {
        self.remove_genres(series_id);
        self.insert_series_genres(series_id, genres)
    }

    /// Takes a series away with its episodes and genres.
    pub fn delete_series(&mut self, series_id: i64) -> (r: Result<(), DbError>)
        requires
            old(self).well_formed(),
        ensures
            r is Ok,
            final(self).well_formed(),
            deleted(*old(self), *final(self), series_id),
    {
        let ghost eps = self.episodes@;
        let ghost keep_ep = other_episodes(series_id);
        let mut episodes: Vec<EpisodeRow> = Vec::new();
        let mut i: usize = 0;
        proof {
            lemma_filter_none(eps, keep_ep);
        }
        while i < self.episodes.len()
            invariant
                i <= self.episodes@.len(),
                *self == *old(self),
                eps == self.episodes@,
                keep_ep == other_episodes(series_id),
                episodes@ == eps.take(i as int).filter(keep_ep),
            decreases self.episodes@.len() - i,
        {
            proof {
                lemma_filter_step(eps, keep_ep, i as int);
            }
            if self.episodes[i].series_id != series_id {
                episodes.push(self.episodes[i].copy());
            }
            i += 1;
        }
        let ghost rows = self.series@;
        let ghost keep = other_series(series_id);
        let mut series: Vec<SeriesRow> = Vec::new();
        let mut j: usize = 0;
        proof {
            lemma_filter_none(eps, keep_ep);
            lemma_episodes_filtered(eps, keep_ep);
            lemma_filter_none(rows, keep);
        }
        while j < self.series.len()
            invariant
                j <= self.series@.len(),
                *self == *old(self),
                rows == self.series@,
                keep == other_series(series_id),
                series@ == rows.take(j as int).filter(keep),
            decreases self.series@.len() - j,
        {
            proof {
                lemma_filter_step(rows, keep, j as int);
            }
            if self.series[j].id != series_id {
                series.push(self.series[j].copy());
            }
            j += 1;
        }
        proof {
            lemma_filter_none(rows, keep);
            lemma_series_filtered(rows, keep);
        }
        self.remove_genres(series_id);
        self.episodes = episodes;
        self.series = series;
        Ok(())
    }

    /// Folds a placeholder into the series that it turned out to be: whether
    /// either is followed or was watched elsewhere, and the placeholder's tag
    /// where the series has none. The placeholder is taken away.
    pub fn merge_series_into(&mut self, existing_id: i64, synthetic_id: i64) -> (r: Result<
        (),
        DbError,
    >)
        requires
            old(self).well_formed(),
        ensures
            final(self).well_formed(),
            match series_at(old(self).series@, synthetic_id) {
                None => r == Err::<(), DbError>(DbError::NoSuchRow) && *final(self) == *old(self),
                Some(s) => {
                    &&& r is Ok
                    &&& exists|mid: Db|
                        #[trigger] deleted(mid, *final(self), synthetic_id)
                            && crate::db::only_series(*old(self), mid) && updated(
                            old(self).series@,
                            mid.series@,
                            with_id(existing_id),
                            |a: SeriesRow, b: SeriesRow| b == merged(a, s),
                        )
                },
            },
    {
        let at: usize = match self.find_series(synthetic_id) {
            Some(i) => i,
            None => {
                return Err(DbError::NoSuchRow);
            },
        };
        let followed: bool = self.series[at].followed;
        let watched: bool = self.series[at].watched_externally;
        let status = copy_text(&self.series[at].backlog_status);
        let ghost rows = self.series@;
        if let Some(i) = self.find_series(existing_id) {
            self.series[i].followed = self.series[i].followed || followed;
            self.series[i].watched_externally = self.series[i].watched_externally || watched;
            if self.series[i].backlog_status.is_none() {
                self.series[i].backlog_status = status;
            }
            proof {
                crate::db::series::lemma_one_changed(rows, self.series@, i as int);
            }
        }
        self.delete_series(synthetic_id)
    }
}

/// A series with what was decided on another folded in.
pub open spec fn merged(a: SeriesRow, s: SeriesRow) -> SeriesRow {
    SeriesRow {
        followed: a.followed || s.followed,
        watched_externally: a.watched_externally || s.watched_externally,
        backlog_status: if a.backlog_status is None { s.backlog_status } else { a.backlog_status },
        ..a
    }
}

/// The condition of not belonging to a series.
pub open spec fn other_genres(series_id: i64) -> spec_fn(SeriesGenreRow) -> bool {
    |g: SeriesGenreRow| g.series_id != series_id
}

/// The condition of not belonging to a series.
pub open spec fn other_episodes(series_id: i64) -> spec_fn(EpisodeRow) -> bool {
    |e: EpisodeRow| e.series_id != series_id
}

/// The condition of having another id.
pub open spec fn other_series(series_id: i64) -> spec_fn(SeriesRow) -> bool {
    |s: SeriesRow| s.id != series_id
}

/// Whether the second database is the first without a series, its episodes and
/// its genres.
pub open spec fn deleted(before: Db, after: Db, series_id: i64) -> bool {
    &&& after == (Db {
        series: after.series,
        episodes: after.episodes,
        series_genres: after.series_genres,
        ..before
    })
    &&& after.series@ == before.series@.filter(other_series(series_id))
    &&& after.episodes@ == before.episodes@.filter(other_episodes(series_id))
    &&& after.series_genres@ == before.series_genres@.filter(other_genres(series_id))
}

impl SeriesGenreRow {
    /// A copy of the row.
    pub fn copy(&self) -> (r: SeriesGenreRow)
        ensures
            r == *self,
    {
        SeriesGenreRow { series_id: self.series_id, genre: self.genre.clone() }
    }
}

} // verus!
