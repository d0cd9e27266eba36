//! Series: what a scan finds, what is followed, wanted or discarded.

use vstd::prelude::*;
use crate::db::identity::same_show;
use crate::db::{
    copy_text, only_series, opt_str, opt_text, own_text, series_keyed, Db, DbError, SeriesRow,
};
use crate::matching::{normalize_title, normalized};
use crate::models::Series;
use crate::rows::{
    count_where, first_where, lemma_filter_none, lemma_filter_step, lemma_first_where_at,
    lemma_first_where_none, max_of, updated,
};
use crate::text::{
    chars_of, fold_chars, folded, same_text, stands_at, starts_with, text_starts_with,
};

verus! {

/// What the swipe history shows of a series.
#[derive(Debug, Clone, PartialEq)]
pub struct SwipeHistoryRow {
    pub title: String,
    pub poster_url: Option<String>,
    pub backlog_status: Option<String>,
    pub watched_externally: bool,
    pub url: String,
}

/// What linking a series to a site needs of it.
#[derive(Debug, Clone, PartialEq)]
pub struct SeriesForLink {
    pub id: i64,
    pub source_id: i64,
    pub slug: String,
    pub anilist_id: Option<i64>,
    pub followed: bool,
    pub backlog_status: Option<String>,
    pub watched_externally: bool,
}

/// Whether a slug is that of a placeholder for a catalog entry.
pub open spec fn placeholder(slug: Seq<char>) -> bool {
    starts_with(slug, "anilist-"@)
}

/// Whether a stored slug counts as that of a placeholder; its case is ignored.
pub open spec fn stored_placeholder(slug: Seq<char>) -> bool {
    starts_with(folded(slug), "anilist-"@)
}

impl SeriesForLink {
    /// Whether nothing is left to link: the series was never a catalog entry,
    /// or it has been given the slug of a site.
    pub fn already_linked_to_site(&self) -> (r: bool)
        ensures
            r == (self.anilist_id is None || !placeholder(self.slug@)),
    {
        self.anilist_id.is_none() || !text_starts_with(self.slug.as_str(), "anilist-")
    }
}

/// The condition of having an id.
pub open spec fn with_id(id: i64) -> spec_fn(SeriesRow) -> bool {
    |s: SeriesRow| s.id == id
}

/// The series with an id.
pub open spec fn series_at(series: Seq<SeriesRow>, id: i64) -> Option<SeriesRow> {
    first_where(series, with_id(id))
}

/// The id that a new series gets.
pub open spec fn next_series_id(series: Seq<SeriesRow>) -> int {
    match max_of(series.map_values(|s: SeriesRow| s.id as int)) {
        Some(m) => m + 1,
        None => 1,
    }
}

/// The condition of being a site's series with a slug.
pub open spec fn slugged(source_id: i64, slug: Seq<char>) -> spec_fn(SeriesRow) -> bool {
    |s: SeriesRow| s.source_id == source_id && s.slug@ == slug
}

/// The condition of being a site's own series with a title that normalizes to
/// the given text.
pub open spec fn titled(source_id: i64, norm: Seq<char>) -> spec_fn(SeriesRow) -> bool {
    |s: SeriesRow|
        s.source_id == source_id && !stored_placeholder(s.slug@) && normalized(s.title@) == norm
}

/// The stored series that a scanned one is: the one with its slug; failing
/// that, and unless it is a placeholder, the site's first own series with its
/// normalized title. A slug is not a stable identity.
pub open spec fn known_series(
    series: Seq<SeriesRow>,
    source_id: i64,
    s: Series,
) -> Option<SeriesRow> {
    match first_where(series, slugged(source_id, s.slug@)) {
        Some(row) => Some(row),
        None => if placeholder(s.slug@) {
            None
        } else {
            first_where(series, titled(source_id, normalized(s.title@)))
        },
    }
}

/// Whether a row is another with what a scan finds replaced; that it is
/// followed, tagged or linked is kept.
pub open spec fn rescanned(before: SeriesRow, after: SeriesRow, s: Series) -> bool {
    &&& after == (SeriesRow {
        slug: after.slug,
        title: after.title,
        url: after.url,
        cover_url: after.cover_url,
        is_airing: s.is_airing,
        next_episode_at: s.next_episode_at,
        site_episode_count: s.site_episode_count,
        ..before
    })
    &&& after.slug@ == s.slug@
    &&& after.title@ == s.title@
    &&& after.url@ == s.url@
    &&& opt_text(after.cover_url) == opt_text(s.cover_url)
}

/// Whether a row is that of a series that a scan has found for the first time.
pub open spec fn newly_stored(row: SeriesRow, id: int, source_id: i64, s: Series) -> bool {
    &&& row.id == id
    &&& row.source_id == source_id
    &&& rescanned(row, row, s)
    &&& !row.followed
    &&& row.backlog_status is None
    &&& row.kind is None
    &&& row.anilist_id is None
    &&& !row.watched_externally
    &&& row.carried_seen_number is None
    &&& row.last_checked_at is None
}

impl SeriesRow {
    /// A copy of the row.
    pub fn copy(&self) -> (r: SeriesRow)
        ensures
            r == *self,
    {
        SeriesRow {
            id: self.id,
            source_id: self.source_id,
            slug: self.slug.clone(),
            title: self.title.clone(),
            url: self.url.clone(),
            cover_url: copy_text(&self.cover_url),
            is_airing: self.is_airing,
            followed: self.followed,
            next_episode_at: self.next_episode_at,
            site_episode_count: self.site_episode_count,
            backlog_status: copy_text(&self.backlog_status),
            kind: copy_text(&self.kind),
            anilist_id: self.anilist_id,
            watched_externally: self.watched_externally,
            carried_seen_number: self.carried_seen_number,
            last_checked_at: self.last_checked_at,
        }
    }

    /// Whether the stored slug counts as that of a placeholder.
    fn is_stored_placeholder(&self) -> (r: bool)
        ensures
            r == stored_placeholder(self.slug@),
    {
        let slug = fold_chars(&chars_of(self.slug.as_str()));
        assert(slug@.skip(0) =~= slug@);
        stands_at(&slug, 0, &chars_of("anilist-"))
    }
}

impl Db {
    /// The place of the series with an id.
    pub fn find_series(&self, id: i64) -> (r: Option<usize>)
        ensures
            r is None ==> series_at(self.series@, id) is None && forall|k: int|
                0 <= k < self.series@.len() ==> (#[trigger] self.series@[k]).id != id,
            r matches Some(i) ==> i < self.series@.len() && self.series@[i as int].id == id
                && series_at(self.series@, id) == Some(self.series@[i as int]),
    {
        let mut i: usize = 0;
        while i < self.series.len()
            invariant
                i <= self.series@.len(),
                forall|k: int| 0 <= k < i ==> !with_id(id)(#[trigger] self.series@[k]),
            decreases self.series@.len() - i,
        {
            if self.series[i].id == id {
                proof {
                    lemma_first_where_at(self.series@, with_id(id), i as int);
                }
                return Some(i);
            }
            i += 1;
        }
        proof {
            lemma_first_where_none(self.series@, with_id(id));
            assert forall|k: int| 0 <= k < self.series@.len() implies (#[trigger] self.series@[k]).id
                != id by {
                assert(!with_id(id)(self.series@[k]));
            }
        }
        None
    }

    /// The place of the stored series that a scanned one is.
    fn find_known(&self, source_id: i64, s: &Series) -> (r: Option<usize>)
        ensures
            r is None <==> known_series(self.series@, source_id, *s) is None,
            r is None ==> forall|k: int|
                0 <= k < self.series@.len() ==> !slugged(source_id, s.slug@)(
                    #[trigger] self.series@[k],
                ),
            r matches Some(i) ==> {
                &&& i < self.series@.len()
                &&& known_series(self.series@, source_id, *s) == Some(self.series@[i as int])
                &&& self.series@[i as int].source_id == source_id
                &&& self.series@[i as int].slug@ == s.slug@ || forall|k: int|
                    0 <= k < self.series@.len() ==> !slugged(source_id, s.slug@)(
                        #[trigger] self.series@[k],
                    )
            },
    {
        let ghost rows = self.series@;
        let ghost hit = slugged(source_id, s.slug@);
        let mut i: usize = 0;
        while i < self.series.len()
            invariant
                i <= self.series@.len(),
                rows == self.series@,
                hit == slugged(source_id, s.slug@),
                forall|k: int| 0 <= k < i ==> !hit(#[trigger] rows[k]),
            decreases self.series@.len() - i,
        {
            if self.series[i].source_id == source_id && same_text(
                self.series[i].slug.as_str(),
                s.slug.as_str(),
            ) {
                proof {
                    lemma_first_where_at(rows, hit, i as int);
                }
                return Some(i);
            }
            i += 1;
        }
        proof {
            lemma_first_where_none(rows, hit);
        }
        if text_starts_with(s.slug.as_str(), "anilist-") {
            return None;
        }
        let norm = normalize_title(s.title.as_str());
        let ghost same = titled(source_id, normalized(s.title@));
        let mut j: usize = 0;
        while j < self.series.len()
            invariant
                j <= self.series@.len(),
                rows == self.series@,
                norm@ == normalized(s.title@),
                same == titled(source_id, normalized(s.title@)),
                forall|k: int| 0 <= k < j ==> !same(#[trigger] rows[k]),
                forall|k: int| 0 <= k < rows.len() ==> !hit(#[trigger] rows[k]),
                first_where(rows, hit) is None,
                hit == slugged(source_id, s.slug@),
                !placeholder(s.slug@),
            decreases self.series@.len() - j,
        {
            if self.series[j].source_id == source_id && !self.series[j].is_stored_placeholder()
                && same_text(
                normalize_title(self.series[j].title.as_str()).as_str(),
                norm.as_str(),
            ) {
                proof {
                    lemma_first_where_at(rows, same, j as int);
                }
                return Some(j);
            }
            j += 1;
        }
        proof {
            lemma_first_where_none(rows, same);
        }
        None
    }

    /// Stores what a scan found of a series and returns its id. A known series
    /// is brought up to date in place and stays followed, tagged and linked; any
    /// other becomes a new row.
    pub fn upsert_series(&mut self, source_id: i64, s: &Series) -> (r: Result<i64, DbError>)
        requires
            old(self).well_formed(),
        ensures
            final(self).well_formed(),
            only_series(*old(self), *final(self)),
            series_upserted(*old(self), *final(self), source_id, *s, r),
    {
        let ghost rows = self.series@;
        let known = self.find_known(source_id, s);
        match known {
            Some(i) => {
                let id: i64 = self.series[i].id;
                self.series[i].slug = s.slug.clone();
                self.series[i].title = s.title.clone();
                self.series[i].url = s.url.clone();
                self.series[i].cover_url = copy_text(&s.cover_url);
                self.series[i].is_airing = s.is_airing;
                self.series[i].next_episode_at = s.next_episode_at;
                self.series[i].site_episode_count = s.site_episode_count;
                proof {
                    let now = self.series@;
                    assert(now =~= rows.update(i as int, now[i as int]));
                    assert forall|k: int| 0 <= k < rows.len() && k != i implies #[trigger] rows[k].id
                        != id by {
                        if k < i {
                            assert(rows[k].id < rows[i as int].id);
                        } else {
                            assert(rows[i as int].id < rows[k].id);
                        }
                    }
                    assert forall|k: int| 0 <= k < rows.len() && k != i implies
                        #[trigger] rows[k].source_id != source_id || rows[k].slug@ != s.slug@ by {
                        if rows[i as int].slug@ == s.slug@ {
                            if k < i {
                                assert(rows[k].source_id != rows[i as int].source_id
                                    || rows[k].slug@ != rows[i as int].slug@);
                            } else {
                                assert(rows[i as int].source_id != rows[k].source_id
                                    || rows[i as int].slug@ != rows[k].slug@);
                            }
                        } else {
                            assert(!slugged(source_id, s.slug@)(rows[k]));
                        }
                    }
                }
                Ok(id)
            },
            None => {
                let id: i64 = match self.fresh_series_id() {
                    Some(id) => id,
                    None => {
                        return Err(DbError::Full);
                    },
                };
                self.series.push(
                    SeriesRow {
                        id,
                        source_id,
                        slug: s.slug.clone(),
                        title: s.title.clone(),
                        url: s.url.clone(),
                        cover_url: copy_text(&s.cover_url),
                        is_airing: s.is_airing,
                        followed: false,
                        next_episode_at: s.next_episode_at,
                        site_episode_count: s.site_episode_count,
                        backlog_status: None,
                        kind: None,
                        anilist_id: None,
                        watched_externally: false,
                        carried_seen_number: None,
                        last_checked_at: None,
                    },
                );
                proof {
                    assert(self.series@.drop_last() =~= rows);
                    assert forall|k: int| 0 <= k < rows.len() implies #[trigger] rows[k].source_id
                        != source_id || rows[k].slug@ != s.slug@ by {
                        assert(!slugged(source_id, s.slug@)(rows[k]));
                    }
                }
                Ok(id)
            },
        }
    }

    /// The id that a new series gets; `None` when none is left.
    fn fresh_series_id(&self) -> (r: Option<i64>)
        requires
            series_keyed(self.series@),
        ensures
            r is None <==> next_series_id(self.series@) > i64::MAX,
            r matches Some(id) ==> id == next_series_id(self.series@) && id >= 1 && forall|k: int|
                0 <= k < self.series@.len() ==> (#[trigger] self.series@[k]).id < id,
    {
        let ghost ids = self.series@.map_values(|s: SeriesRow| s.id as int);
        proof {
            crate::rows::law_max_of(ids);
            assert forall|k: int| 0 <= k < self.series@.len() implies ids[k]
                == (#[trigger] self.series@[k]).id by {}
        }
        let n: usize = self.series.len();
        if n == 0 {
            return Some(1);
        }
        let top: i64 = self.series[n - 1].id;
        proof {
            let m = max_of(ids)->0;
            let k = choose|k: int| 0 <= k < ids.len() && ids[k] == m;
            assert(ids[n - 1] <= m);
            if k < n - 1 {
                assert(self.series@[k].id < self.series@[n - 1].id);
            }
        }
        if top == i64::MAX {
            None
        } else {
            Some(top + 1)
        }
    }
}

/// Changing one row, but not its keys, keeps the table keyed and leaves every
/// row with another id alone.
pub proof fn lemma_one_changed(before: Seq<SeriesRow>, after: Seq<SeriesRow>, i: int)
    requires
        series_keyed(before),
        0 <= i < before.len(),
        after.len() == before.len(),
        forall|k: int| 0 <= k < before.len() && k != i ==> #[trigger] after[k] == before[k],
        after[i].id == before[i].id,
        after[i].source_id == before[i].source_id,
        after[i].slug@ == before[i].slug@,
    ensures
        series_keyed(after),
        forall|k: int|
            0 <= k < before.len() && k != i ==> (#[trigger] before[k]).id != before[i].id,
{
    assert forall|k: int| 0 <= k < before.len() && k != i implies (#[trigger] before[k]).id
        != before[i].id by {
        if k < i {
            assert(before[k].id < before[i].id);
        } else {
            assert(before[i].id < before[k].id);
        }
    }
    assert forall|k: int| 0 <= k < before.len() implies (#[trigger] after[k]).id == before[k].id
        && after[k].source_id == before[k].source_id && after[k].slug@ == before[k].slug@ by {}
    assert forall|j: int, k: int| 0 <= j < k < after.len() implies #[trigger] after[j].id
        < #[trigger] after[k].id by {
        assert(before[j].id < before[k].id);
    }
    assert forall|j: int, k: int| 0 <= j < k < after.len() implies #[trigger] after[j].source_id
        != #[trigger] after[k].source_id || after[j].slug@ != after[k].slug@ by {
        assert(before[j].source_id != before[k].source_id || before[j].slug@ != before[k].slug@);
    }
    assert forall|k: int| 0 <= k < after.len() implies (#[trigger] after[k]).id >= 1 by {
        assert(before[k].id >= 1);
    }
}

/// Whether a series was taken over from a scan: a known one is brought up to date,
/// and a new one comes last, with a new id.
pub open spec fn series_upserted(
    before: Db,
    after: Db,
    source_id: i64,
    s: Series,
    r: Result<i64, DbError>,
) -> bool {
    let id = next_series_id(before.series@);
    match known_series(before.series@, source_id, s) {
        Some(row) => r == Ok::<i64, DbError>(row.id) && updated(
            before.series@,
            after.series@,
            with_id(row.id),
            |a: SeriesRow, b: SeriesRow| rescanned(a, b, s),
        ),
        None => if id > i64::MAX {
            r == Err::<i64, DbError>(DbError::Full) && after == before
        } else {
            &&& r is Ok
            &&& r->Ok_0 == id
            &&& after.series@.len() == before.series@.len() + 1
            &&& after.series@.drop_last() == before.series@
            &&& newly_stored(after.series@.last(), id, source_id, s)
        },
    }
}

/// The change that follows a series or stops following it.
pub open spec fn followed_as(followed: bool) -> spec_fn(SeriesRow, SeriesRow) -> bool {
    |a: SeriesRow, b: SeriesRow| b == (SeriesRow { followed, ..a })
}

/// The change that sets or clears the flag that a series was watched elsewhere.
pub open spec fn watched_as(watched: bool) -> spec_fn(SeriesRow, SeriesRow) -> bool {
    |a: SeriesRow, b: SeriesRow| b == (SeriesRow { watched_externally: watched, ..a })
}

/// The change that tags a series or takes its tag away.
pub open spec fn tagged_as(status: Option<Seq<char>>) -> spec_fn(SeriesRow, SeriesRow) -> bool {
    |a: SeriesRow, b: SeriesRow|
        b == (SeriesRow { backlog_status: b.backlog_status, ..a }) && opt_text(b.backlog_status)
            == status
}

/// The condition of being the series with an id and not followed.
pub open spec fn unfollowed_with_id(id: i64) -> spec_fn(SeriesRow) -> bool {
    |s: SeriesRow| s.id == id && !s.followed
}

/// The change that carries a follow over with the highest episode seen.
pub open spec fn carried_as(watermark: i64) -> spec_fn(SeriesRow, SeriesRow) -> bool {
    |a: SeriesRow, b: SeriesRow|
        b == (SeriesRow { followed: true, carried_seen_number: Some(watermark), ..a })
}

/// The change that takes the number that was carried over.
pub open spec fn carried_taken() -> spec_fn(SeriesRow, SeriesRow) -> bool {
    |a: SeriesRow, b: SeriesRow| b == (SeriesRow { carried_seen_number: None, ..a })
}

/// A number that was carried over is applied once: it is there to be taken, and
/// gone when it has been.
pub proof fn law_carried_once(
    before: Seq<SeriesRow>,
    during: Seq<SeriesRow>,
    after: Seq<SeriesRow>,
    id: i64,
    watermark: i64,
)
    requires
        series_keyed(before),
        series_at(before, id) matches Some(s) && !s.followed,
        updated(before, during, unfollowed_with_id(id), carried_as(watermark)),
        updated(during, after, with_id(id), carried_taken()),
    ensures
        series_at(during, id) matches Some(s) && s.followed && s.carried_seen_number == Some(
            watermark,
        ),
        series_at(after, id) matches Some(s) && s.followed && s.carried_seen_number is None,
{
    let hit = with_id(id);
    if forall|k: int| 0 <= k < before.len() ==> !hit(#[trigger] before[k]) {
        lemma_first_where_none(before, hit);
    }
    let i = choose|i: int| 0 <= i < before.len() && hit(#[trigger] before[i]);
    assert forall|k: int| 0 <= k < before.len() && k != i implies (#[trigger] before[k]).id
        != id by {
        if k < i {
            assert(before[k].id < before[i].id);
        } else {
            assert(before[i].id < before[k].id);
        }
    }
    lemma_first_where_at(before, hit, i);
    assert(carried_as(watermark)(before[i], during[i]));
    assert forall|k: int| 0 <= k < i implies !hit(#[trigger] during[k]) by {
        assert(before[k].id != id);
    }
    lemma_first_where_at(during, hit, i);
    assert(carried_taken()(during[i], after[i]));
    assert forall|k: int| 0 <= k < i implies !hit(#[trigger] after[k]) by {
        assert(!hit(during[k]));
    }
    lemma_first_where_at(after, hit, i);
}

/// Following is reversible: whatever it is changed to, changing it back to what
/// it was leaves everything as it was.
pub proof fn law_follow_reversible(
    before: Seq<SeriesRow>,
    during: Seq<SeriesRow>,
    after: Seq<SeriesRow>,
    id: i64,
    was: bool,
    changed: bool,
)
    requires
        forall|k: int|
            0 <= k < before.len() && (#[trigger] before[k]).id == id ==> before[k].followed == was,
        updated(before, during, with_id(id), followed_as(changed)),
        updated(during, after, with_id(id), followed_as(was)),
    ensures
        after == before,
{
    assert forall|k: int| 0 <= k < before.len() implies #[trigger] after[k] == before[k] by {
        assert(with_id(id)(before[k]) ==> followed_as(changed)(before[k], during[k]));
        assert(with_id(id)(during[k]) ==> followed_as(was)(during[k], after[k]));
    }
    assert(after =~= before);
}

/// Marking a series as watched elsewhere is reversible: whatever it is changed
/// to, changing it back to what it was leaves everything as it was.
pub proof fn law_watched_reversible(
    before: Seq<SeriesRow>,
    during: Seq<SeriesRow>,
    after: Seq<SeriesRow>,
    id: i64,
    was: bool,
    changed: bool,
)
    requires
        forall|k: int|
            0 <= k < before.len() && (#[trigger] before[k]).id == id
                ==> before[k].watched_externally == was,
        updated(before, during, with_id(id), watched_as(changed)),
        updated(during, after, with_id(id), watched_as(was)),
    ensures
        after == before,
{
    assert forall|k: int| 0 <= k < before.len() implies #[trigger] after[k] == before[k] by {
        assert(with_id(id)(before[k]) ==> watched_as(changed)(before[k], during[k]));
        assert(with_id(id)(during[k]) ==> watched_as(was)(during[k], after[k]));
    }
    assert(after =~= before);
}

/// Tagging a series is reversible: whatever tag it gets or loses, giving it back
/// what it had leaves every tag, and all else, as it was.
pub proof fn law_tag_reversible(
    before: Seq<SeriesRow>,
    during: Seq<SeriesRow>,
    after: Seq<SeriesRow>,
    id: i64,
    was: Option<Seq<char>>,
    changed: Option<Seq<char>>,
)
    requires
        forall|k: int|
            0 <= k < before.len() && (#[trigger] before[k]).id == id
                ==> opt_text(before[k].backlog_status) == was,
        updated(before, during, with_id(id), tagged_as(changed)),
        updated(during, after, with_id(id), tagged_as(was)),
    ensures
        after.len() == before.len(),
        forall|k: int|
            0 <= k < before.len() ==> opt_text((#[trigger] after[k]).backlog_status) == opt_text(
                before[k].backlog_status,
            ) && after[k] == (SeriesRow { backlog_status: after[k].backlog_status, ..before[k] }),
{
    assert forall|k: int| 0 <= k < before.len() implies opt_text(
        (#[trigger] after[k]).backlog_status,
    ) == opt_text(before[k].backlog_status) && after[k] == (SeriesRow {
        backlog_status: after[k].backlog_status,
        ..before[k]
    }) by {
        assert(with_id(id)(before[k]) ==> tagged_as(changed)(before[k], during[k]));
        assert(with_id(id)(during[k]) ==> tagged_as(was)(during[k], after[k]));
    }
}

impl Db {
    /// Follows a series or stops following it.
    pub fn set_followed(&mut self, series_id: i64, followed: bool) -> (r: Result<(), DbError>)
        requires
            old(self).well_formed(),
        ensures
            r is Ok,
            final(self).well_formed(),
            only_series(*old(self), *final(self)),
            updated(
                old(self).series@,
                final(self).series@,
                with_id(series_id),
                followed_as(followed),
            ),
    {
        if let Some(i) = self.find_series(series_id) {
            self.series[i].followed = followed;
            proof {
                lemma_one_changed(old(self).series@, self.series@, i as int);
            }
        }
        Ok(())
    }

    /// Sets or clears the flag that a series was watched elsewhere.
    pub fn set_watched_externally(&mut self, series_id: i64, watched: bool) -> (r: Result<(), DbError>)
        requires
            old(self).well_formed(),
        ensures
            r is Ok,
            final(self).well_formed(),
            only_series(*old(self), *final(self)),
            updated(
                old(self).series@,
                final(self).series@,
                with_id(series_id),
                watched_as(watched),
            ),
    {
        if let Some(i) = self.find_series(series_id) {
            self.series[i].watched_externally = watched;
            proof {
                lemma_one_changed(old(self).series@, self.series@, i as int);
            }
        }
        Ok(())
    }

    /// Links a series to a catalog entry.
    pub fn set_anilist_id(&mut self, series_id: i64, anilist_id: i64) -> (r: Result<(), DbError>)
        requires
            old(self).well_formed(),
        ensures
            r is Ok,
            final(self).well_formed(),
            only_series(*old(self), *final(self)),
            updated(
                old(self).series@,
                final(self).series@,
                with_id(series_id),
                |a: SeriesRow, b: SeriesRow| b == (SeriesRow { anilist_id: Some(anilist_id), ..a }),
            ),
    {
        if let Some(i) = self.find_series(series_id) {
            self.series[i].anilist_id = Some(anilist_id);
            proof {
                lemma_one_changed(old(self).series@, self.series@, i as int);
            }
        }
        Ok(())
    }

    /// Records that a series' episodes were fetched at the Unix time `now`.
    pub fn set_last_checked_at(&mut self, series_id: i64, now: i64) -> (r: Result<(), DbError>)
        requires
            old(self).well_formed(),
        ensures
            r is Ok,
            final(self).well_formed(),
            only_series(*old(self), *final(self)),
            updated(
                old(self).series@,
                final(self).series@,
                with_id(series_id),
                |a: SeriesRow, b: SeriesRow| b == (SeriesRow { last_checked_at: Some(now), ..a }),
            ),
    {
        if let Some(i) = self.find_series(series_id) {
            self.series[i].last_checked_at = Some(now);
            proof {
                lemma_one_changed(old(self).series@, self.series@, i as int);
            }
        }
        Ok(())
    }

    /// Changes the address of a series.
    pub fn update_series_url(&mut self, series_id: i64, url: &str) -> (r: Result<(), DbError>)
        requires
            old(self).well_formed(),
        ensures
            r is Ok,
            final(self).well_formed(),
            only_series(*old(self), *final(self)),
            updated(
                old(self).series@,
                final(self).series@,
                with_id(series_id),
                |a: SeriesRow, b: SeriesRow| b == (SeriesRow { url: b.url, ..a }) && b.url@ == url@,
            ),
    {
        if let Some(i) = self.find_series(series_id) {
            self.series[i].url = url.to_owned();
            proof {
                lemma_one_changed(old(self).series@, self.series@, i as int);
            }
        }
        Ok(())
    }

    /// Changes the cover of a series.
    pub fn update_series_cover(&mut self, series_id: i64, cover_url: &str) -> (r: Result<(), DbError>)
        requires
            old(self).well_formed(),
        ensures
            r is Ok,
            final(self).well_formed(),
            only_series(*old(self), *final(self)),
            updated(
                old(self).series@,
                final(self).series@,
                with_id(series_id),
                |a: SeriesRow, b: SeriesRow|
                    b == (SeriesRow { cover_url: b.cover_url, ..a }) && opt_text(b.cover_url)
                        == Some(cover_url@),
            ),
    {
        if let Some(i) = self.find_series(series_id) {
            self.series[i].cover_url = Some(cover_url.to_owned());
            proof {
                lemma_one_changed(old(self).series@, self.series@, i as int);
            }
        }
        Ok(())
    }

    /// Tags a series as wanted or discarded, or takes the tag away.
    pub fn set_backlog_status(&mut self, series_id: i64, status: Option<&str>) -> (r: Result<
        (),
        DbError,
    >)
        requires
            old(self).well_formed(),
        ensures
            r is Ok,
            final(self).well_formed(),
            only_series(*old(self), *final(self)),
            updated(
                old(self).series@,
                final(self).series@,
                with_id(series_id),
                tagged_as(opt_str(status)),
            ),
    {
        if let Some(i) = self.find_series(series_id) {
            self.series[i].backlog_status = own_text(status);
            proof {
                lemma_one_changed(old(self).series@, self.series@, i as int);
            }
        }
        Ok(())
    }

    /// Sets the kind of a series.
    pub fn set_kind(&mut self, series_id: i64, kind: &str) -> (r: Result<(), DbError>)
        requires
            old(self).well_formed(),
        ensures
            r is Ok,
            final(self).well_formed(),
            only_series(*old(self), *final(self)),
            updated(
                old(self).series@,
                final(self).series@,
                with_id(series_id),
                |a: SeriesRow, b: SeriesRow|
                    b == (SeriesRow { kind: b.kind, ..a }) && opt_text(b.kind) == Some(kind@),
            ),
    {
        if let Some(i) = self.find_series(series_id) {
            self.series[i].kind = Some(kind.to_owned());
            proof {
                lemma_one_changed(old(self).series@, self.series@, i as int);
            }
        }
        Ok(())
    }
}

/// What linking needs of a series.
pub open spec fn for_link(s: SeriesRow) -> SeriesForLink {
    SeriesForLink {
        id: s.id,
        source_id: s.source_id,
        slug: s.slug,
        anilist_id: s.anilist_id,
        followed: s.followed,
        backlog_status: s.backlog_status,
        watched_externally: s.watched_externally,
    }
}

/// What the swipe history shows of a series.
pub open spec fn for_history(s: SeriesRow) -> SwipeHistoryRow {
    SwipeHistoryRow {
        title: s.title,
        poster_url: s.cover_url,
        backlog_status: s.backlog_status,
        watched_externally: s.watched_externally,
        url: s.url,
    }
}

/// The condition of being another series of a site with a slug.
pub open spec fn other_slugged(
    source_id: i64,
    slug: Seq<char>,
    exclude_id: i64,
) -> spec_fn(SeriesRow) -> bool {
    |s: SeriesRow| s.source_id == source_id && s.slug@ == slug && s.id != exclude_id
}

/// Whether giving a series a slug would give two series of its site the same.
pub open spec fn slug_clash(series: Seq<SeriesRow>, id: i64, slug: Seq<char>) -> bool {
    match series_at(series, id) {
        Some(row) => exists|k: int|
            0 <= k < series.len() && (#[trigger] series[k]).id != id && series[k].source_id
                == row.source_id && series[k].slug@ == slug,
        None => false,
    }
}

/// Whether a row is another that has been given the site's own data.
pub open spec fn relinked(
    before: SeriesRow,
    after: SeriesRow,
    slug: Seq<char>,
    url: Seq<char>,
    cover_url: Option<Seq<char>>,
    kind: Seq<char>,
) -> bool {
    &&& after == (SeriesRow {
        slug: after.slug,
        url: after.url,
        cover_url: after.cover_url,
        kind: after.kind,
        ..before
    })
    &&& after.slug@ == slug
    &&& after.url@ == url
    &&& opt_text(after.cover_url) == cover_url
    &&& opt_text(after.kind) == Some(kind)
}

impl Db {
    /// The address of a series.
    pub fn get_series_url(&self, series_id: i64) -> (r: Result<Option<String>, DbError>)
        ensures
            r == Ok::<Option<String>, DbError>(
                match series_at(self.series@, series_id) {
                    Some(s) => Some(s.url),
                    None => None,
                },
            ),
    {
        match self.find_series(series_id) {
            Some(i) => Ok(Some(self.series[i].url.clone())),
            None => Ok(None),
        }
    }

    /// What linking needs of a series; `None` when there is no such series.
    pub fn get_series_for_link(&self, series_id: i64) -> (r: Result<Option<SeriesForLink>, DbError>)
        ensures
            r == Ok::<Option<SeriesForLink>, DbError>(
                match series_at(self.series@, series_id) {
                    Some(s) => Some(for_link(s)),
                    None => None,
                },
            ),
    {
        match self.find_series(series_id) {
            Some(i) => {
                let s = &self.series[i];
                Ok(
                    Some(
                        SeriesForLink {
                            id: s.id,
                            source_id: s.source_id,
                            slug: s.slug.clone(),
                            anilist_id: s.anilist_id,
                            followed: s.followed,
                            backlog_status: copy_text(&s.backlog_status),
                            watched_externally: s.watched_externally,
                        },
                    ),
                )
            },
            None => Ok(None),
        }
    }

    /// What the swipe history shows of a series; `None` when it has been
    /// deleted.
    pub fn get_series_for_history(&self, series_id: i64) -> (r: Result<
        Option<SwipeHistoryRow>,
        DbError,
    >)
        ensures
            r == Ok::<Option<SwipeHistoryRow>, DbError>(
                match series_at(self.series@, series_id) {
                    Some(s) => Some(for_history(s)),
                    None => None,
                },
            ),
    {
        match self.find_series(series_id) {
            Some(i) => {
                let s = &self.series[i];
                Ok(
                    Some(
                        SwipeHistoryRow {
                            title: s.title.clone(),
                            poster_url: copy_text(&s.cover_url),
                            backlog_status: copy_text(&s.backlog_status),
                            watched_externally: s.watched_externally,
                            url: s.url.clone(),
                        },
                    ),
                )
            },
            None => Ok(None),
        }
    }

    /// The tag of a series.
    pub fn get_backlog_status(&self, series_id: i64) -> (r: Result<Option<String>, DbError>)
        ensures
            r == match series_at(self.series@, series_id) {
                Some(s) => Ok::<Option<String>, DbError>(s.backlog_status),
                None => Err::<Option<String>, DbError>(DbError::NoSuchRow),
            },
    {
        match self.find_series(series_id) {
            Some(i) => Ok(copy_text(&self.series[i].backlog_status)),
            None => Err(DbError::NoSuchRow),
        }
    }

    /// How many seconds before the Unix time `now` the series' episodes were
    /// fetched; `None` if they never were.
    pub fn last_checked_age_secs(&self, series_id: i64, now: i64) -> (r: Result<
        Option<i64>,
        DbError,
    >)
        requires
            series_at(self.series@, series_id) matches Some(s) ==> (s.last_checked_at matches Some(
                t,
            ) ==> i64::MIN <= now - t <= i64::MAX),
        ensures
            match series_at(self.series@, series_id) {
                Some(s) => r is Ok && (r->Ok_0 is Some <==> s.last_checked_at is Some) && (
                s.last_checked_at matches Some(t) ==> r->Ok_0->0 == now - t),
                None => r == Err::<Option<i64>, DbError>(DbError::NoSuchRow),
            },
    {
        match self.find_series(series_id) {
            Some(i) => match self.series[i].last_checked_at {
                Some(t) => Ok(Some(now - t)),
                None => Ok(None),
            },
            None => Err(DbError::NoSuchRow),
        }
    }

    /// The id of another series of a site that already has a slug.
    pub fn find_series_id_by_slug(
        &self,
        source_id: i64,
        slug: &str,
        exclude_id: i64,
    ) -> (r: Result<Option<i64>, DbError>)
        ensures
            r == Ok::<Option<i64>, DbError>(
                match first_where(self.series@, other_slugged(source_id, slug@, exclude_id)) {
                    Some(s) => Some(s.id),
                    None => None,
                },
            ),
    {
        let ghost hit = other_slugged(source_id, slug@, exclude_id);
        let mut i: usize = 0;
        while i < self.series.len()
            invariant
                i <= self.series@.len(),
                hit == other_slugged(source_id, slug@, exclude_id),
                forall|k: int| 0 <= k < i ==> !hit(#[trigger] self.series@[k]),
            decreases self.series@.len() - i,
        {
            if self.series[i].source_id == source_id && self.series[i].id != exclude_id
                && same_text(self.series[i].slug.as_str(), slug) {
                proof {
                    lemma_first_where_at(self.series@, hit, i as int);
                }
                return Ok(Some(self.series[i].id));
            }
            i += 1;
        }
        proof {
            lemma_first_where_none(self.series@, hit);
        }
        Ok(None)
    }

    /// Gives a placeholder the site's own slug, address, cover and kind. What
    /// was decided on it is kept. Refused when the site's slug is taken.
    pub fn relink_series(
        &mut self,
        series_id: i64,
        slug: &str,
        url: &str,
        cover_url: Option<&str>,
        kind: &str,
    ) -> (r: Result<(), DbError>)
        requires
            old(self).well_formed(),
        ensures
            final(self).well_formed(),
            only_series(*old(self), *final(self)),
            r is Ok <==> !slug_clash(old(self).series@, series_id, slug@),
            r matches Err(e) ==> e == DbError::Conflict && *final(self) == *old(self),
            r is Ok ==> updated(
                old(self).series@,
                final(self).series@,
                with_id(series_id),
                |a: SeriesRow, b: SeriesRow|
                    relinked(a, b, slug@, url@, opt_str(cover_url), kind@),
            ),
    {
        let i: usize = match self.find_series(series_id) {
            Some(i) => i,
            None => {
                return Ok(());
            },
        };
        let ghost rows = self.series@;
        let taken = self.find_series_id_by_slug(self.series[i].source_id, slug, series_id);
        proof {
            let hit = other_slugged(rows[i as int].source_id, slug@, series_id);
            lemma_first_where_none(rows, hit);
            assert forall|k: int| 0 <= k < rows.len() implies hit(#[trigger] rows[k]) == (
            rows[k].id != series_id && rows[k].source_id == rows[i as int].source_id
                && rows[k].slug@ == slug@) by {}
        }
        if let Ok(Some(_)) = taken {
            return Err(DbError::Conflict);
        }
        self.series[i].slug = slug.to_owned();
        self.series[i].url = url.to_owned();
        self.series[i].cover_url = own_text(cover_url);
        self.series[i].kind = Some(kind.to_owned());
        proof {
            let hit = other_slugged(rows[i as int].source_id, slug@, series_id);
            let now = self.series@;
            assert(now =~= rows.update(i as int, now[i as int]));
            assert forall|k: int| 0 <= k < rows.len() && k != i implies (#[trigger] rows[k]).id
                != series_id by {
                if k < i {
                    assert(rows[k].id < rows[i as int].id);
                } else {
                    assert(rows[i as int].id < rows[k].id);
                }
            }
            assert forall|k: int| 0 <= k < rows.len() && k != i implies #[trigger] rows[k].source_id
                != rows[i as int].source_id || rows[k].slug@ != slug@ by {
                assert(!hit(rows[k]));
            }
        }
        Ok(())
    }

    /// Follows a series because it was followed on another site, and keeps the
    /// highest episode seen there until it is applied. A series that is already
    /// followed is left alone. Whether the series was carried over.
    pub fn carry_follow(&mut self, series_id: i64, watermark: i64) -> (r: Result<bool, DbError>)
        requires
            old(self).well_formed(),
        ensures
            final(self).well_formed(),
            only_series(*old(self), *final(self)),
            r == Ok::<bool, DbError>(
                (series_at(old(self).series@, series_id) matches Some(s) && !s.followed),
            ),
            updated(
                old(self).series@,
                final(self).series@,
                unfollowed_with_id(series_id),
                carried_as(watermark),
            ),
    {
        if let Some(i) = self.find_series(series_id) {
            if !self.series[i].followed {
                self.series[i].followed = true;
                self.series[i].carried_seen_number = Some(watermark);
                proof {
                    lemma_one_changed(old(self).series@, self.series@, i as int);
                }
                return Ok(true);
            }
            proof {
                lemma_one_changed(old(self).series@, self.series@, i as int);
            }
        }
        Ok(false)
    }

    /// Takes the number that was carried over with a follow: it is returned
    /// once.
    pub fn take_carried_seen_number(&mut self, series_id: i64) -> (r: Result<Option<i64>, DbError>)
        requires
            old(self).well_formed(),
        ensures
            final(self).well_formed(),
            only_series(*old(self), *final(self)),
            r == match series_at(old(self).series@, series_id) {
                Some(s) => Ok::<Option<i64>, DbError>(s.carried_seen_number),
                None => Err::<Option<i64>, DbError>(DbError::NoSuchRow),
            },
            updated(
                old(self).series@,
                final(self).series@,
                with_id(series_id),
                carried_taken(),
            ),
    {
        match self.find_series(series_id) {
            Some(i) => {
                let v: Option<i64> = self.series[i].carried_seen_number;
                self.series[i].carried_seen_number = None;
                proof {
                    lemma_one_changed(old(self).series@, self.series@, i as int);
                }
                Ok(v)
            },
            None => Err(DbError::NoSuchRow),
        }
    }

    /// Follows a show on every site that has it, or stops following it there.
    /// How many series that concerned.
    pub fn set_followed_canonical(&mut self, series_id: i64, followed: bool) -> (r: Result<
        usize,
        DbError,
    >)
        requires
            old(self).well_formed(),
        ensures
            final(self).well_formed(),
            only_series(*old(self), *final(self)),
            match series_at(old(self).series@, series_id) {
                None => r == Err::<usize, DbError>(DbError::NoSuchRow) && *final(self) == *old(
                    self,
                ),
                Some(s) => {
                    &&& r is Ok
                    &&& r->Ok_0 == count_where(old(self).series@, twins(s))
                    &&& updated(
                        old(self).series@,
                        final(self).series@,
                        twins(s),
                        |a: SeriesRow, b: SeriesRow| b == (SeriesRow { followed, ..a }),
                    )
                },
            },
    {
        let at: usize = match self.find_series(series_id) {
            Some(i) => i,
            None => {
                return Err(DbError::NoSuchRow);
            },
        };
        let anilist_id: Option<i64> = self.series[at].anilist_id;
        let norm = normalize_title(self.series[at].title.as_str());
        let ghost rows = self.series@;
        let ghost target = rows[at as int];
        let mut changed: usize = 0;
        let mut i: usize = 0;
        proof {
            lemma_filter_none(rows, twins(target));
        }
        while i < self.series.len()
            invariant
                i <= self.series@.len(),
                self.series@.len() == rows.len(),
                rows == old(self).series@,
                only_series(*old(self), *self),
                anilist_id == target.anilist_id,
                norm@ == normalized(target.title@),
                changed <= i,
                changed == rows.take(i as int).filter(twins(target)).len(),
                forall|k: int|
                    0 <= k < i ==> #[trigger] self.series@[k] == if same_show(target, rows[k]) {
                        SeriesRow { followed, ..rows[k] }
                    } else {
                        rows[k]
                    },
                forall|k: int| i <= k < rows.len() ==> #[trigger] self.series@[k] == rows[k],
            decreases self.series@.len() - i,
        {
            proof {
                lemma_filter_step(rows, twins(target), i as int);
            }
            let hit: bool = match anilist_id {
                Some(id) => match self.series[i].anilist_id {
                    Some(other) => other == id,
                    None => false,
                },
                None => self.series[i].anilist_id.is_none() && same_text(
                    normalize_title(self.series[i].title.as_str()).as_str(),
                    norm.as_str(),
                ),
            };
            if hit {
                self.series[i].followed = followed;
                changed += 1;
            }
            i += 1;
        }
        proof {
            lemma_filter_none(rows, twins(target));
            let now = self.series@;
            assert forall|k: int| 0 <= k < rows.len() implies (#[trigger] now[k]).id == rows[k].id
                && now[k].source_id == rows[k].source_id && now[k].slug == rows[k].slug by {}
            lemma_same_keys(rows, now);
        }
        Ok(changed)
    }
}

/// The condition of being the same show.
pub open spec fn twins(s: SeriesRow) -> spec_fn(SeriesRow) -> bool {
    |other: SeriesRow| same_show(s, other)
}

/// A table whose rows have the same keys is keyed too.
pub proof fn lemma_same_keys(before: Seq<SeriesRow>, after: Seq<SeriesRow>)
    requires
        series_keyed(before),
        after.len() == before.len(),
        forall|k: int|
            0 <= k < before.len() ==> (#[trigger] after[k]).id == before[k].id && after[k].source_id
                == before[k].source_id && after[k].slug == before[k].slug,
    ensures
        series_keyed(after),
{
    assert forall|j: int, k: int| 0 <= j < k < after.len() implies #[trigger] after[j].id
        < #[trigger] after[k].id by {
        assert(before[j].id < before[k].id);
    }
    assert forall|j: int, k: int| 0 <= j < k < after.len() implies #[trigger] after[j].source_id
        != #[trigger] after[k].source_id || after[j].slug@ != after[k].slug@ by {
        assert(before[j].source_id != before[k].source_id || before[j].slug@ != before[k].slug@);
    }
    assert forall|k: int| 0 <= k < after.len() implies (#[trigger] after[k]).id >= 1 by {
        assert(before[k].id >= 1);
    }
}

} // verus!
