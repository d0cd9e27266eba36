//! What is airing, and what is left to watch.

use vstd::prelude::*;
use crate::db::grouping::{catalog_of, pick_rows, picked};
use crate::db::identity::{catalog_key, title_key};
use crate::db::series::series_at;
use crate::db::{copy_text, Db, DbError, EpisodeRow, SeriesRow};
use crate::matching::{dedup_key, franchise_dedup_key};
use crate::models::{Episode, Series};
use crate::rows::{
    count_where, group_rows, groups, key_views, lemma_filter_none, lemma_filter_step, lemma_groups,
    lemma_max_push, max_of, sort_rows, sorted,
};
use crate::text::{chars_of, int_text, lowercase, precedes, text_precedes};

verus! {

/// The title under which a series airs: the catalog's where it is linked.
pub open spec fn airing_title(db: Db, s: SeriesRow) -> String {
    match catalog_of(db.catalog@, s.anilist_id) {
        Some(c) => c.title,
        None => s.title,
    }
}

/// The cover under which a series airs: the catalog's where it has one.
pub open spec fn airing_cover(db: Db, s: SeriesRow) -> Option<String> {
    match catalog_of(db.catalog@, s.anilist_id) {
        Some(c) => match c.cover_url {
            Some(u) => Some(u),
            None => s.cover_url,
        },
        None => s.cover_url,
    }
}

/// The key of an airing show: the catalog id of a linked series, and otherwise
/// the title without season and spacing, under which the same show of two sites
/// collapses even when neither is linked.
pub open spec fn airing_key(db: Db, s: SeriesRow) -> Seq<char> {
    match s.anilist_id {
        Some(id) => "al:"@ + int_text(id as int),
        None => "t:"@ + dedup_key(airing_title(db, s)@),
    }
}

/// Whether a series rather than another stands for an airing show: one on the
/// active site, then a followed one, then the one with the lower id.
pub open spec fn airs_for(active: i64, a: SeriesRow, b: SeriesRow) -> bool {
    if (a.source_id == active) != (b.source_id == active) {
        a.source_id == active
    } else if a.followed != b.followed {
        a.followed
    } else {
        a.id < b.id
    }
}

/// Whether a series is the one among the members of an airing show that stands
/// for it.
pub open spec fn airing_representative(
    active: i64,
    members: Seq<SeriesRow>,
    rep: SeriesRow,
) -> bool {
    &&& members.contains(rep)
    &&& forall|k: int| 0 <= k < members.len() ==> !airs_for(active, #[trigger] members[k], rep)
}

/// The release times that are known.
pub open spec fn known_times(members: Seq<SeriesRow>) -> Seq<int> {
    members.filter(|m: SeriesRow| m.next_episode_at is Some).map_values(
        |m: SeriesRow| m.next_episode_at->0 as int,
    )
}

/// The freshest release time that any site knows.
pub open spec fn freshest(members: Seq<SeriesRow>) -> Option<int> {
    max_of(known_times(members))
}

/// Whether an entry is that of an airing show with the given members.
pub open spec fn airing_entry_of(
    entry: Series,
    db: Db,
    active: i64,
    members: Seq<SeriesRow>,
    rep: SeriesRow,
) -> bool {
    &&& airing_representative(active, members, rep)
    &&& entry == (Series {
        title: airing_title(db, rep),
        cover_url: airing_cover(db, rep),
        is_airing: true,
        followed: exists|k: int| 0 <= k < members.len() && (#[trigger] members[k]).followed,
        next_episode_at: entry.next_episode_at,
        ..rep.shown()
    })
    &&& match entry.next_episode_at {
        Some(t) => freshest(members) == Some(t as int),
        None => freshest(members) is None,
    }
}

/// Whether an entry is that of an airing show with the given members.
pub open spec fn airing_entry(entry: Series, db: Db, active: i64, members: Seq<SeriesRow>) -> bool {
    exists|rep: SeriesRow| airing_entry_of(entry, db, active, members, rep)
}

/// The condition of airing.
pub open spec fn airing() -> spec_fn(SeriesRow) -> bool {
    |s: SeriesRow| s.is_airing
}

/// The keys of airing shows.
pub open spec fn airing_keys(db: Db, rows: Seq<SeriesRow>) -> Seq<Seq<char>> {
    rows.map_values(|s: SeriesRow| airing_key(db, s))
}

/// The airing shows, each as the list of the series that it is.
pub open spec fn airing_shows(db: Db) -> Seq<Seq<SeriesRow>> {
    let rows = db.series@.filter(airing());
    groups(airing_keys(db, rows)).map_values(|g: Seq<int>| picked(rows, g))
}

/// Whether an airing entry comes before another: the later release first, those
/// without one last, and equal ones by title in lower case.
pub open spec fn airs_before(a: Series, b: Series) -> bool {
    match (a.next_episode_at, b.next_episode_at) {
        (Some(x), Some(y)) => x > y || (x == y && precedes(
            lowercase(a.title@),
            lowercase(b.title@),
        )),
        (Some(_), None) => true,
        (None, Some(_)) => false,
        (None, None) => precedes(lowercase(a.title@), lowercase(b.title@)),
    }
}

/// The order of airing entries.
pub open spec fn by_release() -> spec_fn(Series, Series) -> bool {
    |a: Series, b: Series| airs_before(a, b)
}

/// The order of airing entries is an order.
pub proof fn law_release_orders()
    ensures
        crate::rows::orders(by_release()),
{
    assert forall|a: Series, b: Series| #[trigger] by_release()(a, b) implies !by_release()(b, a) by {
        crate::text::lemma_precedes_total(lowercase(a.title@), lowercase(b.title@));
    }
    assert forall|a: Series, b: Series, c: Series|
        !(#[trigger] by_release()(b, a)) && !(#[trigger] by_release()(c, b)) implies !by_release()(
        c,
        a,
    ) by {
        crate::text::lemma_precedes_transitive(
            lowercase(a.title@),
            lowercase(b.title@),
            lowercase(c.title@),
        );
    }
}

/// Whether entries are those of the airing shows, in their order.
pub open spec fn airing_entries(
    entries: Seq<Series>,
    db: Db,
    active: i64,
    shows: Seq<Seq<SeriesRow>>,
) -> bool {
    &&& entries.len() == shows.len()
    &&& forall|g: int|
        0 <= g < shows.len() ==> #[trigger] airing_entry(entries[g], db, active, shows[g])
}

/// Whether a list is what is airing as seen from a site: an entry for every
/// show, the latest release first.
pub open spec fn airing_view(list: Seq<Series>, db: Db, active: i64) -> bool {
    exists|entries: Seq<Series>|
        #[trigger] airing_entries(entries, db, active, airing_shows(db)) && list == sorted(
            entries,
            by_release(),
        )
}

/// Whether an airing entry comes before another.
fn released_before(a: &Series, b: &Series) -> (r: bool)
    ensures
        r == airs_before(*a, *b),
{
    let x = a.title.as_str().to_lowercase();
    let y = b.title.as_str().to_lowercase();
    let titles: bool = text_precedes(&chars_of(x.as_str()), &chars_of(y.as_str()));
    match (a.next_episode_at, b.next_episode_at) {
        (Some(p), Some(q)) => if p == q { titles } else { p > q },
        (Some(_), None) => true,
        (None, Some(_)) => false,
        (None, None) => titles,
    }
}

impl Db {
    /// The title under which a series airs.
    fn shown_title(&self, s: &SeriesRow) -> (r: String)
        ensures
            r == airing_title(*self, *s),
    {
        match self.find_linked(s.anilist_id) {
            Some(i) => self.catalog[i].title.clone(),
            None => s.title.clone(),
        }
    }

    /// The cover under which a series airs.
    fn shown_cover(&self, s: &SeriesRow) -> (r: Option<String>)
        ensures
            r == airing_cover(*self, *s),
    {
        match self.find_linked(s.anilist_id) {
            Some(i) => match &self.catalog[i].cover_url {
                Some(u) => Some(u.clone()),
                None => copy_text(&s.cover_url),
            },
            None => copy_text(&s.cover_url),
        }
    }

    /// The key of an airing show.
    fn key_of_airing(&self, s: &SeriesRow) -> (r: String)
        ensures
            r@ == airing_key(*self, *s),
    {
        match s.anilist_id {
            Some(id) => catalog_key(id),
            None => title_key(franchise_dedup_key(self.shown_title(s).as_str()).as_str()),
        }
    }

    /// The entry of an airing show.
    fn entry_of_airing(&self, active: i64, members: &Vec<SeriesRow>) -> (r: Series)
        requires
            members@.len() > 0,
        ensures
            airing_entry(r, *self, active, members@),
    {
        let ghost hit = |m: SeriesRow| m.next_episode_at is Some;
        let ghost time = |m: SeriesRow| m.next_episode_at->0 as int;
        let mut followed: bool = false;
        let mut newest: Option<i64> = None;
        let mut best: usize = 0;
        let mut i: usize = 0;
        proof {
            lemma_filter_none(members@, hit);
            assert(members@.take(0).filter(hit).map_values(time) =~= Seq::empty());
        }
        while i < members.len()
            invariant
                i <= members@.len(),
                hit == (|m: SeriesRow| m.next_episode_at is Some),
                time == (|m: SeriesRow| m.next_episode_at->0 as int),
                best < members@.len(),
                i == 0 ==> best == 0,
                i > 0 ==> best < i,
                forall|k: int|
                    0 <= k < i ==> !airs_for(active, #[trigger] members@[k], members@[best as int]),
                followed == exists|k: int| 0 <= k < i && (#[trigger] members@[k]).followed,
                newest is None <==> max_of(
                    members@.take(i as int).filter(hit).map_values(time),
                ) is None,
                newest matches Some(t) ==> max_of(
                    members@.take(i as int).filter(hit).map_values(time),
                ) == Some(t as int),
            decreases members@.len() - i,
        {
            let ghost before = members@.take(i as int).filter(hit);
            let m = &members[i];
            proof {
                lemma_filter_step(members@, hit, i as int);
            }
            if let Some(t) = m.next_episode_at {
                proof {
                    lemma_max_push(before.map_values(time), t as int);
                    assert(before.push(*m).map_values(time) =~= before.map_values(time).push(
                        t as int,
                    ));
                }
                newest = match newest {
                    Some(n) => if n >= t { Some(n) } else { Some(t) },
                    None => Some(t),
                };
            }
            followed = followed || m.followed;
            let b = &members[best];
            let better: bool = if (m.source_id == active) != (b.source_id == active) {
                m.source_id == active
            } else if m.followed != b.followed {
                m.followed
            } else {
                m.id < b.id
            };
            if better {
                best = i;
            }
            i += 1;
        }
        proof {
            lemma_filter_none(members@, hit);
        }
        let rep = &members[best];
        let mut entry = rep.to_series();
        entry.title = self.shown_title(rep);
        entry.cover_url = self.shown_cover(rep);
        entry.is_airing = true;
        entry.followed = followed;
        entry.next_episode_at = newest;
        assert(airing_entry_of(entry, *self, active, members@, *rep));
        entry
    }

    /// What is airing: every show once, whatever sites it is on, the latest
    /// release first. The active site only decides which of a show's series
    /// stands for it.
    pub fn list_airing(&self, active_source_id: i64) -> (r: Result<Vec<Series>, DbError>)
        ensures
            r is Ok,
            airing_view(r->Ok_0@, *self, active_source_id),
    {
        let ghost hit = airing();
        let mut rows: Vec<SeriesRow> = Vec::new();
        let mut keys: Vec<String> = Vec::new();
        let mut i: usize = 0;
        proof {
            lemma_filter_none(self.series@, hit);
            assert(key_views(keys@) =~= airing_keys(*self, rows@));
        }
        while i < self.series.len()
            invariant
                i <= self.series@.len(),
                hit == airing(),
                rows@ == self.series@.take(i as int).filter(hit),
                key_views(keys@) == airing_keys(*self, rows@),
            decreases self.series@.len() - i,
        {
            proof {
                lemma_filter_step(self.series@, hit, i as int);
            }
            let s = &self.series[i];
            if s.is_airing {
                let key = self.key_of_airing(s);
                let ghost before = rows@;
                let ghost before_keys = keys@;
                keys.push(key);
                rows.push(s.copy());
                proof {
                    assert(airing_keys(*self, before.push(*s)) =~= airing_keys(
                        *self,
                        before,
                    ).push(airing_key(*self, *s)));
                    assert(key_views(before_keys.push(key)) =~= key_views(before_keys).push(key@));
                }
            }
            i += 1;
        }
        proof {
            lemma_filter_none(self.series@, hit);
        }
        let shows = group_rows(&keys);
        let ghost want = airing_shows(*self);
        let ghost gs = groups(airing_keys(*self, rows@));
        proof {
            lemma_groups(airing_keys(*self, rows@));
            assert(airing_keys(*self, rows@).len() == rows@.len());
        }
        let mut entries: Vec<Series> = Vec::new();
        let mut g: usize = 0;
        while g < shows.len()
            invariant
                g <= shows@.len(),
                rows@ == self.series@.filter(airing()),
                gs == groups(airing_keys(*self, rows@)),
                crate::rows::as_groups(shows@) == gs,
                want == airing_shows(*self),
                forall|h: int| 0 <= h < gs.len() ==> (#[trigger] gs[h]).len() > 0,
                forall|h: int, m: int|
                    0 <= h < gs.len() && 0 <= m < gs[h].len() ==> 0 <= #[trigger] gs[h][m]
                        < rows@.len(),
                entries@.len() == g,
                forall|h: int|
                    0 <= h < g ==> #[trigger] airing_entry(
                        entries@[h],
                        *self,
                        active_source_id,
                        want[h],
                    ),
            decreases shows@.len() - g,
        {
            proof {
                assert(gs[g as int] == crate::rows::as_groups(shows@)[g as int]);
                assert(gs[g as int].len() == shows@[g as int]@.len());
                assert forall|k: int| 0 <= k < shows@[g as int]@.len() implies
                    #[trigger] shows@[g as int]@[k] < rows@.len() by {
                    assert(gs[g as int][k] == shows@[g as int]@[k] as int);
                }
            }
            let members = pick_rows(&rows, &shows[g]);
            assert(members@ == want[g as int]);
            let entry = self.entry_of_airing(active_source_id, &members);
            entries.push(entry);
            g += 1;
        }
        assert(airing_entries(entries@, *self, active_source_id, want));
        Ok(sort_rows(entries, released_before, Ghost(by_release())))
    }
}

/// How the queue of pending episodes is ordered: by how many episodes their
/// series still has left to watch, fewest or most first.
#[derive(Debug, Clone, Copy, PartialEq, Eq, Structural)]
pub enum PendingSort {
    RemainingAsc,
    RemainingDesc,
}

/// The condition of being an unseen episode of a site's followed series.
pub open spec fn unseen_followed(series: Seq<SeriesRow>, source_id: i64) -> spec_fn(EpisodeRow) -> bool {
    |e: EpisodeRow|
        !e.seen && (series_at(series, e.series_id) matches Some(s) && s.followed && s.source_id
            == source_id)
}

/// The condition of being a pending episode: an unseen one of a site's followed
/// series that was not watched elsewhere.
pub open spec fn pending(series: Seq<SeriesRow>, source_id: i64) -> spec_fn(EpisodeRow) -> bool {
    |e: EpisodeRow|
        !e.seen && (series_at(series, e.series_id) matches Some(s) && s.followed
            && !s.watched_externally && s.source_id == source_id)
}

/// A pending episode with its series and the number of episodes that the series
/// has left.
pub struct PendingRow {
    pub series: SeriesRow,
    pub episode: EpisodeRow,
    pub remaining: i64,
}

/// Whether a row is that of a pending episode.
pub open spec fn pending_row(row: PendingRow, db: Db, source_id: i64, e: EpisodeRow) -> bool {
    &&& row.episode == e
    &&& series_at(db.series@, e.series_id) == Some(row.series)
    &&& row.remaining == count_where(
        db.episodes@.filter(pending(db.series@, source_id)),
        crate::db::episodes::of_series(e.series_id),
    )
}

/// Whether a pending episode comes before another of the queue: by how many
/// episodes their series have left, then by title and series, and within a
/// series by number.
pub open spec fn queued_before(a: PendingRow, b: PendingRow, sort: PendingSort) -> bool {
    if a.remaining != b.remaining {
        match sort {
            PendingSort::RemainingAsc => a.remaining < b.remaining,
            PendingSort::RemainingDesc => a.remaining > b.remaining,
        }
    } else if a.series.title@ != b.series.title@ {
        precedes(a.series.title@, b.series.title@)
    } else if a.series.id != b.series.id {
        a.series.id < b.series.id
    } else {
        crate::db::episodes::numbered_before(a.episode, b.episode)
    }
}

/// The order of the queue.
pub open spec fn by_queue(sort: PendingSort) -> spec_fn(PendingRow, PendingRow) -> bool {
    |a: PendingRow, b: PendingRow| queued_before(a, b, sort)
}

/// Whether rows are those of the pending episodes, in their order.
pub open spec fn pending_rows(rows: Seq<PendingRow>, db: Db, source_id: i64) -> bool {
    let waiting = db.episodes@.filter(pending(db.series@, source_id));
    &&& rows.len() == waiting.len()
    &&& forall|i: int|
        0 <= i < rows.len() ==> #[trigger] pending_row(rows[i], db, source_id, waiting[i])
}

/// Whether a list is the queue of a site's pending episodes.
pub open spec fn pending_view(
    list: Seq<(Series, Episode)>,
    db: Db,
    source_id: i64,
    sort: PendingSort,
) -> bool {
    exists|rows: Seq<PendingRow>|
        #[trigger] pending_rows(rows, db, source_id) && list == sorted(
            rows,
            by_queue(sort),
        ).map_values(|r: PendingRow| (r.series.shown(), r.episode.shown()))
}

/// Whether a pending episode comes before another where few left come first.
fn fewest_first(a: &PendingRow, b: &PendingRow) -> (r: bool)
    ensures
        r == queued_before(*a, *b, PendingSort::RemainingAsc),
{
    if a.remaining != b.remaining {
        a.remaining < b.remaining
    } else {
        tied_before(a, b)
    }
}

/// Whether a pending episode comes before another where many left come first.
fn most_first(a: &PendingRow, b: &PendingRow) -> (r: bool)
    ensures
        r == queued_before(*a, *b, PendingSort::RemainingDesc),
{
    if a.remaining != b.remaining {
        a.remaining > b.remaining
    } else {
        tied_before(a, b)
    }
}

/// Whether a pending episode comes before another of a series with as many
/// left.
fn tied_before(a: &PendingRow, b: &PendingRow) -> (r: bool)
    requires
        a.remaining == b.remaining,
    ensures
        r == queued_before(*a, *b, PendingSort::RemainingAsc),
        r == queued_before(*a, *b, PendingSort::RemainingDesc),
{
    let x = chars_of(a.series.title.as_str());
    let y = chars_of(b.series.title.as_str());
    if !crate::text::same_chars(&x, &y) {
        text_precedes(&x, &y)
    } else if a.series.id != b.series.id {
        a.series.id < b.series.id
    } else {
        crate::db::episodes::comes_before(&a.episode, &b.episode)
    }
}

/// The order of the queue is an order.
pub proof fn law_queue_orders(sort: PendingSort)
    ensures
        crate::rows::orders(by_queue(sort)),
{
    let before = by_queue(sort);
    assert forall|a: PendingRow, b: PendingRow| #[trigger] before(a, b) implies !before(b, a) by {
        crate::text::lemma_precedes_total(a.series.title@, b.series.title@);
    }
    assert forall|a: PendingRow, b: PendingRow, c: PendingRow|
        !(#[trigger] before(b, a)) && !(#[trigger] before(c, b)) implies !before(c, a) by {
        crate::text::lemma_precedes_total(a.series.title@, b.series.title@);
        crate::text::lemma_precedes_total(b.series.title@, c.series.title@);
        crate::text::lemma_precedes_total(a.series.title@, c.series.title@);
        crate::text::lemma_precedes_transitive(
            a.series.title@,
            b.series.title@,
            c.series.title@,
        );
    }
}

impl Db {
    /// How many unseen episodes a site's followed series have.
    pub fn pending_count(&self, source_id: i64) -> (r: Result<i64, DbError>)
        requires
            self.well_formed(),
        ensures
            r is Ok,
            r->Ok_0 == count_where(self.episodes@, unseen_followed(self.series@, source_id)),
    {
        let ghost hit = unseen_followed(self.series@, source_id);
        let mut n: usize = 0;
        let mut i: usize = 0;
        proof {
            lemma_filter_none(self.episodes@, hit);
        }
        while i < self.episodes.len()
            invariant
                i <= self.episodes@.len(),
                hit == unseen_followed(self.series@, source_id),
                n <= i,
                n == self.episodes@.take(i as int).filter(hit).len(),
            decreases self.episodes@.len() - i,
        {
            proof {
                lemma_filter_step(self.episodes@, hit, i as int);
            }
            if !self.episodes[i].seen {
                if let Some(k) = self.find_series(self.episodes[i].series_id) {
                    if self.series[k].followed && self.series[k].source_id == source_id {
                        n += 1;
                    }
                }
            }
            i += 1;
        }
        proof {
            lemma_filter_none(self.episodes@, hit);
            crate::db::lemma_episode_count(self.episodes@);
        }
        Ok(n as i64)
    }

    /// The place of the series of a pending episode.
    fn pending_series(&self, source_id: i64, e: &EpisodeRow) -> (r: Option<usize>)
        ensures
            r is Some <==> pending(self.series@, source_id)(*e),
            r matches Some(k) ==> k < self.series@.len() && series_at(self.series@, e.series_id)
                == Some(self.series@[k as int]),
    {
        if e.seen {
            return None;
        }
        match self.find_series(e.series_id) {
            Some(k) => if self.series[k].followed && !self.series[k].watched_externally
                && self.series[k].source_id == source_id {
                Some(k)
            } else {
                None
            },
            None => None,
        }
    }

    /// The queue of a site's pending episodes. The episodes of a series stay
    /// together, lowest number first; the series are ordered by how many
    /// episodes they have left.
    pub fn list_pending(&self, source_id: i64, sort: PendingSort) -> (r: Result<
        Vec<(Series, Episode)>,
        DbError,
    >)
        requires
            self.well_formed(),
        ensures
            r is Ok,
            pending_view(r->Ok_0@, *self, source_id, sort),
    {
        let ghost hit = pending(self.series@, source_id);
        let ghost waiting = self.episodes@.filter(hit);
        let mut eps: Vec<EpisodeRow> = Vec::new();
        let mut owners: Vec<usize> = Vec::new();
        let mut i: usize = 0;
        proof {
            lemma_filter_none(self.episodes@, hit);
        }
        while i < self.episodes.len()
            invariant
                i <= self.episodes@.len(),
                hit == pending(self.series@, source_id),
                eps@ == self.episodes@.take(i as int).filter(hit),
                owners@.len() == eps@.len(),
                forall|k: int|
                    0 <= k < owners@.len() ==> (#[trigger] owners@[k]) < self.series@.len()
                        && series_at(self.series@, eps@[k].series_id) == Some(
                        self.series@[owners@[k] as int],
                    ),
            decreases self.episodes@.len() - i,
        {
            proof {
                lemma_filter_step(self.episodes@, hit, i as int);
            }
            let ghost had = eps@;
            if let Some(k) = self.pending_series(source_id, &self.episodes[i]) {
                eps.push(self.episodes[i].copy());
                owners.push(k);
            }
            i += 1;
        }
        proof {
            lemma_filter_none(self.episodes@, hit);
            self.episodes@.lemma_filter_len(hit);
            crate::db::lemma_episode_count(self.episodes@);
        }
        let mut rows: Vec<PendingRow> = Vec::new();
        let mut j: usize = 0;
        while j < eps.len()
            invariant
                j <= eps@.len(),
                eps@ == waiting,
                waiting == self.episodes@.filter(pending(self.series@, source_id)),
                eps@.len() <= i64::MAX,
                owners@.len() == eps@.len(),
                forall|k: int|
                    0 <= k < owners@.len() ==> (#[trigger] owners@[k]) < self.series@.len()
                        && series_at(self.series@, eps@[k].series_id) == Some(
                        self.series@[owners@[k] as int],
                    ),
                rows@.len() == j,
                forall|k: int|
                    0 <= k < j ==> #[trigger] pending_row(rows@[k], *self, source_id, waiting[k]),
            decreases eps@.len() - j,
        {
            let id: i64 = eps[j].series_id;
            let remaining: i64 = count_of(&eps, id);
            assert(owners@[j as int] < self.series@.len());
            rows.push(
                PendingRow {
                    series: self.series[owners[j]].copy(),
                    episode: eps[j].copy(),
                    remaining,
                },
            );
            assert(pending_row(rows@[j as int], *self, source_id, waiting[j as int]));
            j += 1;
        }
        assert(pending_rows(rows@, *self, source_id));
        let list = match sort {
            PendingSort::RemainingAsc => sort_rows(rows, fewest_first, Ghost(by_queue(sort))),
            PendingSort::RemainingDesc => sort_rows(rows, most_first, Ghost(by_queue(sort))),
        };
        let ghost show = |r: PendingRow| (r.series.shown(), r.episode.shown());
        let mut out: Vec<(Series, Episode)> = Vec::new();
        let mut k: usize = 0;
        while k < list.len()
            invariant
                k <= list@.len(),
                show == (|r: PendingRow| (r.series.shown(), r.episode.shown())),
                out@ == list@.take(k as int).map_values(show),
            decreases list@.len() - k,
        {
            out.push((list[k].series.to_series(), list[k].episode.to_episode()));
            k += 1;
            assert(list@.take(k as int) =~= list@.take(k - 1).push(list@[k - 1]));
            assert(out@ =~= list@.take(k as int).map_values(show));
        }
        assert(list@.take(k as int) =~= list@);
        Ok(out)
    }
}

/// How many of the episodes belong to a series.
fn count_of(eps: &Vec<EpisodeRow>, id: i64) -> (r: i64)
    requires
        eps@.len() <= i64::MAX,
    ensures
        r == count_where(eps@, crate::db::episodes::of_series(id)),
{
    let ghost hit = crate::db::episodes::of_series(id);
    let mut n: usize = 0;
    let mut i: usize = 0;
    proof {
        lemma_filter_none(eps@, hit);
    }
    while i < eps.len()
        invariant
            i <= eps@.len(),
            hit == crate::db::episodes::of_series(id),
            n <= i,
            n == eps@.take(i as int).filter(hit).len(),
        decreases eps@.len() - i,
    {
        proof {
            lemma_filter_step(eps@, hit, i as int);
        }
        if eps[i].series_id == id {
            n += 1;
        }
        i += 1;
    }
    proof {
        lemma_filter_none(eps@, hit);
    }
    n as i64
}

} // verus!
