//! The library view: every followed or watched show, whatever site it is on.

use vstd::prelude::*;
use crate::db::episodes::{next_unseen, of_series};
use crate::db::grouping::{catalog_of, later_text, latest, lemma_latest_push, pick_rows, picked};
use crate::db::identity::{canon_key, canon_of};
use crate::db::series_lists::{genre_list, seen_of};
use crate::db::{copy_text, lemma_episode_count, opt_text, Db, DbError, EpisodeRow, SeriesRow};
use crate::models::{LibraryItem, Series};
use crate::rows::{
    count_where, group_rows, groups, key_views, lemma_filter_none, lemma_filter_step, lemma_groups,
    lemma_max_push, max_of, sort_rows, sorted,
};
use crate::text::{chars_of, lowercase, precedes, text_precedes};

verus! {

/// How many episodes of a series are stored.
pub open spec fn total_of(episodes: Seq<EpisodeRow>, id: i64) -> nat {
    count_where(episodes, of_series(id))
}

/// How many episodes of a series have been seen.
pub open spec fn seen_count_of(episodes: Seq<EpisodeRow>, id: i64) -> nat {
    count_where(episodes, seen_of(id))
}

/// When an episode of a series was last stored.
pub open spec fn last_added_of(episodes: Seq<EpisodeRow>, id: i64) -> Option<Seq<char>> {
    latest(episodes.filter(of_series(id)).map_values(|e: EpisodeRow| Some(e.added_at@)))
}

/// When an episode of a series was last marked seen.
pub open spec fn last_seen_of(episodes: Seq<EpisodeRow>, id: i64) -> Option<Seq<char>> {
    latest(episodes.filter(of_series(id)).map_values(|e: EpisodeRow| opt_text(e.seen_at)))
}

/// What the episodes of a series come to.
pub struct Progress {
    pub total: i64,
    pub seen: i64,
    pub last_added: Option<String>,
    pub last_seen: Option<String>,
}

/// Whether a summary is that of a series' episodes.
pub open spec fn progress_of(p: Progress, episodes: Seq<EpisodeRow>, id: i64) -> bool {
    &&& p.total == total_of(episodes, id)
    &&& p.seen == seen_count_of(episodes, id)
    &&& opt_text(p.last_added) == last_added_of(episodes, id)
    &&& opt_text(p.last_seen) == last_seen_of(episodes, id)
}

impl Db {
    /// What the episodes of a series come to.
    pub fn progress(&self, id: i64) -> (r: Progress)
        requires
            self.well_formed(),
        ensures
            progress_of(r, self.episodes@, id),
    {
        let ghost rows = self.episodes@;
        let ghost added = |e: EpisodeRow| Some(e.added_at@);
        let ghost stamp = |e: EpisodeRow| opt_text(e.seen_at);
        let mut total: usize = 0;
        let mut seen: usize = 0;
        let mut last_added: Option<String> = None;
        let mut last_seen: Option<String> = None;
        let mut i: usize = 0;
        proof {
            lemma_filter_none(rows, of_series(id));
            lemma_filter_none(rows, seen_of(id));
            assert(rows.take(0).filter(of_series(id)).map_values(added) =~= Seq::empty());
            assert(rows.take(0).filter(of_series(id)).map_values(stamp) =~= Seq::empty());
        }
        while i < self.episodes.len()
            invariant
                i <= self.episodes@.len(),
                rows == self.episodes@,
                added == (|e: EpisodeRow| Some(e.added_at@)),
                stamp == (|e: EpisodeRow| opt_text(e.seen_at)),
                total <= i,
                seen <= i,
                total == rows.take(i as int).filter(of_series(id)).len(),
                seen == rows.take(i as int).filter(seen_of(id)).len(),
                opt_text(last_added) == latest(
                    rows.take(i as int).filter(of_series(id)).map_values(added),
                ),
                opt_text(last_seen) == latest(
                    rows.take(i as int).filter(of_series(id)).map_values(stamp),
                ),
            decreases self.episodes@.len() - i,
        {
            let ghost before = rows.take(i as int).filter(of_series(id));
            proof {
                lemma_filter_step(rows, of_series(id), i as int);
                lemma_filter_step(rows, seen_of(id), i as int);
            }
            let e = &self.episodes[i];
            if e.series_id == id {
                total += 1;
                if e.seen {
                    seen += 1;
                }
                proof {
                    lemma_latest_push(before.map_values(added), added(*e));
                    lemma_latest_push(before.map_values(stamp), stamp(*e));
                    assert(before.push(*e).map_values(added) =~= before.map_values(added).push(
                        added(*e),
                    ));
                    assert(before.push(*e).map_values(stamp) =~= before.map_values(stamp).push(
                        stamp(*e),
                    ));
                }
                let stored = Some(e.added_at.clone());
                last_added = later_text(last_added, &stored);
                last_seen = later_text(last_seen, &e.seen_at);
            }
            i += 1;
        }
        proof {
            lemma_filter_none(rows, of_series(id));
            lemma_filter_none(rows, seen_of(id));
            lemma_episode_count(rows);
        }
        Progress { total: total as i64, seen: seen as i64, last_added, last_seen }
    }
}

/// The cover of a series; the catalog's where the site has none.
pub open spec fn cover_of(db: Db, s: SeriesRow) -> Option<String> {
    match s.cover_url {
        Some(c) => Some(c),
        None => match catalog_of(db.catalog@, s.anilist_id) {
            Some(c) => c.cover_url,
            None => None,
        },
    }
}

/// The studio of a series that is linked to the catalog.
pub open spec fn studio_of(db: Db, s: SeriesRow) -> Option<String> {
    match catalog_of(db.catalog@, s.anilist_id) {
        Some(c) => c.studio,
        None => None,
    }
}

/// Whether a series rather than another stands for their show: one on the
/// active site, then one with more episodes, then one with a cover, then the
/// one with the lower id.
pub open spec fn stands_for(db: Db, active: i64, a: SeriesRow, b: SeriesRow) -> bool {
    let ta = total_of(db.episodes@, a.id);
    let tb = total_of(db.episodes@, b.id);
    let ca = cover_of(db, a) is Some;
    let cb = cover_of(db, b) is Some;
    if (a.source_id == active) != (b.source_id == active) {
        a.source_id == active
    } else if ta != tb {
        ta > tb
    } else if ca != cb {
        ca
    } else {
        a.id < b.id
    }
}

/// Whether a series is the one among the members of a show that stands for it.
pub open spec fn representative(db: Db, active: i64, members: Seq<SeriesRow>, rep: SeriesRow) -> bool {
    &&& members.contains(rep)
    &&& forall|k: int|
        0 <= k < members.len() ==> !stands_for(db, active, #[trigger] members[k], rep)
}

/// Whether a library item is that of a show with the given members. Progress is
/// taken over all of them, so that none is lost by switching sites.
pub open spec fn item_of(
    item: LibraryItem,
    db: Db,
    active: i64,
    members: Seq<SeriesRow>,
    rep: SeriesRow,
) -> bool {
    &&& representative(db, active, members, rep)
    &&& item.series == (Series { cover_url: cover_of(db, rep), ..rep.shown() })
    &&& Some(item.total_episodes as int) == max_of(
        members.map_values(|m: SeriesRow| total_of(db.episodes@, m.id) as int),
    )
    &&& Some(item.seen_episodes as int) == max_of(
        members.map_values(|m: SeriesRow| seen_count_of(db.episodes@, m.id) as int),
    )
    &&& opt_text(item.last_added) == latest(
        members.map_values(|m: SeriesRow| last_added_of(db.episodes@, m.id)),
    )
    &&& opt_text(item.last_watched_at) == latest(
        members.map_values(|m: SeriesRow| last_seen_of(db.episodes@, m.id)),
    )
    &&& item.watched_externally == exists|k: int|
        0 <= k < members.len() && (#[trigger] members[k]).watched_externally
    &&& item.next_episode == next_unseen(db.episodes@, rep.id)
    &&& item.kind == rep.kind
    &&& item.genres@ == genre_list(db.series_genres@, rep.id)
    &&& item.studio == studio_of(db, rep)
}

/// Whether a library item is that of a show with the given members.
pub open spec fn item_for(item: LibraryItem, db: Db, active: i64, members: Seq<SeriesRow>) -> bool {
    exists|rep: SeriesRow| item_of(item, db, active, members, rep)
}

/// The condition of being in the library.
pub open spec fn in_library() -> spec_fn(SeriesRow) -> bool {
    |s: SeriesRow| s.followed || s.watched_externally
}

/// The keys of the shows that series are.
pub open spec fn canon_keys(rows: Seq<SeriesRow>) -> Seq<Seq<char>> {
    rows.map_values(|s: SeriesRow| canon_of(s))
}

/// The shows of the library, each as the list of the series that it is.
pub open spec fn library_shows(series: Seq<SeriesRow>) -> Seq<Seq<SeriesRow>> {
    let rows = series.filter(in_library());
    groups(canon_keys(rows)).map_values(|g: Seq<int>| picked(rows, g))
}

/// The order of library items: by title in lower case.
pub open spec fn by_lower_title() -> spec_fn(LibraryItem, LibraryItem) -> bool {
    |a: LibraryItem, b: LibraryItem|
        precedes(lowercase(a.series.title@), lowercase(b.series.title@))
}

/// Whether items are those of the shows, in their order.
pub open spec fn items_of(
    items: Seq<LibraryItem>,
    db: Db,
    active: i64,
    shows: Seq<Seq<SeriesRow>>,
) -> bool {
    &&& items.len() == shows.len()
    &&& forall|g: int|
        0 <= g < shows.len() ==> #[trigger] item_for(items[g], db, active, shows[g])
}

/// Whether a list is the library as seen from a site: an item for every show,
/// by title.
pub open spec fn library_view(list: Seq<LibraryItem>, db: Db, active: i64) -> bool {
    exists|items: Seq<LibraryItem>|
        #[trigger] items_of(items, db, active, library_shows(db.series@)) && list == sorted(
            items,
            by_lower_title(),
        )
}

/// Whether an item's title stands before another's, in lower case.
fn lower_title_before(a: &LibraryItem, b: &LibraryItem) -> (r: bool)
    ensures
        r == precedes(lowercase(a.series.title@), lowercase(b.series.title@)),
{
    let x = a.series.title.as_str().to_lowercase();
    let y = b.series.title.as_str().to_lowercase();
    text_precedes(&chars_of(x.as_str()), &chars_of(y.as_str()))
}

impl Db {
    /// The cover of a series; the catalog's where the site has none.
    fn cover(&self, s: &SeriesRow) -> (r: Option<String>)
        ensures
            r == cover_of(*self, *s),
    {
        match &s.cover_url {
            Some(c) => Some(c.clone()),
            None => match self.find_linked(s.anilist_id) {
                Some(i) => copy_text(&self.catalog[i].cover_url),
                None => None,
            },
        }
    }

    /// Whether a series rather than another stands for their show.
    fn ranks_before(&self, active: i64, a: &SeriesRow, b: &SeriesRow) -> (r: bool)
        requires
            self.well_formed(),
        ensures
            r == stands_for(*self, active, *a, *b),
    {
        if (a.source_id == active) != (b.source_id == active) {
            return a.source_id == active;
        }
        let ta: i64 = self.progress(a.id).total;
        let tb: i64 = self.progress(b.id).total;
        if ta != tb {
            return ta > tb;
        }
        let ca: bool = self.cover(a).is_some();
        let cb: bool = self.cover(b).is_some();
        if ca != cb {
            return ca;
        }
        a.id < b.id
    }

    /// The place of the member that stands for a show.
    fn find_representative(&self, active: i64, members: &Vec<SeriesRow>) -> (r: usize)
        requires
            self.well_formed(),
            members@.len() > 0,
        ensures
            r < members@.len(),
            representative(*self, active, members@, members@[r as int]),
    {
        let mut best: usize = 0;
        let mut i: usize = 1;
        while i < members.len()
            invariant
                self.well_formed(),
                best < i <= members@.len(),
                forall|k: int|
                    0 <= k < i ==> !stands_for(
                        *self,
                        active,
                        #[trigger] members@[k],
                        members@[best as int],
                    ),
            decreases members@.len() - i,
        {
            if self.ranks_before(active, &members[i], &members[best]) {
                best = i;
            }
            i += 1;
        }
        best
    }

    /// The library item of a show.
    fn library_item(&self, active: i64, members: &Vec<SeriesRow>) -> (r: LibraryItem)
        requires
            self.well_formed(),
            members@.len() > 0,
        ensures
            item_for(r, *self, active, members@),
    {
        let ghost eps = self.episodes@;
        let ghost ft = |m: SeriesRow| total_of(eps, m.id) as int;
        let ghost fs = |m: SeriesRow| seen_count_of(eps, m.id) as int;
        let ghost fa = |m: SeriesRow| last_added_of(eps, m.id);
        let ghost fw = |m: SeriesRow| last_seen_of(eps, m.id);
        let mut total: i64 = 0;
        let mut seen: i64 = 0;
        let mut watched: bool = false;
        let mut last_added: Option<String> = None;
        let mut last_watched_at: Option<String> = None;
        let mut i: usize = 0;
        proof {
            assert(members@.take(0).map_values(ft) =~= Seq::empty());
            assert(members@.take(0).map_values(fs) =~= Seq::empty());
            assert(members@.take(0).map_values(fa) =~= Seq::empty());
            assert(members@.take(0).map_values(fw) =~= Seq::empty());
        }
        while i < members.len()
            invariant
                self.well_formed(),
                i <= members@.len(),
                eps == self.episodes@,
                ft == (|m: SeriesRow| total_of(eps, m.id) as int),
                fs == (|m: SeriesRow| seen_count_of(eps, m.id) as int),
                fa == (|m: SeriesRow| last_added_of(eps, m.id)),
                fw == (|m: SeriesRow| last_seen_of(eps, m.id)),
                total >= 0,
                seen >= 0,
                i == 0 ==> total == 0 && seen == 0,
                i > 0 ==> max_of(members@.take(i as int).map_values(ft)) == Some(total as int),
                i > 0 ==> max_of(members@.take(i as int).map_values(fs)) == Some(seen as int),
                watched == exists|k: int|
                    0 <= k < i && (#[trigger] members@[k]).watched_externally,
                opt_text(last_added) == latest(members@.take(i as int).map_values(fa)),
                opt_text(last_watched_at) == latest(members@.take(i as int).map_values(fw)),
            decreases members@.len() - i,
        {
            let p = self.progress(members[i].id);
            let ghost before = members@.take(i as int);
            let ghost m = members@[i as int];
            proof {
                assert(members@.take(i + 1) =~= before.push(m));
                assert(before.push(m).map_values(ft) =~= before.map_values(ft).push(ft(m)));
                assert(before.push(m).map_values(fs) =~= before.map_values(fs).push(fs(m)));
                assert(before.push(m).map_values(fa) =~= before.map_values(fa).push(fa(m)));
                assert(before.push(m).map_values(fw) =~= before.map_values(fw).push(fw(m)));
                lemma_max_push(before.map_values(ft), ft(m));
                lemma_max_push(before.map_values(fs), fs(m));
                lemma_latest_push(before.map_values(fa), fa(m));
                lemma_latest_push(before.map_values(fw), fw(m));
            }
            if p.total > total {
                total = p.total;
            }
            if p.seen > seen {
                seen = p.seen;
            }
            watched = watched || members[i].watched_externally;
            last_added = later_text(last_added, &p.last_added);
            last_watched_at = later_text(last_watched_at, &p.last_seen);
            i += 1;
        }
        assert(members@.take(i as int) =~= members@);
        let at: usize = self.find_representative(active, members);
        let rep = &members[at];
        let mut series = rep.to_series();
        series.cover_url = self.cover(rep);
        let next_episode = match self.next_unseen_episode(rep.id) {
            Ok(n) => n,
            Err(_) => None,
        };
        let genres = match self.list_series_genres(rep.id) {
            Ok(g) => g,
            Err(_) => Vec::new(),
        };
        let studio = match self.find_linked(rep.anilist_id) {
            Some(c) => copy_text(&self.catalog[c].studio),
            None => None,
        };
        let item = LibraryItem {
            series,
            total_episodes: total,
            seen_episodes: seen,
            last_added,
            next_episode,
            last_watched_at,
            watched_externally: watched,
            kind: copy_text(&rep.kind),
            genres,
            studio,
        };
        assert(item_of(item, *self, active, members@, *rep));
        item
    }

    /// The library: every followed or watched show once, whatever sites it is
    /// on, by title. The active site only decides which of a show's series
    /// stands for it.
    pub fn list_library(&self, active_source_id: i64) -> (r: Result<Vec<LibraryItem>, DbError>)
        requires
            self.well_formed(),
        ensures
            r is Ok,
            library_view(r->Ok_0@, *self, active_source_id),
    {
        let ghost hit = in_library();
        let mut rows: Vec<SeriesRow> = Vec::new();
        let mut keys: Vec<String> = Vec::new();
        let mut i: usize = 0;
        proof {
            lemma_filter_none(self.series@, hit);
            assert(key_views(keys@) =~= canon_keys(rows@));
        }
        while i < self.series.len()
            invariant
                i <= self.series@.len(),
                hit == in_library(),
                rows@ == self.series@.take(i as int).filter(hit),
                key_views(keys@) == canon_keys(rows@),
            decreases self.series@.len() - i,
        {
            proof {
                lemma_filter_step(self.series@, hit, i as int);
            }
            let s = &self.series[i];
            if s.followed || s.watched_externally {
                let key = canon_key(s.anilist_id, s.title.as_str());
                let ghost before = rows@;
                let ghost before_keys = keys@;
                keys.push(key);
                rows.push(s.copy());
                proof {
                    assert(canon_keys(before.push(*s)) =~= canon_keys(before).push(canon_of(*s)));
                    assert(key_views(before_keys.push(key)) =~= key_views(before_keys).push(key@));
                }
            }
            i += 1;
        }
        proof {
            lemma_filter_none(self.series@, hit);
        }
        let shows = group_rows(&keys);
        let ghost want = library_shows(self.series@);
        proof {
            lemma_groups(canon_keys(rows@));
            assert(canon_keys(rows@).len() == rows@.len());
        }
        let mut items: Vec<LibraryItem> = Vec::new();
        let mut g: usize = 0;
        while g < shows.len()
            invariant
                self.well_formed(),
                g <= shows@.len(),
                rows@ == self.series@.filter(in_library()),
                crate::rows::as_groups(shows@) == groups(canon_keys(rows@)),
                want == library_shows(self.series@),
                canon_keys(rows@).len() == rows@.len(),
                forall|h: int|
                    0 <= h < groups(canon_keys(rows@)).len() ==> (
                    #[trigger] groups(canon_keys(rows@))[h]).len() > 0,
                forall|h: int, m: int|
                    0 <= h < groups(canon_keys(rows@)).len() && 0 <= m < groups(
                        canon_keys(rows@),
                    )[h].len() ==> 0 <= #[trigger] groups(canon_keys(rows@))[h][m] < canon_keys(
                        rows@,
                    ).len(),
                items@.len() == g,
                forall|h: int|
                    0 <= h < g ==> #[trigger] item_for(
                        items@[h],
                        *self,
                        active_source_id,
                        want[h],
                    ),
            decreases shows@.len() - g,
        {
            proof {
                let gs = groups(canon_keys(rows@));
                assert(gs[g as int] == crate::rows::as_groups(shows@)[g as int]);
                assert(gs[g as int].len() == shows@[g as int]@.len());
                assert forall|k: int| 0 <= k < shows@[g as int]@.len() implies
                    #[trigger] shows@[g as int]@[k] < rows@.len() by {
                    assert(gs[g as int][k] == shows@[g as int]@[k] as int);
                }
            }
            let members = pick_rows(&rows, &shows[g]);
            assert(members@ == want[g as int]);
            let item = self.library_item(active_source_id, &members);
            items.push(item);
            g += 1;
        }
        assert(items_of(items@, *self, active_source_id, want));
        Ok(sort_rows(items, lower_title_before, Ghost(by_lower_title())))
    }
}

/// Whether two items tell the same progress.
pub open spec fn same_progress(x: LibraryItem, y: LibraryItem) -> bool {
    &&& x.total_episodes == y.total_episodes
    &&& x.seen_episodes == y.seen_episodes
    &&& x.watched_externally == y.watched_externally
    &&& opt_text(x.last_added) == opt_text(y.last_added)
    &&& opt_text(x.last_watched_at) == opt_text(y.last_watched_at)
}

/// Whether two items are those of one show, seen from two sites.
pub open spec fn same_item(db: Db, a: i64, x: LibraryItem, b: i64, y: LibraryItem) -> bool {
    exists|g: int|
        0 <= g < library_shows(db.series@).len() && #[trigger] item_for(
            x,
            db,
            a,
            library_shows(db.series@)[g],
        ) && item_for(y, db, b, library_shows(db.series@)[g])
}

/// Whether an item, seen from one site, has its counterpart with the same
/// progress in the library seen from another.
pub open spec fn has_counterpart(
    db: Db,
    a: i64,
    x: LibraryItem,
    b: i64,
    y: Seq<LibraryItem>,
) -> bool {
    exists|j: int|
        0 <= j < y.len() && #[trigger] same_item(db, a, x, b, y[j]) && same_progress(x, y[j])
}

/// Switching sites changes neither which shows are in the library nor how far
/// they have been watched.
pub proof fn law_library_ignores_active_site(
    db: Db,
    a: i64,
    x: Seq<LibraryItem>,
    b: i64,
    y: Seq<LibraryItem>,
)
    requires
        library_view(x, db, a),
        library_view(y, db, b),
    ensures
        x.len() == y.len(),
        x.len() == library_shows(db.series@).len(),
        forall|i: int|
            0 <= i < x.len() ==> #[trigger] has_counterpart(db, a, x[i], b, y),
{
    let shows = library_shows(db.series@);
    let px = choose|items: Seq<LibraryItem>| #[trigger]
        items_of(items, db, a, shows) && x == sorted(items, by_lower_title());
    let py = choose|items: Seq<LibraryItem>| #[trigger]
        items_of(items, db, b, shows) && y == sorted(items, by_lower_title());
    crate::rows::law_sorted_is_permutation(px, by_lower_title());
    crate::rows::law_sorted_is_permutation(py, by_lower_title());
    assert forall|i: int| 0 <= i < x.len() implies #[trigger] has_counterpart(
        db,
        a,
        x[i],
        b,
        y,
    ) by {
        crate::rows::lemma_sorted_contains(px, by_lower_title(), x[i]);
        assert(x.contains(x[i]));
        let g = choose|g: int| 0 <= g < px.len() && px[g] == x[i];
        assert(item_for(px[g], db, a, shows[g]));
        assert(item_for(py[g], db, b, shows[g]));
        crate::rows::lemma_sorted_contains(py, by_lower_title(), py[g]);
        assert(py.contains(py[g]));
        let j = choose|j: int| 0 <= j < y.len() && y[j] == py[g];
        assert(same_item(db, a, x[i], b, y[j]));
    }
}

/// A show that has a series on the active site is stood for by one there.
pub proof fn law_active_site_stands(
    db: Db,
    active: i64,
    members: Seq<SeriesRow>,
    rep: SeriesRow,
    k: int,
)
    requires
        representative(db, active, members, rep),
        0 <= k < members.len(),
        members[k].source_id == active,
    ensures
        rep.source_id == active,
{
    assert(!stands_for(db, active, members[k], rep));
}

} // verus!
