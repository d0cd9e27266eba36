//! The library across sites: one entry for every show that is followed, wanted
//! or has been watched, whatever sites it is on.

use vstd::prelude::*;
use crate::db::grouping::{pick_rows, picked};
use crate::db::identity::{canon_key, canon_of};
use crate::db::library_list::{canon_keys, seen_count_of, total_of};
use crate::db::series::series_at;
use crate::db::series_lists::watermark;
use crate::db::{
    copy_text, only_library, opt_text, text_is, Db, DbError, EpisodeRow, LibraryEntry, SeriesRow,
};
use crate::rows::{
    count_where, gathered, group_rows, groups, key_views, lemma_filter_none, lemma_filter_step,
    lemma_groups, lemma_max_push, max_of, sort_rows, sorted, updated,
};
use crate::text::{chars_of, precedes, text_precedes};
use crate::text_set::TextSet;

verus! {

/// How much a tag weighs: wanting a show more than having discarded it, and
/// that more than anything else.
pub open spec fn tag_weight(tag: Option<Seq<char>>) -> int {
    if tag == Some("want"@) {
        2
    } else if tag == Some("discarded"@) {
        1
    } else {
        0
    }
}

/// How much a tag weighs.
fn weight_of(tag: &Option<String>) -> (r: u8)
    ensures
        r == tag_weight(opt_text(*tag)),
{
    if text_is(tag, "want") {
        2
    } else if text_is(tag, "discarded") {
        1
    } else {
        0
    }
}

/// The tag of a show whose series are tagged differently: the one that weighs
/// more, and of equal ones the first.
pub fn merge_backlog(current: Option<String>, incoming: Option<String>) -> (r: Option<String>)
    ensures
        r == if tag_weight(opt_text(incoming)) > tag_weight(opt_text(current)) {
            incoming
        } else {
            current
        },
{
    if weight_of(&incoming) > weight_of(&current) {
        incoming
    } else {
        current
    }
}

/// The tag of a show.
pub open spec fn merged_tag(members: Seq<SeriesRow>) -> Option<String>
    decreases members.len(),
{
    if members.len() == 0 {
        None
    } else {
        let before = merged_tag(members.drop_last());
        let tag = members.last().backlog_status;
        if tag_weight(opt_text(tag)) > tag_weight(opt_text(before)) {
            tag
        } else {
            before
        }
    }
}

/// Whether a title rather than another names a show: the shorter one, and of
/// equally long ones the first in order.
pub open spec fn names_better(a: Seq<char>, b: Seq<char>) -> bool {
    a.len() < b.len() || (a.len() == b.len() && precedes(a, b))
}

/// Whether a title is the one among the titles of a show that names it best.
pub open spec fn best_name(members: Seq<SeriesRow>, title: String) -> bool {
    &&& exists|k: int| 0 <= k < members.len() && (#[trigger] members[k]).title == title
    &&& forall|k: int|
        0 <= k < members.len() ==> !names_better((#[trigger] members[k]).title@, title@)
}

/// The condition of being in the library or wanted.
pub open spec fn belongs() -> spec_fn(SeriesRow) -> bool {
    |s: SeriesRow|
        s.followed || s.watched_externally || opt_text(s.backlog_status) == Some("want"@)
}

/// The shows that are followed, wanted or have been watched, each as the list of
/// the series that it is.
pub open spec fn tracked_shows(series: Seq<SeriesRow>) -> Seq<Seq<SeriesRow>> {
    let rows = series.filter(belongs());
    groups(canon_keys(rows)).map_values(|g: Seq<int>| picked(rows, g))
}

/// Whether any of the series is followed.
pub open spec fn any_followed(members: Seq<SeriesRow>) -> bool {
    exists|k: int| 0 <= k < members.len() && (#[trigger] members[k]).followed
}

/// Whether any of the series was watched elsewhere.
pub open spec fn any_watched(members: Seq<SeriesRow>) -> bool {
    exists|k: int| 0 <= k < members.len() && (#[trigger] members[k]).watched_externally
}

/// How far a show has been watched on the site where that is furthest.
pub open spec fn best_watermark(episodes: Seq<EpisodeRow>, members: Seq<SeriesRow>) -> int {
    match max_of(members.map_values(|m: SeriesRow| watermark(episodes, m.id))) {
        Some(m) => if m > 0 { m } else { 0 },
        None => 0,
    }
}

/// Whether an entry is that of a show. A show that is followed or has been
/// watched carries no tag: nobody wants to watch what they follow.
pub open spec fn entry_of(
    e: LibraryEntry,
    episodes: Seq<EpisodeRow>,
    members: Seq<SeriesRow>,
) -> bool {
    &&& e.canon_key@ == canon_of(members[0])
    &&& e.anilist_id == members[0].anilist_id
    &&& best_name(members, e.display_title)
    &&& e.followed == any_followed(members)
    &&& e.watched_externally == any_watched(members)
    &&& e.seen_watermark == best_watermark(episodes, members)
    &&& e.backlog_status == if e.followed || e.watched_externally {
        None
    } else {
        merged_tag(members)
    }
}

/// Whether entries are those of the shows, numbered in their order.
pub open spec fn entries_of(
    entries: Seq<LibraryEntry>,
    episodes: Seq<EpisodeRow>,
    shows: Seq<Seq<SeriesRow>>,
) -> bool {
    &&& entries.len() == shows.len()
    &&& forall|g: int|
        0 <= g < shows.len() ==> #[trigger] entry_of(entries[g], episodes, shows[g])
    &&& forall|g: int| 0 <= g < shows.len() ==> (#[trigger] entries[g]).id == g + 1
}

impl Db {
    /// The entry of a show.
    fn library_entry(&self, id: i64, members: &Vec<SeriesRow>) -> (r: LibraryEntry)
        requires
            members@.len() > 0,
        ensures
            r.id == id,
            entry_of(r, self.episodes@, members@),
    {
        let ghost eps = self.episodes@;
        let ghost mark = |m: SeriesRow| watermark(eps, m.id);
        let mut followed: bool = false;
        let mut watched: bool = false;
        let mut furthest: i64 = 0;
        let mut tag: Option<String> = None;
        let mut best: usize = 0;
        let mut i: usize = 0;
        proof {
            assert(members@.take(0).map_values(mark) =~= Seq::empty());
            assert(members@.take(0) =~= Seq::empty());
            crate::text::lemma_precedes_total(members@[0].title@, members@[0].title@);
        }
        while i < members.len()
            invariant
                i <= members@.len(),
                best < members@.len(),
                eps == self.episodes@,
                mark == (|m: SeriesRow| watermark(eps, m.id)),
                followed == exists|k: int| 0 <= k < i && (#[trigger] members@[k]).followed,
                watched == exists|k: int|
                    0 <= k < i && (#[trigger] members@[k]).watched_externally,
                furthest == best_watermark(eps, members@.take(i as int)),
                furthest >= 0,
                tag == merged_tag(members@.take(i as int)),
                forall|k: int|
                    0 <= k < i ==> !names_better(
                        (#[trigger] members@[k]).title@,
                        members@[best as int].title@,
                    ),
            decreases members@.len() - i,
        {
            let m = &members[i];
            let ghost before = members@.take(i as int);
            let n: i64 = self.seen_watermark(m.id);
            proof {
                assert(members@.take(i + 1) =~= before.push(*m));
                assert(before.push(*m).drop_last() =~= before);
                assert(before.push(*m).map_values(mark) =~= before.map_values(mark).push(n as int));
                lemma_max_push(before.map_values(mark), n as int);
            }
            followed = followed || m.followed;
            watched = watched || m.watched_externally;
            if n > furthest {
                furthest = n;
            }
            tag = merge_backlog(tag, copy_text(&m.backlog_status));
            let x = chars_of(m.title.as_str());
            let y = chars_of(members[best].title.as_str());
            let better: bool = if x.len() == y.len() {
                text_precedes(&x, &y)
            } else {
                x.len() < y.len()
            };
            proof {
                crate::text::lemma_precedes_total(m.title@, m.title@);
                if better {
                    assert forall|k: int| 0 <= k < i implies !names_better(
                        (#[trigger] members@[k]).title@,
                        m.title@,
                    ) by {
                        let t = members@[k].title@;
                        let b = members@[best as int].title@;
                        crate::text::lemma_precedes_transitive(t, m.title@, b);
                    }
                }
            }
            if better {
                best = i;
            }
            i += 1;
        }
        assert(members@.take(i as int) =~= members@);
        LibraryEntry {
            id,
            canon_key: canon_key(members[0].anilist_id, members[0].title.as_str()),
            anilist_id: members[0].anilist_id,
            display_title: members[best].title.clone(),
            followed,
            backlog_status: if followed || watched { None } else { tag },
            watched_externally: watched,
            seen_watermark: furthest,
        }
    }

    /// Rebuilds the library from the series of all sites.
    pub fn sync_library_from_series(&mut self) -> (r: Result<(), DbError>)
        requires
            old(self).well_formed(),
        ensures
            r is Ok,
            final(self).well_formed(),
            only_library(*old(self), *final(self)),
            entries_of(
                final(self).library@,
                old(self).episodes@,
                tracked_shows(old(self).series@),
            ),
    {
        let ghost hit = belongs();
        let mut rows: Vec<SeriesRow> = Vec::new();
        let mut keys: Vec<String> = Vec::new();
        let mut i: usize = 0;
        proof {
            lemma_filter_none(self.series@, hit);
            assert(key_views(keys@) =~= canon_keys(rows@));
        }
        while i < self.series.len()
            invariant
                *self == *old(self),
                i <= self.series@.len(),
                hit == belongs(),
                rows@ == self.series@.take(i as int).filter(hit),
                key_views(keys@) == canon_keys(rows@),
            decreases self.series@.len() - i,
        {
            proof {
                lemma_filter_step(self.series@, hit, i as int);
            }
            let s = &self.series[i];
            if s.followed || s.watched_externally || text_is(&s.backlog_status, "want") {
                let key = canon_key(s.anilist_id, s.title.as_str());
                let ghost before = rows@;
                let ghost before_keys = keys@;
                keys.push(key);
                rows.push(s.copy());
                proof {
                    assert(canon_keys(before.push(*s)) =~= canon_keys(before).push(canon_of(*s)));
                    assert(key_views(before_keys.push(key)) =~= key_views(before_keys).push(key@));
                }
            }
            i += 1;
        }
        proof {
            lemma_filter_none(self.series@, hit);
            self.series@.lemma_filter_len(hit);
            crate::db::lemma_series_count(self.series@);
        }
        let shows = group_rows(&keys);
        let ghost want = tracked_shows(self.series@);
        let ghost names = canon_keys(rows@);
        let ghost gs = groups(names);
        proof {
            lemma_groups(names);
            assert(names.len() == rows@.len());
        }
        let mut entries: Vec<LibraryEntry> = Vec::new();
        let mut g: usize = 0;
        while g < shows.len()
            invariant
                *self == *old(self),
                g <= shows@.len(),
                shows@.len() <= i64::MAX,
                rows@ == self.series@.filter(belongs()),
                names == canon_keys(rows@),
                gs == groups(names),
                crate::rows::as_groups(shows@) == gs,
                want == tracked_shows(self.series@),
                forall|h: int| 0 <= h < gs.len() ==> (#[trigger] gs[h]).len() > 0,
                forall|h: int, m: int|
                    0 <= h < gs.len() && 0 <= m < gs[h].len() ==> 0 <= #[trigger] gs[h][m]
                        < rows@.len(),
                entries@.len() == g,
                forall|h: int|
                    0 <= h < g ==> #[trigger] entry_of(entries@[h], self.episodes@, want[h]),
                forall|h: int| 0 <= h < g ==> (#[trigger] entries@[h]).id == h + 1,
            decreases shows@.len() - g,
        {
            proof {
                assert(gs[g as int] == crate::rows::as_groups(shows@)[g as int]);
                assert(gs[g as int].len() == shows@[g as int]@.len());
                assert forall|k: int| 0 <= k < shows@[g as int]@.len() implies
                    #[trigger] shows@[g as int]@[k] < rows@.len() by {
                    assert(gs[g as int][k] == shows@[g as int]@[k] as int);
                }
            }
            let members = pick_rows(&rows, &shows[g]);
            assert(members@ == want[g as int]);
            let entry = self.library_entry(g as i64 + 1, &members);
            entries.push(entry);
            g += 1;
        }
        proof {
            lemma_show_keys(rows@);
            assert forall|a: int, b: int| 0 <= a < b < entries@.len() implies
                #[trigger] entries@[a].canon_key@ != #[trigger] entries@[b].canon_key@ by {
                assert(entry_of(entries@[a], self.episodes@, want[a]));
                assert(entry_of(entries@[b], self.episodes@, want[b]));
                assert(canon_of(picked(rows@, gs[a])[0]) != canon_of(picked(rows@, gs[b])[0]));
            }
        }
        self.library = entries;
        Ok(())
    }
}

/// No two shows have the same key.
proof fn lemma_show_keys(rows: Seq<SeriesRow>)
    ensures
        ({
            let gs = groups(canon_keys(rows));
            forall|a: int, b: int|
                0 <= a < b < gs.len() ==> canon_of(picked(rows, #[trigger] gs[a])[0]) != canon_of(
                    picked(rows, #[trigger] gs[b])[0],
                )
        }),
{
    let names = canon_keys(rows);
    let gs = groups(names);
    let l = crate::rows::leaders(names);
    crate::rows::lemma_leaders(names);
    lemma_groups(names);
    assert forall|a: int, b: int| 0 <= a < b < gs.len() implies canon_of(
        picked(rows, #[trigger] gs[a])[0],
    ) != canon_of(picked(rows, #[trigger] gs[b])[0]) by {
        crate::rows::lemma_places(names, names[l[a]]);
        crate::rows::lemma_places(names, names[l[b]]);
        assert(gs[a] == crate::rows::places(names, names[l[a]]));
        assert(gs[b] == crate::rows::places(names, names[l[b]]));
        assert(gs[a].len() > 0 && gs[b].len() > 0);
        assert(names[gs[a][0]] == names[l[a]]);
        assert(names[gs[b][0]] == names[l[b]]);
        assert(names[l[a]] != names[l[b]]);
    }
}

/// Whether a show has been watched elsewhere on some site.
pub open spec fn completed(series: Seq<SeriesRow>, s: SeriesRow) -> bool {
    exists|k: int|
        0 <= k < series.len() && (#[trigger] series[k]).watched_externally && canon_of(series[k])
            == canon_of(s)
}

/// The condition of being a finished series whose show has been watched on
/// another site: it is flagged as watched.
pub open spec fn to_flag(series: Seq<SeriesRow>) -> spec_fn(SeriesRow) -> bool {
    |s: SeriesRow| !s.watched_externally && !s.is_airing && completed(series, s)
}

/// The condition of being an airing series without any progress whose show has
/// been watched on another site: its episodes are marked seen. A series with
/// progress of its own is never touched.
pub open spec fn to_catch_up(
    series: Seq<SeriesRow>,
    episodes: Seq<EpisodeRow>,
) -> spec_fn(SeriesRow) -> bool {
    |s: SeriesRow|
        !s.watched_externally && s.is_airing && completed(series, s) && seen_count_of(
            episodes,
            s.id,
        ) == 0 && total_of(episodes, s.id) > 0
}

/// The condition of being an unseen episode of a series that catches up.
pub open spec fn caught_up(
    series: Seq<SeriesRow>,
    episodes: Seq<EpisodeRow>,
) -> spec_fn(EpisodeRow) -> bool {
    |e: EpisodeRow|
        !e.seen && (series_at(series, e.series_id) matches Some(s) && to_catch_up(
            series,
            episodes,
        )(s))
}

/// Whether an episode is another that has been marked seen; a stamp that it has
/// already is kept.
pub open spec fn marked_kept(a: EpisodeRow, b: EpisodeRow, now: Seq<char>) -> bool {
    &&& b == (EpisodeRow { seen: true, seen_at: b.seen_at, ..a })
    &&& opt_text(b.seen_at) == match a.seen_at {
        Some(t) => Some(t@),
        None => Some(now),
    }
}

/// What becomes of a series when watched shows are carried across sites.
#[derive(Debug, Clone, Copy, PartialEq, Eq, Structural)]
pub enum Carry {
    Leave,
    Flag,
    CatchUp,
}

/// What becomes of a series when watched shows are carried across sites.
pub open spec fn carry_of(
    series: Seq<SeriesRow>,
    episodes: Seq<EpisodeRow>,
    s: SeriesRow,
) -> Carry {
    if to_flag(series)(s) {
        Carry::Flag
    } else if to_catch_up(series, episodes)(s) {
        Carry::CatchUp
    } else {
        Carry::Leave
    }
}

/// The condition of being changed when watched shows are carried across sites.
pub open spec fn carried_over(
    series: Seq<SeriesRow>,
    episodes: Seq<EpisodeRow>,
) -> spec_fn(SeriesRow) -> bool {
    |s: SeriesRow| carry_of(series, episodes, s) != Carry::Leave
}

/// Whether the second database is the first with watched shows carried across
/// sites.
pub open spec fn reconciled(before: Db, after: Db, now: Seq<char>) -> bool {
    &&& after == (Db { series: after.series, episodes: after.episodes, ..before })
    &&& updated(
        before.series@,
        after.series@,
        to_flag(before.series@),
        |a: SeriesRow, b: SeriesRow| b == (SeriesRow { watched_externally: true, ..a }),
    )
    &&& updated(
        before.episodes@,
        after.episodes@,
        caught_up(before.series@, before.episodes@),
        |a: EpisodeRow, b: EpisodeRow| marked_kept(a, b, now),
    )
}

impl Db {
    /// The keys of the shows that have been watched on some site.
    fn completed_keys(&self) -> (r: TextSet)
        ensures
            forall|s: SeriesRow| #[trigger] r@.contains(canon_of(s)) <==> completed(self.series@, s),
    {
        let ghost hit = |s: SeriesRow| s.watched_externally;
        let ghost key = |s: SeriesRow| canon_of(s);
        let mut out = TextSet::new();
        let mut i: usize = 0;
        assert(self.series@.take(0) =~= Seq::empty());
        while i < self.series.len()
            invariant
                i <= self.series@.len(),
                hit == (|s: SeriesRow| s.watched_externally),
                key == (|s: SeriesRow| canon_of(s)),
                out@ == gathered(self.series@.take(i as int), hit, key),
            decreases self.series@.len() - i,
        {
            assert(self.series@.take(i + 1).drop_last() =~= self.series@.take(i as int));
            if self.series[i].watched_externally {
                out.insert(canon_key(self.series[i].anilist_id, self.series[i].title.as_str()));
            }
            i += 1;
        }
        assert(self.series@.take(i as int) =~= self.series@);
        proof {
            crate::rows::lemma_gathered(self.series@, hit, key);
            assert forall|s: SeriesRow| #[trigger] out@.contains(canon_of(s)) <==> completed(
                self.series@,
                s,
            ) by {
                assert(out@.contains(canon_of(s)) <==> crate::rows::carried(
                    self.series@,
                    hit,
                    key,
                    canon_of(s),
                ));
                if completed(self.series@, s) {
                    let k = choose|k: int|
                        0 <= k < self.series@.len() && (
                        #[trigger] self.series@[k]).watched_externally && canon_of(self.series@[k])
                            == canon_of(s);
                    assert(hit(self.series@[k]) && key(self.series@[k]) == canon_of(s));
                }
                if crate::rows::carried(self.series@, hit, key, canon_of(s)) {
                    let k = choose|k: int|
                        0 <= k < self.series@.len() && hit(#[trigger] self.series@[k]) && key(
                            self.series@[k],
                        ) == canon_of(s);
                    assert(self.series@[k].watched_externally);
                }
            }
        }
        out
    }

    /// What becomes of every series when watched shows are carried across
    /// sites, and how many of them change.
    fn carry_plan(&self) -> (r: (Vec<Carry>, usize))
        requires
            self.well_formed(),
        ensures
            r.0@.len() == self.series@.len(),
            forall|k: int|
                0 <= k < self.series@.len() ==> #[trigger] r.0@[k] == carry_of(
                    self.series@,
                    self.episodes@,
                    self.series@[k],
                ),
            r.1 == count_where(self.series@, carried_over(self.series@, self.episodes@)),
    {
        let done = self.completed_keys();
        let ghost hit = carried_over(self.series@, self.episodes@);
        let mut plan: Vec<Carry> = Vec::new();
        let mut changed: usize = 0;
        let mut i: usize = 0;
        proof {
            lemma_filter_none(self.series@, hit);
        }
        while i < self.series.len()
            invariant
                self.well_formed(),
                i <= self.series@.len(),
                hit == carried_over(self.series@, self.episodes@),
                forall|s: SeriesRow| #[trigger]
                    done@.contains(canon_of(s)) <==> completed(self.series@, s),
                plan@.len() == i,
                forall|k: int|
                    0 <= k < i ==> #[trigger] plan@[k] == carry_of(
                        self.series@,
                        self.episodes@,
                        self.series@[k],
                    ),
                changed <= i,
                changed == self.series@.take(i as int).filter(hit).len(),
            decreases self.series@.len() - i,
        {
            proof {
                lemma_filter_step(self.series@, hit, i as int);
            }
            let s = &self.series[i];
            assert(done@.contains(canon_of(*s)) <==> completed(self.series@, *s));
            let mut step = Carry::Leave;
            if !s.watched_externally && done.contains(
                canon_key(s.anilist_id, s.title.as_str()).as_str(),
            ) {
                if !s.is_airing {
                    step = Carry::Flag;
                } else {
                    let p = self.progress(s.id);
                    if p.seen == 0 && p.total > 0 {
                        step = Carry::CatchUp;
                    }
                }
            }
            if step != Carry::Leave {
                changed += 1;
            }
            plan.push(step);
            i += 1;
        }
        proof {
            lemma_filter_none(self.series@, hit);
        }
        (plan, changed)
    }

    /// Carries watched shows across sites. A finished series whose show has been
    /// watched on another site is flagged as watched; an airing one without any
    /// progress has its episodes marked seen; one with progress of its own is
    /// left alone. How many series changed.
    pub fn reconcile_completion_across_sites(&mut self, now: &str) -> (r: Result<usize, DbError>)
        requires
            old(self).well_formed(),
        ensures
            r is Ok,
            r->Ok_0 == count_where(
                old(self).series@,
                carried_over(old(self).series@, old(self).episodes@),
            ),
            final(self).well_formed(),
            reconciled(*old(self), *final(self), now@),
    {
        let (plan, changed) = self.carry_plan();
        let ghost rows = self.series@;
        let ghost eps = self.episodes@;
        let mut i: usize = 0;
        while i < self.episodes.len()
            invariant
                i <= self.episodes@.len(),
                crate::db::only_episodes(*old(self), *self),
                rows == old(self).series@,
                eps == old(self).episodes@,
                self.episodes@.len() == eps.len(),
                plan@.len() == rows.len(),
                forall|k: int|
                    0 <= k < rows.len() ==> #[trigger] plan@[k] == carry_of(rows, eps, rows[k]),
                forall|k: int|
                    0 <= k < i ==> if caught_up(rows, eps)(eps[k]) {
                        marked_kept(eps[k], #[trigger] self.episodes@[k], now@)
                    } else {
                        self.episodes@[k] == eps[k]
                    },
                forall|k: int| i <= k < eps.len() ==> #[trigger] self.episodes@[k] == eps[k],
            decreases self.episodes@.len() - i,
        {
            if !self.episodes[i].seen {
                if let Some(k) = self.find_series(self.episodes[i].series_id) {
                    if plan[k] == Carry::CatchUp {
                        self.episodes[i].seen = true;
                        if self.episodes[i].seen_at.is_none() {
                            self.episodes[i].seen_at = Some(now.to_owned());
                        }
                    }
                }
            }
            i += 1;
        }
        let mut j: usize = 0;
        while j < self.series.len()
            invariant
                j <= self.series@.len(),
                *self == (Db { series: self.series, episodes: self.episodes, ..*old(self) }),
                self.episodes@.len() == eps.len(),
                forall|k: int|
                    0 <= k < eps.len() ==> if caught_up(rows, eps)(eps[k]) {
                        marked_kept(eps[k], #[trigger] self.episodes@[k], now@)
                    } else {
                        self.episodes@[k] == eps[k]
                    },
                self.series@.len() == rows.len(),
                plan@.len() == rows.len(),
                forall|k: int|
                    0 <= k < rows.len() ==> #[trigger] plan@[k] == carry_of(rows, eps, rows[k]),
                forall|k: int|
                    0 <= k < j ==> #[trigger] self.series@[k] == if to_flag(rows)(rows[k]) {
                        SeriesRow { watched_externally: true, ..rows[k] }
                    } else {
                        rows[k]
                    },
                forall|k: int| j <= k < rows.len() ==> #[trigger] self.series@[k] == rows[k],
            decreases self.series@.len() - j,
        {
            if plan[j] == Carry::Flag {
                self.series[j].watched_externally = true;
            }
            j += 1;
        }
        proof {
            let now_rows = self.series@;
            assert forall|k: int| 0 <= k < rows.len() implies (#[trigger] now_rows[k]).id
                == rows[k].id && now_rows[k].source_id == rows[k].source_id && now_rows[k].slug
                == rows[k].slug by {}
            crate::db::series::lemma_same_keys(rows, now_rows);
            let now_eps = self.episodes@;
            assert forall|k: int| 0 <= k < eps.len() implies (#[trigger] now_eps[k]).id
                == eps[k].id && now_eps[k].series_id == eps[k].series_id && now_eps[k].url
                == eps[k].url by {}
            crate::db::episodes::lemma_same_keys(eps, now_eps);
        }
        Ok(changed)
    }
}

/// The order of library entries: followed ones first, then those watched
/// furthest, then by title.
pub open spec fn entry_before(a: LibraryEntry, b: LibraryEntry) -> bool {
    if a.followed != b.followed {
        a.followed
    } else if a.seen_watermark != b.seen_watermark {
        a.seen_watermark > b.seen_watermark
    } else {
        precedes(a.display_title@, b.display_title@)
    }
}

/// The order of library entries.
pub open spec fn by_progress() -> spec_fn(LibraryEntry, LibraryEntry) -> bool {
    |a: LibraryEntry, b: LibraryEntry| entry_before(a, b)
}

/// The keys of the shows that a site has.
pub open spec fn present_keys(series: Seq<SeriesRow>, source_id: i64) -> Set<Seq<char>> {
    gathered(series, |s: SeriesRow| s.source_id == source_id, |s: SeriesRow| canon_of(s))
}

/// The condition of being a followed show that a site does not have.
pub open spec fn missing_on(
    series: Seq<SeriesRow>,
    source_id: i64,
) -> spec_fn(LibraryEntry) -> bool {
    |e: LibraryEntry| e.followed && !present_keys(series, source_id).contains(e.canon_key@)
}

impl LibraryEntry {
    /// A copy of the entry.
    pub fn copy(&self) -> (r: LibraryEntry)
        ensures
            r == *self,
    {
        LibraryEntry {
            id: self.id,
            canon_key: self.canon_key.clone(),
            anilist_id: self.anilist_id,
            display_title: self.display_title.clone(),
            followed: self.followed,
            backlog_status: copy_text(&self.backlog_status),
            watched_externally: self.watched_externally,
            seen_watermark: self.seen_watermark,
        }
    }
}

/// Whether an entry comes before another.
fn progressed_before(a: &LibraryEntry, b: &LibraryEntry) -> (r: bool)
    ensures
        r == entry_before(*a, *b),
{
    if a.followed != b.followed {
        a.followed
    } else if a.seen_watermark != b.seen_watermark {
        a.seen_watermark > b.seen_watermark
    } else {
        text_precedes(
            &chars_of(a.display_title.as_str()),
            &chars_of(b.display_title.as_str()),
        )
    }
}

impl Db {
    /// The whole library, the shows watched furthest first.
    pub fn list_library_entries(&self) -> (r: Result<Vec<LibraryEntry>, DbError>)
        ensures
            r is Ok,
            r->Ok_0@ == sorted(self.library@, by_progress()),
    {
        let mut rows: Vec<LibraryEntry> = Vec::new();
        let mut i: usize = 0;
        while i < self.library.len()
            invariant
                i <= self.library@.len(),
                rows@ == self.library@.take(i as int),
            decreases self.library@.len() - i,
        {
            rows.push(self.library[i].copy());
            i += 1;
            assert(self.library@.take(i as int) =~= self.library@.take(i - 1).push(
                self.library@[i - 1],
            ));
        }
        assert(self.library@.take(i as int) =~= self.library@);
        Ok(sort_rows(rows, progressed_before, Ghost(by_progress())))
    }

    /// The followed shows that a site does not have yet, those watched furthest
    /// first.
    pub fn library_entries_missing_on_site(&self, source_id: i64) -> (r: Result<
        Vec<LibraryEntry>,
        DbError,
    >)
        ensures
            r is Ok,
            r->Ok_0@ == sorted(self.library@, by_progress()).filter(
                missing_on(self.series@, source_id),
            ),
    {
        let mut present = TextSet::new();
        let mut i: usize = 0;
        assert(self.series@.take(0) =~= Seq::empty());
        while i < self.series.len()
            invariant
                i <= self.series@.len(),
                present@ == present_keys(self.series@.take(i as int), source_id),
            decreases self.series@.len() - i,
        {
            assert(self.series@.take(i + 1).drop_last() =~= self.series@.take(i as int));
            if self.series[i].source_id == source_id {
                present.insert(canon_key(self.series[i].anilist_id, self.series[i].title.as_str()));
            }
            i += 1;
        }
        assert(self.series@.take(i as int) =~= self.series@);
        let all = match self.list_library_entries() {
            Ok(v) => v,
            Err(e) => {
                return Err(e);
            },
        };
        let ghost hit = missing_on(self.series@, source_id);
        let mut out: Vec<LibraryEntry> = Vec::new();
        let mut j: usize = 0;
        proof {
            lemma_filter_none(all@, hit);
        }
        while j < all.len()
            invariant
                j <= all@.len(),
                hit == missing_on(self.series@, source_id),
                present@ == present_keys(self.series@, source_id),
                out@ == all@.take(j as int).filter(hit),
            decreases all@.len() - j,
        {
            proof {
                lemma_filter_step(all@, hit, j as int);
            }
            if all[j].followed && !present.contains(all[j].canon_key.as_str()) {
                out.push(all[j].copy());
            }
            j += 1;
        }
        proof {
            lemma_filter_none(all@, hit);
        }
        Ok(out)
    }
}

/// Carrying watched shows across sites a second time changes nothing.
pub proof fn law_reconcile_settles(before: Db, after: Db, now: Seq<char>)
    requires
        before.well_formed(),
        reconciled(before, after, now),
    ensures
        count_where(after.series@, carried_over(after.series@, after.episodes@)) == 0,
{
    let bs = before.series@;
    let ss = after.series@;
    let be = before.episodes@;
    let es = after.episodes@;
    assert forall|k: int| 0 <= k < ss.len() implies canon_of(#[trigger] ss[k]) == canon_of(bs[k])
        && ss[k].is_airing == bs[k].is_airing && ss[k].id == bs[k].id by {}
    assert forall|k: int| 0 <= k < ss.len() && completed(ss, #[trigger] ss[k]) implies completed(
        bs,
        bs[k],
    ) by {
        let m = choose|m: int|
            0 <= m < ss.len() && (#[trigger] ss[m]).watched_externally && canon_of(ss[m])
                == canon_of(ss[k]);
        if bs[m].watched_externally {
            assert(canon_of(bs[m]) == canon_of(bs[k]));
        } else {
            assert(to_flag(bs)(bs[m]));
            let n = choose|n: int|
                0 <= n < bs.len() && (#[trigger] bs[n]).watched_externally && canon_of(bs[n])
                    == canon_of(bs[m]);
            assert(canon_of(bs[n]) == canon_of(bs[k]));
        }
    }
    let hit = carried_over(ss, es);
    assert forall|k: int| 0 <= k < ss.len() implies !hit(#[trigger] ss[k]) by {
        let s = ss[k];
        let b = bs[k];
        if hit(s) {
            assert(completed(bs, b));
            assert(!s.watched_externally);
            assert(!to_flag(bs)(b));
            assert(to_catch_up(ss, es)(s));
            crate::rows::lemma_count_zero(es, crate::db::series_lists::seen_of(s.id));
            crate::rows::lemma_count_zero(es, crate::db::episodes::of_series(s.id));
            crate::rows::lemma_count_zero(be, crate::db::series_lists::seen_of(s.id));
            crate::rows::lemma_count_zero(be, crate::db::episodes::of_series(s.id));
            let j = choose|j: int|
                0 <= j < es.len() && crate::db::episodes::of_series(s.id)(#[trigger] es[j]);
            assert(es[j].series_id == s.id);
            assert(be[j].series_id == s.id);
            assert(crate::db::episodes::of_series(s.id)(be[j]));
            assert forall|m: int| 0 <= m < be.len() implies !crate::db::series_lists::seen_of(s.id)(
                #[trigger] be[m],
            ) by {
                assert(!crate::db::series_lists::seen_of(s.id)(es[m]));
            }
            assert(to_catch_up(bs, be)(b));
            assert forall|m: int| 0 <= m < k implies !crate::db::series::with_id(s.id)(
                #[trigger] bs[m],
            ) by {
                assert(bs[m].id < bs[k].id);
            }
            crate::rows::lemma_first_where_at(bs, crate::db::series::with_id(s.id), k);
            assert(caught_up(bs, be)(be[j]));
            assert(es[j].seen);
            assert(crate::db::series_lists::seen_of(s.id)(es[j]));
        }
    }
    crate::rows::lemma_count_zero(ss, hit);
}

/// An airing series with progress of its own keeps its row and its episodes
/// when watched shows are carried across sites.
pub proof fn law_reconcile_keeps_progress(before: Db, after: Db, now: Seq<char>, k: int, j: int)
    requires
        before.well_formed(),
        reconciled(before, after, now),
        0 <= k < before.series@.len(),
        before.series@[k].is_airing,
        seen_count_of(before.episodes@, before.series@[k].id) > 0,
        0 <= j < before.episodes@.len(),
        before.episodes@[j].series_id == before.series@[k].id,
    ensures
        after.series@[k] == before.series@[k],
        after.episodes@[j] == before.episodes@[j],
{
    let bs = before.series@;
    let id = bs[k].id;
    assert(!to_flag(bs)(bs[k]));
    assert(after.series@[k] == bs[k]);
    assert forall|m: int| 0 <= m < k implies !crate::db::series::with_id(id)(#[trigger] bs[m]) by {
        assert(bs[m].id < bs[k].id);
    }
    crate::rows::lemma_first_where_at(bs, crate::db::series::with_id(id), k);
    assert(!caught_up(bs, before.episodes@)(before.episodes@[j]));
}

/// Whether two entries say the same.
pub open spec fn same_entry(a: LibraryEntry, b: LibraryEntry) -> bool {
    &&& a.id == b.id
    &&& a.canon_key@ == b.canon_key@
    &&& a.anilist_id == b.anilist_id
    &&& a.display_title@ == b.display_title@
    &&& a.followed == b.followed
    &&& a.backlog_status == b.backlog_status
    &&& a.watched_externally == b.watched_externally
    &&& a.seen_watermark == b.seen_watermark
}

/// The library is determined by the series and episodes: rebuilding it again
/// gives the same entries.
pub proof fn law_library_is_determined(
    x: Seq<LibraryEntry>,
    y: Seq<LibraryEntry>,
    episodes: Seq<EpisodeRow>,
    shows: Seq<Seq<SeriesRow>>,
)
    requires
        entries_of(x, episodes, shows),
        entries_of(y, episodes, shows),
    ensures
        x.len() == y.len(),
        forall|g: int| 0 <= g < x.len() ==> #[trigger] same_entry(x[g], y[g]),
{
    assert forall|g: int| 0 <= g < x.len() implies #[trigger] same_entry(x[g], y[g]) by {
        let m = shows[g];
        assert(entry_of(x[g], episodes, m));
        assert(entry_of(y[g], episodes, m));
        let a = x[g].display_title;
        let b = y[g].display_title;
        let i = choose|i: int| 0 <= i < m.len() && (#[trigger] m[i]).title == a;
        let j = choose|j: int| 0 <= j < m.len() && (#[trigger] m[j]).title == b;
        assert(!names_better(m[i].title@, b@));
        assert(!names_better(m[j].title@, a@));
        crate::text::lemma_precedes_total(a@, b@);
    }
}

} // verus!
