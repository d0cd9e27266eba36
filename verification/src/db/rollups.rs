//! What was watched of every franchise, over all seasons and sites.

use vstd::prelude::*;
use crate::db::franchise::{
    display_title, format_minutes, franchise, franchise_display_title, franchise_key,
    franchise_parent_key, law_shown_rather_orders, minutes_per_episode, parent_franchise,
    prefer_display_title, shown_rather, FranchiseRollup,
};
use crate::db::grouping::{catalog_of, pick_rows, picked};
use crate::db::library_list::seen_count_of;
use crate::db::parents::{
    absorbed, absorbed_by_all, absorbed_external, folded_rollup, folded_rollups, home,
    law_nothing_absorbed_twice, lemma_same_rollups, lemma_survivors, merge_into_parent_franchises,
    minutes_figure, same_group, same_rollup, seen_figure, size, survivors, total_size,
    FranchiseGroup,
};
use crate::db::{opt_text, Db, DbError, SeriesRow};
use crate::rows::{
    as_groups, group_rows, groups, key_views, leaders, led_sum, lemma_filter_none,
    lemma_filter_step, lemma_group_total, lemma_groups, lemma_led_sum_monotone, lemma_sum_push,
    places, sum_at, sum_of, sum_to,
};

verus! {

/// The condition of there being evidence that a series was watched.
pub open spec fn evident(db: Db) -> spec_fn(SeriesRow) -> bool {
    |s: SeriesRow| s.watched_externally || seen_count_of(db.episodes@, s.id) > 0
}

/// The format by which an episode's minutes are estimated: the site's kind, the
/// catalog's format where there is none.
pub open spec fn estimate_format(db: Db, s: SeriesRow) -> Option<Seq<char>> {
    match s.kind {
        Some(k) => Some(k@),
        None => match catalog_of(db.catalog@, s.anilist_id) {
            Some(c) => opt_text(c.format),
            None => None,
        },
    }
}

/// The minutes of an episode: the catalog's real duration where it is known, an
/// estimate otherwise.
pub open spec fn episode_minutes(db: Db, s: SeriesRow) -> int {
    match catalog_of(db.catalog@, s.anilist_id) {
        Some(c) => match c.duration {
            Some(d) => d as int,
            None => format_minutes(estimate_format(db, s)) as int,
        },
        None => format_minutes(estimate_format(db, s)) as int,
    }
}

/// The length of a series in the catalog.
pub open spec fn catalog_length(db: Db, s: SeriesRow) -> Option<int> {
    match catalog_of(db.catalog@, s.anilist_id) {
        Some(c) => match c.episodes {
            Some(e) => Some(e as int),
            None => None,
        },
        None => None,
    }
}

/// The episodes marked seen of every series.
pub open spec fn seen_counts(db: Db, members: Seq<SeriesRow>) -> Seq<int> {
    members.map_values(|m: SeriesRow| seen_count_of(db.episodes@, m.id) as int)
}

/// The minutes of the episodes marked seen of every series.
pub open spec fn seen_minutes(db: Db, members: Seq<SeriesRow>) -> Seq<int> {
    members.map_values(
        |m: SeriesRow| seen_count_of(db.episodes@, m.id) as int * episode_minutes(db, m),
    )
}

/// The largest catalog length among the series marked as watched elsewhere, with
/// its minutes; of equal ones the first.
pub open spec fn external(db: Db, members: Seq<SeriesRow>) -> (int, int)
    decreases members.len(),
{
    if members.len() == 0 {
        (0, 0)
    } else {
        let before = external(db, members.drop_last());
        let m = members.last();
        match catalog_length(db, m) {
            Some(e) => if m.watched_externally && e > before.0 {
                (e, e * episode_minutes(db, m))
            } else {
                before
            },
            None => before,
        }
    }
}

/// The first key of a show that one of the series may be an arc of.
pub open spec fn first_parent(members: Seq<SeriesRow>) -> Option<Seq<char>>
    decreases members.len(),
{
    if members.len() == 0 {
        None
    } else {
        match first_parent(members.drop_last()) {
            Some(p) => Some(p),
            None => parent_franchise(members.last().title@),
        }
    }
}

/// Whether a title is the one among those of a franchise's series that is shown
/// for it.
pub open spec fn shown_for(members: Seq<SeriesRow>, title: Seq<char>) -> bool {
    &&& exists|k: int|
        0 <= k < members.len() && display_title((#[trigger] members[k]).title@) == title
    &&& forall|k: int|
        0 <= k < members.len() ==> !shown_rather(
            display_title((#[trigger] members[k]).title@),
            title,
        )
}

/// Whether a group is that of a franchise with the given series.
pub open spec fn group_of(g: FranchiseGroup, db: Db, members: Seq<SeriesRow>) -> bool {
    &&& g.key@ == franchise(members[0].title@)
    &&& opt_text(g.parent) == first_parent(members)
    &&& shown_for(members, g.rollup.display_title@)
    &&& g.rollup.real_seen == sum_of(seen_counts(db, members))
    &&& g.rollup.real_minutes == sum_of(seen_minutes(db, members))
    &&& (g.rollup.external_episodes as int, g.rollup.external_minutes as int) == external(
        db,
        members,
    )
}

/// The keys of the franchises that series belong to.
pub open spec fn franchise_keys(rows: Seq<SeriesRow>) -> Seq<Seq<char>> {
    rows.map_values(|s: SeriesRow| franchise(s.title@))
}

/// The franchises with evidence of having been watched, each as the list of its
/// series.
pub open spec fn watched_franchises(db: Db) -> Seq<Seq<SeriesRow>> {
    let rows = db.series@.filter(evident(db));
    groups(franchise_keys(rows)).map_values(|g: Seq<int>| picked(rows, g))
}

/// Whether groups are those of the franchises, in their order.
pub open spec fn groups_of(gs: Seq<FranchiseGroup>, db: Db) -> bool {
    let shows = watched_franchises(db);
    &&& gs.len() == shows.len()
    &&& forall|g: int| 0 <= g < gs.len() ==> #[trigger] group_of(gs[g], db, shows[g])
}

/// Whether rollups are those of all franchises, arcs folded into their shows.
pub open spec fn rollups_of(rs: Seq<FranchiseRollup>, db: Db) -> bool {
    exists|gs: Seq<FranchiseGroup>| #[trigger] groups_of(gs, db) && folded_rollups(rs, gs)
}

/// What a series watched elsewhere is credited with: its length in the catalog
/// and the minutes of that.
pub open spec fn credit(db: Db, s: SeriesRow) -> int {
    match catalog_length(db, s) {
        Some(e) => if s.watched_externally && e > 0 {
            e + size(e * episode_minutes(db, s))
        } else {
            0
        },
        None => 0,
    }
}

/// The most that a series adds to sums over franchises: its seen episodes, their
/// minutes, and what it is credited with.
pub open spec fn stake(db: Db, s: SeriesRow) -> int {
    let seen = seen_count_of(db.episodes@, s.id) as int;
    seen + size(seen * episode_minutes(db, s)) + credit(db, s)
}

/// The most that series add to sums over franchises, all together.
pub open spec fn stakes(db: Db, rows: Seq<SeriesRow>) -> int {
    sum_of(rows.map_values(|s: SeriesRow| stake(db, s)))
}

/// The figure that is the stake of the series at a place.
pub open spec fn place_stake(db: Db, rows: Seq<SeriesRow>) -> spec_fn(int) -> int {
    |p: int| stake(db, rows[p])
}

/// All figures of a rollup together, without their signs.
pub open spec fn stake_figure() -> spec_fn(FranchiseRollup) -> int {
    |r: FranchiseRollup|
        size(r.real_seen as int) + size(r.real_minutes as int) + size(r.external_episodes as int)
            + size(r.external_minutes as int)
}

proof fn lemma_size_product(n: int, x: int)
    requires
        n >= 0,
    ensures
        size(n * x) == n * size(x),
{
    assert(n * (-x) == -(n * x)) by (nonlinear_arith);
    if x < 0 {
        assert(n * x <= 0) by (nonlinear_arith)
            requires
                n >= 0,
                x < 0,
        ;
    } else {
        assert(n * x >= 0) by (nonlinear_arith)
            requires
                n >= 0,
                x >= 0,
        ;
    }
}

proof fn lemma_stakes_push(db: Db, rows: Seq<SeriesRow>, s: SeriesRow)
    ensures
        stakes(db, rows.push(s)) == stakes(db, rows) + stake(db, s),
        stake(db, s) >= 0,
{
    let f = |s: SeriesRow| stake(db, s);
    assert(rows.push(s).map_values(f) =~= rows.map_values(f).push(f(s)));
    lemma_sum_push(rows.map_values(f), f(s));
}

/// Series add no less than the first of them.
proof fn lemma_stakes_prefix(db: Db, rows: Seq<SeriesRow>, m: int, n: int)
    requires
        0 <= m <= n <= rows.len(),
    ensures
        0 <= stakes(db, rows.take(m)) <= stakes(db, rows.take(n)),
    decreases n,
{
    if n > 0 {
        assert(rows.take(n) =~= rows.take(n - 1).push(rows[n - 1]));
        lemma_stakes_push(db, rows.take(n - 1), rows[n - 1]);
        if m < n {
            lemma_stakes_prefix(db, rows, m, n - 1);
        } else {
            lemma_stakes_prefix(db, rows, n - 1, n - 1);
        }
    } else {
        let f = |s: SeriesRow| stake(db, s);
        assert(rows.take(0).map_values(f) =~= Seq::empty());
    }
}

/// Stakes are the same by place and by row.
proof fn lemma_place_stakes(db: Db, rows: Seq<SeriesRow>, n: int)
    requires
        0 <= n <= rows.len(),
    ensures
        sum_to(n, place_stake(db, rows)) == stakes(db, rows.take(n)),
    decreases n,
{
    if n > 0 {
        lemma_place_stakes(db, rows, n - 1);
        assert(rows.take(n) =~= rows.take(n - 1).push(rows[n - 1]));
        lemma_stakes_push(db, rows.take(n - 1), rows[n - 1]);
    } else {
        let f = |s: SeriesRow| stake(db, s);
        assert(rows.take(0).map_values(f) =~= Seq::empty());
    }
}

impl Db {
    /// Whether sums of episodes and minutes over all franchises fit the numbers
    /// that hold them.
    pub open spec fn sums_fit(self) -> bool {
        stakes(self, self.series@) <= i64::MAX
    }

    /// The most that a series adds to sums over franchises.
    fn stake_of(&self, s: &SeriesRow) -> (r: u128)
        ensures
            r == stake(*self, *s),
            r <= 0xf000_0000_0000_0000_0000_0000_0000_0000,
    {
        let seen: u128 = self.seen_episodes(s.id) as u128;
        let per: i64 = self.minutes_of(s);
        let minutes: u128 = if per < 0 {
            (-(per as i128)) as u128
        } else {
            per as u128
        };
        proof {
            lemma_size_product(seen as int, per as int);
            assert(seen * minutes <= 0x8000_0000_0000_0000_0000_0000_0000_0000)
                by (nonlinear_arith)
                requires
                    seen <= 0x1_0000_0000_0000_0000,
                    minutes <= 0x8000_0000_0000_0000,
            ;
        }
        let marked: u128 = seen + seen * minutes;
        if !s.watched_externally {
            return marked;
        }
        if let Some(c) = self.find_linked(s.anilist_id) {
            if let Some(e) = self.catalog[c].episodes {
                if e > 0 {
                    let length: u128 = e as u128;
                    proof {
                        lemma_size_product(length as int, per as int);
                        assert(length * minutes <= 0x4000_0000_0000_0000_0000_0000_0000_0000)
                            by (nonlinear_arith)
                            requires
                                length <= 0x8000_0000_0000_0000,
                                minutes <= 0x8000_0000_0000_0000,
                        ;
                    }
                    return marked + length + length * minutes;
                }
            }
        }
        marked
    }

    /// Whether sums of episodes and minutes over all franchises fit the numbers
    /// that hold them.
    pub fn check_sums(&self) -> (r: bool)
        ensures
            r == self.sums_fit(),
    {
        let mut total: u128 = 0;
        let mut i: usize = 0;
        proof {
            lemma_place_stakes(*self, self.series@, 0);
        }
        while i < self.series.len()
            invariant
                i <= self.series@.len(),
                total == stakes(*self, self.series@.take(i as int)),
                total <= i64::MAX,
            decreases self.series@.len() - i,
        {
            proof {
                let rows = self.series@;
                assert(rows.take(i + 1) =~= rows.take(i as int).push(rows[i as int]));
                lemma_stakes_push(*self, rows.take(i as int), rows[i as int]);
                lemma_stakes_prefix(*self, rows, i + 1, rows.len() as int);
                assert(rows.take(rows.len() as int) =~= rows);
            }
            total = total + self.stake_of(&self.series[i]);
            if total > i64::MAX as u128 {
                return false;
            }
            i += 1;
        }
        assert(self.series@.take(i as int) =~= self.series@);
        true
    }

    /// The minutes of an episode.
    fn minutes_of(&self, s: &SeriesRow) -> (r: i64)
        ensures
            r == episode_minutes(*self, *s),
    {
        match self.find_linked(s.anilist_id) {
            Some(i) => {
                match self.catalog[i].duration {
                    Some(d) => d,
                    None => match &s.kind {
                        Some(k) => minutes_per_episode(Some(k.as_str())),
                        None => match &self.catalog[i].format {
                            Some(f) => minutes_per_episode(Some(f.as_str())),
                            None => minutes_per_episode(None),
                        },
                    },
                }
            },
            None => match &s.kind {
                Some(k) => minutes_per_episode(Some(k.as_str())),
                None => minutes_per_episode(None),
            },
        }
    }

    /// How many episodes of a series have been seen.
    pub fn seen_episodes(&self, id: i64) -> (r: usize)
        ensures
            r == seen_count_of(self.episodes@, id),
            r <= self.episodes@.len(),
    {
        let ghost hit = crate::db::series_lists::seen_of(id);
        let mut n: usize = 0;
        let mut i: usize = 0;
        proof {
            lemma_filter_none(self.episodes@, hit);
        }
        while i < self.episodes.len()
            invariant
                i <= self.episodes@.len(),
                hit == crate::db::series_lists::seen_of(id),
                n <= i,
                n == self.episodes@.take(i as int).filter(hit).len(),
            decreases self.episodes@.len() - i,
        {
            proof {
                lemma_filter_step(self.episodes@, hit, i as int);
            }
            if self.episodes[i].series_id == id && self.episodes[i].seen {
                n += 1;
            }
            i += 1;
        }
        proof {
            lemma_filter_none(self.episodes@, hit);
        }
        n
    }

    /// The group of a franchise.
    fn franchise_group(&self, members: &Vec<SeriesRow>) -> (r: FranchiseGroup)
        requires
            0 < members@.len(),
            stakes(*self, members@) <= i64::MAX,
        ensures
            group_of(r, *self, members@),
            stake_figure()(r.rollup) <= stakes(*self, members@),
    {
        let key = franchise_key(members[0].title.as_str());
        let mut parent: Option<String> = None;
        let mut display = franchise_display_title(members[0].title.as_str());
        let mut seen: i64 = 0;
        let mut minutes: i64 = 0;
        let mut episodes: i64 = 0;
        let mut external_minutes: i64 = 0;
        let ghost fs = |m: SeriesRow| seen_count_of(self.episodes@, m.id) as int;
        let ghost fm = |m: SeriesRow|
            seen_count_of(self.episodes@, m.id) as int * episode_minutes(*self, m);
        let ghost mut best: int = 0;
        let mut i: usize = 0;
        proof {
            assert(members@.take(0) =~= Seq::empty());
            assert(members@.take(0).map_values(fs) =~= Seq::empty());
            assert(members@.take(0).map_values(fm) =~= Seq::empty());
            lemma_stakes_prefix(*self, members@, 0, 0);
            assert(members@.take(members@.len() as int) =~= members@);
        }
        while i < members.len()
            invariant
                i <= members@.len(),
                stakes(*self, members@.take(members@.len() as int)) <= i64::MAX,
                fs == (|m: SeriesRow| seen_count_of(self.episodes@, m.id) as int),
                fm == (|m: SeriesRow|
                    seen_count_of(self.episodes@, m.id) as int * episode_minutes(*self, m)),
                0 <= best < members@.len(),
                display@ == display_title(members@[best].title@),
                forall|k: int|
                    0 <= k < i ==> !shown_rather(
                        display_title((#[trigger] members@[k]).title@),
                        display@,
                    ),
                opt_text(parent) == first_parent(members@.take(i as int)),
                seen == sum_of(members@.take(i as int).map_values(fs)),
                minutes == sum_of(members@.take(i as int).map_values(fm)),
                (episodes as int, external_minutes as int) == external(
                    *self,
                    members@.take(i as int),
                ),
                0 <= seen,
                0 <= episodes,
                seen + size(minutes as int) + episodes + size(external_minutes as int) <= stakes(
                    *self,
                    members@.take(i as int),
                ),
            decreases members@.len() - i,
        {
            let m = &members[i];
            let ghost before = members@.take(i as int);
            let n: usize = self.seen_episodes(m.id);
            let per: i64 = self.minutes_of(m);
            proof {
                assert(members@.take(i + 1) =~= before.push(*m));
                assert(before.push(*m).drop_last() =~= before);
                assert(before.push(*m).map_values(fs) =~= before.map_values(fs).push(fs(*m)));
                assert(before.push(*m).map_values(fm) =~= before.map_values(fm).push(fm(*m)));
                lemma_sum_push(before.map_values(fs), fs(*m));
                lemma_sum_push(before.map_values(fm), fm(*m));
                lemma_stakes_push(*self, before, *m);
                lemma_stakes_prefix(*self, members@, i + 1, members@.len() as int);
            }
            seen = seen + n as i64;
            minutes = minutes + n as i64 * per;
            if parent.is_none() {
                parent = franchise_parent_key(m.title.as_str());
            }
            let name = franchise_display_title(m.title.as_str());
            let better: bool = prefer_display_title(name.as_str(), display.as_str());
            proof {
                law_shown_rather_orders(name@, name@, name@);
                if better {
                    assert forall|k: int| 0 <= k < i implies !shown_rather(
                        display_title((#[trigger] members@[k]).title@),
                        name@,
                    ) by {
                        let t = display_title(members@[k].title@);
                        law_shown_rather_orders(name@, display@, t);
                        law_shown_rather_orders(t, name@, display@);
                    }
                    best = i as int;
                }
            }
            if better {
                display = name;
            }
            if m.watched_externally {
                if let Some(c) = self.find_linked(m.anilist_id) {
                    if let Some(e) = self.catalog[c].episodes {
                        if e > episodes {
                            episodes = e;
                            external_minutes = e * per;
                        }
                    }
                }
            }
            i += 1;
        }
        assert(members@.take(i as int) =~= members@);
        FranchiseGroup {
            key,
            parent,
            rollup: FranchiseRollup {
                display_title: display,
                real_seen: seen,
                real_minutes: minutes,
                external_episodes: episodes,
                external_minutes,
            },
        }
    }

    /// What was watched of every franchise, over all seasons and sites, arcs
    /// folded into their shows.
    pub fn franchise_rollups(&self) -> (r: Result<Vec<FranchiseRollup>, DbError>)
        requires
            self.sums_fit(),
        ensures
            r is Ok,
            rollups_of(r->Ok_0@, *self),
            r->Ok_0@.len() <= self.series@.len(),
            rollup_sum(r->Ok_0@, r->Ok_0@.len() as int, stake_figure()) <= i64::MAX,
    {
        let ghost hit = evident(*self);
        let mut rows: Vec<SeriesRow> = Vec::new();
        let mut keys: Vec<String> = Vec::new();
        let mut i: usize = 0;
        proof {
            lemma_filter_none(self.series@, hit);
            assert(key_views(keys@) =~= franchise_keys(rows@));
            lemma_place_stakes(*self, self.series@, 0);
            lemma_place_stakes(*self, rows@, 0);
            assert(rows@.take(0) =~= rows@);
        }
        while i < self.series.len()
            invariant
                i <= self.series@.len(),
                stakes(*self, rows@) <= stakes(*self, self.series@.take(i as int)),
                hit == evident(*self),
                rows@ == self.series@.take(i as int).filter(hit),
                key_views(keys@) == franchise_keys(rows@),
            decreases self.series@.len() - i,
        {
            proof {
                lemma_filter_step(self.series@, hit, i as int);
                assert(self.series@.take(i + 1) =~= self.series@.take(i as int).push(
                    self.series@[i as int],
                ));
                lemma_stakes_push(*self, self.series@.take(i as int), self.series@[i as int]);
                lemma_stakes_push(*self, rows@, self.series@[i as int]);
            }
            let s = &self.series[i];
            if s.watched_externally || self.seen_episodes(s.id) > 0 {
                let key = franchise_key(s.title.as_str());
                let ghost before = rows@;
                let ghost before_keys = keys@;
                keys.push(key);
                rows.push(s.copy());
                proof {
                    assert(franchise_keys(before.push(*s)) =~= franchise_keys(before).push(
                        franchise(s.title@),
                    ));
                    assert(key_views(before_keys.push(key)) =~= key_views(before_keys).push(key@));
                }
            }
            i += 1;
        }
        proof {
            lemma_filter_none(self.series@, hit);
            self.series@.lemma_filter_len(hit);
            assert(self.series@.take(i as int) =~= self.series@);
            lemma_place_stakes(*self, rows@, rows@.len() as int);
            assert(rows@.take(rows@.len() as int) =~= rows@);
        }
        let shows = group_rows(&keys);
        let ghost want = watched_franchises(*self);
        let ghost names = franchise_keys(rows@);
        let ghost gs = groups(names);
        let ghost heads = leaders(names);
        let ghost figure = place_stake(*self, rows@);
        proof {
            lemma_groups(names);
            assert(names.len() == rows@.len());
            assert forall|p: int| 0 <= p < names.len() implies #[trigger] figure(p) >= 0 by {
                lemma_stakes_push(*self, rows@, rows@[p]);
            }
            lemma_group_total(names, figure);
        }
        let mut list: Vec<FranchiseGroup> = Vec::new();
        let mut g: usize = 0;
        while g < shows.len()
            invariant
                g <= shows@.len(),
                rows@ == self.series@.filter(evident(*self)),
                figure == place_stake(*self, rows@),
                forall|p: int| 0 <= p < names.len() ==> #[trigger] figure(p) >= 0,
                names == franchise_keys(rows@),
                names.len() == rows@.len(),
                gs == groups(names),
                heads == leaders(names),
                gs.len() == heads.len(),
                led_sum(names, heads, heads.len() as int, figure) <= i64::MAX,
                as_groups(shows@) == gs,
                want == watched_franchises(*self),
                forall|h: int| 0 <= h < gs.len() ==> (#[trigger] gs[h]).len() > 0,
                forall|h: int, m: int|
                    0 <= h < gs.len() && 0 <= m < gs[h].len() ==> 0 <= #[trigger] gs[h][m]
                        < rows@.len(),
                list@.len() == g,
                forall|h: int| 0 <= h < g ==> #[trigger] group_of(list@[h], *self, want[h]),
                total_size(list@, g as int, stake_figure()) <= led_sum(
                    names,
                    heads,
                    g as int,
                    figure,
                ),
            decreases shows@.len() - g,
        {
            proof {
                assert(gs[g as int] == as_groups(shows@)[g as int]);
                assert(gs[g as int].len() == shows@[g as int]@.len());
                assert forall|k: int| 0 <= k < shows@[g as int]@.len() implies
                    #[trigger] shows@[g as int]@[k] < rows@.len() by {
                    assert(gs[g as int][k] == shows@[g as int]@[k] as int);
                }
                lemma_led_sum_monotone(names, heads, 0, g as int, figure);
                lemma_led_sum_monotone(names, heads, g + 1, heads.len() as int, figure);
                assert(gs[g as int] == places(names, names[heads[g as int]]));
            }
            let members = pick_rows(&rows, &shows[g]);
            proof {
                assert(members@ == want[g as int]);
                let f = |s: SeriesRow| stake(*self, s);
                assert(members@.map_values(f) =~= gs[g as int].map_values(figure));
                assert(stakes(*self, members@) == sum_at(gs[g as int], figure));
            }
            let group = self.franchise_group(&members);
            let ghost had = list@;
            list.push(group);
            proof {
                lemma_total_size_same(had, list@, g as int, stake_figure());
            }
            g += 1;
        }
        proof {
            lemma_total_size_less(list@, g as int, seen_figure());
            lemma_total_size_less(list@, g as int, minutes_figure());
            assert(groups_of(list@, *self));
        }
        let out = merge_into_parent_franchises(&list);
        proof {
            lemma_rollup_stakes(out@, list@, out@.len() as int);
            lemma_survivors(list@, g as int);
            law_nothing_absorbed_twice(
                list@,
                survivors(list@, g as int),
                out@.len() as int,
                g as int,
                stake_figure(),
            );
            assert(gs.len() <= names.len());
        }
        Ok(out)
    }
}

/// Sizes depend on the franchises alone.
proof fn lemma_total_size_same(
    a: Seq<FranchiseGroup>,
    b: Seq<FranchiseGroup>,
    n: int,
    figure: spec_fn(FranchiseRollup) -> int,
)
    requires
        0 <= n <= a.len(),
        n <= b.len(),
        forall|k: int| 0 <= k < n ==> #[trigger] a[k] == b[k],
    ensures
        total_size(a, n, figure) == total_size(b, n, figure),
    decreases n,
{
    if n > 0 {
        lemma_total_size_same(a, b, n - 1, figure);
        assert(a[n - 1] == b[n - 1]);
    }
}

/// The episodes and the minutes are each no larger than all figures together.
proof fn lemma_total_size_less(
    gs: Seq<FranchiseGroup>,
    n: int,
    figure: spec_fn(FranchiseRollup) -> int,
)
    requires
        0 <= n <= gs.len(),
        figure == seen_figure() || figure == minutes_figure(),
    ensures
        total_size(gs, n, figure) <= total_size(gs, n, stake_figure()),
    decreases n,
{
    if n > 0 {
        lemma_total_size_less(gs, n - 1, figure);
    }
}

/// The sum of a figure over the first `n` rollups.
pub open spec fn rollup_sum(
    rs: Seq<FranchiseRollup>,
    n: int,
    figure: spec_fn(FranchiseRollup) -> int,
) -> int
    decreases n,
{
    if n <= 0 {
        0
    } else {
        rollup_sum(rs, n - 1, figure) + figure(rs[n - 1])
    }
}

/// Figures that are never negative sum up to no less over more rollups.
pub proof fn lemma_stake_sum_monotone(rs: Seq<FranchiseRollup>, m: int, n: int)
    requires
        0 <= m <= n <= rs.len(),
    ensures
        0 <= rollup_sum(rs, m, stake_figure()) <= rollup_sum(rs, n, stake_figure()),
    decreases n,
{
    if m < n {
        lemma_stake_sum_monotone(rs, m, n - 1);
    } else if n > 0 {
        lemma_stake_sum_monotone(rs, m - 1, n - 1);
    }
}

/// The figures of a rollup come from what is folded into it.
proof fn lemma_folded_stake(gs: Seq<FranchiseGroup>, g: int, n: int)
    requires
        0 <= g < gs.len(),
        0 <= n <= gs.len(),
        home(gs, g) == g,
    ensures
        ({
            let e = absorbed_external(gs, g, n);
            let own = gs[g].rollup;
            size(absorbed(gs, g, n, seen_figure())) + size(absorbed(gs, g, n, minutes_figure()))
                + size(e.0) + size(e.1) <= absorbed(gs, g, n, stake_figure()) + if n <= g {
                size(own.external_episodes as int) + size(own.external_minutes as int)
            } else {
                0
            }
        }),
    decreases n,
{
    if n > 0 {
        lemma_folded_stake(gs, g, n - 1);
    }
}

proof fn lemma_rollup_stakes(rs: Seq<FranchiseRollup>, gs: Seq<FranchiseGroup>, m: int)
    requires
        folded_rollups(rs, gs),
        0 <= m <= rs.len(),
    ensures
        rollup_sum(rs, m, stake_figure()) <= absorbed_by_all(
            gs,
            survivors(gs, gs.len() as int),
            m,
            gs.len() as int,
            stake_figure(),
        ),
    decreases m,
{
    if m > 0 {
        let n = gs.len() as int;
        let homes = survivors(gs, n);
        lemma_rollup_stakes(rs, gs, m - 1);
        lemma_survivors(gs, n);
        assert(0 <= homes[m - 1] < n);
        assert(folded_rollup(rs[m - 1], gs, homes[m - 1]));
        lemma_folded_stake(gs, homes[m - 1], n);
    }
}

/// What was watched of every franchise is determined by the tables: whatever
/// screen asks, the figures are the same.
pub proof fn law_rollups_determined(db: Db, x: Seq<FranchiseRollup>, y: Seq<FranchiseRollup>)
    requires
        rollups_of(x, db),
        rollups_of(y, db),
    ensures
        x.len() == y.len(),
        forall|i: int| 0 <= i < x.len() ==> same_rollup(#[trigger] x[i], y[i]),
{
    let a = choose|gs: Seq<FranchiseGroup>| #[trigger] groups_of(gs, db) && folded_rollups(x, gs);
    let b = choose|gs: Seq<FranchiseGroup>| #[trigger] groups_of(gs, db) && folded_rollups(y, gs);
    let shows = watched_franchises(db);
    assert forall|g: int| 0 <= g < a.len() implies same_group(
        #[trigger] a[g],
        b[g],
    ) by {
        assert(group_of(a[g], db, shows[g]));
        assert(group_of(b[g], db, shows[g]));
        let s = a[g].rollup.display_title@;
        let t = b[g].rollup.display_title@;
        law_shown_rather_orders(s, t, t);
    }
    lemma_same_rollups(a, b, x, y);
}

} // verus!
