//! What the figures of the summary add up to.

use vstd::prelude::*;
use crate::db::franchise::{larger, FranchiseRollup};
use crate::db::grouping::picked;
use crate::db::library_list::seen_count_of;
use crate::db::parents::{
    absorbed_by_all, climb, folded_rollup, folded_rollups, home, keyed_at,
    lemma_survivors, seen_figure, step_up, survivors, FranchiseGroup,
    MAX_DEPTH,
};
use crate::db::rollups::{
    evident, franchise_keys, group_of, groups_of, rollup_sum, seen_counts, watched_franchises,
};
use crate::db::series::{series_at, with_id};
use crate::db::series_lists::seen_of;
use crate::db::stats::{extra_figure, seen, summary_of};
use crate::db::{series_keyed, Db, EpisodeRow, SeriesRow};
use crate::models::WatchSummary;
use crate::rows::{
    count_where, groups, leaders, led_sum, lemma_filter_none, lemma_filter_step,
    lemma_first_where_none, lemma_groups, lemma_group_total, places, sum_to,
};

verus! {

/// The episodes credited to a franchise: the larger of the two counts.
pub open spec fn credited_figure() -> spec_fn(FranchiseRollup) -> int {
    |r: FranchiseRollup| larger(r.real_seen as int, r.external_episodes as int)
}

/// Whether every franchise is folded into one that is not folded itself: no arc
/// hangs off its show by more steps than are followed.
pub open spec fn settled(gs: Seq<FranchiseGroup>) -> bool {
    forall|g: int| 0 <= g < gs.len() ==> home(gs, #[trigger] home(gs, g)) == home(gs, g)
}

/// The sum of a figure over the first `n` franchises.
pub open spec fn group_sum(
    gs: Seq<FranchiseGroup>,
    n: int,
    figure: spec_fn(FranchiseRollup) -> int,
) -> int
    decreases n,
{
    if n <= 0 {
        0
    } else {
        group_sum(gs, n - 1, figure) + figure(gs[n - 1].rollup)
    }
}

proof fn lemma_keyed_at_bounded(gs: Seq<FranchiseGroup>, key: Seq<char>)
    ensures
        0 <= keyed_at(gs, key) <= gs.len(),
    decreases gs.len(),
{
    if gs.len() > 0 {
        lemma_keyed_at_bounded(gs.drop_first(), key);
    }
}

pub proof fn lemma_climb_bounded(gs: Seq<FranchiseGroup>, g: int, steps: nat)
    requires
        0 <= g < gs.len(),
    ensures
        0 <= climb(gs, g, steps) < gs.len(),
    decreases steps,
{
    if gs[g].parent is Some {
        lemma_keyed_at_bounded(gs, gs[g].parent->0@);
    }
    if steps > 0 && step_up(gs, g) != g {
        lemma_climb_bounded(gs, step_up(gs, g), (steps - 1) as nat);
    }
}

pub proof fn lemma_survives(gs: Seq<FranchiseGroup>, n: int, h: int)
    requires
        0 <= h < n,
        home(gs, h) == h,
    ensures
        survivors(gs, n).contains(h),
    decreases n,
{
    let now = survivors(gs, n);
    let before = survivors(gs, n - 1);
    if h == n - 1 {
        assert(now[before.len() as int] == h);
    } else {
        lemma_survives(gs, n - 1, h);
        let i = choose|i: int| 0 <= i < before.len() && before[i] == h;
        assert(now[i] == h);
    }
}

proof fn lemma_absorbed_once(
    gs: Seq<FranchiseGroup>,
    homes: Seq<int>,
    m: int,
    n: int,
    figure: spec_fn(FranchiseRollup) -> int,
)
    requires
        0 < n,
        0 <= m <= homes.len(),
        homes.no_duplicates(),
    ensures
        ({
            let now = absorbed_by_all(gs, homes, m, n, figure);
            let before = absorbed_by_all(gs, homes, m, n - 1, figure);
            let taken = exists|i: int| 0 <= i < m && #[trigger] homes[i] == home(gs, n - 1);
            now == before + if taken { figure(gs[n - 1].rollup) } else { 0 }
        }),
    decreases m,
{
    if m > 0 {
        lemma_absorbed_once(gs, homes, m - 1, n, figure);
        let h = home(gs, n - 1);
        if homes[m - 1] == h {
            assert forall|i: int| 0 <= i < m - 1 implies #[trigger] homes[i] != h by {
                assert(homes[i] != homes[m - 1]);
            }
        } else if exists|i: int| 0 <= i < m && #[trigger] homes[i] == h {
            let i = choose|i: int| 0 <= i < m && #[trigger] homes[i] == h;
            assert(i < m - 1);
        }
    }
}

pub proof fn lemma_all_absorbed(
    gs: Seq<FranchiseGroup>,
    n: int,
    figure: spec_fn(FranchiseRollup) -> int,
)
    requires
        0 <= n <= gs.len(),
        settled(gs),
    ensures
        ({
            let homes = survivors(gs, gs.len() as int);
            absorbed_by_all(gs, homes, homes.len() as int, n, figure) == group_sum(gs, n, figure)
        }),
    decreases n,
{
    let homes = survivors(gs, gs.len() as int);
    lemma_survivors(gs, gs.len() as int);
    if n > 0 {
        lemma_all_absorbed(gs, n - 1, figure);
        lemma_absorbed_once(gs, homes, homes.len() as int, n, figure);
        let h = home(gs, n - 1);
        lemma_climb_bounded(gs, n - 1, MAX_DEPTH as nat);
        lemma_survives(gs, gs.len() as int, h);
        let i = choose|i: int| 0 <= i < homes.len() && homes[i] == h;
        assert(homes[i] == h);
    } else {
        lemma_nothing_absorbed(gs, homes, homes.len() as int, figure);
    }
}

proof fn lemma_nothing_absorbed(
    gs: Seq<FranchiseGroup>,
    homes: Seq<int>,
    m: int,
    figure: spec_fn(FranchiseRollup) -> int,
)
    ensures
        absorbed_by_all(gs, homes, m, 0, figure) == 0,
    decreases m,
{
    if m > 0 {
        lemma_nothing_absorbed(gs, homes, m - 1, figure);
    }
}

proof fn lemma_rollups_absorb(rs: Seq<FranchiseRollup>, gs: Seq<FranchiseGroup>, m: int)
    requires
        folded_rollups(rs, gs),
        0 <= m <= rs.len(),
    ensures
        rollup_sum(rs, m, seen_figure()) == absorbed_by_all(
            gs,
            survivors(gs, gs.len() as int),
            m,
            gs.len() as int,
            seen_figure(),
        ),
    decreases m,
{
    if m > 0 {
        lemma_rollups_absorb(rs, gs, m - 1);
        let homes = survivors(gs, gs.len() as int);
        assert(folded_rollup(rs[m - 1], gs, homes[m - 1]));
    }
}

/// How many episodes of the series at a place have been seen.
spec fn place_seen(db: Db, rows: Seq<SeriesRow>) -> spec_fn(int) -> int {
    |p: int| seen_count_of(db.episodes@, rows[p].id) as int
}

/// The seen episodes of series, all together.
spec fn seen_total(db: Db, rows: Seq<SeriesRow>) -> int
    decreases rows.len(),
{
    if rows.len() == 0 {
        0
    } else {
        seen_total(db, rows.drop_last()) + seen_count_of(db.episodes@, rows.last().id)
    }
}

proof fn lemma_groups_sum(db: Db, gs: Seq<FranchiseGroup>, n: int)
    requires
        groups_of(gs, db),
        0 <= n <= gs.len(),
    ensures
        ({
            let rows = db.series@.filter(evident(db));
            let names = franchise_keys(rows);
            group_sum(gs, n, seen_figure()) == led_sum(
                names,
                leaders(names),
                n,
                place_seen(db, rows),
            )
        }),
    decreases n,
{
    if n > 0 {
        lemma_groups_sum(db, gs, n - 1);
        let rows = db.series@.filter(evident(db));
        let names = franchise_keys(rows);
        lemma_groups(names);
        let members = watched_franchises(db)[n - 1];
        let at = groups(names)[n - 1];
        assert(group_of(gs[n - 1], db, members));
        assert(at == places(names, names[leaders(names)[n - 1]]));
        assert(members == picked(rows, at));
        assert(seen_counts(db, members) =~= at.map_values(place_seen(db, rows)));
    }
}

proof fn lemma_places_sum(db: Db, rows: Seq<SeriesRow>, n: int)
    requires
        0 <= n <= rows.len(),
    ensures
        sum_to(n, place_seen(db, rows)) == seen_total(db, rows.take(n)),
    decreases n,
{
    if n > 0 {
        lemma_places_sum(db, rows, n - 1);
        assert(rows.take(n).drop_last() =~= rows.take(n - 1));
    }
}

proof fn lemma_evident_total(db: Db, n: int)
    requires
        0 <= n <= db.series@.len(),
    ensures
        seen_total(db, db.series@.take(n).filter(evident(db))) == seen_total(
            db,
            db.series@.take(n),
        ),
    decreases n,
{
    let rows = db.series@;
    if n > 0 {
        lemma_evident_total(db, n - 1);
        lemma_filter_step(rows, evident(db), n - 1);
        assert(rows.take(n).drop_last() =~= rows.take(n - 1));
        let before = rows.take(n - 1).filter(evident(db));
        assert(before.push(rows[n - 1]).drop_last() =~= before);
    } else {
        lemma_filter_none(rows, evident(db));
        assert(rows.take(0) =~= Seq::empty());
    }
}

/// How many of the first `n` episodes have been seen, over all series.
spec fn seen_in(series: Seq<SeriesRow>, episodes: Seq<EpisodeRow>) -> int
    decreases series.len(),
{
    if series.len() == 0 {
        0
    } else {
        seen_in(series.drop_last(), episodes) + count_where(episodes, seen_of(series.last().id))
    }
}

proof fn lemma_seen_in_step(series: Seq<SeriesRow>, episodes: Seq<EpisodeRow>, n: int, m: int)
    requires
        0 < n <= episodes.len(),
        0 <= m <= series.len(),
        forall|i: int, j: int|
            0 <= i < j < series.len() ==> #[trigger] series[i].id < #[trigger] series[j].id,
    ensures
        ({
            let e = episodes[n - 1];
            let had = exists|i: int| 0 <= i < m && (#[trigger] series[i]).id == e.series_id;
            seen_in(series.take(m), episodes.take(n)) == seen_in(
                series.take(m),
                episodes.take(n - 1),
            ) + if had && e.seen { 1int } else { 0 }
        }),
    decreases m,
{
    if m > 0 {
        lemma_seen_in_step(series, episodes, n, m - 1);
        let e = episodes[n - 1];
        let s = series[m - 1];
        assert(series.take(m).drop_last() =~= series.take(m - 1));
        assert(series.take(m).last() == s);
        lemma_filter_step(episodes, seen_of(s.id), n - 1);
        if s.id == e.series_id {
            assert forall|i: int| 0 <= i < m - 1 implies (#[trigger] series[i]).id
                != e.series_id by {
                assert(series[i].id < series[m - 1].id);
            }
        } else if exists|i: int| 0 <= i < m && (#[trigger] series[i]).id == e.series_id {
            let i = choose|i: int| 0 <= i < m && (#[trigger] series[i]).id == e.series_id;
            assert(i < m - 1);
        }
    } else {
        assert(series.take(0) =~= Seq::empty());
    }
}

proof fn lemma_seen_in(series: Seq<SeriesRow>, episodes: Seq<EpisodeRow>, n: int)
    requires
        series_keyed(series),
        0 <= n <= episodes.len(),
        forall|k: int|
            0 <= k < episodes.len() && (#[trigger] episodes[k]).seen ==> series_at(
                series,
                episodes[k].series_id,
            ) is Some,
    ensures
        seen_in(series, episodes.take(n)) == count_where(episodes.take(n), seen()),
    decreases n,
{
    assert(series.take(series.len() as int) =~= series);
    if n > 0 {
        lemma_seen_in(series, episodes, n - 1);
        lemma_seen_in_step(series, episodes, n, series.len() as int);
        lemma_filter_step(episodes, seen(), n - 1);
        let e = episodes[n - 1];
        if e.seen {
            if forall|i: int| 0 <= i < series.len() ==> (#[trigger] series[i]).id != e.series_id {
                assert forall|i: int| 0 <= i < series.len() implies !with_id(e.series_id)(
                    #[trigger] series[i],
                ) by {}
                lemma_first_where_none(series, with_id(e.series_id));
            }
        }
    } else {
        lemma_filter_none(episodes, seen());
        lemma_seen_in_none(series, episodes);
    }
}

proof fn lemma_seen_in_none(series: Seq<SeriesRow>, episodes: Seq<EpisodeRow>)
    ensures
        seen_in(series, episodes.take(0)) == 0,
    decreases series.len(),
{
    if series.len() > 0 {
        lemma_seen_in_none(series.drop_last(), episodes);
        lemma_filter_none(episodes, seen_of(series.last().id));
    }
}

proof fn lemma_seen_total(db: Db, series: Seq<SeriesRow>)
    ensures
        seen_total(db, series) == seen_in(series, db.episodes@),
    decreases series.len(),
{
    if series.len() > 0 {
        lemma_seen_total(db, series.drop_last());
    }
}

proof fn lemma_credited(rs: Seq<FranchiseRollup>, n: int)
    ensures
        rollup_sum(rs, n, seen_figure()) + rollup_sum(rs, n, extra_figure()) == rollup_sum(
            rs,
            n,
            credited_figure(),
        ),
    decreases n,
{
    if n > 0 {
        lemma_credited(rs, n - 1);
    }
}

/// No episode is counted twice: the episodes marked seen and those credited
/// beyond them add up, over all franchises, to the larger of the two counts of
/// each. This is so where every seen episode is one of a known series, and
/// every franchise is folded into one that is not folded itself.
pub proof fn law_summary_counts_once(db: Db, v: WatchSummary, rs: Seq<FranchiseRollup>)
    requires
        db.well_formed(),
        summary_of(v, db, rs),
        forall|k: int|
            0 <= k < db.episodes@.len() && (#[trigger] db.episodes@[k]).seen ==> series_at(
                db.series@,
                db.episodes@[k].series_id,
            ) is Some,
        forall|gs: Seq<FranchiseGroup>| #[trigger] groups_of(gs, db) ==> settled(gs),
    ensures
        v.episodes_watched == rollup_sum(rs, rs.len() as int, seen_figure()),
        v.episodes_watched + v.episodes_watched_external == rollup_sum(
            rs,
            rs.len() as int,
            credited_figure(),
        ),
{
    let gs = choose|gs: Seq<FranchiseGroup>| #[trigger] groups_of(gs, db) && folded_rollups(rs, gs);
    let n = gs.len() as int;
    let rows = db.series@.filter(evident(db));
    let names = franchise_keys(rows);
    lemma_rollups_absorb(rs, gs, rs.len() as int);
    lemma_all_absorbed(gs, n, seen_figure());
    lemma_groups_sum(db, gs, n);
    lemma_groups(names);
    lemma_group_total(names, place_seen(db, rows));
    lemma_places_sum(db, rows, rows.len() as int);
    assert(rows.take(rows.len() as int) =~= rows);
    lemma_evident_total(db, db.series@.len() as int);
    assert(db.series@.take(db.series@.len() as int) =~= db.series@);
    lemma_seen_total(db, db.series@);
    lemma_seen_in(db.series@, db.episodes@, db.episodes@.len() as int);
    assert(db.episodes@.take(db.episodes@.len() as int) =~= db.episodes@);
    lemma_credited(rs, rs.len() as int);
}

} // verus!
