//! The figures: what they add up, and what none of them leaves out.

use vstd::prelude::*;
use crate::calendar::{day_text, days_before, days_up_to, previous_day, CivilDate, Day};
use crate::db::franchise::{
    display_title, franchise, larger, parent_franchise, shown_rather, FranchiseRollup,
};
use crate::db::grouping::picked;
use crate::db::library_list::seen_count_of;
use crate::db::parents::{
    absorbed_by_all, climb, folded_rollup, folded_rollups, home, keyed_at, lemma_survivors,
    minutes_figure, step_up, survivors, FranchiseGroup,
};
use crate::db::rollups::{
    episode_minutes, evident, first_parent, franchise_keys, group_of, groups_of, rollup_sum,
    rollups_of, seen_counts, seen_minutes, watched_franchises,
};
use crate::db::series::series_at;
use crate::db::stats::{
    by_episodes, by_franchise, counts_toward_total, elsewhere, estimated, extra_figure,
    extra_minutes_figure, insights_of, of_followed, shows_with, summary_of, title_count,
    title_counts, top_titles, ShowFilter,
};
use crate::db::totals::{
    group_sum, lemma_all_absorbed, lemma_climb_bounded, lemma_survives, settled,
};
use crate::db::{Db, EpisodeRow, SeriesRow};
use crate::laws::credit::credits;
use crate::laws::lists::{law_sums_add_up, lemma_filter_member};
use crate::models::{TitleCount, WatchInsights, WatchSummary};
use crate::rows::{
    carried, count_where, gathered, groups, law_sorted_is_in_order, law_sorted_is_permutation,
    leaders, led_sum, lemma_filter_none, lemma_filter_step, lemma_gathered, lemma_group_total,
    lemma_groups, lemma_sorted_contains, orders, places, sorted, sum_of, sum_to,
};
use crate::text::{lemma_precedes_total, lemma_precedes_transitive, precedes};

verus! {

/// What a franchise's series add to its figures: a series adds its seen episodes,
/// and for each of them the minutes of an episode.
pub proof fn law_series_add_up(db: Db, a: Seq<SeriesRow>, b: Seq<SeriesRow>, s: SeriesRow)
    ensures
        sum_of(seen_counts(db, a + b)) == sum_of(seen_counts(db, a)) + sum_of(seen_counts(db, b)),
        sum_of(seen_minutes(db, a + b)) == sum_of(seen_minutes(db, a)) + sum_of(
            seen_minutes(db, b),
        ),
        sum_of(seen_counts(db, seq![s])) == seen_count_of(db.episodes@, s.id),
        sum_of(seen_minutes(db, seq![s])) == seen_count_of(db.episodes@, s.id) * episode_minutes(
            db,
            s,
        ),
{
    assert(seen_counts(db, a + b) =~= seen_counts(db, a) + seen_counts(db, b));
    assert(seen_minutes(db, a + b) =~= seen_minutes(db, a) + seen_minutes(db, b));
    let x = seen_count_of(db.episodes@, s.id) as int;
    let y = x * episode_minutes(db, s);
    law_sums_add_up(seen_counts(db, a), seen_counts(db, b), x);
    law_sums_add_up(seen_minutes(db, a), seen_minutes(db, b), y);
    assert(seen_counts(db, seq![s]) =~= seq![x]);
    assert(seen_minutes(db, seq![s]) =~= seq![y]);
}

/// A total over franchises adds up what each of them has.
pub proof fn law_totals_add_up(
    a: Seq<FranchiseRollup>,
    b: Seq<FranchiseRollup>,
    r: FranchiseRollup,
    figure: spec_fn(FranchiseRollup) -> int,
)
    ensures
        rollup_sum(a + b, (a + b).len() as int, figure) == rollup_sum(a, a.len() as int, figure)
            + rollup_sum(b, b.len() as int, figure),
        rollup_sum(seq![r], 1, figure) == figure(r),
{
    lemma_total_of_both(a, b, b.len() as int, figure);
    assert(rollup_sum(seq![r], 0, figure) == 0);
    assert(seq![r][0] == r);
}

proof fn lemma_total_of_both(
    a: Seq<FranchiseRollup>,
    b: Seq<FranchiseRollup>,
    n: int,
    figure: spec_fn(FranchiseRollup) -> int,
)
    requires
        0 <= n <= b.len(),
    ensures
        rollup_sum(a + b, a.len() + n, figure) == rollup_sum(a, a.len() as int, figure)
            + rollup_sum(b, n, figure),
    decreases n,
{
    if n > 0 {
        lemma_total_of_both(a, b, n - 1, figure);
        assert((a + b)[a.len() + n - 1] == b[n - 1]);
    } else {
        lemma_total_of_first(a, b, a.len() as int, figure);
    }
}

proof fn lemma_total_of_first(
    a: Seq<FranchiseRollup>,
    b: Seq<FranchiseRollup>,
    n: int,
    figure: spec_fn(FranchiseRollup) -> int,
)
    requires
        0 <= n <= a.len(),
    ensures
        rollup_sum(a + b, n, figure) == rollup_sum(a, n, figure),
    decreases n,
{
    if n > 0 {
        lemma_total_of_first(a, b, n - 1, figure);
        assert((a + b)[n - 1] == a[n - 1]);
    }
}

/// What is credited beyond the seen episodes: with them it makes up the larger of
/// the two counts, and with the minutes watched the larger of the two times. A
/// franchise with as many seen episodes as were credited has nothing beyond them.
pub proof fn law_credit_beyond_the_seen(r: FranchiseRollup)
    ensures
        extra_figure()(r) >= 0,
        r.external_episodes <= r.real_seen ==> extra_figure()(r) == 0 && extra_minutes_figure()(r)
            == 0,
        r.external_episodes >= r.real_seen ==> extra_figure()(r) == r.external_episodes
            - r.real_seen,
        extra_minutes_figure()(r) >= 0,
        r.external_episodes > r.real_seen && r.external_minutes >= r.real_minutes
            ==> extra_minutes_figure()(r) == r.external_minutes - r.real_minutes,
        r.external_minutes <= r.real_minutes ==> extra_minutes_figure()(r) == 0,
{
}

/// The episodes that count toward the total: those of a series that is followed or
/// has a seen episode.
pub proof fn law_counted_toward_the_total(db: Db, e: EpisodeRow)
    ensures
        counts_toward_total(db)(e) <==> (series_at(db.series@, e.series_id) matches Some(s) && (
        s.followed || exists|k: int|
            0 <= k < db.episodes@.len() && (#[trigger] db.episodes@[k]).series_id == s.id
                && db.episodes@[k].seen)),
        of_followed(db)(e) <==> (series_at(db.series@, e.series_id) matches Some(s) && s.followed),
{
    if series_at(db.series@, e.series_id) is Some {
        let s = series_at(db.series@, e.series_id)->0;
        let hit = crate::db::series_lists::seen_of(s.id);
        crate::rows::lemma_count_zero(db.episodes@, hit);
        if seen_count_of(db.episodes@, s.id) > 0 {
            let k = choose|k: int| 0 <= k < db.episodes@.len() && hit(#[trigger] db.episodes@[k]);
            assert(db.episodes@[k].series_id == s.id && db.episodes@[k].seen);
        }
        if exists|k: int|
            0 <= k < db.episodes@.len() && (#[trigger] db.episodes@[k]).series_id == s.id
                && db.episodes@[k].seen {
            let k = choose|k: int|
                0 <= k < db.episodes@.len() && (#[trigger] db.episodes@[k]).series_id == s.id
                    && db.episodes@[k].seen;
            assert(hit(db.episodes@[k]));
        }
    }
}

/// How many titles were watched elsewhere: the franchises of the series that were,
/// each once.
pub proof fn law_titles_watched_elsewhere(db: Db, t: Seq<char>)
    ensures
        gathered(db.series@, elsewhere(), by_franchise()).finite(),
        gathered(db.series@, elsewhere(), by_franchise()).contains(t) <==> exists|k: int|
            0 <= k < db.series@.len() && (#[trigger] db.series@[k]).watched_externally && franchise(
                db.series@[k].title@,
            ) == t,
{
    lemma_gathered(db.series@, elsewhere(), by_franchise());
    if carried(db.series@, elsewhere(), by_franchise(), t) {
        let k = choose|k: int|
            0 <= k < db.series@.len() && elsewhere()(#[trigger] db.series@[k]) && by_franchise()(
                db.series@[k],
            ) == t;
        assert(db.series@[k].watched_externally);
    }
    if exists|k: int|
        0 <= k < db.series@.len() && (#[trigger] db.series@[k]).watched_externally && franchise(
            db.series@[k].title@,
        ) == t {
        let k = choose|k: int|
            0 <= k < db.series@.len() && (#[trigger] db.series@[k]).watched_externally && franchise(
                db.series@[k].title@,
            ) == t;
        assert(elsewhere()(db.series@[k]));
        assert(carried(db.series@, elsewhere(), by_franchise(), t));
    }
}

/// Whether a count is that of one of some franchises.
pub open spec fn counts_a_franchise(t: TitleCount, rs: Seq<FranchiseRollup>) -> bool {
    exists|k: int|
        {
            &&& 0 <= k < rs.len()
            &&& (#[trigger] rs[k]).display_title == t.title
            &&& t.count >= rs[k].real_seen
            &&& t.count >= rs[k].external_episodes
            &&& t.count == rs[k].real_seen || t.count == rs[k].external_episodes
            &&& t.count > 0
        }
}

/// The titles watched most: at most eight, from the most episodes down, in order of
/// their titles where the count is the same. Every one has a count above zero, the
/// larger of a franchise's two; and what is left out comes after all of them.
pub proof fn law_titles_watched_most(rs: Seq<FranchiseRollup>)
    ensures
        top_titles(rs).len() <= 8,
        top_titles(rs).len() < 8 ==> top_titles(rs).len() == count_where(
            rs,
            |r: FranchiseRollup| r.real_seen > 0 || r.external_episodes > 0,
        ),
        forall|i: int, j: int|
            0 <= i < j < top_titles(rs).len() ==> (#[trigger] top_titles(rs)[i]).count >= (
            #[trigger] top_titles(rs)[j]).count && (top_titles(rs)[i].count == top_titles(
                rs,
            )[j].count ==> !precedes(top_titles(rs)[j].title@, top_titles(rs)[i].title@)),
        forall|i: int|
            0 <= i < top_titles(rs).len() ==> counts_a_franchise(#[trigger] top_titles(rs)[i], rs),
        forall|k: int, i: int|
            #![trigger rs[k], top_titles(rs)[i]]
            0 <= k < rs.len() && 0 <= i < top_titles(rs).len() && (forall|j: int|
                0 <= j < top_titles(rs).len() ==> #[trigger] top_titles(rs)[j] != title_count(rs[k]))
                && (rs[k].real_seen > 0 || rs[k].external_episodes > 0) ==> top_titles(rs)[i].count
                >= larger(rs[k].real_seen as int, rs[k].external_episodes as int),
{
    let hit = crate::db::stats::credited();
    let live = rs.filter(hit);
    let counts = title_counts(rs);
    let all = sorted(counts, by_episodes());
    let shown = top_titles(rs);
    let any = |r: FranchiseRollup| r.real_seen > 0 || r.external_episodes > 0;
    assert(orders(by_episodes())) by {
        assert forall|a: TitleCount, b: TitleCount| #[trigger]
            by_episodes()(a, b) implies !by_episodes()(
            b,
            a,
        ) by {
            lemma_precedes_total(a.title@, b.title@);
        }
        assert forall|a: TitleCount, b: TitleCount, c: TitleCount|
            !(#[trigger] by_episodes()(b, a)) && !(#[trigger] by_episodes()(
                c,
                b,
            )) implies !by_episodes()(c, a) by {
            lemma_precedes_total(a.title@, b.title@);
            lemma_precedes_total(b.title@, c.title@);
            lemma_precedes_total(a.title@, c.title@);
            if precedes(a.title@, b.title@) && precedes(b.title@, c.title@) {
                lemma_precedes_transitive(a.title@, b.title@, c.title@);
            }
        }
    }
    law_sorted_is_permutation(counts, by_episodes());
    law_sorted_is_in_order(counts, by_episodes());
    assert(hit =~= any);
    assert forall|i: int, j: int| 0 <= i < j < shown.len() implies (#[trigger] shown[i]).count >= (
    #[trigger] shown[j]).count && (shown[i].count == shown[j].count ==> !precedes(
        shown[j].title@,
        shown[i].title@,
    )) by {
        assert(!by_episodes()(all[j], all[i]));
    }
    assert forall|i: int| 0 <= i < shown.len() implies counts_a_franchise(
        #[trigger] shown[i],
        rs,
    ) by {
        lemma_sorted_contains(counts, by_episodes(), all[i]);
        assert(all.contains(all[i]));
        let p = choose|p: int| 0 <= p < counts.len() && counts[p] == all[i];
        lemma_filter_member(rs, hit, live[p]);
        assert(live.contains(live[p]));
        let k = choose|k: int| 0 <= k < rs.len() && rs[k] == live[p];
        assert(hit(rs[k]));
        assert(rs[k].display_title == shown[i].title);
    }
    assert forall|k: int, i: int|
        #![trigger rs[k], shown[i]]
        0 <= k < rs.len() && 0 <= i < shown.len() && (forall|j: int|
            0 <= j < shown.len() ==> #[trigger] shown[j] != title_count(rs[k])) && (rs[k].real_seen
            > 0 || rs[k].external_episodes > 0) implies shown[i].count >= larger(
        rs[k].real_seen as int,
        rs[k].external_episodes as int,
    ) by {
        assert(hit(rs[k]));
        lemma_filter_member(rs, hit, rs[k]);
        assert(rs.contains(rs[k]));
        let p = choose|p: int| 0 <= p < live.len() && live[p] == rs[k];
        assert(counts[p] == title_count(rs[k]));
        lemma_sorted_contains(counts, by_episodes(), counts[p]);
        assert(counts.contains(counts[p]));
        let q = choose|q: int| 0 <= q < all.len() && all[q] == counts[p];
        if q < shown.len() {
            assert(shown[q] == title_count(rs[k]));
        }
        assert(!by_episodes()(all[q], all[i]));
    }
}

/// The parent of a group of series is that of the first of them that has one.
pub proof fn law_first_parent(members: Seq<SeriesRow>)
    ensures
        first_parent(members) is None <==> forall|k: int|
            0 <= k < members.len() ==> parent_franchise((#[trigger] members[k]).title@) is None,
        first_parent(members) is Some ==> exists|k: int|
            0 <= k < members.len() && parent_franchise((#[trigger] members[k]).title@)
                == first_parent(members) && forall|j: int|
                0 <= j < k ==> parent_franchise((#[trigger] members[j]).title@) is None,
    decreases members.len(),
{
    if members.len() > 0 {
        let init = members.drop_last();
        let n = members.len() - 1;
        law_first_parent(init);
        assert forall|k: int| 0 <= k < init.len() implies #[trigger] init[k] == members[k] by {}
        if first_parent(init) is Some {
            let k = choose|k: int|
                0 <= k < init.len() && parent_franchise((#[trigger] init[k]).title@) == first_parent(
                    init,
                ) && forall|j: int|
                    0 <= j < k ==> parent_franchise((#[trigger] init[j]).title@) is None;
            assert(parent_franchise(members[k].title@) == first_parent(members));
            assert forall|j: int| 0 <= j < k implies parent_franchise(
                (#[trigger] members[j]).title@,
            ) is None by {
                assert(init[j] == members[j]);
            }
        } else {
            assert forall|j: int| 0 <= j < n implies parent_franchise(
                (#[trigger] members[j]).title@,
            ) is None by {
                assert(init[j] == members[j]);
            }
            assert(parent_franchise(members[n].title@) == first_parent(members));
        }
    }
}

/// Whether groups lead up from one to another, each to the group that has its
/// parent's key.
pub open spec fn leads_up(groups: Seq<FranchiseGroup>, way: Seq<int>) -> bool {
    &&& way.len() > 0
    &&& forall|i: int| 0 <= i < way.len() ==> 0 <= #[trigger] way[i] < groups.len()
    &&& forall|i: int|
        0 <= i < way.len() - 1 ==> #[trigger] has_parent(groups, way[i]) && step_up(groups, way[i])
            == way[i + 1]
}

/// Whether the parent of a group is one of the groups, and another one.
pub open spec fn has_parent(groups: Seq<FranchiseGroup>, g: int) -> bool {
    groups[g].parent matches Some(p) && p@ != groups[g].key@ && exists|k: int|
        0 <= k < groups.len() && (#[trigger] groups[k]).key@ == p@
}

/// The group above is the first with the parent's key; a group whose parent is none
/// of the groups, or itself, has none above it.
pub proof fn law_group_above(groups: Seq<FranchiseGroup>, g: int)
    requires
        0 <= g < groups.len(),
    ensures
        has_parent(groups, g) ==> groups[step_up(groups, g)].key@ == groups[g].parent->0@
            && step_up(groups, g) != g && 0 <= step_up(groups, g) < groups.len(),
        !has_parent(groups, g) ==> step_up(groups, g) == g,
{
    if groups[g].parent is Some {
        lemma_keyed(groups, groups[g].parent->0@);
    }
}

proof fn lemma_keyed(groups: Seq<FranchiseGroup>, key: Seq<char>)
    ensures
        0 <= keyed_at(groups, key) <= groups.len(),
        keyed_at(groups, key) < groups.len() ==> groups[keyed_at(groups, key)].key@ == key,
        keyed_at(groups, key) < groups.len() <==> exists|k: int|
            0 <= k < groups.len() && (#[trigger] groups[k]).key@ == key,
    decreases groups.len(),
{
    if groups.len() > 0 {
        let rest = groups.drop_first();
        lemma_keyed(rest, key);
        assert forall|k: int| 0 <= k < rest.len() implies #[trigger] rest[k] == groups[k + 1] by {}
        if groups[0].key@ != key {
            if exists|k: int| 0 <= k < groups.len() && (#[trigger] groups[k]).key@ == key {
                let k = choose|k: int| 0 <= k < groups.len() && (#[trigger] groups[k]).key@ == key;
                assert(rest[k - 1].key@ == key);
            }
            if keyed_at(rest, key) < rest.len() {
                assert(groups[keyed_at(rest, key) + 1].key@ == key);
            }
        }
    }
}

/// A group is folded into the one at the top of the way up from it, where the way
/// has at most eight steps.
pub proof fn law_folded_into_the_top(groups: Seq<FranchiseGroup>, way: Seq<int>)
    requires
        leads_up(groups, way),
        way.len() <= 9,
        !has_parent(groups, way.last()),
    ensures
        home(groups, way[0]) == way.last(),
{
    lemma_climbs(groups, way, 8);
}

proof fn lemma_climbs(groups: Seq<FranchiseGroup>, way: Seq<int>, steps: nat)
    requires
        leads_up(groups, way),
        way.len() <= steps + 1,
        !has_parent(groups, way.last()),
    ensures
        climb(groups, way[0], steps) == way.last(),
    decreases steps,
{
    law_group_above(groups, way[0]);
    if way.len() > 1 {
        let rest = way.drop_first();
        assert(has_parent(groups, way[0]));
        assert forall|i: int| 0 <= i < rest.len() implies 0 <= #[trigger] rest[i] < groups.len() by {
            assert(rest[i] == way[i + 1]);
        }
        assert forall|i: int| 0 <= i < rest.len() - 1 implies #[trigger] has_parent(groups, rest[i])
            && step_up(groups, rest[i]) == rest[i + 1] by {
            assert(rest[i] == way[i + 1]);
            assert(has_parent(groups, way[i + 1]));
        }
        assert(rest.last() == way.last());
        lemma_climbs(groups, rest, (steps - 1) as nat);
    }
}

/// The minutes that a series at a place adds.
spec fn place_minutes(db: Db, rows: Seq<SeriesRow>) -> spec_fn(int) -> int {
    |p: int| seen_count_of(db.episodes@, rows[p].id) as int * episode_minutes(db, rows[p])
}

/// The minutes watched are those of all series: each seen episode adds the minutes
/// of an episode of its series, once. This is so where every franchise is folded
/// into one that is not folded itself.
pub proof fn law_minutes_count_once(db: Db, rs: Seq<FranchiseRollup>)
    requires
        rollups_of(rs, db),
        forall|gs: Seq<FranchiseGroup>| #[trigger] groups_of(gs, db) ==> settled(gs),
    ensures
        rollup_sum(rs, rs.len() as int, minutes_figure()) == sum_of(
            seen_minutes(db, db.series@),
        ),
{
    let gs = choose|gs: Seq<FranchiseGroup>| #[trigger] groups_of(gs, db) && folded_rollups(rs, gs);
    let n = gs.len() as int;
    let rows = db.series@.filter(evident(db));
    let names = franchise_keys(rows);
    lemma_minutes_absorbed(rs, gs, rs.len() as int);
    lemma_all_absorbed(gs, n, minutes_figure());
    lemma_minutes_of_groups(db, gs, n);
    lemma_groups(names);
    lemma_group_total(names, place_minutes(db, rows));
    lemma_minutes_of_places(db, rows, rows.len() as int);
    assert(rows.take(rows.len() as int) =~= rows);
    lemma_unwatched_add_nothing(db, db.series@.len() as int);
    assert(db.series@.take(db.series@.len() as int) =~= db.series@);
}

proof fn lemma_minutes_absorbed(rs: Seq<FranchiseRollup>, gs: Seq<FranchiseGroup>, m: int)
    requires
        folded_rollups(rs, gs),
        0 <= m <= rs.len(),
    ensures
        rollup_sum(rs, m, minutes_figure()) == absorbed_by_all(
            gs,
            survivors(gs, gs.len() as int),
            m,
            gs.len() as int,
            minutes_figure(),
        ),
    decreases m,
{
    if m > 0 {
        lemma_minutes_absorbed(rs, gs, m - 1);
        let homes = survivors(gs, gs.len() as int);
        assert(folded_rollup(rs[m - 1], gs, homes[m - 1]));
    }
}

proof fn lemma_minutes_of_groups(db: Db, gs: Seq<FranchiseGroup>, n: int)
    requires
        groups_of(gs, db),
        0 <= n <= gs.len(),
    ensures
        ({
            let rows = db.series@.filter(evident(db));
            let names = franchise_keys(rows);
            group_sum(gs, n, minutes_figure()) == led_sum(
                names,
                leaders(names),
                n,
                place_minutes(db, rows),
            )
        }),
    decreases n,
{
    if n > 0 {
        lemma_minutes_of_groups(db, gs, n - 1);
        let rows = db.series@.filter(evident(db));
        let names = franchise_keys(rows);
        lemma_groups(names);
        let members = watched_franchises(db)[n - 1];
        let at = groups(names)[n - 1];
        assert(group_of(gs[n - 1], db, members));
        assert(at == places(names, names[leaders(names)[n - 1]]));
        assert(members == picked(rows, at));
        assert(seen_minutes(db, members) =~= at.map_values(place_minutes(db, rows)));
    }
}

proof fn lemma_minutes_of_places(db: Db, rows: Seq<SeriesRow>, n: int)
    requires
        0 <= n <= rows.len(),
    ensures
        sum_to(n, place_minutes(db, rows)) == sum_of(seen_minutes(db, rows.take(n))),
    decreases n,
{
    if n > 0 {
        lemma_minutes_of_places(db, rows, n - 1);
        assert(seen_minutes(db, rows.take(n)).drop_last() =~= seen_minutes(db, rows.take(n - 1)));
    }
}

proof fn lemma_unwatched_add_nothing(db: Db, n: int)
    requires
        0 <= n <= db.series@.len(),
    ensures
        sum_of(seen_minutes(db, db.series@.take(n).filter(evident(db)))) == sum_of(
            seen_minutes(db, db.series@.take(n)),
        ),
    decreases n,
{
    let rows = db.series@;
    if n > 0 {
        lemma_unwatched_add_nothing(db, n - 1);
        lemma_filter_step(rows, evident(db), n - 1);
        let s = rows[n - 1];
        let before = rows.take(n - 1).filter(evident(db));
        assert(seen_minutes(db, rows.take(n)).drop_last() =~= seen_minutes(db, rows.take(n - 1)));
        assert(seen_minutes(db, before.push(s)).drop_last() =~= seen_minutes(db, before));
        if !evident(db)(s) {
            assert(seen_count_of(db.episodes@, s.id) == 0);
            assert(0int * episode_minutes(db, s) == 0) by (nonlinear_arith);
        }
    } else {
        lemma_filter_none(rows, evident(db));
        assert(rows.take(0) =~= Seq::empty());
    }
}

/// Whether some of the franchises has at least so many credited episodes.
pub open spec fn covers(rs: Seq<FranchiseRollup>, length: int) -> bool {
    exists|i: int| 0 <= i < rs.len() && (#[trigger] rs[i]).external_episodes >= length
}

/// Every series that was watched elsewhere is credited in some franchise, with at
/// least its length; and what a franchise is credited with is the length of some
/// series. This is so where every franchise is folded into one that is not folded
/// itself.
pub proof fn law_watched_elsewhere_is_credited(
    db: Db,
    rs: Seq<FranchiseRollup>,
    k: int,
    length: int,
)
    requires
        rollups_of(rs, db),
        forall|gs: Seq<FranchiseGroup>| #[trigger] groups_of(gs, db) ==> settled(gs),
        0 <= k < db.series@.len(),
        credits(db, db.series@[k], length),
    ensures
        covers(rs, length),
{
    let gs = choose|gs: Seq<FranchiseGroup>| #[trigger] groups_of(gs, db) && folded_rollups(rs, gs);
    let shows = watched_franchises(db);
    let s = db.series@[k];
    crate::laws::shows::law_watched_franchises_are_divided(db);
    let watched = |s: SeriesRow| s.watched_externally || seen_count_of(db.episodes@, s.id) > 0;
    assert(watched(s));
    assert(crate::laws::lists::in_a_group(shows, s));
    let g = choose|g: int| 0 <= g < shows.len() && (#[trigger] shows[g]).contains(s);
    let m = choose|m: int| 0 <= m < shows[g].len() && shows[g][m] == s;
    assert(group_of(gs[g], db, shows[g]));
    crate::laws::credit::law_group_is_credited_with_the_longest(gs[g], db, shows[g]);
    assert(credits(db, shows[g][m], length));
    let h = home(gs, g);
    lemma_climb_bounded(gs, g, crate::db::parents::MAX_DEPTH as nat);
    assert(home(gs, h) == h);
    let homes = survivors(gs, gs.len() as int);
    lemma_survives(gs, gs.len() as int, h);
    let i = choose|i: int| 0 <= i < homes.len() && homes[i] == h;
    assert(folded_rollup(rs[i], gs, homes[i]));
    crate::laws::credit::law_rollup_is_credited_with_the_longest(rs[i], gs, h);
    assert(rs[i].external_episodes >= gs[g].rollup.external_episodes);
}

/// The days up to a day: as many as are asked for, ending with the day, each the
/// day before the next.
pub proof fn law_days_end_today(d: Day, days: nat, i: int)
    requires
        0 <= i < days,
    ensures
        days_up_to(d, days).len() == days,
        days_up_to(d, days)[days - 1] == day_text(d),
        days_up_to(d, days)[i] == day_text(days_before(d, (days - 1 - i) as nat)),
        i < days - 1 ==> days_before(d, (days - 1 - i) as nat) == previous_day(
            days_before(d, (days - 2 - i) as nat),
        ),
{
}

/// What the summary says: the shows behind each figure, the franchises that were
/// watched, the episodes that were seen, those that count toward the total, and
/// those credited beyond the seen ones.
pub proof fn law_summary(v: WatchSummary, db: Db, rs: Seq<FranchiseRollup>)
    requires
        summary_of(v, db, rs),
    ensures
        v.followed_series == shows_with(db, ShowFilter::Followed).len(),
        v.airing_followed == shows_with(db, ShowFilter::FollowedAiring).len(),
        v.pending_to_watch == shows_with(db, ShowFilter::Pending).len(),
        v.backlog_want == shows_with(db, ShowFilter::Want).len(),
        v.distinct_anime == rs.len(),
        v.episodes_watched == count_where(db.episodes@, |e: EpisodeRow| e.seen),
        v.episodes_total == count_where(db.episodes@, counts_toward_total(db)),
        v.episodes_watched <= db.episodes@.len(),
        v.episodes_watched_external == rollup_sum(
            rs,
            rs.len() as int,
            |r: FranchiseRollup|
                if r.external_episodes > r.real_seen {
                    r.external_episodes - r.real_seen
                } else {
                    0
                },
        ),
{
    let beyond = |r: FranchiseRollup|
        if r.external_episodes > r.real_seen { r.external_episodes - r.real_seen } else { 0 };
    assert(extra_figure() =~= beyond);
    assert(crate::db::stats::seen() =~= (|e: EpisodeRow| e.seen));
    crate::rows::lemma_count_zero(db.episodes@, crate::db::stats::seen());
}

/// What the insights say: times in minutes, the franchises watched elsewhere with a
/// known length and all of them, the shows behind each figure, and the last thirty
/// days.
pub proof fn law_insights(
    w: WatchInsights,
    db: Db,
    rs: Seq<FranchiseRollup>,
    seen_days: Seq<String>,
    today: CivilDate,
)
    requires
        insights_of(w, db, rs, seen_days, today),
    ensures
        w.estimated_minutes_tracked == rollup_sum(
            rs,
            rs.len() as int,
            |r: FranchiseRollup| r.real_minutes as int,
        ),
        w.estimated_minutes_external == rollup_sum(rs, rs.len() as int, extra_minutes_figure()),
        w.external_titles_estimated == count_where(
            rs,
            |r: FranchiseRollup| r.external_episodes > 0,
        ),
        w.external_titles_total == gathered(
            db.series@,
            |s: SeriesRow| s.watched_externally,
            |s: SeriesRow| franchise(s.title@),
        ).len(),
        w.followed_airing == shows_with(db, ShowFilter::FollowedAiring).len(),
        w.followed_finished == shows_with(db, ShowFilter::FollowedFinished).len(),
        w.discarded == shows_with(db, ShowFilter::Discarded).len(),
        w.want == shows_with(db, ShowFilter::Want).len(),
        w.watched_externally == shows_with(db, ShowFilter::WatchedExternally).len(),
        w.avg_episodes_per_series.total == count_where(db.episodes@, of_followed(db)),
        w.avg_episodes_per_series.count == count_where(db.series@, |s: SeriesRow| s.followed),
        w.top_series@ == top_titles(rs),
        w.marks_by_day@.len() == 30,
        w.marks_by_day@[29].day@ == day_text(today@),
{
    assert(minutes_figure() =~= (|r: FranchiseRollup| r.real_minutes as int));
    assert(estimated() =~= (|r: FranchiseRollup| r.external_episodes > 0));
    assert(elsewhere() =~= (|s: SeriesRow| s.watched_externally));
    assert(by_franchise() =~= (|s: SeriesRow| franchise(s.title@)));
    assert(crate::db::followed::followed() =~= (|s: SeriesRow| s.followed));
    law_days_end_today(today@, 30, 29);
    assert(w.marks_by_day@[29].day@ == days_up_to(today@, 30)[29]);
}

/// A rollup keeps the title of the group that the others were folded into.
pub proof fn law_rollup_keeps_its_title(rs: Seq<FranchiseRollup>, gs: Seq<FranchiseGroup>, i: int)
    requires
        folded_rollups(rs, gs),
        0 <= i < rs.len(),
    ensures
        exists|g: int|
            0 <= g < gs.len() && home(gs, g) == g && (#[trigger] gs[g]).rollup.display_title
                == rs[i].display_title,
        rs.len() <= gs.len(),
{
    let homes = survivors(gs, gs.len() as int);
    lemma_survivors(gs, gs.len() as int);
    assert(folded_rollup(rs[i], gs, homes[i]));
    assert(gs[homes[i]].rollup.display_title == rs[i].display_title);
}

/// The title shown for a franchise is one that is shown for one of its series, and
/// none of those would be shown rather.
pub proof fn law_franchise_title(g: FranchiseGroup, db: Db, members: Seq<SeriesRow>)
    requires
        group_of(g, db, members),
    ensures
        exists|m: int|
            0 <= m < members.len() && display_title((#[trigger] members[m]).title@)
                == g.rollup.display_title@,
        forall|m: int|
            0 <= m < members.len() ==> g.rollup.display_title@.len() <= display_title(
                (#[trigger] members[m]).title@,
            ).len(),
        g.rollup.real_seen == sum_of(seen_counts(db, members)),
        g.rollup.real_minutes == sum_of(seen_minutes(db, members)),
        g.key@ == franchise(members[0].title@),
{
    assert forall|m: int| 0 <= m < members.len() implies g.rollup.display_title@.len()
        <= display_title((#[trigger] members[m]).title@).len() by {
        assert(!shown_rather(display_title(members[m].title@), g.rollup.display_title@));
    }
}

} // verus!
