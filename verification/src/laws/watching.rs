//! Watching: which episodes a mark reaches, and which one comes next.

use vstd::prelude::*;
use crate::db::episodes::{
    by_number, cascaded, cascades, dated_series, finished, first_date, in_number_order,
    law_numbering_orders, next_episode_id, next_unseen, numbered_before, numbers_of, of_series,
    ranks_above, unseen, whole_numbers,
};
use crate::db::library_list::{seen_count_of, total_of};
use crate::db::numbers::{episode_value, leading_integer, Rank};
use crate::db::series_lists::{seen_of, watermark};
use crate::laws::lists::{law_first_is_first, law_sorted_holds_the_same, lemma_filter_member};
use crate::laws::numbering::law_episodes_compare_as_numbers;

use crate::db::{EpisodeRow, SeriesRow};
use crate::rows::{carried, count_where, first_where, gathered, law_max_of, lemma_gathered, max_of};
use crate::text::nat_text;

verus! {

/// Marking an episode as seen marks it and those before it in its series, with the
/// time of the mark; later ones and other series stay as they are.
pub proof fn law_marking_reaches_back(
    before: Seq<EpisodeRow>,
    after: Seq<EpisodeRow>,
    series_id: i64,
    n: u64,
    m: u64,
    now: Seq<char>,
    i: int,
)
    requires
        cascaded(before, after, series_id, nat_text(n as nat), true, now),
        0 <= i < before.len(),
        before[i].number@ == nat_text(m as nat),
    ensures
        after.len() == before.len(),
        before[i].series_id == series_id && m <= n ==> after[i].seen && (
        after[i].seen_at matches Some(t) && t@ == now),
        before[i].series_id != series_id || m > n ==> after[i] == before[i],
        after[i] == (EpisodeRow { seen: after[i].seen, seen_at: after[i].seen_at, ..before[i] }),
{
    law_episodes_compare_as_numbers(m, n);
    law_episodes_compare_as_numbers(n, m);
}

/// Taking the mark off an episode takes it off those after it in its series too;
/// earlier ones and other series stay as they are.
pub proof fn law_unmarking_reaches_on(
    before: Seq<EpisodeRow>,
    after: Seq<EpisodeRow>,
    series_id: i64,
    n: u64,
    m: u64,
    now: Seq<char>,
    i: int,
)
    requires
        cascaded(before, after, series_id, nat_text(n as nat), false, now),
        0 <= i < before.len(),
        before[i].number@ == nat_text(m as nat),
    ensures
        before[i].series_id == series_id && m >= n ==> !after[i].seen && after[i].seen_at is None,
        before[i].series_id != series_id || m < n ==> after[i] == before[i],
        after[i] == (EpisodeRow { seen: after[i].seen, seen_at: after[i].seen_at, ..before[i] }),
{
    law_episodes_compare_as_numbers(m, n);
    law_episodes_compare_as_numbers(n, m);
}

/// An episode whose number stands for none is marked alone.
pub proof fn law_unnumbered_is_marked_alone(
    row: EpisodeRow,
    series_id: i64,
    number: Seq<char>,
    seen: bool,
)
    requires
        episode_value(number) is None,
    ensures
        cascades(row, series_id, number, seen) <==> row.series_id == series_id && row.number@
            == number,
{
}

/// Episodes are in the order of the whole numbers that they start with; of two
/// with the same, the one that was stored first is first.
pub proof fn law_episode_order(a: EpisodeRow, b: EpisodeRow, m: i64, n: i64)
    requires
        0 <= m,
        0 <= n,
        a.number@ == nat_text(m as nat),
        b.number@ == nat_text(n as nat),
    ensures
        m < n ==> numbered_before(a, b) && !numbered_before(b, a),
        m == n && a.id < b.id ==> numbered_before(a, b) && !numbered_before(b, a),
        !numbered_before(a, a),
{
    crate::laws::numbering::law_leading_number(m, Seq::empty(), ' ');
    crate::laws::numbering::law_leading_number(n, Seq::empty(), ' ');
    assert(nat_text(m as nat) + Seq::<char>::empty() =~= nat_text(m as nat));
    assert(nat_text(n as nat) + Seq::<char>::empty() =~= nat_text(n as nat));
}

/// Whether a row is the next episode of a series to watch: it is not seen, and no
/// other of the series that is not seen is before it.
pub open spec fn comes_next(episodes: Seq<EpisodeRow>, series_id: i64, k: int) -> bool {
    &&& 0 <= k < episodes.len()
    &&& episodes[k].series_id == series_id
    &&& !episodes[k].seen
    &&& forall|j: int|
        0 <= j < episodes.len() && (#[trigger] episodes[j]).series_id == series_id
            && !episodes[j].seen ==> !numbered_before(episodes[j], episodes[k])
}

/// The next episode of a series is the first that is not seen; there is none
/// exactly where all are seen.
pub proof fn law_next_is_the_first_unseen(episodes: Seq<EpisodeRow>, series_id: i64)
    ensures
        next_unseen(episodes, series_id) is None <==> forall|k: int|
            0 <= k < episodes.len() && (#[trigger] episodes[k]).series_id == series_id
                ==> episodes[k].seen,
        next_unseen(episodes, series_id) matches Some(e) ==> exists|k: int| #[trigger]
            comes_next(episodes, series_id, k) && e.number == episodes[k].number && e.title
                == episodes[k].title && e.url == episodes[k].url,
{
    let own = episodes.filter(of_series(series_id));
    let list = in_number_order(episodes, series_id);
    law_numbering_orders();
    law_first_is_first(list, unseen());
    assert forall|k: int|
        0 <= k < episodes.len() && (#[trigger] episodes[k]).series_id == series_id implies exists|
        i: int,
    | 0 <= i < list.len() && #[trigger] list[i] == episodes[k] by {
        lemma_filter_member(episodes, of_series(series_id), episodes[k]);
        law_sorted_holds_the_same(own, by_number(), episodes[k]);
        assert(episodes.contains(episodes[k]));
        assert(list.contains(episodes[k]));
    }
    assert forall|i: int| 0 <= i < list.len() implies episodes.contains(#[trigger] list[i])
        && list[i].series_id == series_id by {
        law_sorted_holds_the_same(own, by_number(), list[i]);
        lemma_filter_member(episodes, of_series(series_id), list[i]);
        assert(list.contains(list[i]));
    }
    if next_unseen(episodes, series_id) is Some {
        let x = first_where(list, unseen())->0;
        let i = choose|i: int|
            0 <= i < list.len() && #[trigger] list[i] == x && unseen()(x) && forall|k: int|
                0 <= k < i ==> !unseen()(#[trigger] list[k]);
        assert(episodes.contains(list[i]));
        let k = choose|k: int| 0 <= k < episodes.len() && episodes[k] == x;
        assert forall|j: int|
            0 <= j < episodes.len() && (#[trigger] episodes[j]).series_id == series_id
                && !episodes[j].seen implies !numbered_before(episodes[j], episodes[k]) by {
            let p = choose|p: int| 0 <= p < list.len() && #[trigger] list[p] == episodes[j];
            law_sorted_holds_the_same(own, by_number(), x);
            assert(unseen()(list[p]));
            if p > i {
                assert(!by_number()(list[p], list[i]));
            }
        }
        assert(comes_next(episodes, series_id, k));
        assert(!episodes[k].seen);
    } else {
        assert forall|k: int|
            0 <= k < episodes.len() && (#[trigger] episodes[k]).series_id
                == series_id implies episodes[k].seen by {
            let p = choose|p: int| 0 <= p < list.len() && #[trigger] list[p] == episodes[k];
            assert(!unseen()(list[p]));
        }
    }
}

/// How far a series has been watched: no seen episode has a higher number, and one
/// has that number where any is seen.
pub proof fn law_watermark_is_highest(episodes: Seq<EpisodeRow>, series_id: i64)
    ensures
        forall|k: int|
            0 <= k < episodes.len() && (#[trigger] episodes[k]).series_id == series_id
                && episodes[k].seen ==> leading_integer(episodes[k].number@) <= watermark(
                episodes,
                series_id,
            ),
        (exists|k: int|
            0 <= k < episodes.len() && (#[trigger] episodes[k]).series_id == series_id
                && episodes[k].seen && leading_integer(episodes[k].number@) == watermark(
                episodes,
                series_id,
            )) || (watermark(episodes, series_id) == 0 && forall|k: int|
            0 <= k < episodes.len() && (#[trigger] episodes[k]).series_id == series_id
                ==> !episodes[k].seen),
{
    let own = episodes.filter(seen_of(series_id));
    let nums = own.map_values(|e: EpisodeRow| leading_integer(e.number@));
    law_max_of(nums);
    assert forall|k: int|
        0 <= k < episodes.len() && (#[trigger] episodes[k]).series_id == series_id
            && episodes[k].seen implies leading_integer(episodes[k].number@) <= watermark(
        episodes,
        series_id,
    ) && own.len() > 0 by {
        lemma_filter_member(episodes, seen_of(series_id), episodes[k]);
        assert(episodes.contains(episodes[k]));
        let p = choose|p: int| 0 <= p < own.len() && own[p] == episodes[k];
        assert(nums[p] == leading_integer(episodes[k].number@));
    }
    if own.len() > 0 {
        let p = choose|p: int| 0 <= p < nums.len() && nums[p] == max_of(nums)->0;
        lemma_filter_member(episodes, seen_of(series_id), own[p]);
        assert(own.contains(own[p]));
        let k = choose|k: int| 0 <= k < episodes.len() && episodes[k] == own[p];
        assert(leading_integer(episodes[k].number@) == watermark(episodes, series_id));
    } else {
        assert forall|k: int|
            0 <= k < episodes.len() && (#[trigger] episodes[k]).series_id
                == series_id implies !episodes[k].seen by {}
    }
}

/// The whole numbers of a series' episodes: those, and no others.
pub proof fn law_whole_numbers(episodes: Seq<EpisodeRow>, series_id: i64, n: int)
    ensures
        whole_numbers(episodes, series_id).len() == total_of(episodes, series_id),
        whole_numbers(episodes, series_id).contains(n) <==> exists|k: int|
            0 <= k < episodes.len() && (#[trigger] episodes[k]).series_id == series_id
                && leading_integer(episodes[k].number@) == n,
{
    let own = episodes.filter(of_series(series_id));
    let nums = whole_numbers(episodes, series_id);
    if nums.contains(n) {
        let p = choose|p: int| 0 <= p < nums.len() && nums[p] == n;
        lemma_filter_member(episodes, of_series(series_id), own[p]);
        assert(own.contains(own[p]));
        let k = choose|k: int| 0 <= k < episodes.len() && episodes[k] == own[p];
        assert(leading_integer(episodes[k].number@) == n);
    }
    if exists|k: int|
        0 <= k < episodes.len() && (#[trigger] episodes[k]).series_id == series_id
            && leading_integer(episodes[k].number@) == n {
        let k = choose|k: int|
            0 <= k < episodes.len() && (#[trigger] episodes[k]).series_id == series_id
                && leading_integer(episodes[k].number@) == n;
        lemma_filter_member(episodes, of_series(series_id), episodes[k]);
        assert(episodes.contains(episodes[k]));
        let p = choose|p: int| 0 <= p < own.len() && own[p] == episodes[k];
        assert(nums[p] == n);
    }
}

/// The date of a series is that of its first episode, where it is known.
pub proof fn law_date_of_the_first_episode(episodes: Seq<EpisodeRow>, series_id: i64)
    ensures
        first_date(episodes, series_id) matches Some(d) ==> d@.len() > 0 && exists|k: int|
            0 <= k < episodes.len() && (#[trigger] episodes[k]).series_id == series_id
                && episodes[k].released_at == Some(d) && forall|j: int|
                0 <= j < episodes.len() && (#[trigger] episodes[j]).series_id == series_id
                    ==> !numbered_before(episodes[j], episodes[k]),
        (forall|k: int|
            0 <= k < episodes.len() && (#[trigger] episodes[k]).series_id == series_id ==> (
            episodes[k].released_at matches Some(d) && d@.len() > 0)) && (exists|k: int|
            0 <= k < episodes.len() && (#[trigger] episodes[k]).series_id == series_id)
            ==> first_date(episodes, series_id) is Some,
{
    let own = episodes.filter(of_series(series_id));
    let list = in_number_order(episodes, series_id);
    law_numbering_orders();
    crate::rows::law_sorted_is_permutation(own, by_number());
    if list.len() > 0 {
        law_sorted_holds_the_same(own, by_number(), list[0]);
        assert(list.contains(list[0]));
        lemma_filter_member(episodes, of_series(series_id), list[0]);
        let k = choose|k: int| 0 <= k < episodes.len() && episodes[k] == list[0];
        assert(episodes[k].series_id == series_id);
        assert forall|j: int|
            0 <= j < episodes.len() && (#[trigger] episodes[j]).series_id
                == series_id implies !numbered_before(episodes[j], episodes[k]) by {
            lemma_filter_member(episodes, of_series(series_id), episodes[j]);
            assert(episodes.contains(episodes[j]));
            law_sorted_holds_the_same(own, by_number(), episodes[j]);
            let p = choose|p: int| 0 <= p < list.len() && list[p] == episodes[j];
            if p > 0 {
                assert(!by_number()(list[p], list[0]));
            }
        }
    } else {
        if exists|k: int|
            0 <= k < episodes.len() && (#[trigger] episodes[k]).series_id == series_id {
            let k = choose|k: int|
                0 <= k < episodes.len() && (#[trigger] episodes[k]).series_id == series_id;
            lemma_filter_member(episodes, of_series(series_id), episodes[k]);
            assert(episodes.contains(episodes[k]));
        }
    }
}

/// The dates of a site: those of its airing series whose first episode's date is
/// known, and no others.
pub proof fn law_dated_series(
    series: Seq<SeriesRow>,
    episodes: Seq<EpisodeRow>,
    source_id: i64,
    id: i64,
    date: String,
)
    ensures
        dated_series(series, episodes, source_id).contains((id, date)) <==> exists|k: int|
            0 <= k < series.len() && (#[trigger] series[k]).id == id && series[k].source_id
                == source_id && series[k].is_airing && first_date(episodes, id) == Some(date),
    decreases series.len(),
{
    if series.len() > 0 {
        let init = series.drop_last();
        let list = dated_series(series, episodes, source_id);
        let before = dated_series(init, episodes, source_id);
        law_dated_series(init, episodes, source_id, id, date);
        if before.contains((id, date)) {
            let p = choose|p: int| 0 <= p < before.len() && before[p] == (id, date);
            assert(list[p] == (id, date));
            let k = choose|k: int|
                0 <= k < init.len() && (#[trigger] init[k]).id == id && init[k].source_id
                    == source_id && init[k].is_airing && first_date(episodes, id) == Some(date);
            assert(series[k] == init[k]);
        }
        if list.contains((id, date)) {
            let p = choose|p: int| 0 <= p < list.len() && list[p] == (id, date);
            if p < before.len() {
                assert(before[p] == (id, date));
            } else {
                assert(series[series.len() - 1].id == id);
            }
        }
        if exists|k: int|
            0 <= k < series.len() && (#[trigger] series[k]).id == id && series[k].source_id
                == source_id && series[k].is_airing && first_date(episodes, id) == Some(date) {
            let k = choose|k: int|
                0 <= k < series.len() && (#[trigger] series[k]).id == id && series[k].source_id
                    == source_id && series[k].is_airing && first_date(episodes, id) == Some(date);
            if k < init.len() {
                assert(init[k] == series[k]);
            } else {
                assert(list.last() == (id, date));
                assert(list[list.len() - 1] == (id, date));
            }
        }
    }
}

/// A new episode's id is above all that are there.
pub proof fn law_next_episode_id_is_new(episodes: Seq<EpisodeRow>)
    ensures
        forall|k: int|
            0 <= k < episodes.len() ==> (#[trigger] episodes[k]).id < next_episode_id(episodes),
        episodes.len() == 0 ==> next_episode_id(episodes) == 1,
{
    let ids = episodes.map_values(|e: EpisodeRow| e.id as int);
    law_max_of(ids);
    assert forall|k: int| 0 <= k < episodes.len() implies (#[trigger] episodes[k]).id
        < next_episode_id(episodes) by {
        assert(ids[k] == episodes[k].id);
    }
}

/// The numbers that a series has episodes of.
pub proof fn law_numbers_of_series(episodes: Seq<EpisodeRow>, series_id: i64, t: Seq<char>)
    ensures
        numbers_of(episodes, series_id).contains(t) <==> exists|k: int|
            0 <= k < episodes.len() && (#[trigger] episodes[k]).series_id == series_id
                && episodes[k].number@ == t,
{
    let text = |e: EpisodeRow| e.number@;
    lemma_gathered(episodes, of_series(series_id), text);
    assert(numbers_of(episodes, series_id) == gathered(episodes, of_series(series_id), text));
    if exists|k: int|
        0 <= k < episodes.len() && (#[trigger] episodes[k]).series_id == series_id
            && episodes[k].number@ == t {
        let k = choose|k: int|
            0 <= k < episodes.len() && (#[trigger] episodes[k]).series_id == series_id
                && episodes[k].number@ == t;
        assert(of_series(series_id)(episodes[k]));
        assert(carried(episodes, of_series(series_id), text, t));
    }
    if carried(episodes, of_series(series_id), text, t) {
        let k = choose|k: int|
            0 <= k < episodes.len() && of_series(series_id)(#[trigger] episodes[k]) && text(
                episodes[k],
            ) == t;
        assert(episodes[k].series_id == series_id);
    }
}

/// The episodes of a series are those that are seen and those that are not.
pub proof fn law_seen_and_unseen(episodes: Seq<EpisodeRow>, series_id: i64)
    ensures
        seen_count_of(episodes, series_id) <= total_of(episodes, series_id),
        seen_count_of(episodes, series_id) == total_of(episodes, series_id) <==> next_unseen(
            episodes,
            series_id,
        ) is None,
        total_of(episodes, series_id) == seen_count_of(episodes, series_id) + count_where(
            episodes,
            |e: EpisodeRow| e.series_id == series_id && !e.seen,
        ),
{
    let left = |e: EpisodeRow| e.series_id == series_id && !e.seen;
    lemma_seen_and_unseen(episodes, series_id, episodes.len() as int);
    crate::rows::lemma_filter_none(episodes, of_series(series_id));
    crate::rows::lemma_filter_none(episodes, seen_of(series_id));
    crate::rows::lemma_filter_none(episodes, left);
    law_next_is_the_first_unseen(episodes, series_id);
    crate::rows::lemma_count_zero(episodes, left);
    if count_where(episodes, left) == 0 {
        assert forall|k: int|
            0 <= k < episodes.len() && (#[trigger] episodes[k]).series_id
                == series_id implies episodes[k].seen by {
            assert(!left(episodes[k]));
        }
    }
}

proof fn lemma_seen_and_unseen(episodes: Seq<EpisodeRow>, series_id: i64, n: int)
    requires
        0 <= n <= episodes.len(),
    ensures
        ({
            let left = |e: EpisodeRow| e.series_id == series_id && !e.seen;
            episodes.take(n).filter(of_series(series_id)).len() == episodes.take(n).filter(
                seen_of(series_id),
            ).len() + episodes.take(n).filter(left).len()
        }),
    decreases n,
{
    let left = |e: EpisodeRow| e.series_id == series_id && !e.seen;
    if n == 0 {
        crate::rows::lemma_filter_none(episodes, of_series(series_id));
        crate::rows::lemma_filter_none(episodes, seen_of(series_id));
        crate::rows::lemma_filter_none(episodes, left);
    } else {
        lemma_seen_and_unseen(episodes, series_id, n - 1);
        crate::rows::lemma_filter_step(episodes, of_series(series_id), n - 1);
        crate::rows::lemma_filter_step(episodes, seen_of(series_id), n - 1);
        crate::rows::lemma_filter_step(episodes, left, n - 1);
    }
}

/// Finishing a series reaches every episode of it that is not seen, and those up to
/// the one that is last; no other series is reached.
pub proof fn law_finishing_reaches_all(series_id: i64, number: Seq<char>, e: EpisodeRow)
    ensures
        e.series_id == series_id && !e.seen ==> finished(series_id, number)(e),
        e.series_id != series_id ==> !finished(series_id, number)(e),
        finished(series_id, number)(e) && e.seen ==> cascades(e, series_id, number, true),
{
}

/// The last episode of a series is the one with the highest number; one without a
/// number is behind all with one, and none is above itself.
pub proof fn law_higher_episodes(x: int, y: int, r: Option<Rank>)
    ensures
        ranks_above(Some(Rank::At(x)), Some(Rank::At(y))) <==> x > y,
        ranks_above(Some(Rank::At(x)), None),
        !ranks_above(None, Some(Rank::At(x))),
        ranks_above(Some(Rank::Highest), Some(Rank::At(x))),
        !ranks_above(Some(Rank::At(x)), Some(Rank::Highest)),
        ranks_above(Some(Rank::At(x)), Some(Rank::Lowest)),
        ranks_above(None, Some(Rank::Lowest)),
        ranks_above(Some(Rank::Highest), None),
        !ranks_above(r, r),
{
}

} // verus!
