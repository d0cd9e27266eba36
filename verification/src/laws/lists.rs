//! Lists of rows: what a selection, a sum, a sorted list or a grouping holds.

use vstd::prelude::*;
use crate::db::grouping::picked;
use crate::db::SeriesRow;
use crate::rows::{
    count_where, first_where, groups, insert_sorted, law_groups_partition, law_sorted_is_in_order,
    law_sorted_is_permutation, leaders, lemma_filter_pairwise, lemma_first_where_none, lemma_groups,
    lemma_leaders, lemma_places, lemma_sorted_contains, orders, places, sorted, sum_of,
};

verus! {

/// What a selection holds is a row that satisfies the condition.
pub proof fn lemma_filter_member<T>(rows: Seq<T>, hit: spec_fn(T) -> bool, x: T)
    ensures
        rows.filter(hit).contains(x) <==> rows.contains(x) && hit(x),
{
    let each = |t: T| true;
    let rel = |a: T, b: T| true;
    lemma_filter_pairwise(rows, hit, each, rel);
    if rows.filter(hit).contains(x) {
        let i = choose|i: int| 0 <= i < rows.filter(hit).len() && rows.filter(hit)[i] == x;
        assert(rows.contains(rows.filter(hit)[i]));
    }
    if rows.contains(x) && hit(x) {
        let i = choose|i: int| 0 <= i < rows.len() && rows[i] == x;
        rows.lemma_filter_contains(hit, i);
    }
}

/// The first row of a kind is one of them, and none of the kind is before it.
/// There is one wherever a row is of the kind.
pub proof fn law_first_is_first<T>(rows: Seq<T>, hit: spec_fn(T) -> bool)
    ensures
        first_where(rows, hit) is None <==> forall|k: int|
            0 <= k < rows.len() ==> !hit(#[trigger] rows[k]),
        first_where(rows, hit) matches Some(x) ==> exists|i: int|
            0 <= i < rows.len() && #[trigger] rows[i] == x && hit(x) && forall|k: int|
                0 <= k < i ==> !hit(#[trigger] rows[k]),
    decreases rows.len(),
{
    lemma_first_where_none(rows, hit);
    if first_where(rows, hit) is Some {
        if hit(rows[0]) {
            assert(rows[0] == first_where(rows, hit)->0);
        } else {
            let rest = rows.drop_first();
            law_first_is_first(rest, hit);
            let x = first_where(rows, hit)->0;
            let i = choose|i: int|
                0 <= i < rest.len() && #[trigger] rest[i] == x && hit(x) && forall|k: int|
                    0 <= k < i ==> !hit(#[trigger] rest[k]);
            assert(rows[i + 1] == x);
            assert forall|k: int| 0 <= k < i + 1 implies !hit(#[trigger] rows[k]) by {
                if k > 0 {
                    assert(!hit(rest[k - 1]));
                }
            }
        }
    }
}

/// Counting goes over two lists, one behind the other, as over each of them; a
/// single row counts where it satisfies the condition.
pub proof fn law_counts_add_up<T>(a: Seq<T>, b: Seq<T>, x: T, hit: spec_fn(T) -> bool)
    ensures
        count_where(a + b, hit) == count_where(a, hit) + count_where(b, hit),
        count_where(seq![x], hit) == if hit(x) { 1nat } else { 0 },
{
    Seq::filter_distributes_over_add(a, b, hit);
    reveal(Seq::filter);
    assert(seq![x].drop_last() =~= Seq::empty());
    assert(Seq::<T>::empty().filter(hit) =~= Seq::empty());
}

/// Sums go over two lists, one behind the other, as over each of them.
pub proof fn law_sums_add_up(a: Seq<int>, b: Seq<int>, x: int)
    ensures
        sum_of(a + b) == sum_of(a) + sum_of(b),
        sum_of(seq![x]) == x,
    decreases b.len(),
{
    assert(seq![x].drop_last() =~= Seq::empty());
    assert(sum_of(Seq::empty()) == 0);
    if b.len() > 0 {
        law_sums_add_up(a, b.drop_last(), x);
        assert((a + b).drop_last() =~= a + b.drop_last());
    } else {
        assert(a + b =~= a);
    }
}

/// A sum of figures that are not negative is no less than each of them.
pub proof fn lemma_sum_covers(s: Seq<int>, i: int)
    requires
        0 <= i < s.len(),
        forall|k: int| 0 <= k < s.len() ==> #[trigger] s[k] >= 0,
    ensures
        sum_of(s) >= s[i],
    decreases s.len(),
{
    let init = s.drop_last();
    assert forall|k: int| 0 <= k < init.len() implies #[trigger] init[k] >= 0 by {
        assert(init[k] == s[k]);
    }
    lemma_sum_not_negative(init);
    if i < init.len() {
        lemma_sum_covers(init, i);
        assert(s[s.len() - 1] >= 0);
    }
}

pub proof fn lemma_sum_not_negative(s: Seq<int>)
    requires
        forall|k: int| 0 <= k < s.len() ==> #[trigger] s[k] >= 0,
    ensures
        sum_of(s) >= 0,
    decreases s.len(),
{
    if s.len() > 0 {
        let init = s.drop_last();
        assert forall|k: int| 0 <= k < init.len() implies #[trigger] init[k] >= 0 by {
            assert(init[k] == s[k]);
        }
        lemma_sum_not_negative(init);
        assert(s[s.len() - 1] >= 0);
    }
}

/// A sorted list holds what the list holds, and no element stands behind one that
/// it belongs before.
pub proof fn law_sorted_holds_the_same<T>(s: Seq<T>, before: spec_fn(T, T) -> bool, x: T)
    requires
        orders(before),
    ensures
        sorted(s, before).len() == s.len(),
        sorted(s, before).contains(x) <==> s.contains(x),
        forall|i: int, j: int|
            0 <= i < j < s.len() ==> !before(
                #[trigger] sorted(s, before)[j],
                #[trigger] sorted(s, before)[i],
            ),
{
    law_sorted_is_permutation(s, before);
    law_sorted_is_in_order(s, before);
    lemma_sorted_contains(s, before, x);
}

/// Rows put together by a key.
pub open spec fn grouped(
    rows: Seq<SeriesRow>,
    key: spec_fn(SeriesRow) -> Seq<char>,
) -> Seq<Seq<SeriesRow>> {
    groups(rows.map_values(key)).map_values(|g: Seq<int>| picked(rows, g))
}

/// Whether a row is in one of some groups.
pub open spec fn in_a_group(groups: Seq<Seq<SeriesRow>>, s: SeriesRow) -> bool {
    exists|g: int| 0 <= g < groups.len() && (#[trigger] groups[g]).contains(s)
}

/// Every row is in a group; a group has members, all of them with its key; no two
/// groups have the same key.
pub proof fn law_grouped(rows: Seq<SeriesRow>, key: spec_fn(SeriesRow) -> Seq<char>)
    ensures
        forall|i: int|
            0 <= i < rows.len() ==> in_a_group(grouped(rows, key), #[trigger] rows[i]),
        forall|g: int|
            0 <= g < grouped(rows, key).len() ==> (#[trigger] grouped(rows, key)[g]).len() > 0,
        forall|g: int, m: int|
            #![trigger grouped(rows, key)[g][m]]
            0 <= g < grouped(rows, key).len() && 0 <= m < grouped(rows, key)[g].len()
                ==> rows.contains(grouped(rows, key)[g][m]) && key(grouped(rows, key)[g][m]) == key(
                grouped(rows, key)[g][0],
            ),
        forall|g: int, h: int|
            0 <= g < h < grouped(rows, key).len() ==> key((#[trigger] grouped(rows, key)[g])[0])
                != key((#[trigger] grouped(rows, key)[h])[0]),
{
    let keys = rows.map_values(key);
    let shows = grouped(rows, key);
    let gs = groups(keys);
    lemma_groups(keys);
    lemma_leaders(keys);
    assert forall|i: int| 0 <= i < rows.len() implies in_a_group(shows, #[trigger] rows[i]) by {
        law_groups_partition(keys, i);
        let g = choose|g: int| 0 <= g < gs.len() && #[trigger] gs[g].contains(i);
        let m = choose|m: int| 0 <= m < gs[g].len() && gs[g][m] == i;
        assert(shows[g][m] == rows[i]);
        assert(shows[g].contains(rows[i]));
    }
    assert forall|g: int| 0 <= g < shows.len() implies (#[trigger] shows[g]).len() > 0 by {
        assert(gs[g].len() > 0);
    }
    assert forall|g: int, m: int|
        #![trigger shows[g][m]]
        0 <= g < shows.len() && 0 <= m < shows[g].len() implies rows.contains(shows[g][m]) && key(
        shows[g][m],
    ) == key(shows[g][0]) by {
        lemma_group_key(rows, key, g, m);
        lemma_group_key(rows, key, g, 0);
    }
    assert forall|g: int, h: int| 0 <= g < h < shows.len() implies key((#[trigger] shows[g])[0])
        != key((#[trigger] shows[h])[0]) by {
        assert(gs[g].len() > 0 && gs[h].len() > 0);
        lemma_group_key(rows, key, g, 0);
        lemma_group_key(rows, key, h, 0);
        assert(keys[leaders(keys)[g]] != keys[leaders(keys)[h]]);
    }
}

proof fn lemma_group_key(
    rows: Seq<SeriesRow>,
    key: spec_fn(SeriesRow) -> Seq<char>,
    g: int,
    m: int,
)
    requires
        0 <= g < groups(rows.map_values(key)).len(),
        0 <= m < groups(rows.map_values(key))[g].len(),
    ensures
        rows.contains(grouped(rows, key)[g][m]),
        key(grouped(rows, key)[g][m]) == rows.map_values(key)[leaders(rows.map_values(key))[g]],
{
    let keys = rows.map_values(key);
    let l = leaders(keys)[g];
    lemma_groups(keys);
    lemma_leaders(keys);
    lemma_places(keys, keys[l]);
    let p = places(keys, keys[l])[m];
    assert(groups(keys)[g][m] == p);
    assert(grouped(rows, key)[g][m] == rows[p]);
    assert(keys[p] == key(rows[p]));
}

/// Sorting keeps the order of what it does not order: rows of which none is before
/// another stay as they were among themselves.
pub proof fn law_sorting_keeps_ties<T>(
    s: Seq<T>,
    before: spec_fn(T, T) -> bool,
    tied: spec_fn(T) -> bool,
)
    requires
        forall|a: T, b: T| #[trigger] tied(a) && #[trigger] tied(b) ==> !before(a, b),
    ensures
        sorted(s, before).filter(tied) == s.filter(tied),
    decreases s.len(),
{
    reveal(Seq::filter);
    if s.len() > 0 {
        law_sorting_keeps_ties(s.drop_last(), before, tied);
        lemma_insertion_keeps_ties(sorted(s.drop_last(), before), s.last(), before, tied);
    }
}

proof fn lemma_insertion_keeps_ties<T>(
    s: Seq<T>,
    x: T,
    before: spec_fn(T, T) -> bool,
    tied: spec_fn(T) -> bool,
)
    requires
        forall|a: T, b: T| #[trigger] tied(a) && #[trigger] tied(b) ==> !before(a, b),
    ensures
        insert_sorted(s, x, before).filter(tied) == if tied(x) {
            s.filter(tied).push(x)
        } else {
            s.filter(tied)
        },
    decreases s.len(),
{
    reveal(Seq::filter);
    if s.len() == 0 || !before(x, s.last()) {
        assert(s.push(x).drop_last() =~= s);
    } else {
        let init = s.drop_last();
        lemma_insertion_keeps_ties(init, x, before, tied);
        let now = insert_sorted(init, x, before);
        assert(now.push(s.last()).drop_last() =~= now);
    }
}

/// Groups come in the order in which their keys are first used, and hold their places
/// in order.
pub proof fn law_groups_keep_order(keys: Seq<Seq<char>>)
    ensures
        forall|g: int, h: int|
            0 <= g < h < groups(keys).len() ==> (#[trigger] groups(keys)[g])[0] < (
            #[trigger] groups(keys)[h])[0],
        forall|g: int, m: int, n: int|
            0 <= g < groups(keys).len() && 0 <= m < n < groups(keys)[g].len() ==> (
            #[trigger] groups(keys)[g][m]) < (#[trigger] groups(keys)[g][n]),
{
    lemma_leaders(keys);
    lemma_leaders_first(keys);
    lemma_groups(keys);
    assert forall|g: int| 0 <= g < groups(keys).len() implies (#[trigger] groups(keys)[g])[0]
        == leaders(keys)[g] by {
        let l = leaders(keys)[g];
        let p = places(keys, keys[l]);
        lemma_places(keys, keys[l]);
        assert(p.contains(l));
        let m = choose|m: int| 0 <= m < p.len() && p[m] == l;
        if m > 0 {
            assert(p[0] < p[m]);
            assert(keys[p[0]] == keys[l]);
        }
    }
    assert forall|g: int, m: int, n: int|
        0 <= g < groups(keys).len() && 0 <= m < n < groups(keys)[g].len() implies (
    #[trigger] groups(keys)[g][m]) < (#[trigger] groups(keys)[g][n]) by {
        lemma_places(keys, keys[leaders(keys)[g]]);
    }
}

proof fn lemma_leaders_first(keys: Seq<Seq<char>>)
    ensures
        forall|g: int, h: int|
            0 <= g < h < leaders(keys).len() ==> (#[trigger] leaders(keys)[g]) < (
            #[trigger] leaders(keys)[h]),
        forall|g: int, i: int|
            #![trigger leaders(keys)[g], keys[i]]
            0 <= g < leaders(keys).len() && 0 <= i < leaders(keys)[g] ==> keys[i] != keys[leaders(
                keys,
            )[g]],
    decreases keys.len(),
{
    if keys.len() > 0 {
        let init = keys.drop_last();
        lemma_leaders_first(init);
        lemma_leaders(init);
        assert forall|g: int, i: int|
            #![trigger leaders(keys)[g], keys[i]]
            0 <= g < leaders(keys).len() && 0 <= i < leaders(keys)[g] implies keys[i]
            != keys[leaders(keys)[g]] by {
            if g < leaders(init).len() {
                assert(leaders(keys)[g] == leaders(init)[g]);
                assert(init[i] != init[leaders(init)[g]]);
            } else {
                assert(leaders(keys)[g] == keys.len() - 1);
                assert(init[i] == keys[i]);
                if keys[i] == keys.last() {
                    assert(init.contains(keys.last()));
                }
            }
        }
    }
}

/// How many of the rows that meet one condition meet another: those that meet both.
pub proof fn law_conditions_combine<T>(
    rows: Seq<T>,
    one: spec_fn(T) -> bool,
    other: spec_fn(T) -> bool,
)
    ensures
        count_where(rows.filter(one), other) == count_where(rows, |t: T| one(t) && other(t)),
    decreases rows.len(),
{
    reveal(Seq::filter);
    let both = |t: T| one(t) && other(t);
    if rows.len() > 0 {
        let init = rows.drop_last();
        law_conditions_combine(init, one, other);
        if one(rows.last()) {
            assert(init.filter(one).push(rows.last()).drop_last() =~= init.filter(one));
        }
    }
}

} // verus!
