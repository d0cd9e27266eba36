//! Finding, selecting, sorting and grouping the rows of a table.

use vstd::prelude::*;

verus! {

/// The first row that satisfies a condition.
pub open spec fn first_where<T>(rows: Seq<T>, hit: spec_fn(T) -> bool) -> Option<T>
    decreases rows.len(),
{
    if rows.len() == 0 {
        None
    } else if hit(rows[0]) {
        Some(rows[0])
    } else {
        first_where(rows.drop_first(), hit)
    }
}

/// The first row that satisfies a condition is the one at `i` when no row
/// before it does.
pub proof fn lemma_first_where_at<T>(rows: Seq<T>, hit: spec_fn(T) -> bool, i: int)
    requires
        0 <= i < rows.len(),
        hit(rows[i]),
        forall|k: int| 0 <= k < i ==> !hit(#[trigger] rows[k]),
    ensures
        first_where(rows, hit) == Some(rows[i]),
    decreases rows.len(),
{
    if i > 0 {
        assert(!hit(rows[0]));
        let rest = rows.drop_first();
        assert forall|k: int| 0 <= k < i - 1 implies !hit(#[trigger] rest[k]) by {
            assert(rest[k] == rows[k + 1]);
        }
        lemma_first_where_at(rest, hit, i - 1);
    }
}

/// No row satisfies a condition exactly when there is no first one.
pub proof fn lemma_first_where_none<T>(rows: Seq<T>, hit: spec_fn(T) -> bool)
    ensures
        first_where(rows, hit) is None <==> forall|k: int|
            0 <= k < rows.len() ==> !hit(#[trigger] rows[k]),
    decreases rows.len(),
{
    if rows.len() > 0 {
        let rest = rows.drop_first();
        lemma_first_where_none(rest, hit);
        if hit(rows[0]) {
        } else if first_where(rows, hit) is None {
            assert forall|k: int| 0 <= k < rows.len() implies !hit(#[trigger] rows[k]) by {
                if k > 0 {
                    assert(rest[k - 1] == rows[k]);
                }
            }
        } else {
            let k = choose|k: int| 0 <= k < rest.len() && hit(#[trigger] rest[k]);
            assert(rows[k + 1] == rest[k]);
        }
    }
}

/// Selecting from one more row: the row is added if it satisfies the condition.
pub proof fn lemma_filter_step<T>(rows: Seq<T>, hit: spec_fn(T) -> bool, i: int)
    requires
        0 <= i < rows.len(),
    ensures
        rows.take(i + 1).filter(hit) == if hit(rows[i]) {
            rows.take(i).filter(hit).push(rows[i])
        } else {
            rows.take(i).filter(hit)
        },
{
    assert(rows.take(i + 1) =~= rows.take(i).push(rows[i]));
    rows.take(i).lemma_filter_push(rows[i], hit);
}

/// Selecting from no rows gives none.
pub proof fn lemma_filter_none<T>(rows: Seq<T>, hit: spec_fn(T) -> bool)
    ensures
        rows.take(0).filter(hit) == Seq::<T>::empty(),
        rows.take(rows.len() as int) == rows,
{
    reveal(Seq::filter);
    assert(rows.take(0) =~= Seq::empty());
    assert(rows.take(rows.len() as int) =~= rows);
}

/// How many rows satisfy a condition.
pub open spec fn count_where<T>(rows: Seq<T>, hit: spec_fn(T) -> bool) -> nat {
    rows.filter(hit).len()
}

/// Whether `after` holds the rows of `before` in their places, with those that
/// satisfy `hit` changed as `change` says and the others left alone.
pub open spec fn updated<T>(
    before: Seq<T>,
    after: Seq<T>,
    hit: spec_fn(T) -> bool,
    change: spec_fn(T, T) -> bool,
) -> bool {
    &&& after.len() == before.len()
    &&& forall|i: int|
        0 <= i < before.len() ==> if hit(before[i]) {
            change(before[i], #[trigger] after[i])
        } else {
            after[i] == before[i]
        }
}

/// A list with `x` put behind the last element that it does not stand before.
pub open spec fn insert_sorted<T>(s: Seq<T>, x: T, before: spec_fn(T, T) -> bool) -> Seq<T>
    decreases s.len(),
{
    if s.len() == 0 || !before(x, s.last()) {
        s.push(x)
    } else {
        insert_sorted(s.drop_last(), x, before).push(s.last())
    }
}

/// A list sorted so that elements of which neither stands before the other keep
/// their order.
pub open spec fn sorted<T>(s: Seq<T>, before: spec_fn(T, T) -> bool) -> Seq<T>
    decreases s.len(),
{
    if s.len() == 0 {
        s
    } else {
        insert_sorted(sorted(s.drop_last(), before), s.last(), before)
    }
}

/// Whether a relation orders a type: nothing stands before itself, and to stand
/// before, as well as not to, carries over a third element.
pub open spec fn orders<T>(before: spec_fn(T, T) -> bool) -> bool {
    &&& forall|a: T, b: T| #[trigger] before(a, b) ==> !before(b, a)
    &&& forall|a: T, b: T, c: T|
        !(#[trigger] before(b, a)) && !(#[trigger] before(c, b)) ==> !before(c, a)
}

/// Whether no element of a list stands before an earlier one.
pub open spec fn in_order<T>(s: Seq<T>, before: spec_fn(T, T) -> bool) -> bool {
    forall|i: int, j: int| 0 <= i < j < s.len() ==> !before(#[trigger] s[j], #[trigger] s[i])
}

proof fn lemma_insert_sorted<T>(s: Seq<T>, x: T, before: spec_fn(T, T) -> bool)
    ensures
        insert_sorted(s, x, before).len() == s.len() + 1,
        insert_sorted(s, x, before).to_multiset() == s.to_multiset().insert(x),
        forall|i: int|
            0 <= i <= s.len() ==> #[trigger] insert_sorted(s, x, before)[i] == x || s.contains(
                insert_sorted(s, x, before)[i],
            ),
        orders(before) && in_order(s, before) ==> in_order(insert_sorted(s, x, before), before),
    decreases s.len(),
{
    broadcast use vstd::seq_lib::group_to_multiset_ensures;

    if s.len() == 0 || !before(x, s.last()) {
        let r = s.push(x);
        if orders(before) && in_order(s, before) {
            assert forall|i: int, j: int| 0 <= i < j < r.len() implies !before(
                #[trigger] r[j],
                #[trigger] r[i],
            ) by {
                if j == s.len() && i < s.len() - 1 {
                    assert(!before(s[s.len() - 1], s[i]));
                    assert(!before(x, s.last()));
                }
            }
        }
        assert forall|i: int| 0 <= i <= s.len() implies #[trigger] r[i] == x || s.contains(r[i]) by {
            if i < s.len() {
                assert(r[i] == s[i]);
            }
        }
    } else {
        let init = s.drop_last();
        lemma_insert_sorted(init, x, before);
        let part = insert_sorted(init, x, before);
        let r = part.push(s.last());
        assert(s =~= init.push(s.last()));
        assert(r.to_multiset() =~= s.to_multiset().insert(x));
        assert forall|i: int| 0 <= i <= s.len() implies #[trigger] r[i] == x || s.contains(r[i]) by {
            if i < s.len() {
                assert(r[i] == part[i]);
                if part[i] != x {
                    let k = choose|k: int| 0 <= k < init.len() && init[k] == part[i];
                    assert(s[k] == part[i]);
                }
            } else {
                assert(r[i] == s[s.len() - 1]);
            }
        }
        if orders(before) && in_order(s, before) {
            assert(in_order(init, before)) by {
                assert forall|i: int, j: int| 0 <= i < j < init.len() implies !before(
                    #[trigger] init[j],
                    #[trigger] init[i],
                ) by {
                    assert(init[j] == s[j] && init[i] == s[i]);
                }
            }
            assert forall|i: int, j: int| 0 <= i < j < r.len() implies !before(
                #[trigger] r[j],
                #[trigger] r[i],
            ) by {
                if j == s.len() {
                    assert(r[i] == part[i]);
                    if part[i] != x {
                        let k = choose|k: int| 0 <= k < init.len() && init[k] == part[i];
                        assert(!before(s[s.len() - 1], s[k]));
                    }
                } else {
                    assert(r[i] == part[i] && r[j] == part[j]);
                }
            }
        }
    }
}

/// Sorting keeps every element as often as it occurs.
pub proof fn law_sorted_is_permutation<T>(s: Seq<T>, before: spec_fn(T, T) -> bool)
    ensures
        sorted(s, before).to_multiset() == s.to_multiset(),
        sorted(s, before).len() == s.len(),
    decreases s.len(),
{
    broadcast use vstd::seq_lib::group_to_multiset_ensures;

    if s.len() > 0 {
        let init = s.drop_last();
        law_sorted_is_permutation(init, before);
        lemma_insert_sorted(sorted(init, before), s.last(), before);
        assert(s =~= init.push(s.last()));
    }
}

/// Sorting by an order leaves no element standing before an earlier one.
pub proof fn law_sorted_is_in_order<T>(s: Seq<T>, before: spec_fn(T, T) -> bool)
    requires
        orders(before),
    ensures
        in_order(sorted(s, before), before),
    decreases s.len(),
{
    if s.len() > 0 {
        law_sorted_is_in_order(s.drop_last(), before);
        lemma_insert_sorted(sorted(s.drop_last(), before), s.last(), before);
    }
}

/// Sorting goes along with a change of every element that keeps the order.
pub proof fn lemma_sorted_mapped<T, U>(
    s: Seq<T>,
    f: spec_fn(T) -> U,
    before: spec_fn(T, T) -> bool,
    after: spec_fn(U, U) -> bool,
)
    requires
        forall|a: T, b: T| #[trigger] before(a, b) == after(f(a), f(b)),
    ensures
        sorted(s, before).map_values(f) == sorted(s.map_values(f), after),
    decreases s.len(),
{
    if s.len() > 0 {
        let init = s.drop_last();
        lemma_sorted_mapped(init, f, before, after);
        lemma_insert_mapped(sorted(init, before), s.last(), f, before, after);
        assert(s.map_values(f).drop_last() =~= init.map_values(f));
    } else {
        assert(s.map_values(f) =~= Seq::empty());
        assert(sorted(s, before).map_values(f) =~= Seq::empty());
    }
}

proof fn lemma_insert_mapped<T, U>(
    s: Seq<T>,
    x: T,
    f: spec_fn(T) -> U,
    before: spec_fn(T, T) -> bool,
    after: spec_fn(U, U) -> bool,
)
    requires
        forall|a: T, b: T| #[trigger] before(a, b) == after(f(a), f(b)),
    ensures
        insert_sorted(s, x, before).map_values(f) == insert_sorted(s.map_values(f), f(x), after),
    decreases s.len(),
{
    let t = s.map_values(f);
    if s.len() == 0 || !before(x, s.last()) {
        assert(s.push(x).map_values(f) =~= t.push(f(x)));
    } else {
        let init = s.drop_last();
        lemma_insert_mapped(init, x, f, before, after);
        assert(t.drop_last() =~= init.map_values(f));
        assert(t.last() == f(s.last()));
        let inner = insert_sorted(init, x, before);
        assert(inner.push(s.last()).map_values(f) =~= inner.map_values(f).push(f(s.last())));
    }
}

/// What an element of the sorted list is, is an element of the list.
pub proof fn lemma_sorted_contains<T>(s: Seq<T>, before: spec_fn(T, T) -> bool, x: T)
    ensures
        sorted(s, before).contains(x) <==> s.contains(x),
{
    broadcast use vstd::seq_lib::group_to_multiset_ensures;

    law_sorted_is_permutation(s, before);
    assert(sorted(s, before).to_multiset().count(x) == s.to_multiset().count(x));
}

proof fn lemma_insert_pairwise<T>(
    s: Seq<T>,
    x: T,
    before: spec_fn(T, T) -> bool,
    rel: spec_fn(T, T) -> bool,
)
    requires
        forall|a: T, b: T| #[trigger] rel(a, b) ==> rel(b, a),
        pairwise(s, rel),
        forall|i: int| 0 <= i < s.len() ==> rel(#[trigger] s[i], x),
    ensures
        pairwise(insert_sorted(s, x, before), rel),
    decreases s.len(),
{
    if s.len() > 0 && before(x, s.last()) {
        let init = s.drop_last();
        assert forall|i: int| 0 <= i < init.len() implies rel(#[trigger] init[i], x) by {
            assert(init[i] == s[i]);
        }
        assert forall|i: int, j: int| 0 <= i < j < init.len() implies rel(
            #[trigger] init[i],
            #[trigger] init[j],
        ) by {
            assert(init[i] == s[i] && init[j] == s[j]);
        }
        lemma_insert_pairwise(init, x, before, rel);
        lemma_insert_sorted(init, x, before);
        let part = insert_sorted(init, x, before);
        let r = part.push(s.last());
        assert forall|i: int, j: int| 0 <= i < j < r.len() implies rel(
            #[trigger] r[i],
            #[trigger] r[j],
        ) by {
            assert(r[i] == part[i]);
            if j < part.len() {
                assert(r[j] == part[j]);
            } else if part[i] == x {
                assert(rel(s[s.len() - 1], x));
            } else {
                let k = choose|k: int| 0 <= k < init.len() && init[k] == part[i];
                assert(rel(s[k], s[s.len() - 1]));
            }
        }
    } else {
        let r = s.push(x);
        assert forall|i: int, j: int| 0 <= i < j < r.len() implies rel(
            #[trigger] r[i],
            #[trigger] r[j],
        ) by {
            assert(r[i] == s[i]);
            if j < s.len() {
                assert(r[j] == s[j]);
            }
        }
    }
}

/// A relation that goes both ways, and that every two elements of a list stand
/// in, holds between every two elements of the sorted list.
pub proof fn lemma_sorted_pairwise<T>(
    s: Seq<T>,
    before: spec_fn(T, T) -> bool,
    rel: spec_fn(T, T) -> bool,
)
    requires
        forall|a: T, b: T| #[trigger] rel(a, b) ==> rel(b, a),
        pairwise(s, rel),
    ensures
        pairwise(sorted(s, before), rel),
    decreases s.len(),
{
    if s.len() > 0 {
        let init = s.drop_last();
        assert forall|i: int, j: int| 0 <= i < j < init.len() implies rel(
            #[trigger] init[i],
            #[trigger] init[j],
        ) by {
            assert(init[i] == s[i] && init[j] == s[j]);
        }
        lemma_sorted_pairwise(init, before, rel);
        let part = sorted(init, before);
        assert forall|i: int| 0 <= i < part.len() implies rel(#[trigger] part[i], s.last()) by {
            assert(part.contains(part[i]));
            lemma_sorted_contains(init, before, part[i]);
            let k = choose|k: int| 0 <= k < init.len() && init[k] == part[i];
            assert(rel(s[k], s[s.len() - 1]));
        }
        lemma_insert_pairwise(part, s.last(), before, rel);
    }
}

/// Sorts a list. Elements of which neither stands before the other keep their
/// order.
pub fn sort_rows<T, F: Fn(&T, &T) -> bool>(
    items: Vec<T>,
    less: F,
    Ghost(before): Ghost<spec_fn(T, T) -> bool>,
) -> (r: Vec<T>)
    requires
        forall|a: T, b: T| call_requires(less, (&a, &b)),
        forall|a: T, b: T, res: bool| call_ensures(less, (&a, &b), res) ==> res == before(a, b),
    ensures
        r@ == sorted(items@, before),
{
    let ghost all = items@;
    let mut rest = items;
    let mut out: Vec<T> = Vec::new();
    // The unsorted rows wait in reverse, so that the next one is at the end.
    let mut waiting: Vec<T> = Vec::new();
    while rest.len() > 0
        invariant
            rest@ + waiting@.reverse() == all,
        decreases rest.len(),
    {
        let ghost before_pop = rest@;
        let ghost kept = waiting@;
        if let Some(x) = rest.pop() {
            waiting.push(x);
            assert(rest@ + waiting@.reverse() =~= before_pop + kept.reverse());
        }
    }
    assert(waiting@.reverse() =~= all);
    assert(waiting@ =~= all.reverse());
    let ghost mut done: int = 0;
    assert(all.take(0) =~= Seq::empty());
    while waiting.len() > 0
        invariant
            0 <= done,
            done + waiting@.len() == all.len(),
            waiting@ == all.skip(done).reverse(),
            out@ == sorted(all.take(done), before),
            forall|a: T, b: T| call_requires(less, (&a, &b)),
            forall|a: T, b: T, res: bool|
                call_ensures(less, (&a, &b), res) ==> res == before(a, b),
        decreases waiting.len(),
    {
        let ghost waited = waiting@;
        if let Some(x) = waiting.pop() {
            assert(x == all[done]);
            let ghost have = out@;
            let mut at: usize = out.len();
            assert(have.take(have.len() as int) =~= have);
            assert(insert_sorted(have, x, before) =~= insert_sorted(
                have.take(at as int),
                x,
                before,
            ) + have.skip(at as int));
            while at > 0 && less(&x, &out[at - 1])
                invariant
                    at <= out@.len(),
                    out@ == have,
                    insert_sorted(have, x, before) == insert_sorted(
                        have.take(at as int),
                        x,
                        before,
                    ) + have.skip(at as int),
                    forall|a: T, b: T| call_requires(less, (&a, &b)),
                    forall|a: T, b: T, res: bool|
                        call_ensures(less, (&a, &b), res) ==> res == before(a, b),
                decreases at,
            {
                let ghost head = have.take(at as int);
                assert(head.drop_last() =~= have.take(at - 1));
                assert(insert_sorted(head, x, before) + have.skip(at as int) =~= insert_sorted(
                    have.take(at - 1),
                    x,
                    before,
                ) + have.skip(at - 1));
                at -= 1;
            }
            assert(have.take(at as int).push(x) + have.skip(at as int) =~= have.insert(
                at as int,
                x,
            ));
            out.insert(at, x);
            assert(all.take(done + 1).drop_last() =~= all.take(done));
            assert(waiting@ =~= all.skip(done + 1).reverse());
            proof {
                done = done + 1;
            }
        }
    }
    assert(all.take(done) =~= all);
    out
}

/// The places at which a key occurs for the first time, in order.
pub open spec fn leaders(keys: Seq<Seq<char>>) -> Seq<int>
    decreases keys.len(),
{
    if keys.len() == 0 {
        Seq::empty()
    } else {
        let before = leaders(keys.drop_last());
        if keys.drop_last().contains(keys.last()) {
            before
        } else {
            before.push(keys.len() - 1)
        }
    }
}

/// The places at which one key occurs, in order.
pub open spec fn places(keys: Seq<Seq<char>>, key: Seq<char>) -> Seq<int>
    decreases keys.len(),
{
    if keys.len() == 0 {
        Seq::empty()
    } else {
        let before = places(keys.drop_last(), key);
        if keys.last() == key {
            before.push(keys.len() - 1)
        } else {
            before
        }
    }
}

/// The places of equal keys put together, a group for every different key in
/// the order in which the keys occur first.
pub open spec fn groups(keys: Seq<Seq<char>>) -> Seq<Seq<int>> {
    leaders(keys).map_values(|l: int| places(keys, keys[l]))
}

/// Whether the key at a place is the key of a leader.
pub open spec fn has_leader(keys: Seq<Seq<char>>, i: int) -> bool {
    exists|g: int| 0 <= g < leaders(keys).len() && keys[#[trigger] leaders(keys)[g]] == keys[i]
}

/// Leaders are places, in order; each key occurs first at one of them.
pub proof fn lemma_leaders(keys: Seq<Seq<char>>)
    ensures
        leaders(keys).len() <= keys.len(),
        forall|g: int| 0 <= g < leaders(keys).len() ==> 0 <= #[trigger] leaders(keys)[g] < keys.len(),
        forall|g: int, h: int|
            0 <= g < h < leaders(keys).len() ==> keys[#[trigger] leaders(keys)[g]] != keys[
            #[trigger] leaders(keys)[h]],
        forall|i: int| 0 <= i < keys.len() ==> #[trigger] has_leader(keys, i),
    decreases keys.len(),
{
    if keys.len() > 0 {
        let init = keys.drop_last();
        lemma_leaders(init);
        let l = leaders(keys);
        let b = leaders(init);
        assert forall|g: int| 0 <= g < l.len() implies 0 <= #[trigger] l[g] < keys.len() by {
            if g < b.len() {
                assert(0 <= b[g] < init.len());
            }
        }
        assert forall|g: int, h: int| 0 <= g < h < l.len() implies keys[#[trigger] l[g]]
            != keys[#[trigger] l[h]] by {
            assert(l[g] == b[g]);
            assert(init[b[g]] == keys[b[g]]);
            if h < b.len() {
                assert(l[h] == b[h]);
                assert(init[b[h]] == keys[b[h]]);
            } else {
                assert(init.contains(init[b[g]]));
            }
        }
        assert forall|i: int| 0 <= i < keys.len() implies #[trigger] has_leader(keys, i) by {
            if i < init.len() || init.contains(keys.last()) {
                let k: int = if i < init.len() {
                    i
                } else {
                    choose|k: int| 0 <= k < init.len() && init[k] == keys.last()
                };
                assert(init[k] == keys[i]);
                assert(has_leader(init, k));
                let g = choose|g: int| 0 <= g < b.len() && init[#[trigger] b[g]] == init[k];
                assert(l[g] == b[g]);
                assert(keys[l[g]] == init[b[g]]);
            } else {
                assert(l[b.len() as int] == i);
            }
        }
    }
}

/// Places of a key are places, in order, and there are no others.
pub proof fn lemma_places(keys: Seq<Seq<char>>, key: Seq<char>)
    ensures
        places(keys, key).len() <= keys.len(),
        forall|m: int|
            0 <= m < places(keys, key).len() ==> 0 <= #[trigger] places(keys, key)[m] < keys.len()
                && keys[places(keys, key)[m]] == key,
        forall|m: int, n: int|
            0 <= m < n < places(keys, key).len() ==> #[trigger] places(keys, key)[m]
                < #[trigger] places(keys, key)[n],
        forall|i: int|
            0 <= i < keys.len() && #[trigger] keys[i] == key ==> places(keys, key).contains(i),
    decreases keys.len(),
{
    if keys.len() > 0 {
        let init = keys.drop_last();
        lemma_places(init, key);
        let p = places(keys, key);
        let b = places(init, key);
        assert forall|m: int| 0 <= m < p.len() implies 0 <= #[trigger] p[m] < keys.len()
            && keys[p[m]] == key by {
            if m < b.len() {
                assert(0 <= b[m] < init.len());
                assert(init[b[m]] == keys[b[m]]);
            }
        }
        assert forall|i: int| 0 <= i < keys.len() && #[trigger] keys[i] == key implies p.contains(
            i,
        ) by {
            if i < init.len() {
                assert(init[i] == key);
                let m = choose|m: int| 0 <= m < b.len() && b[m] == i;
                assert(p[m] == i);
            } else {
                assert(p[b.len() as int] == i);
            }
        }
    }
}

/// Every place is in exactly one group, and two places are in the same group
/// exactly when their keys are equal.
pub proof fn law_groups_partition(keys: Seq<Seq<char>>, i: int)
    requires
        0 <= i < keys.len(),
    ensures
        exists|g: int| 0 <= g < groups(keys).len() && #[trigger] groups(keys)[g].contains(i),
        forall|g: int, h: int|
            0 <= g < groups(keys).len() && 0 <= h < groups(keys).len() && #[trigger] groups(
                keys,
            )[g].contains(i) && #[trigger] groups(keys)[h].contains(i) ==> g == h,
        forall|g: int, j: int|
            0 <= g < groups(keys).len() && groups(keys)[g].contains(i) && 0 <= j < keys.len() ==> (
            #[trigger] groups(keys)[g].contains(j) <==> keys[j] == keys[i]),
{
    lemma_leaders(keys);
    let l = leaders(keys);
    assert(has_leader(keys, i));
    let g0 = choose|g: int| 0 <= g < l.len() && keys[#[trigger] l[g]] == keys[i];
    lemma_places(keys, keys[i]);
    assert(groups(keys)[g0] == places(keys, keys[i]));
    assert forall|g: int| 0 <= g < groups(keys).len() && #[trigger] groups(keys)[g].contains(
        i,
    ) implies g == g0 && keys[l[g]] == keys[i] by {
        lemma_places(keys, keys[l[g]]);
        let m = choose|m: int| 0 <= m < groups(keys)[g].len() && groups(keys)[g][m] == i;
        assert(keys[places(keys, keys[l[g]])[m]] == keys[l[g]]);
        if g < g0 {
            assert(keys[l[g]] != keys[l[g0]]);
        } else if g > g0 {
            assert(keys[l[g0]] != keys[l[g]]);
        }
    }
    assert forall|g: int, j: int|
        0 <= g < groups(keys).len() && groups(keys)[g].contains(i) && 0 <= j < keys.len() implies (
    #[trigger] groups(keys)[g].contains(j) <==> keys[j] == keys[i]) by {
        assert(g == g0);
        if groups(keys)[g].contains(j) {
            let m = choose|m: int| 0 <= m < groups(keys)[g].len() && groups(keys)[g][m] == j;
            assert(keys[places(keys, keys[i])[m]] == keys[i]);
        }
    }
}

/// No two groups have the same key, and every group has a member.
pub proof fn lemma_groups(keys: Seq<Seq<char>>)
    ensures
        groups(keys).len() == leaders(keys).len(),
        groups(keys).len() <= keys.len(),
        forall|g: int| 0 <= g < groups(keys).len() ==> (#[trigger] groups(keys)[g]).len() > 0,
        forall|g: int, m: int|
            0 <= g < groups(keys).len() && 0 <= m < groups(keys)[g].len() ==> 0
                <= #[trigger] groups(keys)[g][m] < keys.len(),
{
    lemma_leaders(keys);
    assert forall|g: int| 0 <= g < groups(keys).len() implies (#[trigger] groups(keys)[g]).len()
        > 0 by {
        let l = leaders(keys)[g];
        lemma_places(keys, keys[l]);
        assert(places(keys, keys[l]).contains(l));
    }
    assert forall|g: int, m: int|
        0 <= g < groups(keys).len() && 0 <= m < groups(keys)[g].len() implies 0
        <= #[trigger] groups(keys)[g][m] < keys.len() by {
        lemma_places(keys, keys[leaders(keys)[g]]);
    }
}

/// What the texts of a list spell.
pub open spec fn key_views(keys: Seq<String>) -> Seq<Seq<char>> {
    keys.map_values(|k: String| k@)
}

/// A list of places as whole numbers.
pub open spec fn as_places(p: Seq<usize>) -> Seq<int> {
    p.map_values(|i: usize| i as int)
}

/// Lists of places as whole numbers.
pub open spec fn as_groups(p: Seq<Vec<usize>>) -> Seq<Seq<int>> {
    p.map_values(|g: Vec<usize>| as_places(g@))
}

/// Puts the places of equal keys together, in the order in which the keys occur
/// first.
pub fn group_rows(keys: &Vec<String>) -> (r: Vec<Vec<usize>>)
    ensures
        as_groups(r@) == groups(key_views(keys@)),
{
    let ghost all = key_views(keys@);
    let mut out: Vec<Vec<usize>> = Vec::new();
    let mut heads: Vec<usize> = Vec::new();
    assert(all.take(0) =~= Seq::empty());
    let mut i: usize = 0;
    while i < keys.len()
        invariant
            i <= keys@.len(),
            all == key_views(keys@),
            heads@.len() == out@.len(),
            as_places(heads@) == leaders(all.take(i as int)),
            forall|g: int| 0 <= g < heads@.len() ==> #[trigger] heads@[g] < i,
            forall|g: int|
                0 <= g < out@.len() ==> as_places((#[trigger] out@[g])@) == places(
                    all.take(i as int),
                    all[heads@[g] as int],
                ),
        decreases keys@.len() - i,
    {
        let ghost have = all.take(i as int);
        let ghost next = all.take(i + 1);
        assert(next.drop_last() =~= have);
        assert(next.last() == all[i as int]);
        let ghost heads_before = heads@;
        let ghost out_before = out@;
        proof {
            lemma_leaders(have);
        }
        let mut g: usize = 0;
        while g < heads.len() && keys[heads[g]] != keys[i]
            invariant
                i < keys@.len(),
                g <= heads@.len(),
                all == key_views(keys@),
                forall|h: int| 0 <= h < heads@.len() ==> #[trigger] heads@[h] < i,
                forall|h: int| 0 <= h < g ==> all[#[trigger] heads@[h] as int] != all[i as int],
            decreases heads@.len() - g,
        {
            g += 1;
        }
        if g < heads.len() {
            let ghost old_group = out@[g as int]@;
            out[g].push(i);
            proof {
                let l = as_places(heads@)[g as int];
                assert(have[l] == all[i as int]);
                assert(have.contains(all[i as int]));
                assert forall|h: int| 0 <= h < out@.len() implies as_places((#[trigger] out@[h])@)
                    == places(next, all[heads@[h] as int]) by {
                    if h == g {
                        assert(as_places(out@[h]@) =~= as_places(old_group).push(i as int));
                    } else {
                        assert(out@[h] == out_before[h]);
                        assert(leaders(have)[h] == heads@[h] as int);
                        assert(leaders(have)[g as int] == heads@[g as int] as int);
                        if h < g {
                            assert(have[leaders(have)[h]] != have[leaders(have)[g as int]]);
                        } else {
                            assert(have[leaders(have)[g as int]] != have[leaders(have)[h]]);
                        }
                    }
                }
            }
        } else {
            proof {
                assert forall|k: int| 0 <= k < have.len() implies #[trigger] have[k]
                    != all[i as int] by {
                    assert(has_leader(have, k));
                    let h = choose|h: int|
                        0 <= h < leaders(have).len() && have[#[trigger] leaders(have)[h]]
                            == have[k];
                    assert(leaders(have)[h] == heads@[h] as int);
                    assert(all[heads@[h] as int] != all[i as int]);
                }
                assert(!have.contains(all[i as int]));
            }
            let mut fresh: Vec<usize> = Vec::new();
            fresh.push(i);
            out.push(fresh);
            heads.push(i);
            proof {
                lemma_places(have, all[i as int]);
                if places(have, all[i as int]).len() > 0 {
                    assert(have[places(have, all[i as int])[0]] == all[i as int]);
                }
                assert(as_places(heads@) =~= leaders(next));
                assert forall|h: int| 0 <= h < out@.len() implies as_places((#[trigger] out@[h])@)
                    == places(next, all[heads@[h] as int]) by {
                    if h == out_before.len() {
                        assert(as_places(out@[h]@) =~= places(have, all[i as int]).push(i as int));
                    } else {
                        assert(out@[h] == out_before[h]);
                        assert(heads@[h] == heads_before[h]);
                        assert(have[heads_before[h] as int] == all[heads_before[h] as int]);
                    }
                }
            }
        }
        i += 1;
    }
    assert(all.take(i as int) =~= all);
    proof {
        assert forall|g: int| 0 <= g < out@.len() implies as_groups(out@)[g] == #[trigger] groups(
            all,
        )[g] by {
            assert(leaders(all)[g] == heads@[g] as int);
            assert(as_places(out@[g]@) == places(all, all[heads@[g] as int]));
        }
        assert(as_groups(out@) =~= groups(all));
    }
    out
}

/// The largest of the numbers, if there are any.
pub open spec fn max_of(s: Seq<int>) -> Option<int>
    decreases s.len(),
{
    if s.len() == 0 {
        None
    } else {
        match max_of(s.drop_last()) {
            Some(m) => if m >= s.last() { Some(m) } else { Some(s.last()) },
            None => Some(s.last()),
        }
    }
}

/// The largest number with one more added.
pub proof fn lemma_max_push(s: Seq<int>, x: int)
    ensures
        max_of(s.push(x)) == match max_of(s) {
            Some(m) => if m >= x { Some(m) } else { Some(x) },
            None => Some(x),
        },
{
    assert(s.push(x).drop_last() =~= s);
}

/// The largest number is one of the numbers, and none is larger.
pub proof fn law_max_of(s: Seq<int>)
    ensures
        max_of(s) is None <==> s.len() == 0,
        max_of(s) matches Some(m) ==> s.contains(m) && forall|i: int|
            0 <= i < s.len() ==> #[trigger] s[i] <= m,
    decreases s.len(),
{
    if s.len() > 0 {
        let init = s.drop_last();
        law_max_of(init);
        assert(s[s.len() - 1] == s.last());
        if let Some(m) = max_of(init) {
            let k = choose|k: int| 0 <= k < init.len() && init[k] == m;
            assert(s[k] == m);
            assert forall|i: int| 0 <= i < s.len() implies #[trigger] s[i] <= max_of(s)->0 by {
                if i < init.len() {
                    assert(init[i] <= m);
                }
            }
        }
    }
}

/// The sum of numbers.
pub open spec fn sum_of(s: Seq<int>) -> int
    decreases s.len(),
{
    if s.len() == 0 { 0 } else { sum_of(s.drop_last()) + s.last() }
}

/// The texts of the rows that satisfy a condition, as a set.
pub open spec fn gathered<T>(
    rows: Seq<T>,
    hit: spec_fn(T) -> bool,
    text: spec_fn(T) -> Seq<char>,
) -> Set<Seq<char>>
    decreases rows.len(),
{
    if rows.len() == 0 {
        Set::empty()
    } else {
        let before = gathered(rows.drop_last(), hit, text);
        if hit(rows.last()) {
            before.insert(text(rows.last()))
        } else {
            before
        }
    }
}

/// Whether a row that satisfies a condition carries the text.
pub open spec fn carried<T>(
    rows: Seq<T>,
    hit: spec_fn(T) -> bool,
    text: spec_fn(T) -> Seq<char>,
    t: Seq<char>,
) -> bool {
    exists|i: int| 0 <= i < rows.len() && hit(#[trigger] rows[i]) && text(rows[i]) == t
}

/// The set holds a text exactly when a row that satisfies the condition carries
/// it.
pub proof fn lemma_gathered<T>(
    rows: Seq<T>,
    hit: spec_fn(T) -> bool,
    text: spec_fn(T) -> Seq<char>,
)
    ensures
        gathered(rows, hit, text).finite(),
        gathered(rows, hit, text).len() <= rows.len(),
        forall|t: Seq<char>| #[trigger]
            gathered(rows, hit, text).contains(t) <==> carried(rows, hit, text, t),
    decreases rows.len(),
{
    if rows.len() > 0 {
        let init = rows.drop_last();
        lemma_gathered(init, hit, text);
        assert forall|t: Seq<char>| #[trigger]
            gathered(rows, hit, text).contains(t) <==> carried(rows, hit, text, t) by {
            assert(gathered(init, hit, text).contains(t) <==> carried(init, hit, text, t));
            if carried(init, hit, text, t) {
                let i = choose|i: int|
                    0 <= i < init.len() && hit(#[trigger] init[i]) && text(init[i]) == t;
                assert(rows[i] == init[i]);
            }
            if carried(rows, hit, text, t) {
                let i = choose|i: int|
                    0 <= i < rows.len() && hit(#[trigger] rows[i]) && text(rows[i]) == t;
                if i < init.len() {
                    assert(rows[i] == init[i]);
                }
            }
            assert(rows[rows.len() - 1] == rows.last());
        }
    }
}

/// No row is selected exactly when none satisfies the condition.
pub proof fn lemma_count_zero<T>(rows: Seq<T>, hit: spec_fn(T) -> bool)
    ensures
        count_where(rows, hit) == 0 <==> forall|k: int|
            0 <= k < rows.len() ==> !hit(#[trigger] rows[k]),
        count_where(rows, hit) <= rows.len(),
    decreases rows.len(),
{
    rows.lemma_filter_len(hit);
    if rows.len() > 0 {
        let init = rows.drop_last();
        lemma_count_zero(init, hit);
        assert(rows =~= init.push(rows.last()));
        init.lemma_filter_push(rows.last(), hit);
        assert(rows[rows.len() - 1] == rows.last());
        assert forall|k: int| 0 <= k < init.len() implies init[k] == #[trigger] rows[k] by {}
        if count_where(init, hit) > 0 {
            let k = choose|k: int| 0 <= k < init.len() && hit(#[trigger] init[k]);
            assert(hit(rows[k]));
        }
    } else {
        lemma_filter_none(rows, hit);
        assert(rows =~= rows.take(0));
    }
}

/// Whether every row stands in a relation to every later one.
pub open spec fn pairwise<T>(rows: Seq<T>, rel: spec_fn(T, T) -> bool) -> bool {
    forall|i: int, j: int| 0 <= i < j < rows.len() ==> rel(#[trigger] rows[i], #[trigger] rows[j])
}

/// What holds of every row, and of every two rows in their order, holds of
/// selected ones too.
pub proof fn lemma_filter_pairwise<T>(
    rows: Seq<T>,
    hit: spec_fn(T) -> bool,
    each: spec_fn(T) -> bool,
    rel: spec_fn(T, T) -> bool,
)
    requires
        forall|i: int| 0 <= i < rows.len() ==> each(#[trigger] rows[i]),
        pairwise(rows, rel),
    ensures
        forall|i: int| 0 <= i < rows.filter(hit).len() ==> each(#[trigger] rows.filter(hit)[i]),
        forall|i: int|
            0 <= i < rows.filter(hit).len() ==> rows.contains(#[trigger] rows.filter(hit)[i])
                && hit(rows.filter(hit)[i]),
        pairwise(rows.filter(hit), rel),
    decreases rows.len(),
{
    reveal(Seq::filter);
    if rows.len() > 0 {
        let init = rows.drop_last();
        let x = rows.last();
        assert(x == rows[rows.len() - 1]);
        assert forall|i: int| 0 <= i < init.len() implies #[trigger] init[i] == rows[i] by {}
        lemma_filter_pairwise(init, hit, each, rel);
        assert(rows =~= init.push(x));
        init.lemma_filter_push(x, hit);
        let f = init.filter(hit);
        let r = rows.filter(hit);
        assert forall|i: int| 0 <= i < f.len() implies rows.contains(#[trigger] f[i]) && rel(
            f[i],
            x,
        ) by {
            assert(init.contains(f[i]));
            let k = choose|k: int| 0 <= k < init.len() && init[k] == f[i];
            assert(rows[k] == f[i]);
            assert(rel(rows[k], rows[rows.len() - 1]));
        }
        assert forall|i: int, j: int| 0 <= i < j < r.len() implies rel(
            #[trigger] r[i],
            #[trigger] r[j],
        ) by {
            if j < f.len() {
                assert(r[i] == f[i] && r[j] == f[j]);
            } else {
                assert(r[i] == f[i]);
            }
        }
        assert forall|i: int| 0 <= i < r.len() implies each(#[trigger] r[i]) && rows.contains(r[i])
            && hit(r[i]) by {
            if i < f.len() {
                assert(r[i] == f[i]);
            }
        }
    }
}

/// The sum of a figure over the given places.
pub open spec fn sum_at(at: Seq<int>, figure: spec_fn(int) -> int) -> int {
    sum_of(at.map_values(figure))
}

/// The sum of a figure over the first `n` places.
pub open spec fn sum_to(n: int, figure: spec_fn(int) -> int) -> int
    decreases n,
{
    if n <= 0 { 0 } else { sum_to(n - 1, figure) + figure(n - 1) }
}

/// The sum of a figure over the places that the first `n` of the given leaders
/// lead.
pub open spec fn led_sum(
    keys: Seq<Seq<char>>,
    heads: Seq<int>,
    n: int,
    figure: spec_fn(int) -> int,
) -> int
    decreases n,
{
    if n <= 0 {
        0
    } else {
        led_sum(keys, heads, n - 1, figure) + sum_at(places(keys, keys[heads[n - 1]]), figure)
    }
}

/// Sums over one more.
pub proof fn lemma_sum_push(s: Seq<int>, x: int)
    ensures
        sum_of(s.push(x)) == sum_of(s) + x,
{
    assert(s.push(x).drop_last() =~= s);
}

proof fn lemma_sum_at_push(keys: Seq<Seq<char>>, key: Seq<char>, figure: spec_fn(int) -> int)
    requires
        keys.len() > 0,
    ensures
        sum_at(places(keys, key), figure) == sum_at(places(keys.drop_last(), key), figure) + (
        if keys.last() == key { figure(keys.len() - 1) } else { 0 }),
{
    let before = places(keys.drop_last(), key);
    if keys.last() == key {
        assert(before.push(keys.len() - 1).map_values(figure) =~= before.map_values(figure).push(
            figure(keys.len() - 1),
        ));
        lemma_sum_push(before.map_values(figure), figure(keys.len() - 1));
    }
}

proof fn lemma_led_sum_prefix(
    keys: Seq<Seq<char>>,
    l: Seq<int>,
    b: Seq<int>,
    n: int,
    figure: spec_fn(int) -> int,
)
    requires
        0 <= n <= b.len() <= l.len(),
        forall|g: int| 0 <= g < b.len() ==> #[trigger] l[g] == b[g],
    ensures
        led_sum(keys, l, n, figure) == led_sum(keys, b, n, figure),
    decreases n,
{
    if n > 0 {
        lemma_led_sum_prefix(keys, l, b, n - 1, figure);
        assert(l[n - 1] == b[n - 1]);
    }
}

proof fn lemma_sum_at_nonnegative(at: Seq<int>, len: int, figure: spec_fn(int) -> int)
    requires
        forall|p: int| 0 <= p < len ==> #[trigger] figure(p) >= 0,
        forall|m: int| 0 <= m < at.len() ==> 0 <= #[trigger] at[m] < len,
    ensures
        sum_at(at, figure) >= 0,
    decreases at.len(),
{
    if at.len() > 0 {
        let init = at.drop_last();
        assert forall|m: int| 0 <= m < init.len() implies 0 <= #[trigger] init[m] < len by {
            assert(init[m] == at[m]);
        }
        lemma_sum_at_nonnegative(init, len, figure);
        assert(at.map_values(figure).drop_last() =~= init.map_values(figure));
        assert(at.map_values(figure).last() == figure(at.last()));
        assert(0 <= at[at.len() - 1] < len);
    }
}

/// A figure that is never negative sums up to no less over more leaders.
pub proof fn lemma_led_sum_monotone(
    keys: Seq<Seq<char>>,
    heads: Seq<int>,
    m: int,
    n: int,
    figure: spec_fn(int) -> int,
)
    requires
        0 <= m <= n,
        forall|p: int| 0 <= p < keys.len() ==> #[trigger] figure(p) >= 0,
    ensures
        led_sum(keys, heads, m, figure) <= led_sum(keys, heads, n, figure),
    decreases n - m,
{
    if m < n {
        lemma_led_sum_monotone(keys, heads, m, n - 1, figure);
        lemma_places(keys, keys[heads[n - 1]]);
        lemma_sum_at_nonnegative(places(keys, keys[heads[n - 1]]), keys.len() as int, figure);
    }
}

proof fn lemma_led_sum_push(
    keys: Seq<Seq<char>>,
    heads: Seq<int>,
    n: int,
    figure: spec_fn(int) -> int,
)
    requires
        keys.len() > 0,
        0 <= n <= heads.len(),
        forall|g: int| 0 <= g < heads.len() ==> 0 <= #[trigger] heads[g] < keys.len() - 1,
        forall|g: int, h: int|
            0 <= g < h < heads.len() ==> keys[#[trigger] heads[g]] != keys[#[trigger] heads[h]],
    ensures
        ({
            let led = exists|g: int| 0 <= g < n && keys[#[trigger] heads[g]] == keys.last();
            led_sum(keys, heads, n, figure) == led_sum(keys.drop_last(), heads, n, figure) + (
            if led { figure(keys.len() - 1) } else { 0 })
        }),
    decreases n,
{
    if n > 0 {
        lemma_led_sum_push(keys, heads, n - 1, figure);
        let init = keys.drop_last();
        assert(0 <= heads[n - 1] < keys.len() - 1);
        assert(init[heads[n - 1]] == keys[heads[n - 1]]);
        lemma_sum_at_push(keys, keys[heads[n - 1]], figure);
        if keys[heads[n - 1]] == keys.last() {
            assert forall|g: int| 0 <= g < n - 1 implies keys[#[trigger] heads[g]] != keys.last() by {
                assert(keys[heads[g]] != keys[heads[n - 1]]);
            }
        } else if exists|g: int| 0 <= g < n && keys[#[trigger] heads[g]] == keys.last() {
            let g = choose|g: int| 0 <= g < n && keys[#[trigger] heads[g]] == keys.last();
            assert(g < n - 1);
        }
    }
}

/// A figure sums up to the same over all groups as over all places.
pub proof fn lemma_group_total(keys: Seq<Seq<char>>, figure: spec_fn(int) -> int)
    ensures
        led_sum(keys, leaders(keys), leaders(keys).len() as int, figure) == sum_to(
            keys.len() as int,
            figure,
        ),
    decreases keys.len(),
{
    if keys.len() > 0 {
        let init = keys.drop_last();
        lemma_group_total(init, figure);
        lemma_leaders(init);
        let b = leaders(init);
        assert forall|g: int| 0 <= g < b.len() implies 0 <= #[trigger] b[g] < keys.len() - 1
            && keys[b[g]] == init[b[g]] by {}
        lemma_led_sum_push(keys, b, b.len() as int, figure);
        if init.contains(keys.last()) {
            let k = choose|k: int| 0 <= k < init.len() && init[k] == keys.last();
            assert(has_leader(init, k));
            let g = choose|g: int| 0 <= g < b.len() && init[#[trigger] b[g]] == init[k];
            assert(keys[b[g]] == keys.last());
        } else {
            let l = leaders(keys);
            assert(l == b.push(keys.len() - 1));
            assert forall|g: int| 0 <= g < b.len() implies keys[#[trigger] b[g]] != keys.last() by {
                assert(init.contains(init[b[g]]));
            }
            lemma_places(init, keys.last());
            if places(init, keys.last()).len() > 0 {
                assert(init[places(init, keys.last())[0]] == keys.last());
            }
            assert(places(init, keys.last()).map_values(figure) =~= Seq::empty());
            lemma_sum_at_push(keys, keys.last(), figure);
            lemma_led_sum_prefix(keys, l, b, b.len() as int, figure);
        }
    }
}

} // verus!
