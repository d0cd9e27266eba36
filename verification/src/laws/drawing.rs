//! Drawing at random: what a draw falls on.

use vstd::prelude::*;
use crate::models::FinishedCard;
use crate::recommend::{by_score, pick_weights, places_scored, ranked, top, Placed};
use crate::laws::lists::lemma_filter_member;
use crate::rows::{law_sorted_is_in_order, law_sorted_is_permutation, lemma_sorted_contains, orders};
use crate::swipe::{
    counted, exchanges, falls_on, positive, scaled, seed_of, total_weight, undecided, weight_before,
    DRAWS,
};

verus! {

/// Every draw falls on a weight, and not on one of zero where there are others.
pub proof fn law_every_draw_falls(weights: Seq<nat>, draw: u64)
    requires
        weights.len() > 0,
    ensures
        exists|i: int| 0 <= i < weights.len() && #[trigger] falls_on(weights, draw, i),
{
    let total = total_weight(weights);
    if total > 0 {
        let goal = draw * total;
        assert(goal < total * DRAWS) by (nonlinear_arith)
            requires
                goal == draw * total,
                draw < DRAWS,
                total > 0,
        ;
        assert(goal >= 0) by (nonlinear_arith)
            requires
                goal == draw * total,
                draw >= 0,
                total > 0,
        ;
        lemma_falls_below(weights, goal, weights.len() as int);
        let i = choose|i: int|
            0 <= i < weights.len() && #[trigger] weight_before(weights, i) * DRAWS <= goal
                && goal < weight_before(weights, i + 1) * DRAWS;
        assert(falls_on(weights, draw, i));
    } else {
        crate::swipe::law_scaled_in_bounds(draw, weights.len() as int);
        assert(falls_on(weights, draw, scaled(draw, weights.len() as int)));
    }
}

proof fn lemma_falls_below(weights: Seq<nat>, goal: int, n: int)
    requires
        0 <= n <= weights.len(),
        0 <= goal < weight_before(weights, n) * DRAWS,
    ensures
        exists|i: int|
            0 <= i < n && #[trigger] weight_before(weights, i) * DRAWS <= goal && goal
                < weight_before(weights, i + 1) * DRAWS,
    decreases n,
{
    if n > 0 {
        if goal < weight_before(weights, n - 1) * DRAWS {
            lemma_falls_below(weights, goal, n - 1);
        } else {
            assert(weight_before(weights, n - 1) * DRAWS <= goal);
            assert(goal < weight_before(weights, (n - 1) + 1) * DRAWS);
        }
    }
}

/// The draws that fall on a weight are as many as its part of all of them: those
/// from the part of the weights before it to the part up to it.
pub proof fn law_draws_are_proportional(weights: Seq<nat>, draw: u64, i: int)
    requires
        0 <= i < weights.len(),
        total_weight(weights) > 0,
    ensures
        falls_on(weights, draw, i) <==> weight_before(weights, i) * DRAWS <= draw * total_weight(
            weights,
        ) && draw * total_weight(weights) < (weight_before(weights, i) + weights[i]) * DRAWS,
        weight_before(weights, 0) == 0,
        weight_before(weights, i + 1) == weight_before(weights, i) + weights[i],
        weight_before(weights, weights.len() as int) == total_weight(weights),
{
}

/// Weights below zero weigh nothing, and others what they are.
pub proof fn law_positive_weights(weights: Seq<i64>, i: int)
    requires
        0 <= i < weights.len(),
    ensures
        positive(weights).len() == weights.len(),
        weights[i] <= 0 ==> positive(weights)[i] == 0,
        weights[i] >= 0 ==> positive(weights)[i] == weights[i],
{
}

/// Cards that are left to decide on: those whose address is not known, all of them.
pub proof fn law_undecided_cards(cards: Seq<FinishedCard>, known: Set<Seq<char>>, c: FinishedCard)
    ensures
        cards.filter(undecided(known)).contains(c) <==> cards.contains(c) && !known.contains(c.url@),
{
    lemma_filter_member(cards, undecided(known), c);
}

/// The best scores: at most eight, all of them where there are no more, from the
/// highest down, and none that is left out is higher.
pub proof fn law_best_scores(scores: Seq<nat>, j: int)
    requires
        0 <= j < scores.len(),
    ensures
        top(scores).len() == if scores.len() > 8 { 8 } else { scores.len() },
        forall|a: int, b: int|
            0 <= a < b < top(scores).len() ==> (#[trigger] top(scores)[a]).score >= (
            #[trigger] top(scores)[b]).score,
        forall|a: int|
            0 <= a < top(scores).len() ==> 0 <= (#[trigger] top(scores)[a]).place < scores.len()
                && top(scores)[a].score == scores[top(scores)[a].place],
        (forall|a: int| 0 <= a < top(scores).len() ==> (#[trigger] top(scores)[a]).place != j)
            ==> forall|a: int|
            0 <= a < top(scores).len() ==> (#[trigger] top(scores)[a]).score >= scores[j],
{
    let all = places_scored(scores);
    let list = ranked(scores);
    let best = top(scores);
    assert(orders(by_score()));
    law_sorted_is_permutation(all, by_score());
    law_sorted_is_in_order(all, by_score());
    assert forall|a: int, b: int| 0 <= a < b < list.len() implies (#[trigger] list[a]).score >= (
    #[trigger] list[b]).score by {
        assert(!by_score()(list[b], list[a]));
    }
    assert forall|a: int| 0 <= a < list.len() implies 0 <= (#[trigger] list[a]).place < scores.len()
        && list[a].score == scores[list[a].place] by {
        lemma_sorted_contains(all, by_score(), list[a]);
        assert(list.contains(list[a]));
        let p = choose|p: int| 0 <= p < all.len() && all[p] == list[a];
    }
    assert(all[j].place == j);
    lemma_sorted_contains(all, by_score(), all[j]);
    assert(all.contains(all[j]));
    let q = choose|q: int| 0 <= q < list.len() && list[q] == all[j];
    if q < best.len() {
        assert(best[q].place == j);
    }
}

/// A pick is weighed by its score and a hundredth of a point, so that every one of
/// the best can be picked.
pub proof fn law_pick_weights(best: Seq<Placed>, i: int)
    requires
        0 <= i < best.len(),
    ensures
        pick_weights(best).len() == best.len(),
        100 * (pick_weights(best)[i] - best[i].score) == crate::recommend::point(),
        pick_weights(best)[i] > 0,
{
    crate::laws::recommending::law_parts_in_points();
}

/// A draw is spread evenly over places: a higher draw falls no earlier, the lowest on
/// the first, the highest on the last.
pub proof fn law_draws_are_spread(a: u64, b: u64, len: int)
    requires
        0 < len <= DRAWS,
    ensures
        a <= b ==> scaled(a, len) <= scaled(b, len),
        scaled(0, len) == 0,
        scaled(u64::MAX, len) == len - 1,
{
    let d = DRAWS as int;
    if a <= b {
        assert(a * len <= b * len) by (nonlinear_arith)
            requires
                a <= b,
                len > 0,
        ;
        vstd::arithmetic::div_mod::lemma_div_is_ordered(a * len, b * len, d);
    }
    assert(0 * len == 0) by (nonlinear_arith);
    let m = u64::MAX as int;
    assert(m == d - 1);
    assert(m * len == d * (len - 1) + (d - len)) by (nonlinear_arith)
        requires
            m == d - 1,
    ;
    assert(d * (len - 1) == (len - 1) * d) by (nonlinear_arith);
    vstd::arithmetic::div_mod::lemma_fundamental_div_mod_converse(m * len, d, len - 1, d - len);
}

/// A seed that is known is used as it is; every seed that is made up is its own.
pub proof fn law_seeds(seed: u64, nanos: u64)
    ensures
        seed_of(Some(seed), nanos) == seed,
        seed_of(None, nanos) == nanos ^ 0x9E37_79B9_7F4A_7C15,
{
}

/// A shuffle of some items takes one draw fewer than there are items; every draw moves
/// the count on by the same step.
pub proof fn law_draws_are_counted(len: nat, count: u64, draws: nat)
    ensures
        len > 0 ==> exchanges(len) == len - 1,
        exchanges(0) == 0,
        counted(count, 0) == count,
        counted(count, draws + 1) == counted(count, draws).wrapping_add(0x9E37_79B9_7F4A_7C15),
{
}

} // verus!
