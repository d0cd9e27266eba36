//! What adds to the score of a recommendation.

use vstd::prelude::*;
use crate::models::{CatalogAnime, GenreAffinity, TypeStat};
use crate::recommend::{
    cube, dampened, fifth_power, fifth_scale, format_shares, full_quality, full_share, genre_term,
    hundredth, law_dampening_keeps_order, law_weight_determined, lemma_fifth_power_grows,
    lemma_fifth_power_of_product, lemma_point, most_counted, point, quality, share_of, shares_fit,
    taste_score, top_k_epsilon, weight_of, weight_of_points, FormatAffinity,
};
use crate::rows::{key_views, law_max_of};
use crate::text::folded;

verus! {

/// What a single genre adds: its weight, or nothing where it is the chosen one.
pub open spec fn genre_share(
    genre: Seq<char>,
    weights: Seq<GenreAffinity>,
    chosen: Seq<char>,
) -> int {
    if folded(genre) == folded(chosen) { 0 } else { weight_of(weights, genre) }
}

proof fn lemma_single_genre(genre: Seq<char>, weights: Seq<GenreAffinity>, chosen: Seq<char>)
    ensures
        genre_term(seq![genre], weights, chosen) == genre_share(genre, weights, chosen),
{
    assert(seq![genre].drop_last() =~= Seq::empty());
    assert(genre_term(Seq::empty(), weights, chosen) == 0);
}

/// Genres add up: two lists of genres together add what each of them adds, and a
/// single genre adds its weight, or nothing where it is the chosen one.
pub proof fn law_genres_add_up(
    a: Seq<Seq<char>>,
    b: Seq<Seq<char>>,
    genre: Seq<char>,
    weights: Seq<GenreAffinity>,
    chosen: Seq<char>,
)
    ensures
        genre_term(a + b, weights, chosen) == genre_term(a, weights, chosen) + genre_term(
            b,
            weights,
            chosen,
        ),
        genre_term(seq![genre], weights, chosen) == if folded(genre) == folded(chosen) {
            0
        } else {
            weight_of(weights, genre)
        },
    decreases b.len(),
{
    lemma_single_genre(genre, weights, chosen);
    if b.len() > 0 {
        law_genres_add_up(a, b.drop_last(), genre, weights, chosen);
        assert((a + b).drop_last() =~= a + b.drop_last());
    } else {
        assert(a + b =~= a);
    }
}

/// There is a weight for every number of half points.
pub proof fn law_weight_exists(half_points: int)
    ensures
        dampened(half_points, weight_of_points(half_points)),
        weight_of_points(half_points) >= 0,
{
    if half_points <= 0 {
        assert(dampened(half_points, 0));
    } else {
        lemma_point();
        let goal = cube(half_points) * fifth_scale();
        assert(goal >= 0) by {
            assert(half_points * half_points > 0) by (nonlinear_arith)
                requires
                    half_points > 0,
            ;
            assert(cube(half_points) > 0) by (nonlinear_arith)
                requires
                    half_points > 0,
                    half_points * half_points > 0,
            ;
            assert(goal >= 0) by (nonlinear_arith)
                requires
                    goal == cube(half_points) * fifth_scale(),
                    cube(half_points) > 0,
                    fifth_scale() > 0,
            ;
        }
        crate::recommend::lemma_fifth_power_exceeds(goal + 1);
        let w = lemma_fifth_root(goal, goal + 1);
        assert(dampened(half_points, w));
    }
}

proof fn lemma_fifth_root(goal: int, n: int) -> (w: int)
    requires
        0 <= goal < 8 * fifth_power(n),
        n >= 1,
    ensures
        0 <= w < n,
        8 * fifth_power(w) <= goal < 8 * fifth_power(w + 1),
    decreases n,
{
    if 8 * fifth_power(n - 1) <= goal {
        n - 1
    } else {
        assert(fifth_power(0) == 0) by (nonlinear_arith);
        lemma_fifth_root(goal, n - 1)
    }
}

proof fn lemma_weight_not_negative(weights: Seq<GenreAffinity>, genre: Seq<char>)
    ensures
        weight_of(weights, genre) >= 0,
    decreases weights.len(),
{
    if weights.len() > 0 {
        law_weight_exists(weights.last().half_points as int);
        lemma_weight_not_negative(weights.drop_last(), genre);
    }
}

proof fn lemma_genres_not_negative(
    genres: Seq<Seq<char>>,
    weights: Seq<GenreAffinity>,
    chosen: Seq<char>,
)
    ensures
        genre_term(genres, weights, chosen) >= 0,
    decreases genres.len(),
{
    if genres.len() > 0 {
        lemma_genres_not_negative(genres.drop_last(), weights, chosen);
        lemma_weight_not_negative(weights, genres.last());
    }
}

/// Every genre of an entry but the chosen one counts: together they add no less
/// than each of them.
pub proof fn law_every_genre_counts(
    genres: Seq<Seq<char>>,
    i: int,
    weights: Seq<GenreAffinity>,
    chosen: Seq<char>,
)
    requires
        0 <= i < genres.len(),
        folded(genres[i]) != folded(chosen),
    ensures
        genre_term(genres, weights, chosen) >= weight_of(weights, genres[i]) >= 0,
{
    let before = genres.take(i);
    let after = genres.skip(i + 1);
    let rest = seq![genres[i]] + after;
    assert(genres =~= before + rest);
    law_genres_add_up(before, rest, genres[i], weights, chosen);
    law_genres_add_up(seq![genres[i]], after, genres[i], weights, chosen);
    lemma_genres_not_negative(before, weights, chosen);
    lemma_genres_not_negative(after, weights, chosen);
    lemma_weight_not_negative(weights, genres[i]);
}

/// The order of the genres does not count.
pub proof fn law_genre_order_does_not_count(
    a: Seq<Seq<char>>,
    b: Seq<Seq<char>>,
    weights: Seq<GenreAffinity>,
    chosen: Seq<char>,
)
    ensures
        genre_term(a + b, weights, chosen) == genre_term(b + a, weights, chosen),
{
    law_genres_add_up(a, b, Seq::empty(), weights, chosen);
    law_genres_add_up(b, a, Seq::empty(), weights, chosen);
}

/// A genre weighs what its half points weigh where it is listed once, and nothing
/// where it is not listed.
pub proof fn law_weight_of_listed(affinity: Seq<GenreAffinity>, i: int, genre: Seq<char>)
    requires
        forall|j: int, k: int|
            0 <= j < k < affinity.len() ==> (#[trigger] affinity[j]).genre@ != (
            #[trigger] affinity[k]).genre@,
    ensures
        0 <= i < affinity.len() ==> dampened(
            affinity[i].half_points as int,
            weight_of(affinity, affinity[i].genre@),
        ),
        (forall|k: int| 0 <= k < affinity.len() ==> (#[trigger] affinity[k]).genre@ != genre)
            ==> weight_of(affinity, genre) == 0,
    decreases affinity.len(),
{
    if affinity.len() > 0 {
        let init = affinity.drop_last();
        assert forall|j: int, k: int| 0 <= j < k < init.len() implies (
        #[trigger] init[j]).genre@ != (#[trigger] init[k]).genre@ by {
            assert(init[j] == affinity[j] && init[k] == affinity[k]);
        }
        law_weight_of_listed(init, i, genre);
        law_weight_exists(affinity.last().half_points as int);
        if 0 <= i < affinity.len() - 1 {
            assert(init[i] == affinity[i]);
            assert(affinity[i].genre@ != affinity[affinity.len() - 1].genre@);
        }
        if forall|k: int| 0 <= k < affinity.len() ==> (#[trigger] affinity[k]).genre@ != genre {
            assert forall|k: int| 0 <= k < init.len() implies (#[trigger] init[k]).genre@
                != genre by {
                assert(init[k] == affinity[k]);
            }
            assert(affinity[affinity.len() - 1].genre@ != genre);
        }
    }
}

/// One point weighs one point, and the fifth power of a number of points weighs
/// its third power: dampening is the power of three fifths.
pub proof fn law_dampening_is_three_fifths(k: int)
    requires
        k >= 1,
    ensures
        weight_of_points(2 * fifth_power(k)) == cube(k) * point(),
{
    lemma_point();
    let p = point() as int;
    let h = 2 * fifth_power(k);
    let w = cube(k) * p;
    let f = fifth_power(k);
    let c = cube(k);
    crate::recommend::lemma_fifth_power_exceeds(k);
    assert(c >= 1) by {
        assert(k * k >= 1) by (nonlinear_arith)
            requires
                k >= 1,
        ;
        assert(k * k * k >= 1) by (nonlinear_arith)
            requires
                k >= 1,
                k * k >= 1,
        ;
    }
    // The fifth power of the weight is the cube of the points, scaled.
    lemma_fifth_power_of_product(c, p);
    assert(fifth_power(w) == fifth_power(c) * cube(p) * (p * p));
    assert(cube(p) * (p * p) == fifth_power(p)) by (nonlinear_arith);
    assert(fifth_power(w) == fifth_power(c) * fifth_power(p)) by (nonlinear_arith)
        requires
            fifth_power(w) == fifth_power(c) * cube(p) * (p * p),
            cube(p) * (p * p) == fifth_power(p),
    ;
    assert(cube(h) == 8 * cube(f)) by (nonlinear_arith)
        requires
            h == 2 * f,
    ;
    lemma_powers_commute(k);
    assert(cube(f) == fifth_power(c));
    assert(cube(h) * fifth_scale() == 8 * fifth_power(w)) by (nonlinear_arith)
        requires
            cube(h) == 8 * cube(f),
            cube(f) == fifth_power(c),
            fifth_power(w) == fifth_power(c) * fifth_power(p),
            fifth_scale() == fifth_power(p),
    ;
    assert(w >= 0) by (nonlinear_arith)
        requires
            w == c * p,
            c >= 1,
            p >= 0,
    ;
    lemma_fifth_power_grows(w, w + 1);
    assert(dampened(h, w));
    law_weight_exists(h);
    law_weight_determined(h, w, weight_of_points(h));
}

/// The third power of a fifth power is the fifth power of the third power.
proof fn lemma_powers_commute(k: int)
    ensures
        cube(fifth_power(k)) == fifth_power(cube(k)),
{
    let a = k * k;
    let c = cube(k);
    let f = fifth_power(k);
    assert(f == c * a) by (nonlinear_arith)
        requires
            f == k * k * k * k * k,
            c == k * k * k,
            a == k * k,
    ;
    assert(f * f * f == (c * c * c) * (a * a * a)) by (nonlinear_arith)
        requires
            f == c * a,
    ;
    assert(a * a * a == c * c) by (nonlinear_arith)
        requires
            a == k * k,
            c == k * k * k,
    ;
    assert((c * c * c) * (c * c) == c * c * c * c * c) by (nonlinear_arith);
}

/// More points never weigh less.
pub proof fn law_more_points_weigh_more(a: int, b: int)
    requires
        a <= b,
    ensures
        weight_of_points(a) <= weight_of_points(b),
        a <= 0 ==> weight_of_points(a) == 0,
{
    law_weight_exists(a);
    law_weight_exists(b);
    law_dampening_keeps_order(a, b, weight_of_points(a), weight_of_points(b));
}

/// The parts of a score in points: a format adds six tenths at most, an average a
/// quarter, and a hundredth is added for the pick.
pub proof fn law_parts_in_points()
    ensures
        10 * full_share() == 6 * point(),
        4 * full_quality() == point(),
        100 * top_k_epsilon() == point(),
        point() > 0,
{
    lemma_point();
}

/// An average adds in proportion: each of its hundred steps adds the hundredth
/// part of what a full one adds, and what is beyond counts as the bound.
pub proof fn law_quality_is_proportional(average: i64)
    ensures
        0 <= average <= 100 ==> 100 * quality(average) == average * full_quality(),
        average <= 0 ==> quality(average) == 0,
        average >= 100 ==> quality(average) == full_quality(),
{
    lemma_point();
    let q = full_quality() as int;
    let t = crate::natural::ten_to(36) as int;
    reveal_with_fuel(crate::natural::ten_to, 3);
    assert(hundredth() == 100 * crate::natural::ten_to(36));
    assert(q == 2500 * t);
    if 0 <= average <= 100 {
        assert(average * q == 100 * (average * (25 * t))) by (nonlinear_arith)
            requires
                q == 2500 * t,
        ;
        assert((100 * (average * (25 * t))) / 100 == average * (25 * t));
    }
    if average <= 0 {
        assert(0 * q == 0);
    }
    if average >= 100 {
        assert((100 * q) / 100 == q);
    }
}

/// A format adds in proportion to how much it is watched, rounded down, where it
/// is listed once; the most watched one adds the whole part, and one that is not
/// listed nothing.
pub proof fn law_share_is_proportional(formats: Seq<FormatAffinity>, i: int, format: Seq<char>)
    requires
        shares_fit(formats),
        forall|j: int, k: int|
            0 <= j < k < formats.len() ==> (#[trigger] formats[j]).format@ != (
            #[trigger] formats[k]).format@,
    ensures
        0 <= i < formats.len() ==> {
            let s = share_of(formats, formats[i].format@);
            &&& s * formats[i].most <= full_share() * formats[i].count < (s + 1) * formats[i].most
            &&& formats[i].count == formats[i].most ==> s == full_share()
        },
        (forall|k: int| 0 <= k < formats.len() ==> (#[trigger] formats[k]).format@ != format)
            ==> share_of(formats, format) == 0,
    decreases formats.len(),
{
    if formats.len() > 0 {
        let init = formats.drop_last();
        let last = formats.last();
        assert forall|j: int, k: int| 0 <= j < k < init.len() implies (
        #[trigger] init[j]).format@ != (#[trigger] init[k]).format@ by {
            assert(init[j] == formats[j] && init[k] == formats[k]);
        }
        assert forall|k: int| 0 <= k < init.len() implies 0 <= (#[trigger] init[k]).count
            <= init[k].most && 0 < init[k].most by {
            assert(init[k] == formats[k]);
        }
        law_share_is_proportional(init, i, format);
        if 0 <= i < formats.len() - 1 {
            assert(init[i] == formats[i]);
            assert(formats[i].format@ != formats[formats.len() - 1].format@);
        }
        if i == formats.len() - 1 {
            assert(0 <= formats[i].count <= formats[i].most && 0 < formats[i].most);
            let x = full_share() * last.count;
            let m = last.most as int;
            let q = x / m;
            vstd::arithmetic::div_mod::lemma_fundamental_div_mod(x, m);
            assert(q * m == m * q) by (nonlinear_arith);
            assert((q + 1) * m == q * m + m) by (nonlinear_arith);
            if last.count == last.most {
                vstd::arithmetic::div_mod::lemma_div_multiples_vanish(full_share() as int, m);
                assert(x == m * full_share()) by (nonlinear_arith)
                    requires
                        x == full_share() * last.count,
                        last.count == m,
                ;
            }
        }
        if forall|k: int| 0 <= k < formats.len() ==> (#[trigger] formats[k]).format@ != format {
            assert forall|k: int| 0 <= k < init.len() implies (#[trigger] init[k]).format@
                != format by {
                assert(init[k] == formats[k]);
            }
            assert(formats[formats.len() - 1].format@ != format);
        }
    }
}

/// Formats are listed as they are counted, relative to the largest count, and none
/// is where nothing is counted.
pub proof fn law_shares_of_counts(stats: Seq<TypeStat>, i: int)
    requires
        0 <= i < stats.len(),
    ensures
        format_shares(stats).len() == 0 <==> forall|k: int|
            0 <= k < stats.len() ==> (#[trigger] stats[k]).count <= 0,
        format_shares(stats).len() > 0 ==> {
            let f = format_shares(stats)[i];
            &&& format_shares(stats).len() == stats.len()
            &&& f.format == stats[i].kind
            &&& f.count == stats[i].count
            &&& stats[i].count <= f.most
            &&& exists|k: int| 0 <= k < stats.len() && (#[trigger] stats[k]).count == f.most
        },
{
    let counts = stats.map_values(|s: TypeStat| s.count as int);
    law_max_of(counts);
    assert(counts[i] == stats[i].count);
    assert(counts.contains(most_counted(stats)));
    let k = choose|k: int| 0 <= k < counts.len() && counts[k] == most_counted(stats);
    assert(stats[k].count == most_counted(stats));
    assert(counts[i] <= most_counted(stats));
    if most_counted(stats) <= 0 {
        assert forall|k: int| 0 <= k < stats.len() implies (#[trigger] stats[k]).count <= 0 by {
            assert(counts[k] <= most_counted(stats));
        }
    }
}

/// A score is what the genres add, what the format adds and what the average
/// adds: each part can be taken away by itself.
pub proof fn law_score_has_three_parts(
    cand: CatalogAnime,
    weights: Seq<GenreAffinity>,
    formats: Seq<FormatAffinity>,
    chosen: Seq<char>,
)
    ensures
        taste_score(
            CatalogAnime { format: None, average_score: None, ..cand },
            weights,
            formats,
            chosen,
        ) == genre_term(key_views(cand.genres@), weights, chosen),
        taste_score(cand, weights, formats, chosen) == taste_score(
            CatalogAnime { average_score: None, ..cand },
            weights,
            formats,
            chosen,
        ) + (match cand.average_score {
            Some(a) => quality(a),
            None => 0,
        }),
        taste_score(cand, weights, formats, chosen) == taste_score(
            CatalogAnime { format: None, ..cand },
            weights,
            formats,
            chosen,
        ) + (match cand.format {
            Some(f) => share_of(formats, f@),
            None => 0,
        }),
{
}

} // verus!
