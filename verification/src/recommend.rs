//! How well a catalog entry fits what a user watches, and the pick among those
//! that fit best.
//!
//! Scores are whole numbers of a unit that is smaller than what a double tells
//! apart: there are [`point`] of them in a point.

use vstd::prelude::*;
use crate::db::opt_text;
use crate::models::{CatalogAnime, GenreAffinity, TypeStat};
use crate::natural::{ten_to, Natural};
use crate::rows::{
    in_order, key_views, law_sorted_is_in_order, law_sorted_is_permutation, lemma_max_push, max_of,
    lemma_sorted_contains, lemma_sorted_mapped, orders, sort_rows, sorted,
};
use crate::swipe::{falls_on, mixed, values, weighted_place_for, Draws, GAMMA};
use crate::text::{chars_of, fold_chars, folded, same_chars, same_text};

verus! {

/// The number of decimal places that a score in points has.
pub const POINT_DIGITS: usize = 40;

/// What the most watched format adds to a score, in hundredths of a point.
pub const W_FORMAT: u32 = 60;

/// What a full average of a hundred adds to a score, in hundredths of a point.
pub const W_QUALITY: u32 = 25;

/// What is added to every score for the pick, in hundredths of a point.
pub const TOP_K_EPSILON: u32 = 1;

/// How many of the best entries are picked from.
pub const RECOMMEND_TOP_K: usize = 8;

/// The highest average that counts.
pub const FULL_AVERAGE: i64 = 100;

/// The number of units in a point.
pub open spec fn point() -> nat {
    ten_to(POINT_DIGITS as nat)
}

/// A hundredth of a point.
pub open spec fn hundredth() -> nat {
    ten_to((POINT_DIGITS - 2) as nat)
}

/// What is added to every score for the pick, so that an entry without any score
/// can be picked too.
pub open spec fn top_k_epsilon() -> nat {
    TOP_K_EPSILON as nat * hundredth()
}

/// What the most watched format adds to a score.
pub open spec fn full_share() -> nat {
    W_FORMAT as nat * hundredth()
}

/// What a full average of a hundred adds to a score.
pub open spec fn full_quality() -> nat {
    W_QUALITY as nat * hundredth()
}

/// A number five times by itself.
pub open spec fn fifth_power(y: int) -> int {
    y * y * y * y * y
}

/// A number three times by itself.
pub open spec fn cube(h: int) -> int {
    h * h * h
}

/// The scale of the fifth power of a weight in units.
pub open spec fn fifth_scale() -> int {
    fifth_power(point() as int)
}

/// Whether a weight is that of half points: their points to the power of three
/// fifths, in whole units. Points that are not positive weigh nothing.
pub open spec fn dampened(half_points: int, weight: int) -> bool {
    if half_points <= 0 {
        weight == 0
    } else {
        &&& 0 <= weight
        &&& 8 * fifth_power(weight) <= cube(half_points) * fifth_scale() < 8 * fifth_power(
            weight + 1,
        )
    }
}

/// The weight of half points.
pub open spec fn weight_of_points(half_points: int) -> int {
    choose|w: int| dampened(half_points, w)
}

pub proof fn lemma_fifth_power_grows(a: int, b: int)
    requires
        0 <= a <= b,
    ensures
        0 <= fifth_power(a) <= fifth_power(b),
        a < b ==> fifth_power(a) < fifth_power(b),
{
    assert(0 <= a * a <= b * b) by (nonlinear_arith)
        requires
            0 <= a <= b,
    ;
    assert(0 <= a * a * a <= b * b * b) by (nonlinear_arith)
        requires
            0 <= a <= b,
            0 <= a * a <= b * b,
    ;
    assert(0 <= a * a * a * a <= b * b * b * b) by (nonlinear_arith)
        requires
            0 <= a <= b,
            0 <= a * a * a <= b * b * b,
    ;
    assert(0 <= a * a * a * a * a <= b * b * b * b * b) by (nonlinear_arith)
        requires
            0 <= a <= b,
            0 <= a * a * a * a <= b * b * b * b,
    ;
    if a < b {
        assert(0 < b * b * b * b) by {
            assert(0 < b * b) by (nonlinear_arith)
                requires
                    0 < b,
            ;
            assert(0 < b * b * b) by (nonlinear_arith)
                requires
                    0 < b,
                    0 < b * b,
            ;
            assert(0 < b * b * b * b) by (nonlinear_arith)
                requires
                    0 < b,
                    0 < b * b * b,
            ;
        }
        assert(a * a * a * a * a < b * b * b * b * b) by (nonlinear_arith)
            requires
                0 <= a < b,
                0 <= a * a * a * a <= b * b * b * b,
                0 < b * b * b * b,
        ;
    }
}

proof fn lemma_cube_grows(a: int, b: int)
    requires
        0 <= a <= b,
    ensures
        0 <= cube(a) <= cube(b),
{
    assert(0 <= a * a <= b * b) by (nonlinear_arith)
        requires
            0 <= a <= b,
    ;
    assert(0 <= a * a * a <= b * b * b) by (nonlinear_arith)
        requires
            0 <= a <= b,
            0 <= a * a <= b * b,
    ;
}

/// There is one weight at most for given half points.
pub proof fn law_weight_determined(half_points: int, v: int, w: int)
    requires
        dampened(half_points, v),
        dampened(half_points, w),
    ensures
        v == w,
{
    if half_points > 0 {
        if v < w {
            lemma_fifth_power_grows(v + 1, w);
        } else if w < v {
            lemma_fifth_power_grows(w + 1, v);
        }
    }
}

/// Dampening keeps the order of points.
pub proof fn law_dampening_keeps_order(a: int, b: int, v: int, w: int)
    requires
        a <= b,
        dampened(a, v),
        dampened(b, w),
    ensures
        v <= w,
{
    if a > 0 {
        lemma_cube_grows(a, b);
        if w < v {
            lemma_fifth_power_grows(w + 1, v);
            assert(cube(a) * fifth_scale() <= cube(b) * fifth_scale()) by (nonlinear_arith)
                requires
                    cube(a) <= cube(b),
                    fifth_scale() >= 0,
            ;
        }
    }
}

/// Dampening compresses a lead: a weight is in no larger proportion to another
/// than their points are, but for the part that a whole number leaves out.
pub proof fn law_dampening_compresses(a: int, b: int, v: int, w: int)
    requires
        0 < b <= a,
        dampened(a, v),
        dampened(b, w),
    ensures
        v * b < (w + 1) * a,
{
    let k = fifth_scale();
    let p = fifth_power(v);
    let q = fifth_power(w + 1);
    let ca = cube(a);
    let cb = cube(b);
    lemma_cube_grows(0, b);
    lemma_cube_grows(b, a);
    assert(0 < cb) by {
        assert(0 < b * b) by (nonlinear_arith)
            requires
                0 < b,
        ;
        assert(0 < b * b * b) by (nonlinear_arith)
            requires
                0 < b,
                0 < b * b,
        ;
    }
    lemma_fifth_power_grows(0, v);
    lemma_fifth_power_grows(0, w + 1);
    assert(p * cb < q * ca) by {
        assert(8 * p * cb <= ca * k * cb) by (nonlinear_arith)
            requires
                8 * p <= ca * k,
                cb > 0,
        ;
        assert(cb * k * ca < 8 * q * ca) by (nonlinear_arith)
            requires
                cb * k < 8 * q,
                ca > 0,
        ;
        assert(ca * k * cb == cb * k * ca) by (nonlinear_arith);
        assert(8 * p * cb == 8 * (p * cb)) by (nonlinear_arith);
        assert(8 * q * ca == 8 * (q * ca)) by (nonlinear_arith);
    }
    assert(fifth_power(v * b) < fifth_power((w + 1) * a)) by {
        let x = w + 1;
        assert(0 < b * b <= a * a) by (nonlinear_arith)
            requires
                0 < b <= a,
        ;
        assert(p * cb * (b * b) < q * ca * (b * b)) by (nonlinear_arith)
            requires
                p * cb < q * ca,
                0 < b * b,
        ;
        assert(0 <= q * ca) by (nonlinear_arith)
            requires
                q >= 0,
                ca >= 0,
        ;
        assert(q * ca * (b * b) <= q * ca * (a * a)) by (nonlinear_arith)
            requires
                0 <= q * ca,
                b * b <= a * a,
        ;
        lemma_fifth_power_of_product(v, b);
        lemma_fifth_power_of_product(x, a);
    }
    if v * b >= (w + 1) * a {
        assert(0 <= (w + 1) * a) by (nonlinear_arith)
            requires
                w >= 0,
                a > 0,
        ;
        lemma_fifth_power_grows((w + 1) * a, v * b);
    }
}

pub proof fn lemma_fifth_power_of_product(x: int, y: int)
    ensures
        fifth_power(x * y) == fifth_power(x) * cube(y) * (y * y),
{
    let p = x * y;
    assert(p * p == (x * x) * (y * y)) by (nonlinear_arith)
        requires
            p == x * y,
    ;
    assert(p * p * p == (x * x * x) * (y * y * y)) by (nonlinear_arith)
        requires
            p == x * y,
            p * p == (x * x) * (y * y),
    ;
    assert(p * p * p * p * p == (p * p * p) * (p * p)) by (nonlinear_arith);
    let a3 = x * x * x;
    let b3 = y * y * y;
    let a2 = x * x;
    let b2 = y * y;
    assert((a3 * b3) * (a2 * b2) == (a3 * a2) * b3 * b2) by (nonlinear_arith);
    assert(a3 * a2 == x * x * x * x * x) by (nonlinear_arith)
        requires
            a3 == x * x * x,
            a2 == x * x,
    ;
}

proof fn lemma_ten_to_positive(n: nat)
    ensures
        ten_to(n) > 0,
    decreases n,
{
    if n > 0 {
        lemma_ten_to_positive((n - 1) as nat);
    }
}

pub proof fn lemma_point()
    ensures
        hundredth() > 0,
        point() == 100 * hundredth(),
        fifth_scale() > 0,
{
    lemma_ten_to_positive((POINT_DIGITS - 2) as nat);
    assert(ten_to(POINT_DIGITS as nat) == 10 * ten_to((POINT_DIGITS - 1) as nat));
    assert(ten_to((POINT_DIGITS - 1) as nat) == 10 * ten_to((POINT_DIGITS - 2) as nat));
    assert(fifth_power(0) == 0) by (nonlinear_arith);
    lemma_fifth_power_grows(0, point() as int);
}

proof fn lemma_quality_bounded(average: i64)
    ensures
        0 <= quality(average) <= full_quality(),
{
    let w = full_quality() as int;
    let capped: int = if average < 0 {
        0
    } else if average > FULL_AVERAGE {
        FULL_AVERAGE as int
    } else {
        average as int
    };
    assert(0 <= capped * w <= 100 * w) by (nonlinear_arith)
        requires
            0 <= capped <= 100,
            0 <= w,
    ;
}

/// An average only breaks ties: it never adds as much as a liked genre does.
pub proof fn law_quality_breaks_ties(half_points: int, weight: int, average: i64)
    requires
        half_points >= 1,
        dampened(half_points, weight),
    ensures
        quality(average) < weight,
{
    lemma_point();
    let h = hundredth() as int;
    let p = point() as int;
    let k = fifth_scale();
    lemma_quality_bounded(average);
    if weight <= 25 * h {
        let half = 50 * h;
        lemma_cube_grows(1, half_points);
        assert(cube(1) == 1) by (nonlinear_arith);
        let c = cube(half_points);
        assert(k <= c * k) by (nonlinear_arith)
            requires
                c >= 1,
                k >= 0,
        ;
        lemma_fifth_power_grows(weight + 1, half);
        lemma_fifth_power_of_product(half, 2);
        assert(half * 2 == p);
        assert(cube(2) == 8) by (nonlinear_arith);
        let f = fifth_power(half);
        assert(f * cube(2) * (2 * 2) == 32 * f) by (nonlinear_arith)
            requires
                cube(2) == 8,
        ;
        lemma_fifth_power_grows(0, half);
        assert(k == 32 * f);
        assert(f > 0);
    }
}

/// A number five times by itself.
fn raised(y: &Natural) -> (r: Natural)
    ensures
        r.value() == fifth_power(y.value() as int),
{
    let two = y.times(y);
    let four = two.times(&two);
    proof {
        let v = y.value() as int;
        let t = two.value() as int;
        assert(t * t * v == v * v * v * v * v) by (nonlinear_arith)
            requires
                t == v * v,
        ;
    }
    four.times(y)
}

/// Ten to the power of `n`.
fn power_of_ten(n: usize) -> (r: Natural)
    ensures
        r.value() == ten_to(n as nat),
{
    let mut power = Natural::of(1);
    let mut i: usize = 0;
    while i < n
        invariant
            i <= n,
            power.value() == ten_to(i as nat),
        decreases n - i,
    {
        power = power.times_plus(10, 0);
        i += 1;
    }
    power
}

/// The powers of two up to the first whose fifth power exceeds an eighth of a
/// number.
fn powers_up_to(goal: &Natural) -> (r: Vec<Natural>)
    ensures
        r@.len() > 0,
        r@[0].value() == 1,
        forall|i: int| 0 < i < r@.len() ==> (#[trigger] r@[i]).value() == 2 * r@[i - 1].value(),
        goal.value() < 8 * fifth_power(r@.last().value() as int),
{
    let mut out: Vec<Natural> = Vec::new();
    let mut power = Natural::of(1);
    while raised(&power).times_plus(8, 0).at_most(goal)
        invariant
            power.value() > 0,
            out@.len() == 0 ==> power.value() == 1,
            out@.len() > 0 ==> out@[0].value() == 1 && power.value() == 2 * out@.last().value(),
            forall|i: int|
                0 < i < out@.len() ==> (#[trigger] out@[i]).value() == 2 * out@[i - 1].value(),
        decreases goal.value() - power.value(),
    {
        proof {
            lemma_fifth_power_exceeds(power.value() as int);
        }
        let next = power.times_plus(2, 0);
        out.push(power);
        power = next;
    }
    out.push(power);
    out
}

pub proof fn lemma_fifth_power_exceeds(y: int)
    requires
        y > 0,
    ensures
        fifth_power(y) >= y,
{
    assert(y * y >= y) by (nonlinear_arith)
        requires
            y > 0,
    ;
    let a = y * y;
    assert(a * y >= y) by (nonlinear_arith)
        requires
            y > 0,
            a >= y,
    ;
    let b = a * y;
    assert(b * y >= y) by (nonlinear_arith)
        requires
            y > 0,
            b >= y,
    ;
    let c = b * y;
    assert(c * y >= y) by (nonlinear_arith)
        requires
            y > 0,
            c >= y,
    ;
}

/// The weight of half points: their points to the power of three fifths, so that
/// a large lead counts for less, in whole units.
pub fn dampen_genre_weight(half_points: i64) -> (r: Natural)
    ensures
        dampened(half_points as int, r.value() as int),
        r.value() == weight_of_points(half_points as int),
{
    if half_points <= 0 {
        assert(dampened(half_points as int, 0));
        return Natural::of(0);
    }
    let h = Natural::of_u64(half_points as u64);
    let goal = h.times(&h).times(&h).times(&raised(&power_of_ten(POINT_DIGITS)));
    assert(goal.value() == cube(half_points as int) * fifth_scale());
    let powers = powers_up_to(&goal);
    let mut low = Natural::of(0);
    let mut i: usize = powers.len() - 1;
    assert(fifth_power(0) == 0) by (nonlinear_arith);
    while i > 0
        invariant
            i < powers@.len(),
            forall|k: int|
                0 < k < powers@.len() ==> (#[trigger] powers@[k]).value() == 2
                    * powers@[k - 1].value(),
            8 * fifth_power(low.value() as int) <= goal.value() < 8 * fifth_power(
                (low.value() + powers@[i as int].value()) as int,
            ),
        decreases i,
    {
        i -= 1;
        let middle = low.plus(&powers[i]);
        if raised(&middle).times_plus(8, 0).at_most(&goal) {
            assert(powers@[i + 1].value() == 2 * powers@[i as int].value());
            low = middle;
        }
    }
    proof {
        assert(dampened(half_points as int, low.value() as int));
        law_weight_determined(
            half_points as int,
            low.value() as int,
            weight_of_points(half_points as int),
        );
    }
    low
}

/// How much a format is watched: its number of shows, and that of the most
/// watched format.
#[derive(Debug, Clone, PartialEq)]
pub struct FormatAffinity {
    pub format: String,
    pub count: i64,
    pub most: i64,
}

/// The largest count.
pub open spec fn most_counted(stats: Seq<TypeStat>) -> int {
    match max_of(stats.map_values(|s: TypeStat| s.count as int)) {
        Some(m) => m,
        None => 0,
    }
}

/// The formats by how much they are watched, relative to the most watched one.
/// Where nothing is watched there are none.
pub open spec fn format_shares(stats: Seq<TypeStat>) -> Seq<FormatAffinity> {
    if most_counted(stats) <= 0 {
        Seq::empty()
    } else {
        stats.map_values(
            |s: TypeStat|
                FormatAffinity {
                    format: s.kind,
                    count: s.count,
                    most: most_counted(stats) as i64,
                },
        )
    }
}

/// The formats by how much they are watched, relative to the most watched one.
pub fn format_affinity_from_type_stats(stats: &[TypeStat]) -> (r: Vec<FormatAffinity>)
    ensures
        r@ == format_shares(stats@),
        (forall|i: int| 0 <= i < stats@.len() ==> (#[trigger] stats@[i]).count >= 0) ==> shares_fit(
            r@,
        ),
{
    let ghost get = |s: TypeStat| s.count as int;
    let mut most: i64 = 0;
    let mut i: usize = 0;
    assert(stats@.take(0).map_values(get) =~= Seq::empty());
    while i < stats.len()
        invariant
            i <= stats@.len(),
            get == (|s: TypeStat| s.count as int),
            i == 0 ==> most == 0,
            i > 0 ==> max_of(stats@.take(i as int).map_values(get)) == Some(most as int),
            forall|k: int| 0 <= k < i ==> (#[trigger] stats@[k]).count <= most,
        decreases stats@.len() - i,
    {
        let ghost before = stats@.take(i as int);
        let ghost s = stats@[i as int];
        proof {
            assert(stats@.take(i + 1) =~= before.push(s));
            assert(before.push(s).map_values(get) =~= before.map_values(get).push(get(s)));
            lemma_max_push(before.map_values(get), get(s));
            if i == 0 {
                assert(before.map_values(get) =~= Seq::empty());
            }
        }
        if i == 0 || stats[i].count > most {
            most = stats[i].count;
        }
        i += 1;
    }
    assert(stats@.take(i as int) =~= stats@);
    assert(stats@.map_values(get) =~= stats@.map_values(|s: TypeStat| s.count as int));
    assert(most == most_counted(stats@)) by {
        if i == 0 {
            assert(stats@.map_values(get) =~= Seq::empty());
        }
    }
    let mut out: Vec<FormatAffinity> = Vec::new();
    if most <= 0 {
        return out;
    }
    let mut j: usize = 0;
    while j < stats.len()
        invariant
            j <= stats@.len(),
            most == most_counted(stats@),
            most > 0,
            out@.len() == j,
            forall|k: int|
                0 <= k < j ==> (#[trigger] out@[k]) == (FormatAffinity {
                    format: stats@[k].kind,
                    count: stats@[k].count,
                    most,
                }),
        decreases stats@.len() - j,
    {
        out.push(FormatAffinity { format: stats[j].kind.clone(), count: stats[j].count, most });
        j += 1;
    }
    assert(out@ =~= format_shares(stats@));
    out
}

/// Whether every share is one of a whole.
pub open spec fn shares_fit(formats: Seq<FormatAffinity>) -> bool {
    forall|i: int|
        0 <= i < formats.len() ==> 0 <= (#[trigger] formats[i]).count <= formats[i].most && 0
            < formats[i].most
}

/// What a genre adds, dampened; of several scores of one genre the last counts.
pub open spec fn weight_of(affinity: Seq<GenreAffinity>, genre: Seq<char>) -> int
    decreases affinity.len(),
{
    if affinity.len() == 0 {
        0
    } else if affinity.last().genre@ == genre {
        weight_of_points(affinity.last().half_points as int)
    } else {
        weight_of(affinity.drop_last(), genre)
    }
}

/// What a format adds; of several shares of one format the last counts.
pub open spec fn share_of(formats: Seq<FormatAffinity>, format: Seq<char>) -> int
    decreases formats.len(),
{
    if formats.len() == 0 {
        0
    } else if formats.last().format@ == format {
        full_share() * formats.last().count / (formats.last().most as int)
    } else {
        share_of(formats.drop_last(), format)
    }
}

/// What the genres add, the chosen one left out: an entry is rewarded for what
/// it has beyond the genre that it was found by.
pub open spec fn genre_term(
    genres: Seq<Seq<char>>,
    weights: Seq<GenreAffinity>,
    chosen: Seq<char>,
) -> int
    decreases genres.len(),
{
    if genres.len() == 0 {
        0
    } else {
        genre_term(genres.drop_last(), weights, chosen) + if folded(genres.last()) == folded(
            chosen,
        ) {
            0
        } else {
            weight_of(weights, genres.last())
        }
    }
}

/// What an average adds; it is capped to what lies between zero and a hundred.
pub open spec fn quality(average: i64) -> int {
    let capped = if average < 0 {
        0
    } else if average > FULL_AVERAGE {
        FULL_AVERAGE as int
    } else {
        average as int
    };
    capped * full_quality() / (FULL_AVERAGE as int)
}

/// The score of an entry, in units.
pub open spec fn taste_score(
    cand: CatalogAnime,
    weights: Seq<GenreAffinity>,
    formats: Seq<FormatAffinity>,
    chosen: Seq<char>,
) -> int {
    genre_term(key_views(cand.genres@), weights, chosen) + (match opt_text(cand.format) {
        Some(f) => share_of(formats, f),
        None => 0,
    }) + (match cand.average_score {
        Some(s) => quality(s),
        None => 0,
    })
}

/// Whether weights are those of the genres of a list.
spec fn weighs(weights: Seq<Natural>, affinity: Seq<GenreAffinity>) -> bool {
    &&& weights.len() == affinity.len()
    &&& forall|i: int|
        0 <= i < weights.len() ==> (#[trigger] weights[i]).value() == weight_of_points(
            affinity[i].half_points as int,
        )
}

/// The weights of genres.
fn weigh(affinity: &[GenreAffinity]) -> (r: Vec<Natural>)
    ensures
        weighs(r@, affinity@),
{
    let mut out: Vec<Natural> = Vec::new();
    let mut i: usize = 0;
    while i < affinity.len()
        invariant
            i <= affinity@.len(),
            out@.len() == i,
            forall|k: int|
                0 <= k < i ==> (#[trigger] out@[k]).value() == weight_of_points(
                    affinity@[k].half_points as int,
                ),
        decreases affinity@.len() - i,
    {
        out.push(dampen_genre_weight(affinity[i].half_points));
        i += 1;
    }
    out
}

fn weight_for(affinity: &[GenreAffinity], weights: &Vec<Natural>, genre: &str) -> (r: Natural)
    requires
        weighs(weights@, affinity@),
    ensures
        r.value() == weight_of(affinity@, genre@),
{
    let mut n: usize = affinity.len();
    assert(affinity@.take(n as int) =~= affinity@);
    while n > 0
        invariant
            n <= affinity@.len(),
            weighs(weights@, affinity@),
            weight_of(affinity@, genre@) == weight_of(affinity@.take(n as int), genre@),
        decreases n,
    {
        assert(affinity@.take(n as int).drop_last() =~= affinity@.take(n - 1));
        assert(affinity@.take(n as int).last() == affinity@[n - 1]);
        n -= 1;
        if same_text(affinity[n].genre.as_str(), genre) {
            return weights[n].copy();
        }
    }
    Natural::of(0)
}

fn share_for(formats: &[FormatAffinity], format: &str) -> (r: Natural)
    requires
        shares_fit(formats@),
    ensures
        r.value() == share_of(formats@, format@),
{
    let mut n: usize = formats.len();
    assert(formats@.take(n as int) =~= formats@);
    while n > 0
        invariant
            shares_fit(formats@),
            n <= formats@.len(),
            share_of(formats@, format@) == share_of(formats@.take(n as int), format@),
        decreases n,
    {
        assert(formats@.take(n as int).drop_last() =~= formats@.take(n - 1));
        assert(formats@.take(n as int).last() == formats@[n - 1]);
        n -= 1;
        if same_text(formats[n].format.as_str(), format) {
            let count: i64 = formats[n].count;
            let most: i64 = formats[n].most;
            assert(0 <= formats@[n as int].count <= formats@[n as int].most);
            let whole = power_of_ten(POINT_DIGITS - 2).times_plus(W_FORMAT, 0);
            return whole.times(&Natural::of_u64(count as u64)).over(most as u64);
        }
    }
    Natural::of(0)
}

/// The score of an entry by the weights of the genres.
fn score_by(
    cand: &CatalogAnime,
    genre_affinity: &[GenreAffinity],
    weights: &Vec<Natural>,
    formats: &[FormatAffinity],
    chosen_genre: &str,
) -> (r: Natural)
    requires
        shares_fit(formats@),
        weighs(weights@, genre_affinity@),
    ensures
        r.value() == taste_score(*cand, genre_affinity@, formats@, chosen_genre@),
{
    let ghost all = key_views(cand.genres@);
    let chosen = fold_chars(&chars_of(chosen_genre));
    let mut score = Natural::of(0);
    let mut i: usize = 0;
    assert(all.take(0) =~= Seq::empty());
    while i < cand.genres.len()
        invariant
            i <= cand.genres@.len(),
            all == key_views(cand.genres@),
            weighs(weights@, genre_affinity@),
            chosen@ == folded(chosen_genre@),
            score.value() == genre_term(all.take(i as int), genre_affinity@, chosen_genre@),
        decreases cand.genres@.len() - i,
    {
        proof {
            assert(all.take(i + 1).drop_last() =~= all.take(i as int));
            assert(all.take(i + 1).last() == cand.genres@[i as int]@);
        }
        let genre = fold_chars(&chars_of(cand.genres[i].as_str()));
        if !same_chars(&genre, &chosen) {
            score = score.plus(&weight_for(genre_affinity, weights, cand.genres[i].as_str()));
        }
        i += 1;
    }
    assert(all.take(i as int) =~= all);
    if let Some(f) = &cand.format {
        score = score.plus(&share_for(formats, f.as_str()));
    }
    if let Some(s) = cand.average_score {
        let capped: i64 = if s < 0 {
            0
        } else if s > FULL_AVERAGE {
            FULL_AVERAGE
        } else {
            s
        };
        let full = power_of_ten(POINT_DIGITS - 2).times_plus(W_QUALITY, 0);
        assert(full.value() * capped == capped * full_quality()) by (nonlinear_arith)
            requires
                full.value() == full_quality(),
        ;
        score = score.plus(&full.times_plus(capped as u32, 0).over(FULL_AVERAGE as u64));
    }
    score
}

/// The score of an entry, in units: what its genres beyond the chosen one add,
/// what its format adds, and a little for its average.
pub fn score_candidate(
    cand: &CatalogAnime,
    genre_affinity: &[GenreAffinity],
    formats: &[FormatAffinity],
    chosen_genre: &str,
) -> (r: Natural)
    requires
        shares_fit(formats@),
    ensures
        r.value() == taste_score(*cand, genre_affinity@, formats@, chosen_genre@),
{
    score_by(cand, genre_affinity, &weigh(genre_affinity), formats, chosen_genre)
}

/// A place in a list, with its score.
pub struct Placed {
    pub score: nat,
    pub place: int,
}

/// The order of scores, the highest first.
pub open spec fn by_score() -> spec_fn(Placed, Placed) -> bool {
    |a: Placed, b: Placed| a.score > b.score
}

/// The places with their scores.
pub open spec fn places_scored(scores: Seq<nat>) -> Seq<Placed> {
    Seq::new(scores.len(), |i: int| Placed { score: scores[i], place: i })
}

/// The places by score, the highest first, equal ones in their order.
pub open spec fn ranked(scores: Seq<nat>) -> Seq<Placed> {
    sorted(places_scored(scores), by_score())
}

/// The best places.
pub open spec fn top(scores: Seq<nat>) -> Seq<Placed> {
    if ranked(scores).len() > RECOMMEND_TOP_K {
        ranked(scores).take(RECOMMEND_TOP_K as int)
    } else {
        ranked(scores)
    }
}

/// The weights by which one of the best places is picked.
pub open spec fn pick_weights(best: Seq<Placed>) -> Seq<nat> {
    best.map_values(|s: Placed| s.score + top_k_epsilon())
}

/// Whether a place is the one that a draw picks.
pub open spec fn picks(scores: Seq<nat>, draw: u64, place: int) -> bool {
    exists|i: int|
        0 <= i < top(scores).len() && top(scores)[i].place == place && #[trigger] falls_on(
            pick_weights(top(scores)),
            draw,
            i,
        )
}

proof fn lemma_ranked(scores: Seq<nat>)
    ensures
        ranked(scores).len() == scores.len(),
        in_order(ranked(scores), by_score()),
        forall|i: int|
            0 <= i < scores.len() ==> 0 <= (#[trigger] ranked(scores)[i]).place < scores.len()
                && ranked(scores)[i].score == scores[ranked(scores)[i].place],
{
    let all = places_scored(scores);
    assert(orders(by_score()));
    law_sorted_is_permutation(all, by_score());
    law_sorted_is_in_order(all, by_score());
    assert forall|i: int| 0 <= i < scores.len() implies 0 <= (#[trigger] ranked(scores)[i]).place
        < scores.len() && ranked(scores)[i].score == scores[ranked(scores)[i].place] by {
        let s = ranked(scores)[i];
        assert(ranked(scores).contains(s));
        lemma_sorted_contains(all, by_score(), s);
        let k = choose|k: int| 0 <= k < all.len() && all[k] == s;
        assert(s.place == k);
    }
}

/// What is picked is one of the given places, and nothing beyond the best eight
/// scores higher.
pub proof fn law_pick_is_among_the_best(scores: Seq<nat>, draw: u64, place: int, j: int)
    requires
        picks(scores, draw, place),
        RECOMMEND_TOP_K <= j < scores.len(),
    ensures
        0 <= place < scores.len(),
        ranked(scores)[j].score <= scores[place],
{
    lemma_ranked(scores);
    let i = choose|i: int|
        0 <= i < top(scores).len() && top(scores)[i].place == place && #[trigger] falls_on(
            pick_weights(top(scores)),
            draw,
            i,
        );
    assert(top(scores)[i] == ranked(scores)[i]);
    assert(!by_score()(ranked(scores)[j], ranked(scores)[i]));
}

/// A place in a list, with its score.
struct Scored {
    score: Natural,
    place: usize,
}

/// What a place with its score stands for.
spec fn placed() -> spec_fn(Scored) -> Placed {
    |s: Scored| Placed { score: s.score.value(), place: s.place as int }
}

/// The order of scores, the highest first.
spec fn scored_higher() -> spec_fn(Scored, Scored) -> bool {
    |a: Scored, b: Scored| a.score.value() > b.score.value()
}

fn higher_score(a: &Scored, b: &Scored) -> (r: bool)
    ensures
        r == scored_higher()(*a, *b),
{
    !a.score.at_most(&b.score)
}

/// The place that a draw picks among the eight with the highest scores, favoured
/// by their scores.
pub fn pick_place(scores: &Vec<Natural>, draw: u64) -> (r: Option<usize>)
    ensures
        r is None <==> scores@.len() == 0,
        r matches Some(p) ==> p < scores@.len() && picks(values(scores@), draw, p as int),
{
    let ghost all = values(scores@);
    let mut list: Vec<Scored> = Vec::new();
    let mut i: usize = 0;
    while i < scores.len()
        invariant
            i <= scores@.len(),
            all == values(scores@),
            list@.len() == i,
            forall|k: int| 0 <= k < i ==> placed()(#[trigger] list@[k]) == places_scored(all)[k],
        decreases scores@.len() - i,
    {
        list.push(Scored { score: scores[i].copy(), place: i });
        i += 1;
    }
    assert(list@.map_values(placed()) =~= places_scored(all));
    let ghost unsorted = list@;
    let mut best = sort_rows(list, higher_score, Ghost(scored_higher()));
    proof {
        lemma_sorted_mapped(unsorted, placed(), scored_higher(), by_score());
        lemma_ranked(all);
    }
    assert(best@.len() == best@.map_values(placed()).len());
    if best.len() > RECOMMEND_TOP_K {
        best.truncate(RECOMMEND_TOP_K);
    }
    assert(best@.map_values(placed()) =~= top(all));
    let epsilon = power_of_ten(POINT_DIGITS - 2).times_plus(TOP_K_EPSILON, 0);
    let mut weights: Vec<Natural> = Vec::new();
    let mut j: usize = 0;
    while j < best.len()
        invariant
            j <= best@.len(),
            best@.map_values(placed()) == top(all),
            epsilon.value() == top_k_epsilon(),
            weights@.len() == j,
            forall|k: int|
                0 <= k < j ==> (#[trigger] weights@[k]).value() == pick_weights(top(all))[k],
        decreases best@.len() - j,
    {
        assert(best@.map_values(placed())[j as int] == placed()(best@[j as int]));
        weights.push(best[j].score.plus(&epsilon));
        j += 1;
    }
    assert(best@.len() == best@.map_values(placed()).len());
    assert(values(weights@) =~= pick_weights(top(all)));
    match weighted_place_for(draw, &weights) {
        Some(k) => {
            assert(falls_on(pick_weights(top(all)), draw, k as int));
            assert(best@.map_values(placed())[k as int] == placed()(best@[k as int]));
            assert(top(all)[k as int] == ranked(all)[k as int]);
            Some(best[k].place)
        },
        None => None,
    }
}

/// The scores of entries.
pub open spec fn taste_scores(
    cands: Seq<CatalogAnime>,
    weights: Seq<GenreAffinity>,
    formats: Seq<FormatAffinity>,
    chosen: Seq<char>,
) -> Seq<nat> {
    cands.map_values(|c: CatalogAnime| taste_score(c, weights, formats, chosen) as nat)
}

/// The entry that a draw picks among the eight with the highest scores.
pub fn pick_recommended_by(
    survivors: Vec<CatalogAnime>,
    genre_affinity: &[GenreAffinity],
    formats: &[FormatAffinity],
    chosen_genre: &str,
    draw: u64,
) -> (r: Option<CatalogAnime>)
    requires
        shares_fit(formats@),
    ensures
        r is None <==> survivors@.len() == 0,
        r matches Some(a) ==> exists|p: int|
            0 <= p < survivors@.len() && #[trigger] survivors@[p] == a && picks(
                taste_scores(survivors@, genre_affinity@, formats@, chosen_genre@),
                draw,
                p,
            ),
{
    let ghost all = survivors@;
    let ghost want = taste_scores(all, genre_affinity@, formats@, chosen_genre@);
    let weights = weigh(genre_affinity);
    let mut scores: Vec<Natural> = Vec::new();
    let mut i: usize = 0;
    while i < survivors.len()
        invariant
            i <= survivors@.len(),
            all == survivors@,
            shares_fit(formats@),
            weighs(weights@, genre_affinity@),
            want == taste_scores(all, genre_affinity@, formats@, chosen_genre@),
            scores@.len() == i,
            forall|k: int| 0 <= k < i ==> (#[trigger] scores@[k]).value() == want[k],
        decreases survivors@.len() - i,
    {
        scores.push(score_by(&survivors[i], genre_affinity, &weights, formats, chosen_genre));
        i += 1;
    }
    assert(values(scores@) =~= want);
    let mut rest = survivors;
    match pick_place(&scores, draw) {
        Some(p) => {
            assert(all[p as int] == rest@[p as int]);
            Some(rest.swap_remove(p))
        },
        None => None,
    }
}

/// The entry that the next number of a generator picks among the eight with the
/// highest scores, favoured by their scores. It is always one of the given
/// entries. Nothing is drawn where there is none.
pub fn pick_recommended(
    survivors: Vec<CatalogAnime>,
    genre_affinity: &[GenreAffinity],
    formats: &[FormatAffinity],
    chosen_genre: &str,
    draws: &mut Draws,
) -> (r: Option<CatalogAnime>)
    requires
        shares_fit(formats@),
    ensures
        survivors@.len() == 0 ==> r is None && *final(draws) == *old(draws),
        survivors@.len() > 0 ==> r is Some && final(draws).count
            == old(draws).count.wrapping_add(GAMMA),
        r matches Some(a) ==> exists|p: int|
            0 <= p < survivors@.len() && #[trigger] survivors@[p] == a && picks(
                taste_scores(survivors@, genre_affinity@, formats@, chosen_genre@),
                mixed(final(draws).count),
                p,
            ),
{
    if survivors.len() == 0 {
        return None;
    }
    let draw: u64 = draws.next_u64();
    pick_recommended_by(survivors, genre_affinity, formats, chosen_genre, draw)
}

} // verus!
