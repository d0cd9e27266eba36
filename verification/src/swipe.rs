//! The swipe deck: which cards are left to decide on, and the picks that are
//! left to chance.

use vstd::prelude::*;
use crate::models::FinishedCard;
use crate::natural::Natural;
use crate::text_set::TextSet;
use crate::db::copy_text;
use crate::rows::{lemma_filter_none, lemma_filter_step};

verus! {

/// The condition of a card's address not being known.
pub open spec fn undecided(known_urls: Set<Seq<char>>) -> spec_fn(FinishedCard) -> bool {
    |c: FinishedCard| !known_urls.contains(c.url@)
}

impl FinishedCard {
    /// A copy of the card.
    pub fn copy(&self) -> (r: FinishedCard)
        ensures
            r == *self,
    {
        FinishedCard {
            title: self.title.clone(),
            url: self.url.clone(),
            poster_url: copy_text(&self.poster_url),
            kind: self.kind.clone(),
            matched_genre: copy_text(&self.matched_genre),
        }
    }
}

/// The cards that have not been decided on yet, in their order.
pub fn undecided_cards(cards: Vec<FinishedCard>, known_urls: &TextSet) -> (r: Vec<FinishedCard>)
    ensures
        r@ == cards@.filter(undecided(known_urls@)),
{
    let ghost hit = undecided(known_urls@);
    let mut out: Vec<FinishedCard> = Vec::new();
    let mut i: usize = 0;
    proof {
        lemma_filter_none(cards@, hit);
    }
    while i < cards.len()
        invariant
            i <= cards@.len(),
            hit == undecided(known_urls@),
            out@ == cards@.take(i as int).filter(hit),
        decreases cards@.len() - i,
    {
        proof {
            lemma_filter_step(cards@, hit, i as int);
        }
        if !known_urls.contains(cards[i].url.as_str()) {
            out.push(cards[i].copy());
        }
        i += 1;
    }
    proof {
        lemma_filter_none(cards@, hit);
    }
    out
}

/// The step of the generator's counter.
pub const GAMMA: u64 = 0x9E37_79B9_7F4A_7C15;

/// The first multiplier of the generator's finish.
pub const FIRST_FACTOR: u64 = 0xBF58_476D_1CE4_E5B9;

/// The second multiplier of the generator's finish.
pub const SECOND_FACTOR: u64 = 0x94D0_49BB_1331_11EB;

/// What undoes a multiplication by the step.
pub const GAMMA_INVERSE: u64 = 0xF1DE_83E1_9937_733D;

/// What undoes a multiplication by the first multiplier.
pub const FIRST_INVERSE: u64 = 0x96DE_1B17_3F11_9089;

/// What undoes a multiplication by the second multiplier.
pub const SECOND_INVERSE: u64 = 0x3196_42B2_D24D_8EC3;

/// The number of values of a draw.
pub const DRAWS: u128 = 0x1_0000_0000_0000_0000;

/// The number drawn at a count of the generator.
pub open spec fn mixed(count: u64) -> u64 {
    let y = (count ^ (count >> 30)).wrapping_mul(FIRST_FACTOR);
    let z = (y ^ (y >> 27)).wrapping_mul(SECOND_FACTOR);
    z ^ (z >> 31)
}

/// The count of a generator after so many draws.
pub open spec fn counted(count: u64, draws: nat) -> u64
    decreases draws,
{
    if draws == 0 { count } else { counted(count, (draws - 1) as nat).wrapping_add(GAMMA) }
}

/// A counter-based generator of numbers. What it gives does not depend on when
/// it is asked.
#[derive(Debug, Clone, Copy, PartialEq, Eq, Structural)]
pub struct Draws {
    pub count: u64,
}

impl Draws {
    /// A generator that starts from a seed.
    pub fn new(seed: u64) -> (r: Self)
        ensures
            r.count == seed,
    {
        Draws { count: seed }
    }

    /// The next number.
    pub fn next_u64(&mut self) -> (r: u64)
        ensures
            final(self).count == old(self).count.wrapping_add(GAMMA),
            r == mixed(final(self).count),
    {
        self.count = self.count.wrapping_add(GAMMA);
        let count: u64 = self.count;
        let y: u64 = (count ^ (count >> 30)).wrapping_mul(FIRST_FACTOR);
        let z: u64 = (y ^ (y >> 27)).wrapping_mul(SECOND_FACTOR);
        z ^ (z >> 31)
    }
}

/// The place among `len` that a draw scales to.
pub open spec fn scaled(draw: u64, len: int) -> int {
    draw * len / (DRAWS as int)
}

/// A draw always scales to a place.
pub proof fn law_scaled_in_bounds(draw: u64, len: int)
    requires
        len > 0,
    ensures
        0 <= scaled(draw, len) < len,
{
    assert(0 <= draw * len) by (nonlinear_arith)
        requires
            len > 0,
            draw >= 0,
    ;
    assert(draw * len < DRAWS * len) by (nonlinear_arith)
        requires
            len > 0,
            draw < DRAWS,
    ;
    vstd::arithmetic::div_mod::lemma_div_pos_is_pos(draw * len, DRAWS as int);
    vstd::arithmetic::div_mod::lemma_multiply_divide_lt(draw * len, DRAWS as int, len);
}

/// Every place is reached: some draw scales to it.
pub proof fn law_every_place_is_reached(len: int, place: int) -> (draw: u64)
    requires
        0 <= place < len <= DRAWS,
    ensures
        scaled(draw, len) == place,
{
    let d = DRAWS as int;
    let q = (place * d + len - 1) / len;
    assert(0 <= place * d) by (nonlinear_arith)
        requires
            place >= 0,
            d >= 0,
    ;
    vstd::arithmetic::div_mod::lemma_fundamental_div_mod(place * d + len - 1, len);
    let m = (place * d + len - 1) % len;
    assert(q * len == place * d + len - 1 - m) by (nonlinear_arith)
        requires
            place * d + len - 1 == len * q + m,
    ;
    assert(0 <= m < len);
    vstd::arithmetic::div_mod::lemma_div_pos_is_pos(place * d + len - 1, len);
    assert(q < d) by {
        assert(place * d <= (len - 1) * d) by (nonlinear_arith)
            requires
                place <= len - 1,
                d >= 0,
        ;
        assert((len - 1) * d == len * d - d) by (nonlinear_arith);
        assert(q * len < d * len) by (nonlinear_arith)
            requires
                q * len <= place * d + len - 1,
                place * d <= len * d - d,
                len <= d,
        ;
        if q >= d {
            assert(q * len >= d * len) by (nonlinear_arith)
                requires
                    q >= d,
                    len > 0,
            ;
        }
    }
    let draw = q as u64;
    assert(place * d <= draw * len < (place + 1) * d) by {
        assert((place + 1) * d == place * d + d) by (nonlinear_arith);
    }
    vstd::arithmetic::div_mod::lemma_fundamental_div_mod_converse(
        draw * len,
        d,
        place,
        draw * len - place * d,
    );
    draw
}

/// The place among `len` that a draw scales to, where there is one.
pub fn index_for(draw: u64, len: usize) -> (r: Option<usize>)
    ensures
        len == 0 ==> r is None,
        len > 0 ==> r is Some && r->0 == scaled(draw, len as int) && r->0 < len,
{
    if len == 0 {
        return None;
    }
    proof {
        law_scaled_in_bounds(draw, len as int);
        assert(draw * len <= 0xffff_ffff_ffff_ffff * 0xffff_ffff_ffff_ffff) by (nonlinear_arith)
            requires
                0 <= draw <= 0xffff_ffff_ffff_ffff,
                0 <= len <= 0xffff_ffff_ffff_ffff,
        ;
    }
    let product: u128 = draw as u128 * len as u128;
    Some((product / DRAWS) as usize)
}

/// The sum of the first `n` weights.
pub open spec fn weight_before(weights: Seq<nat>, n: int) -> nat
    decreases n,
{
    if n <= 0 { 0 } else { weight_before(weights, n - 1) + weights[n - 1] }
}

/// The sum of the weights.
pub open spec fn total_weight(weights: Seq<nat>) -> nat {
    weight_before(weights, weights.len() as int)
}

/// Whether a place is the one that a draw falls on: where there is a weight, the
/// one in whose stretch the scaled draw lies; where there is none, any place by
/// chance alone.
pub open spec fn falls_on(weights: Seq<nat>, draw: u64, i: int) -> bool {
    let total = total_weight(weights);
    if total > 0 {
        &&& 0 <= i < weights.len()
        &&& weight_before(weights, i) * DRAWS <= draw * total < weight_before(weights, i + 1)
            * DRAWS
    } else {
        i == scaled(draw, weights.len() as int)
    }
}

/// Weights that are not positive count as none.
pub open spec fn positive(weights: Seq<i64>) -> Seq<nat> {
    weights.map_values(|w: i64| if w > 0 { w as nat } else { 0 })
}

/// What a list of numbers holds.
pub open spec fn values(list: Seq<Natural>) -> Seq<nat> {
    list.map_values(|n: Natural| n.value())
}

proof fn lemma_weights_grow(weights: Seq<nat>, m: int, n: int)
    requires
        0 <= m <= n <= weights.len(),
    ensures
        weight_before(weights, m) <= weight_before(weights, n),
    decreases n,
{
    if m < n {
        lemma_weights_grow(weights, m, n - 1);
    }
}

/// A draw falls on one place only, and never on one without a weight while there
/// is one with it.
pub proof fn law_weighted_pick(weights: Seq<nat>, draw: u64, i: int, j: int)
    requires
        falls_on(weights, draw, i),
        falls_on(weights, draw, j),
    ensures
        i == j,
        total_weight(weights) > 0 ==> weights[i] > 0,
{
    if total_weight(weights) > 0 {
        if i < j {
            lemma_weights_grow(weights, i + 1, j);
        } else if j < i {
            lemma_weights_grow(weights, j + 1, i);
        }
    }
}

/// The place that a draw falls on by the weights, and any place where there is
/// no weight.
pub fn weighted_place_for(draw: u64, weights: &Vec<Natural>) -> (r: Option<usize>)
    ensures
        r is None <==> weights@.len() == 0,
        r matches Some(i) ==> i < weights@.len() && falls_on(values(weights@), draw, i as int),
{
    let ghost all = values(weights@);
    let mut total = Natural::of(0);
    let mut i: usize = 0;
    while i < weights.len()
        invariant
            i <= weights@.len(),
            all == values(weights@),
            total.value() == weight_before(all, i as int),
        decreases weights@.len() - i,
    {
        total = total.plus(&weights[i]);
        i += 1;
    }
    if total.at_most(&Natural::of(0)) {
        return index_for(draw, weights.len());
    }
    let at = Natural::of_u64(draw).times(&total);
    proof {
        let t = total.value() as int;
        assert(draw * t < t * DRAWS) by (nonlinear_arith)
            requires
                t > 0,
                draw < DRAWS,
        ;
        assert(0 <= draw * t) by (nonlinear_arith)
            requires
                t > 0,
                draw >= 0,
        ;
    }
    let mut sum = Natural::of(0);
    let mut k: usize = 0;
    while k < weights.len()
        invariant
            k <= weights@.len(),
            all == values(weights@),
            total_weight(all) == total.value() > 0,
            at.value() == draw * total.value() < total.value() * DRAWS,
            sum.value() == weight_before(all, k as int),
            sum.value() * DRAWS <= at.value(),
        decreases weights@.len() - k,
    {
        sum = sum.plus(&weights[k]);
        let reached = sum.times_plus(0x1_0000, 0).times_plus(0x1_0000, 0).times_plus(
            0x1_0000,
            0,
        ).times_plus(0x1_0000, 0);
        if !reached.at_most(&at) {
            return Some(k);
        }
        k += 1;
    }
    None
}

/// The place that a draw falls on by the weights, with the positive ones
/// favoured, and any place where there is none.
pub fn weighted_index_for(draw: u64, weights: &Vec<i64>) -> (r: Option<usize>)
    ensures
        r is None <==> weights@.len() == 0,
        r matches Some(i) ==> i < weights@.len() && falls_on(positive(weights@), draw, i as int),
{
    let mut numbers: Vec<Natural> = Vec::new();
    let mut i: usize = 0;
    while i < weights.len()
        invariant
            i <= weights@.len(),
            numbers@.len() == i,
            forall|k: int| 0 <= k < i ==> (#[trigger] numbers@[k]).value() == positive(weights@)[k],
        decreases weights@.len() - i,
    {
        let w: u64 = if weights[i] > 0 { weights[i] as u64 } else { 0 };
        numbers.push(Natural::of_u64(w));
        i += 1;
    }
    assert(values(numbers@) =~= positive(weights@));
    weighted_place_for(draw, &numbers)
}

/// A list with two of its elements exchanged.
pub open spec fn swapped<T>(s: Seq<T>, i: int, j: int) -> Seq<T> {
    s.update(i, s[j]).update(j, s[i])
}

/// A list whose places up to `top` have been exchanged, from the last one on,
/// each with one that is drawn among those up to it.
pub open spec fn shuffled<T>(s: Seq<T>, count: u64, top: int) -> Seq<T>
    decreases top,
{
    if top <= 0 {
        s
    } else {
        let next = count.wrapping_add(GAMMA);
        shuffled(swapped(s, top, scaled(mixed(next), top + 1)), next, top - 1)
    }
}

/// How many numbers are drawn to shuffle so many elements.
pub open spec fn exchanges(len: nat) -> nat {
    if len > 0 { (len - 1) as nat } else { 0 }
}

/// Shuffling keeps every element as often as it occurs.
pub proof fn law_shuffled_is_permutation<T>(s: Seq<T>, count: u64, top: int)
    requires
        top < s.len(),
    ensures
        shuffled(s, count, top).len() == s.len(),
        shuffled(s, count, top).to_multiset() == s.to_multiset(),
    decreases top,
{
    if top > 0 {
        let next = count.wrapping_add(GAMMA);
        let j = scaled(mixed(next), top + 1);
        law_scaled_in_bounds(mixed(next), top + 1);
        lemma_swapped(s, top, j);
        law_shuffled_is_permutation(swapped(s, top, j), next, top - 1);
    }
}

proof fn lemma_swapped<T>(s: Seq<T>, i: int, j: int)
    requires
        0 <= i < s.len(),
        0 <= j < s.len(),
    ensures
        swapped(s, i, j).len() == s.len(),
        swapped(s, i, j).to_multiset() == s.to_multiset(),
{
    broadcast use vstd::seq_lib::group_to_multiset_ensures;

    let a = s.update(i, s[j]);
    vstd::seq_lib::to_multiset_update(s, i, s[j]);
    vstd::seq_lib::to_multiset_update(a, j, s[i]);
    assert(swapped(s, i, j).to_multiset() =~= s.to_multiset());
}

/// `slice::swap` exchanges two elements of a slice.
#[verifier::external_body]
fn swap_items<T>(items: &mut [T], a: usize, b: usize)
    requires
        a < old(items)@.len(),
        b < old(items)@.len(),
    ensures
        final(items)@ == swapped(old(items)@, a as int, b as int),
{
    items.swap(a, b);
}

/// Shuffles a list by the numbers of a generator.
pub fn shuffle<T>(items: &mut [T], draws: &mut Draws)
    ensures
        final(items)@ == shuffled(old(items)@, old(draws).count, old(items)@.len() - 1),
        final(items)@.to_multiset() == old(items)@.to_multiset(),
        final(draws).count == counted(old(draws).count, exchanges(old(items)@.len())),
{
    let n: usize = items.len();
    proof {
        law_shuffled_is_permutation(items@, draws.count, n - 1);
    }
    if n == 0 {
        return ;
    }
    let ghost start = items@;
    let ghost seed = draws.count;
    let mut i: usize = n - 1;
    while i > 0
        invariant
            i < n,
            items@.len() == n,
            shuffled(items@, draws.count, i as int) == shuffled(start, seed, n - 1),
            draws.count == counted(seed, (n - 1 - i) as nat),
        decreases i,
    {
        let draw: u64 = draws.next_u64();
        if let Some(j) = index_for(draw, i + 1) {
            swap_items(items, i, j);
        }
        i -= 1;
    }
}

/// `getrandom::fill` fills a buffer with random bytes, here those of a number.
/// Nothing is claimed of them; there are none where the system has no source.
#[verifier::external_body]
fn entropy() -> (r: Option<u64>) {
    let mut bytes = [0u8; 8];
    match getrandom::fill(&mut bytes) {
        Ok(()) => Some(u64::from_ne_bytes(bytes)),
        Err(_) => None,
    }
}

/// `std::time::SystemTime::elapsed` tells how long ago a time was, here the
/// beginning of the epoch in nanoseconds. Nothing is claimed of it.
#[verifier::external_body]
fn clock_nanos() -> (r: u64) {
    match std::time::SystemTime::UNIX_EPOCH.elapsed() {
        Ok(d) => d.as_nanos() as u64,
        Err(_) => 0,
    }
}

/// The seed of a generator: the random number where there is one, otherwise the
/// time, mixed with the generator's step.
pub open spec fn seed_of(random: Option<u64>, nanos: u64) -> u64 {
    match random {
        Some(s) => s,
        None => nanos ^ GAMMA,
    }
}

/// The generator that a random number, or the time where there is none, gives.
pub fn seeded(random: Option<u64>, nanos: u64) -> (r: Draws)
    ensures
        r.count == seed_of(random, nanos),
{
    let seed: u64 = match random {
        Some(s) => s,
        None => nanos ^ GAMMA,
    };
    Draws::new(seed)
}

/// A generator with a seed of the system's random source, or of the clock where
/// that fails: what [`seeded`] makes of what they give. Any seed may come, so
/// that nothing is claimed of it. A program makes one of them when it starts and
/// draws all its numbers from that one, so that no two of them are equal.
pub fn fresh_draws() -> (r: Draws) {
    let random = entropy();
    let nanos: u64 = match random {
        Some(_) => 0,
        None => clock_nanos(),
    };
    seeded(random, nanos)
}

/// The place among `len`, where there is one, that the next number of a
/// generator scales to. Nothing is drawn where there is none.
pub fn pick_index(len: usize, draws: &mut Draws) -> (r: Option<usize>)
    ensures
        len == 0 ==> r is None && *final(draws) == *old(draws),
        len > 0 ==> final(draws).count == old(draws).count.wrapping_add(GAMMA) && r is Some
            && r->0 == scaled(mixed(final(draws).count), len as int) && r->0 < len,
{
    if len == 0 {
        return None;
    }
    index_for(draws.next_u64(), len)
}

/// The place that the next number of a generator falls on by the weights, with
/// the positive ones favoured: one with a positive weight where there is one,
/// any place otherwise. Nothing is drawn where there is no place.
pub fn weighted_pick_index(weights: &Vec<i64>, draws: &mut Draws) -> (r: Option<usize>)
    ensures
        weights@.len() == 0 ==> r is None && *final(draws) == *old(draws),
        weights@.len() > 0 ==> final(draws).count == old(draws).count.wrapping_add(GAMMA)
            && r is Some,
        r matches Some(i) ==> i < weights@.len() && falls_on(
            positive(weights@),
            mixed(final(draws).count),
            i as int,
        ),
        r matches Some(i) ==> total_weight(positive(weights@)) > 0 ==> weights@[i as int] > 0,
{
    if weights.len() == 0 {
        return None;
    }
    let draw: u64 = draws.next_u64();
    let r = weighted_index_for(draw, weights);
    proof {
        if let Some(i) = r {
            law_weighted_pick(positive(weights@), draw, i as int, i as int);
        }
    }
    r
}

/// One more than the largest count.
spec fn counts() -> int {
    0x1_0000_0000_0000_0000
}

/// A factor with an inverse does not bring two numbers together.
#[verifier::spinoff_prover]
proof fn lemma_factor_separates(a: int, b: int, factor: int, inverse: int)
    requires
        0 <= a < counts(),
        0 <= b < counts(),
        (factor * inverse) % counts() == 1,
        (a * factor) % counts() == (b * factor) % counts(),
    ensures
        a == b,
{
    let m = counts();
    vstd::arithmetic::div_mod::lemma_mul_mod_noop_left(a * factor, inverse, m);
    vstd::arithmetic::div_mod::lemma_mul_mod_noop_left(b * factor, inverse, m);
    assert(a * factor * inverse == a * (factor * inverse)) by (nonlinear_arith);
    assert(b * factor * inverse == b * (factor * inverse)) by (nonlinear_arith);
    vstd::arithmetic::div_mod::lemma_mul_mod_noop_right(a, factor * inverse, m);
    vstd::arithmetic::div_mod::lemma_mul_mod_noop_right(b, factor * inverse, m);
    vstd::arithmetic::div_mod::lemma_small_mod(a as nat, m as nat);
    vstd::arithmetic::div_mod::lemma_small_mod(b as nat, m as nat);
}

/// Two counts of a generator never give the same number.
#[verifier::spinoff_prover]
pub proof fn law_mixed_separates(a: u64, b: u64)
    ensures
        mixed(a) == mixed(b) ==> a == b,
{
    if mixed(a) == mixed(b) {
        let ya0: u64 = a ^ (a >> 30);
        let yb0: u64 = b ^ (b >> 30);
        let ya = ya0.wrapping_mul(FIRST_FACTOR);
        let yb = yb0.wrapping_mul(FIRST_FACTOR);
        let za0: u64 = ya ^ (ya >> 27);
        let zb0: u64 = yb ^ (yb >> 27);
        let za = za0.wrapping_mul(SECOND_FACTOR);
        let zb = zb0.wrapping_mul(SECOND_FACTOR);
        let ra: u64 = za ^ (za >> 31);
        let rb: u64 = zb ^ (zb >> 31);
        assert(ra == rb);
        assert((ra ^ (ra >> 31)) ^ (ra >> 62) == za) by (bit_vector)
            requires
                ra == za ^ (za >> 31),
        ;
        assert((rb ^ (rb >> 31)) ^ (rb >> 62) == zb) by (bit_vector)
            requires
                rb == zb ^ (zb >> 31),
        ;
        assert((SECOND_FACTOR * SECOND_INVERSE) % counts() == 1);
        lemma_factor_separates(za0 as int, zb0 as int, SECOND_FACTOR as int, SECOND_INVERSE as int);
        assert((za0 ^ (za0 >> 27)) ^ (za0 >> 54) == ya) by (bit_vector)
            requires
                za0 == ya ^ (ya >> 27),
        ;
        assert((zb0 ^ (zb0 >> 27)) ^ (zb0 >> 54) == yb) by (bit_vector)
            requires
                zb0 == yb ^ (yb >> 27),
        ;
        assert((FIRST_FACTOR * FIRST_INVERSE) % counts() == 1);
        lemma_factor_separates(ya0 as int, yb0 as int, FIRST_FACTOR as int, FIRST_INVERSE as int);
        assert((ya0 ^ (ya0 >> 30)) ^ (ya0 >> 60) == a) by (bit_vector)
            requires
                ya0 == a ^ (a >> 30),
        ;
        assert((yb0 ^ (yb0 >> 30)) ^ (yb0 >> 60) == b) by (bit_vector)
            requires
                yb0 == b ^ (b >> 30),
        ;
    }
}

#[verifier::spinoff_prover]
proof fn lemma_counted(count: u64, draws: nat)
    ensures
        counted(count, draws) == (count + draws * GAMMA) % counts(),
    decreases draws,
{
    let m = counts();
    if draws == 0 {
        assert(draws * GAMMA == 0) by (nonlinear_arith)
            requires
                draws == 0,
        ;
        vstd::arithmetic::div_mod::lemma_small_mod(count as nat, m as nat);
    } else {
        let before = (draws - 1) as nat;
        lemma_counted(count, before);
        let x = count + before * GAMMA;
        assert(count + draws * GAMMA == x + GAMMA) by (nonlinear_arith)
            requires
                draws == before + 1,
                x == count + before * GAMMA,
        ;
        vstd::arithmetic::div_mod::lemma_add_mod_noop(x, GAMMA as int, m);
        vstd::arithmetic::div_mod::lemma_small_mod(GAMMA as nat, m as nat);
        let c = counted(count, before);
        assert((c + GAMMA) % m == (x + GAMMA) % m);
        assert(c.wrapping_add(GAMMA) == (c + GAMMA) % m);
    }
}

/// Steps of an amount with an inverse never lead to the same count twice.
#[verifier::spinoff_prover]
proof fn lemma_steps_separate(count: int, j: int, k: int, step: int, inverse: int)
    requires
        0 <= j < counts(),
        0 <= k < counts(),
        (step * inverse) % counts() == 1,
        (count + j * step) % counts() == (count + k * step) % counts(),
    ensures
        j == k,
{
    let x = j * step;
    let y = k * step;
    vstd::arithmetic::div_mod::lemma_mod_equivalence(count + x, count + y, counts());
    assert((count + x) - (count + y) == x - y);
    vstd::arithmetic::div_mod::lemma_mod_equivalence(x, y, counts());
    lemma_factor_separates(j, k, step, inverse);
}

/// The numbers of one generator never repeat until it has gone through all its
/// counts.
#[verifier::spinoff_prover]
pub proof fn law_draws_never_repeat(count: u64, j: nat, k: nat)
    requires
        j < k < DRAWS,
    ensures
        mixed(counted(count, j)) != mixed(counted(count, k)),
{
    law_mixed_separates(counted(count, j), counted(count, k));
    if counted(count, j) == counted(count, k) {
        lemma_counted(count, j);
        lemma_counted(count, k);
        assert((GAMMA * GAMMA_INVERSE) % counts() == 1);
        lemma_steps_separate(
            count as int,
            j as int,
            k as int,
            GAMMA as int,
            GAMMA_INVERSE as int,
        );
    }
}

} // verus!
