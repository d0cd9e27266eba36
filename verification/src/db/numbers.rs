//! Episode numbers as sites write them: "12", "12.5" for specials, "1x05" for
//! season-prefixed numbering, and anything else for recaps and re-uploads.

use vstd::prelude::*;
use crate::natural::{lemma_low_value_bounded, ten_to, weight, Natural, BASE};
use crate::text::{
    ascii_digit, chars_of, copy_range, digit_value, fold_chars, folded, spells, trim_chars, trimmed,
};

verus! {

/// How many decimal places count; an episode value is a whole number of units
/// of the last one. No double but zero is closer to zero than such a unit.
pub const PLACES: usize = 324;

/// No number with more digits than this before its point is finite.
const REACH: usize = 400;

/// How far apart the first episodes of two neighbouring seasons are.
pub const SEASON_SPAN: u32 = 100_000;

/// Exponents beyond this one move the point of no text into reach.
const EXPONENT_LIMIT: i128 = 0x1_0000_0000_0000_0000_0000;

/// The number that a run of digits stands for.
pub open spec fn digits_value(s: Seq<char>) -> nat
    decreases s.len(),
{
    if s.len() == 0 {
        0
    } else {
        (digits_value(s.drop_last()) * 10 + digit_value(s.last())) as nat
    }
}

/// Whether every character of a text is an ASCII digit.
pub open spec fn all_digits(s: Seq<char>) -> bool {
    forall|i: int| 0 <= i < s.len() ==> ascii_digit(#[trigger] s[i])
}

/// A number, or the limit where the number exceeds it.
pub open spec fn capped(n: nat, limit: int) -> int {
    if n <= limit { n as int } else { limit }
}

/// How many digits a text starts with from a place on.
pub open spec fn digit_run(s: Seq<char>, from: int) -> int
    decreases s.len() - from,
{
    if 0 <= from < s.len() && ascii_digit(s[from]) {
        1 + digit_run(s, from + 1)
    } else {
        0
    }
}

pub proof fn lemma_digit_run_bounded(s: Seq<char>, from: int)
    requires
        0 <= from <= s.len(),
    ensures
        0 <= digit_run(s, from) <= s.len() - from,
        forall|i: int| from <= i < from + digit_run(s, from) ==> ascii_digit(#[trigger] s[i]),
        from + digit_run(s, from) < s.len() ==> !ascii_digit(s[from + digit_run(s, from)]),
    decreases s.len() - from,
{
    if from < s.len() && ascii_digit(s[from]) {
        lemma_digit_run_bounded(s, from + 1);
    }
}

/// How many digits a text starts with from a place on.
fn count_digits(chars: &Vec<char>, from: usize) -> (r: usize)
    requires
        from <= chars@.len(),
    ensures
        r == digit_run(chars@, from as int),
        r <= chars@.len() - from,
        all_digits(chars@.subrange(from as int, from + r)),
{
    let mut n: usize = 0;
    proof {
        lemma_digit_run_bounded(chars@, from as int);
    }
    while n < chars.len() - from && '0' <= chars[from + n] && chars[from + n] <= '9'
        invariant
            from + n <= chars@.len(),
            digit_run(chars@, from as int) == n + digit_run(chars@, from + n),
        decreases chars@.len() - n,
    {
        n += 1;
    }
    n
}

/// The number that the digits between two places stand for, up to a limit.
fn value_between(chars: &Vec<char>, from: usize, to: usize, limit: i128) -> (r: i128)
    requires
        from <= to <= chars@.len(),
        all_digits(chars@.subrange(from as int, to as int)),
        0 <= limit <= 0x1_0000_0000_0000_0000_0000,
    ensures
        r == capped(digits_value(chars@.subrange(from as int, to as int)), limit as int),
        0 <= r <= limit,
{
    let ghost all = chars@.subrange(from as int, to as int);
    let mut value: i128 = 0;
    let mut i: usize = from;
    while i < to
        invariant
            from <= i <= to <= chars@.len(),
            all == chars@.subrange(from as int, to as int),
            all_digits(all),
            0 <= limit <= 0x1_0000_0000_0000_0000_0000,
            0 <= value <= limit,
            value == capped(digits_value(chars@.subrange(from as int, i as int)), limit as int),
        decreases to - i,
    {
        let ghost next = chars@.subrange(from as int, i + 1);
        assert(next.drop_last() =~= chars@.subrange(from as int, i as int));
        assert(all[i - from] == chars@[i as int]);
        assert(ascii_digit(all[i - from]));
        let d: i128 = (chars[i] as u32 - '0' as u32) as i128;
        let more: i128 = value * 10 + d;
        value = if more <= limit { more } else { limit };
        i += 1;
    }
    value
}

/// As many zeros.
pub open spec fn zeros(n: nat) -> Seq<char> {
    Seq::new(n, |i: int| '0')
}

/// Digits with the point behind them moved to the right by some places, or to
/// the left where `by` is negative; what is then behind the point is cut off.
pub open spec fn moved(digits: Seq<char>, by: int) -> Seq<char> {
    if by >= 0 {
        digits + zeros(by as nat)
    } else if digits.len() + by > 0 {
        digits.take(digits.len() + by)
    } else {
        Seq::empty()
    }
}

/// What digits stand for with the point moved by some places, in units.
pub open spec fn units_at(digits: Seq<char>, by: int) -> nat {
    digits_value(moved(digits, by))
}

/// What a decimal number with the whole part `w`, the fraction `f` and the
/// exponent `e` stands for, in units.
pub open spec fn decimal_units(w: Seq<char>, f: Seq<char>, e: int) -> nat {
    units_at(w + f, PLACES + e - f.len())
}

/// Two to the power of `n`.
pub open spec fn two_to(n: nat) -> nat
    decreases n,
{
    if n == 0 { 1 } else { 2 * two_to((n - 1) as nat) }
}

/// The least number that is infinite as a double, in units: half a step beyond
/// the largest finite one.
pub open spec fn overflow() -> int {
    (two_to(54) - 1) * two_to(970) * ten_to(PLACES as nat)
}

/// Where an episode stands among the others of its series: at a place, in
/// units, below all places, above all places, or in no order to any other.
pub enum Rank {
    Unordered,
    Lowest,
    At(int),
    Highest,
}

impl Rank {
    /// Whether the rank is not above another.
    pub open spec fn at_most(self, other: Rank) -> bool {
        match (self, other) {
            (Rank::Unordered, _) => false,
            (_, Rank::Unordered) => false,
            (Rank::Lowest, _) => true,
            (_, Rank::Highest) => true,
            (Rank::At(x), Rank::At(y)) => x <= y,
            (_, _) => false,
        }
    }

    /// The rank on the other side of zero.
    pub open spec fn negated(self) -> Rank {
        match self {
            Rank::Unordered => Rank::Unordered,
            Rank::Lowest => Rank::Highest,
            Rank::At(x) => Rank::At(-x),
            Rank::Highest => Rank::Lowest,
        }
    }

    /// The rank of so many times as many units.
    pub open spec fn times(self, factor: int) -> Rank {
        match self {
            Rank::At(x) => settled(x * factor),
            other => other,
        }
    }

    /// The rank of both units together. What is infinite in both directions has
    /// no order.
    pub open spec fn plus(self, other: Rank) -> Rank {
        match (self, other) {
            (Rank::At(x), Rank::At(y)) => settled(x + y),
            (Rank::Unordered, _) => Rank::Unordered,
            (_, Rank::Unordered) => Rank::Unordered,
            (Rank::Lowest, Rank::Highest) => Rank::Unordered,
            (Rank::Highest, Rank::Lowest) => Rank::Unordered,
            (Rank::At(_), infinite) => infinite,
            (infinite, _) => infinite,
        }
    }
}

/// The rank of a number of units, which is infinite beyond the largest double.
pub open spec fn settled(units: int) -> Rank {
    if units >= overflow() {
        Rank::Highest
    } else if units <= -overflow() {
        Rank::Lowest
    } else {
        Rank::At(units)
    }
}

pub proof fn lemma_ten_to_grows(a: nat, b: nat)
    requires
        a <= b,
    ensures
        0 < ten_to(a) <= ten_to(b),
    decreases b,
{
    if a < b {
        lemma_ten_to_grows(a, (b - 1) as nat);
    } else if a > 0 {
        lemma_ten_to_grows((a - 1) as nat, (a - 1) as nat);
    }
}

pub proof fn lemma_two_to_grows(a: nat, b: nat)
    requires
        a <= b,
    ensures
        0 < two_to(a) <= two_to(b),
    decreases b,
{
    if a < b {
        lemma_two_to_grows(a, (b - 1) as nat);
    } else if a > 0 {
        lemma_two_to_grows((a - 1) as nat, (a - 1) as nat);
    }
}

pub proof fn lemma_two_to_sum(a: nat, b: nat)
    ensures
        two_to(a + b) == two_to(a) * two_to(b),
    decreases b,
{
    if b > 0 {
        let m = (b - 1) as nat;
        lemma_two_to_sum(a, m);
        assert(two_to(a) * (2 * two_to(m)) == 2 * (two_to(a) * two_to(m))) by (nonlinear_arith);
    } else {
        assert(two_to(a) * two_to(0) == two_to(a)) by (nonlinear_arith)
            requires
                two_to(0) == 1,
        ;
    }
}

pub proof fn lemma_ten_to_sum(a: nat, b: nat)
    ensures
        ten_to(a + b) == ten_to(a) * ten_to(b),
    decreases b,
{
    if b > 0 {
        let m = (b - 1) as nat;
        lemma_ten_to_sum(a, m);
        assert(ten_to(a) * (10 * ten_to(m)) == 10 * (ten_to(a) * ten_to(m))) by (nonlinear_arith);
    } else {
        assert(ten_to(a) * ten_to(0) == ten_to(a)) by (nonlinear_arith)
            requires
                ten_to(0) == 1,
        ;
    }
}

/// Ten is more than the third power of two.
proof fn lemma_tens_exceed_twos(n: nat)
    ensures
        two_to(3 * n) <= ten_to(n),
    decreases n,
{
    if n > 0 {
        lemma_tens_exceed_twos((n - 1) as nat);
        reveal_with_fuel(two_to, 4);
    }
}

/// The first infinite number lies between two that are easily compared with.
proof fn lemma_overflow_bounds()
    ensures
        two_to(1920) <= overflow() <= ten_to((REACH + PLACES) as nat),
{
    let t = ten_to(PLACES as nat);
    let p = two_to(970);
    let q = two_to(54);
    lemma_two_to_grows(0, 970);
    lemma_two_to_grows(53, 54);
    lemma_ten_to_grows(0, PLACES as nat);
    assert(q == 2 * two_to(53));
    lemma_two_to_sum(54, 970);
    lemma_two_to_sum(53, 970);
    lemma_two_to_sum(1023, 972);
    lemma_two_to_grows(1920, 1995);
    lemma_tens_exceed_twos(324);
    lemma_two_to_grows(1024, 1200);
    lemma_tens_exceed_twos(400);
    lemma_ten_to_sum(400, 324);
    let r = two_to(53);
    assert(r * p <= (q - 1) * p <= q * p) by (nonlinear_arith)
        requires
            r <= q - 1,
            p >= 0,
    ;
    let x = (q - 1) * p;
    let low = two_to(1023);
    let high = ten_to(400);
    let u = two_to(972);
    assert(low * u <= x * t) by (nonlinear_arith)
        requires
            0 <= low <= x,
            0 <= u <= t,
    ;
    assert(x * t <= high * t) by (nonlinear_arith)
        requires
            x <= high,
            0 <= t,
    ;
}

/// Whether a text starts with zeros up to a place, or is no longer than that.
spec fn zeros_before(s: Seq<char>, z: int) -> bool {
    forall|i: int| 0 <= i < z && i < s.len() ==> #[trigger] s[i] == '0'
}

/// Digits behind leading zeros stand for less than the power of ten of their
/// count, and for no less than a tenth of it.
proof fn lemma_digits_value_bounded(s: Seq<char>, z: int)
    requires
        all_digits(s),
        zeros_before(s, z),
        0 <= z,
    ensures
        digits_value(s) < ten_to((if s.len() > z { s.len() - z } else { 0 }) as nat),
        z < s.len() && s[z] != '0' ==> digits_value(s) >= ten_to((s.len() - z - 1) as nat),
    decreases s.len(),
{
    if s.len() > 0 {
        let t = s.drop_last();
        assert forall|i: int| 0 <= i < t.len() implies ascii_digit(#[trigger] t[i]) by {
            assert(t[i] == s[i]);
        }
        assert forall|i: int| 0 <= i < z && i < t.len() implies #[trigger] t[i] == '0' by {
            assert(t[i] == s[i]);
        }
        lemma_digits_value_bounded(t, z);
        assert(ascii_digit(s[s.len() - 1]));
        if s.len() <= z {
            assert(s[s.len() - 1] == '0');
        }
    }
}

proof fn lemma_moved_digits(s: Seq<char>, by: int, z: int)
    requires
        all_digits(s),
        zeros_before(s, z),
    ensures
        all_digits(moved(s, by)),
        z <= s.len() ==> zeros_before(moved(s, by), z),
        z == s.len() ==> zeros_before(moved(s, by), moved(s, by).len() as int),
{
    let m = moved(s, by);
    assert forall|i: int| 0 <= i < m.len() implies ascii_digit(#[trigger] m[i]) by {
        if i < s.len() {
            assert(m[i] == s[i]);
        }
    }
    assert forall|i: int| 0 <= i < m.len() && (i < z || i >= s.len()) implies #[trigger] m[i]
        == '0' by {
        if i < s.len() {
            assert(m[i] == s[i]);
        }
    }
}

/// Digits whose point is moved out of reach stand for an infinite number.
proof fn lemma_out_of_reach(s: Seq<char>, by: int, z: int)
    requires
        all_digits(s),
        zeros_before(s, z),
        0 <= z < s.len(),
        s[z] != '0',
        s.len() - z + by > REACH + PLACES,
    ensures
        units_at(s, by) >= overflow(),
{
    let m = moved(s, by);
    lemma_moved_digits(s, by, z);
    assert(m[z] == s[z]);
    lemma_digits_value_bounded(m, z);
    lemma_ten_to_grows((REACH + PLACES) as nat, (m.len() - z - 1) as nat);
    lemma_overflow_bounds();
}

/// Zeros stand for zero wherever the point is.
proof fn lemma_only_zeros(s: Seq<char>, by: int)
    requires
        all_digits(s),
        zeros_before(s, s.len() as int),
    ensures
        units_at(s, by) == 0,
{
    let m = moved(s, by);
    lemma_moved_digits(s, by, s.len() as int);
    lemma_digits_value_bounded(m, m.len() as int);
}

/// The number of leading zeros of a text.
spec fn zero_run(s: Seq<char>, from: int) -> int
    decreases s.len() - from,
{
    if 0 <= from < s.len() && s[from] == '0' { 1 + zero_run(s, from + 1) } else { 0 }
}

proof fn lemma_zero_run(s: Seq<char>, from: int)
    requires
        0 <= from <= s.len(),
        zeros_before(s, from),
    ensures
        0 <= zero_run(s, from) <= s.len() - from,
        zeros_before(s, from + zero_run(s, from)),
        from + zero_run(s, from) < s.len() ==> s[from + zero_run(s, from)] != '0',
    decreases s.len() - from,
{
    if from < s.len() && s[from] == '0' {
        lemma_zero_run(s, from + 1);
    }
}

/// Exponents beyond the limit count as the limit.
proof fn lemma_exponent_limit(s: Seq<char>, at: int, e: nat)
    requires
        all_digits(s),
        s.len() <= usize::MAX,
        -(usize::MAX as int) <= at <= PLACES,
    ensures
        settled(units_at(s, at + e) as int) == settled(
            units_at(s, at + capped(e, EXPONENT_LIMIT as int)) as int,
        ),
        units_at(s, at - e) == units_at(s, at - capped(e, EXPONENT_LIMIT as int)),
{
    if e > EXPONENT_LIMIT {
        lemma_zero_run(s, 0);
        let z = zero_run(s, 0);
        if z == s.len() {
            lemma_only_zeros(s, at + e);
            lemma_only_zeros(s, at + EXPONENT_LIMIT);
        } else {
            lemma_out_of_reach(s, at + e, z);
            lemma_out_of_reach(s, at + EXPONENT_LIMIT, z);
        }
    }
}

/// What digits stand for with the point moved by some places, in units, or
/// nothing where that is clearly infinite.
fn units_of(digits: &Vec<char>, by: i128) -> (r: Option<Natural>)
    requires
        all_digits(digits@),
        -0x10_0000_0000_0000_0000_0000 <= by <= 0x10_0000_0000_0000_0000_0000,
    ensures
        match r {
            Some(v) => v.value() == units_at(digits@, by as int),
            None => units_at(digits@, by as int) >= overflow(),
        },
{
    let n: usize = digits.len();
    let ghost s = digits@;
    let mut z: usize = 0;
    while z < n && digits[z] == '0'
        invariant
            n == s.len(),
            s == digits@,
            z <= n,
            zeros_before(s, z as int),
        decreases n - z,
    {
        z += 1;
    }
    if z == n {
        proof {
            lemma_only_zeros(s, by as int);
        }
        return Some(Natural::of(0));
    }
    let reach: i128 = (REACH + PLACES) as i128;
    if (n - z) as i128 + by > reach {
        proof {
            lemma_out_of_reach(s, by as int, z as int);
        }
        return None;
    }
    let keep: usize = if by >= 0 {
        n
    } else if n as i128 + by > 0 {
        (n as i128 + by) as usize
    } else {
        0
    };
    let mut value = Natural::of(0);
    let mut i: usize = 0;
    assert(s.take(0) =~= Seq::empty());
    while i < keep
        invariant
            i <= keep <= s.len(),
            s == digits@,
            all_digits(s),
            value.value() == digits_value(s.take(i as int)),
        decreases keep - i,
    {
        assert(ascii_digit(s[i as int]));
        let d: u32 = digits[i] as u32 - '0' as u32;
        value = value.times_plus(10, d);
        i += 1;
        assert(s.take(i as int).drop_last() =~= s.take(i - 1));
    }
    let more: usize = if by >= 0 { by as usize } else { 0 };
    let ghost kept = s.take(keep as int);
    let mut j: usize = 0;
    assert(kept + zeros(0) =~= kept);
    while j < more
        invariant
            j <= more,
            value.value() == digits_value(kept + zeros(j as nat)),
        decreases more - j,
    {
        value = value.times_plus(10, 0);
        j += 1;
        assert((kept + zeros(j as nat)).drop_last() =~= kept + zeros((j - 1) as nat));
    }
    assert(moved(s, by as int) =~= kept + zeros(more as nat));
    Some(value)
}

/// Where an episode stands among the others of its series. A place is the
/// difference of two numbers of units.
#[derive(Clone, Debug)]
pub enum EpisodePlace {
    Unordered,
    Lowest,
    At(Natural, Natural),
    Highest,
}

/// The first infinite number, in units.
fn first_infinite() -> (r: Natural)
    ensures
        r.value() == overflow(),
{
    let mut value = Natural::of_u64(0x3f_ffff_ffff_ffff);
    let ghost mantissa = (two_to(54) - 1) as nat;
    proof {
        reveal_with_fuel(two_to, 55);
        assert(value.value() == mantissa);
        assert(mantissa * two_to(0) == mantissa) by (nonlinear_arith)
            requires
                two_to(0) == 1,
        ;
    }
    let mut i: usize = 0;
    while i < 970
        invariant
            i <= 970,
            value.value() == mantissa * two_to(i as nat),
        decreases 970 - i,
    {
        assert(mantissa * (2 * two_to(i as nat)) == mantissa * two_to(i as nat) * 2)
            by (nonlinear_arith);
        value = value.times_plus(2, 0);
        i += 1;
    }
    let ghost whole = mantissa * two_to(970);
    assert(whole * ten_to(0) == whole) by (nonlinear_arith)
        requires
            ten_to(0) == 1,
    ;
    let mut j: usize = 0;
    while j < PLACES
        invariant
            j <= PLACES,
            value.value() == whole * ten_to(j as nat),
        decreases PLACES - j,
    {
        assert(whole * (10 * ten_to(j as nat)) == whole * ten_to(j as nat) * 10)
            by (nonlinear_arith);
        value = value.times_plus(10, 0);
        j += 1;
    }
    value
}

proof fn lemma_weight_is_power(place: nat)
    ensures
        weight(place) == two_to(32 * place),
    decreases place,
{
    if place > 0 {
        lemma_weight_is_power((place - 1) as nat);
        lemma_two_to_sum((32 * (place - 1)) as nat, 32);
        reveal_with_fuel(two_to, 33);
        assert(two_to(32) == BASE);
    }
}

/// A number of sixty limbs is finite.
proof fn lemma_short_is_finite(n: Natural)
    requires
        n.limbs@.len() <= 60,
    ensures
        n.value() < overflow(),
{
    let len = n.limbs@.len();
    lemma_low_value_bounded(n.limbs@, len);
    lemma_weight_is_power(len);
    lemma_two_to_grows(32 * len, 1920);
    lemma_overflow_bounds();
}

impl EpisodePlace {
    /// The rank that the place gives.
    pub open spec fn rank(self) -> Rank {
        match self {
            EpisodePlace::Unordered => Rank::Unordered,
            EpisodePlace::Lowest => Rank::Lowest,
            EpisodePlace::At(plus, minus) => Rank::At(plus.value() - minus.value()),
            EpisodePlace::Highest => Rank::Highest,
        }
    }

    /// Whether the episode is not behind another.
    pub fn at_most(&self, other: &EpisodePlace) -> (r: bool)
        ensures
            r == self.rank().at_most(other.rank()),
    {
        match (self, other) {
            (EpisodePlace::Unordered, _) => false,
            (_, EpisodePlace::Unordered) => false,
            (EpisodePlace::Lowest, _) => true,
            (_, EpisodePlace::Highest) => true,
            (EpisodePlace::At(a, b), EpisodePlace::At(c, d)) => a.plus(d).at_most(&c.plus(b)),
            (_, _) => false,
        }
    }

    /// The place of a difference of two numbers of units.
    fn settle(plus: Natural, minus: Natural) -> (r: EpisodePlace)
        ensures
            r.rank() == settled(plus.value() - minus.value()),
    {
        if plus.limbs.len() <= 60 && minus.limbs.len() <= 60 {
            proof {
                lemma_short_is_finite(plus);
                lemma_short_is_finite(minus);
            }
            return EpisodePlace::At(plus, minus);
        }
        let limit = first_infinite();
        proof {
            lemma_overflow_bounds();
            lemma_two_to_grows(0, 1920);
        }
        if minus.plus(&limit).at_most(&plus) {
            EpisodePlace::Highest
        } else if plus.plus(&limit).at_most(&minus) {
            EpisodePlace::Lowest
        } else {
            EpisodePlace::At(plus, minus)
        }
    }

    /// The place on the other side of zero.
    fn negated(self) -> (r: EpisodePlace)
        ensures
            r.rank() == self.rank().negated(),
    {
        match self {
            EpisodePlace::Unordered => EpisodePlace::Unordered,
            EpisodePlace::Lowest => EpisodePlace::Highest,
            EpisodePlace::At(plus, minus) => EpisodePlace::At(minus, plus),
            EpisodePlace::Highest => EpisodePlace::Lowest,
        }
    }

    /// The place of so many times as many units.
    fn times(self, factor: u32) -> (r: EpisodePlace)
        ensures
            r.rank() == self.rank().times(factor as int),
    {
        match self {
            EpisodePlace::At(plus, minus) => {
                assert((plus.value() - minus.value()) * factor == plus.value() * factor
                    - minus.value() * factor) by (nonlinear_arith);
                Self::settle(plus.times_plus(factor, 0), minus.times_plus(factor, 0))
            },
            other => other,
        }
    }

    /// The place of both units together.
    fn plus(self, other: EpisodePlace) -> (r: EpisodePlace)
        ensures
            r.rank() == self.rank().plus(other.rank()),
    {
        match (self, other) {
            (EpisodePlace::At(a, b), EpisodePlace::At(c, d)) => Self::settle(a.plus(&c), b.plus(&d)),
            (EpisodePlace::Unordered, _) => EpisodePlace::Unordered,
            (_, EpisodePlace::Unordered) => EpisodePlace::Unordered,
            (EpisodePlace::Lowest, EpisodePlace::Highest) => EpisodePlace::Unordered,
            (EpisodePlace::Highest, EpisodePlace::Lowest) => EpisodePlace::Unordered,
            (EpisodePlace::At(_, _), infinite) => infinite,
            (infinite, _) => infinite,
        }
    }

    /// The place of what digits stand for with the point moved by some places.
    fn of_digits(digits: &Vec<char>, by: i128) -> (r: EpisodePlace)
        requires
            all_digits(digits@),
            -0x10_0000_0000_0000_0000_0000 <= by <= 0x10_0000_0000_0000_0000_0000,
        ensures
            r.rank() == settled(units_at(digits@, by as int) as int),
    {
        match units_of(digits, by) {
            Some(units) => Self::settle(units, Natural::of(0)),
            None => EpisodePlace::Highest,
        }
    }
}

/// A text without a sign at its start.
pub open spec fn unsigned(s: Seq<char>) -> Seq<char> {
    if s.len() > 0 && (s[0] == '+' || s[0] == '-') { s.drop_first() } else { s }
}

/// The digits behind the point of a number that starts a text.
pub open spec fn fraction_of(s: Seq<char>) -> Seq<char> {
    let w = digit_run(s, 0);
    if w < s.len() && s[w] == '.' {
        s.subrange(w + 1, w + 1 + digit_run(s, w + 1))
    } else {
        Seq::empty()
    }
}

/// Where a number that starts a text ends, its exponent left out.
pub open spec fn mantissa_end(s: Seq<char>) -> int {
    let w = digit_run(s, 0);
    if w < s.len() && s[w] == '.' { w + 1 + fraction_of(s).len() } else { w }
}

/// The exponent of a number that ends at a place: nothing where it is malformed.
pub open spec fn exponent_from(s: Seq<char>, end: int) -> Option<int> {
    let t = s.skip(end + 1);
    let u = unsigned(t);
    if end >= s.len() {
        Some(0)
    } else if (s[end] == 'e' || s[end] == 'E') && u.len() > 0 && all_digits(u) {
        Some(
            if t[0] == '-' {
                -(digits_value(u) as int)
            } else {
                digits_value(u) as int
            },
        )
    } else {
        None
    }
}

/// The rank of an unsigned word for a number, or nothing if a text is none:
/// "inf" and "infinity" are above all, "nan" has no order, whatever their case.
pub open spec fn worded(s: Seq<char>) -> Option<Rank> {
    if folded(s) == "inf"@ || folded(s) == "infinity"@ {
        Some(Rank::Highest)
    } else if folded(s) == "nan"@ {
        Some(Rank::Unordered)
    } else {
        None
    }
}

/// The rank of an unsigned decimal number, or nothing if a text is none: digits
/// with at most one point among or around them, and an optional exponent.
pub open spec fn unsigned_decimal(s: Seq<char>) -> Option<Rank> {
    let w = s.take(digit_run(s, 0));
    let f = fraction_of(s);
    let e = exponent_from(s, mantissa_end(s));
    if w.len() + f.len() == 0 || e is None {
        None
    } else {
        Some(settled(decimal_units(w, f, e->0) as int))
    }
}

/// The rank of a number, or nothing if a text is none: an optional sign before
/// a word or a decimal number.
pub open spec fn decimal(s: Seq<char>) -> Option<Rank> {
    let u = unsigned(s);
    let rank = if worded(u) is Some { worded(u) } else { unsigned_decimal(u) };
    match rank {
        None => None,
        Some(r) => if s.len() > 0 && s[0] == '-' { Some(r.negated()) } else { Some(r) },
    }
}

/// The exponent of a number that ends at a place, or the limit of its sign.
fn parse_exponent(chars: &Vec<char>, end: usize) -> (r: Option<i128>)
    requires
        end <= chars@.len(),
    ensures
        r is Some <==> exponent_from(chars@, end as int) is Some,
        r matches Some(v) ==> -EXPONENT_LIMIT <= v <= EXPONENT_LIMIT && v == {
            let e = exponent_from(chars@, end as int)->0;
            if e < 0 {
                -capped((-e) as nat, EXPONENT_LIMIT as int)
            } else {
                capped(e as nat, EXPONENT_LIMIT as int)
            }
        },
{
    if end == chars.len() {
        return Some(0);
    }
    if chars[end] != 'e' && chars[end] != 'E' {
        return None;
    }
    let t = copy_range(chars, end + 1, chars.len());
    assert(t@ =~= chars@.skip(end + 1));
    let signed: bool = t.len() > 0 && (t[0] == '+' || t[0] == '-');
    let from: usize = if signed { 1 } else { 0 };
    let u = copy_range(&t, from, t.len());
    assert(u@ =~= unsigned(t@));
    let d: usize = count_digits(&u, 0);
    proof {
        lemma_digit_run_bounded(u@, 0);
        assert(u@.subrange(0, u@.len() as int) =~= u@);
    }
    if u.len() == 0 || d < u.len() {
        return None;
    }
    let v: i128 = value_between(&u, 0, u.len(), EXPONENT_LIMIT);
    if t[0] == '-' {
        Some(-v)
    } else {
        Some(v)
    }
}

/// The digits of a number that starts a text, those before its point and those
/// behind it.
fn digits_of(chars: &Vec<char>) -> (r: (usize, usize, Vec<char>))
    ensures
        r.0 == digit_run(chars@, 0) <= chars@.len(),
        r.1 == mantissa_end(chars@) <= chars@.len(),
        r.2@ == chars@.take(digit_run(chars@, 0)) + fraction_of(chars@),
        all_digits(r.2@),
{
    let w: usize = count_digits(chars, 0);
    let whole = copy_range(chars, 0, w);
    assert(chars@.subrange(0, w as int) =~= chars@.take(w as int));
    if w < chars.len() && chars[w] == '.' {
        let f: usize = count_digits(chars, w + 1);
        let fraction = copy_range(chars, w + 1, w + 1 + f);
        let mut digits = whole;
        let mut i: usize = 0;
        assert(digits@ =~= chars@.take(w as int) + fraction@.take(0));
        while i < fraction.len()
            invariant
                i <= fraction@.len(),
                digits@ == chars@.take(w as int) + fraction@.take(i as int),
            decreases fraction@.len() - i,
        {
            digits.push(fraction[i]);
            i += 1;
            assert(chars@.take(w as int) + fraction@.take(i as int) =~= (chars@.take(w as int)
                + fraction@.take(i - 1)).push(fraction@[i - 1]));
        }
        assert(fraction@.take(f as int) =~= fraction@);
        assert(fraction@ =~= fraction_of(chars@));
        (w, w + 1 + f, digits)
    } else {
        assert(whole@ =~= chars@.take(w as int) + fraction_of(chars@));
        (w, w, whole)
    }
}

/// The place of an unsigned word for a number.
fn parse_word(chars: &Vec<char>) -> (r: Option<EpisodePlace>)
    ensures
        r is Some <==> worded(chars@) is Some,
        r matches Some(v) ==> worded(chars@) == Some(v.rank()),
{
    let plain = fold_chars(chars);
    if spells(&plain, "inf") || spells(&plain, "infinity") {
        Some(EpisodePlace::Highest)
    } else if spells(&plain, "nan") {
        Some(EpisodePlace::Unordered)
    } else {
        None
    }
}

/// The place of an unsigned decimal number.
fn parse_unsigned(chars: &Vec<char>) -> (r: Option<EpisodePlace>)
    ensures
        r is Some <==> unsigned_decimal(chars@) is Some,
        r matches Some(v) ==> unsigned_decimal(chars@) == Some(v.rank()),
{
    let (w, end, digits) = digits_of(chars);
    if digits.len() == 0 {
        return None;
    }
    match parse_exponent(chars, end) {
        None => None,
        Some(e) => {
            let f: usize = digits.len() - w;
            let by: i128 = PLACES as i128 + e - f as i128;
            proof {
                let exponent = exponent_from(chars@, end as int)->0;
                if exponent < 0 {
                    lemma_exponent_limit(digits@, PLACES - f, (-exponent) as nat);
                } else {
                    lemma_exponent_limit(digits@, PLACES - f, exponent as nat);
                }
            }
            Some(EpisodePlace::of_digits(&digits, by))
        },
    }
}

/// The place of a number.
fn parse_decimal(chars: &Vec<char>) -> (r: Option<EpisodePlace>)
    ensures
        r is Some <==> decimal(chars@) is Some,
        r matches Some(v) ==> decimal(chars@) == Some(v.rank()),
{
    let n: usize = chars.len();
    let signed: bool = n > 0 && (chars[0] == '+' || chars[0] == '-');
    let from: usize = if signed { 1 } else { 0 };
    let u = copy_range(chars, from, n);
    assert(u@ =~= unsigned(chars@));
    let word = parse_word(&u);
    let place = match word {
        Some(p) => Some(p),
        None => parse_unsigned(&u),
    };
    match place {
        None => None,
        Some(p) => {
            if n > 0 && chars[0] == '-' {
                Some(p.negated())
            } else {
                Some(p)
            }
        },
    }
}

/// The first place at which a text has the letter x of either case; the text's
/// length if it has none.
pub open spec fn season_mark(s: Seq<char>) -> int
    decreases s.len(),
{
    if s.len() == 0 || s[0] == 'x' || s[0] == 'X' {
        0
    } else {
        1 + season_mark(s.drop_first())
    }
}

/// The rank of a season-prefixed episode.
pub open spec fn packed(season: Rank, episode: Rank) -> Rank {
    season.times(SEASON_SPAN as int).plus(episode)
}

/// The decimal number that a text starts with: its leading digits and, behind a
/// point, the digits that follow. Nothing if it starts with no digit.
pub open spec fn leading_decimal(s: Seq<char>) -> Option<Rank> {
    let w = digit_run(s, 0);
    if w == 0 {
        None
    } else {
        Some(settled(decimal_units(s.take(w), fraction_of(s), 0) as int))
    }
}

/// The rank of an episode in its series: "12" is twelve, "12.5" twelve and a
/// half, "1x05" episode five of season one. Nothing for a number that has no
/// season before it and no leading digits, which has no place.
pub open spec fn episode_value(number: Seq<char>) -> Option<Rank> {
    let s = trimmed(number);
    let x = season_mark(s);
    let season = decimal(trimmed(s.take(x)));
    let episode = decimal(trimmed(s.skip(x + 1)));
    if x < s.len() && season is Some && episode is Some {
        Some(packed(season->0, episode->0))
    } else {
        leading_decimal(s)
    }
}

/// The place of an episode in its series. `None` when the number has no season
/// before it and no leading digits at all.
pub fn parse_ep_number(number: &str) -> (r: Option<EpisodePlace>)
    ensures
        r is Some <==> episode_value(number@) is Some,
        r matches Some(v) ==> episode_value(number@) == Some(v.rank()),
{
    let s = trim_chars(&chars_of(number));
    let mut x: usize = 0;
    assert(s@.skip(0) =~= s@);
    while x < s.len() && s[x] != 'x' && s[x] != 'X'
        invariant
            x <= s@.len(),
            season_mark(s@) == x + season_mark(s@.skip(x as int)),
        decreases s@.len() - x,
    {
        assert(s@.skip(x as int).drop_first() =~= s@.skip(x + 1));
        x += 1;
    }
    if x < s.len() {
        let head = copy_range(&s, 0, x);
        let tail = copy_range(&s, x + 1, s.len());
        assert(head@ =~= s@.take(x as int));
        assert(tail@ =~= s@.skip(x + 1));
        let season = parse_decimal(&trim_chars(&head));
        let episode = parse_decimal(&trim_chars(&tail));
        if let (Some(a), Some(b)) = (season, episode) {
            return Some(a.times(SEASON_SPAN).plus(b));
        }
    }
    let (w, _, digits) = digits_of(&s);
    if w == 0 {
        return None;
    }
    let by: i128 = PLACES as i128 - (digits.len() - w) as i128;
    Some(EpisodePlace::of_digits(&digits, by))
}

/// Whether a character is one of the six ASCII blanks.
pub open spec fn ascii_blank(c: char) -> bool {
    c == ' ' || ('\u{9}' <= c && c <= '\u{d}')
}

/// How many blanks a text starts with.
pub open spec fn blank_run(s: Seq<char>) -> int
    decreases s.len(),
{
    if s.len() > 0 && ascii_blank(s[0]) { 1 + blank_run(s.drop_first()) } else { 0 }
}

/// The whole number that a text starts with, blanks before it left out, as a
/// stored number is read: "13" is 13, "1 | v2" is 1, "Recap" is 0.
pub open spec fn leading_integer(s: Seq<char>) -> int {
    let t = s.skip(blank_run(s));
    let u = unsigned(t);
    let n = digits_value(u.take(digit_run(u, 0)));
    if t.len() > 0 && t[0] == '-' {
        -capped(n, -(i64::MIN as int))
    } else {
        capped(n, i64::MAX as int)
    }
}

/// The whole number that a text starts with.
pub fn cast_integer(number: &str) -> (r: i64)
    ensures
        r == leading_integer(number@),
{
    let s = chars_of(number);
    let mut b: usize = 0;
    assert(s@.skip(0) =~= s@);
    while b < s.len() && (s[b] == ' ' || ('\u{9}' <= s[b] && s[b] <= '\u{d}'))
        invariant
            b <= s@.len(),
            blank_run(s@) == b + blank_run(s@.skip(b as int)),
        decreases s@.len() - b,
    {
        assert(s@.skip(b as int).drop_first() =~= s@.skip(b + 1));
        b += 1;
    }
    let ghost t = s@.skip(b as int);
    assert(t =~= s@.skip(blank_run(s@)));
    let signed: bool = b < s.len() && (s[b] == '+' || s[b] == '-');
    let from: usize = if signed { b + 1 } else { b };
    let u = copy_range(&s, from, s.len());
    assert(u@ =~= unsigned(t));
    let w: usize = count_digits(&u, 0);
    assert(u@.subrange(0, w as int) =~= u@.take(w as int));
    if b < s.len() && s[b] == '-' {
        let n: i128 = value_between(&u, 0, w, 0x8000_0000_0000_0000);
        (-n) as i64
    } else {
        let n: i128 = value_between(&u, 0, w, 0x7fff_ffff_ffff_ffff);
        n as i64
    }
}

} // verus!
