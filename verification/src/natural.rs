//! Natural numbers of any size.

use vstd::prelude::*;

verus! {

/// One more than the largest limb.
pub const BASE: u64 = 0x1_0000_0000;

/// What a limb counts for at a place.
pub open spec fn weight(place: nat) -> nat
    decreases place,
{
    if place == 0 { 1 } else { weight((place - 1) as nat) * BASE as nat }
}

/// Ten to the power of `n`.
pub open spec fn ten_to(n: nat) -> nat
    decreases n,
{
    if n == 0 { 1 } else { 10 * ten_to((n - 1) as nat) }
}

/// The limb at a place; zero beyond the last one.
pub open spec fn limb_at(limbs: Seq<u32>, place: int) -> nat {
    if 0 <= place < limbs.len() { limbs[place] as nat } else { 0 }
}

/// The number that the limbs at the first `n` places stand for.
pub open spec fn low_value(limbs: Seq<u32>, n: nat) -> nat
    decreases n,
{
    if n == 0 {
        0
    } else {
        low_value(limbs, (n - 1) as nat) + limb_at(limbs, n - 1) * weight((n - 1) as nat)
    }
}

/// A natural number, as limbs from the lowest to the highest.
#[derive(Clone, Debug)]
pub struct Natural {
    pub limbs: Vec<u32>,
}

impl Natural {
    /// The number itself.
    pub open spec fn value(self) -> nat {
        low_value(self.limbs@, self.limbs@.len())
    }
}

/// The limbs at the first places stand for less than one at the next place.
pub proof fn lemma_low_value_bounded(limbs: Seq<u32>, n: nat)
    ensures
        low_value(limbs, n) < weight(n),
        weight(n) > 0,
    decreases n,
{
    if n > 0 {
        let m = (n - 1) as nat;
        lemma_low_value_bounded(limbs, m);
        let l = limb_at(limbs, n - 1);
        let w = weight(m);
        assert(l * w + w <= w * BASE as nat) by (nonlinear_arith)
            requires
                l < BASE as nat,
        ;
    }
}

proof fn lemma_low_value_agrees(a: Seq<u32>, b: Seq<u32>, n: nat)
    requires
        forall|i: int| 0 <= i < n ==> limb_at(a, i) == #[trigger] limb_at(b, i),
    ensures
        low_value(a, n) == low_value(b, n),
    decreases n,
{
    if n > 0 {
        lemma_low_value_agrees(a, b, (n - 1) as nat);
        assert(limb_at(a, n - 1) == limb_at(b, n - 1));
    }
}

proof fn lemma_low_value_beyond(limbs: Seq<u32>, n: nat)
    requires
        n >= limbs.len(),
    ensures
        low_value(limbs, n) == low_value(limbs, limbs.len()),
    decreases n,
{
    if n > limbs.len() {
        lemma_low_value_beyond(limbs, (n - 1) as nat);
        assert(limb_at(limbs, n - 1) * weight((n - 1) as nat) == 0) by (nonlinear_arith)
            requires
                limb_at(limbs, n - 1) == 0,
        ;
    }
}

proof fn lemma_low_value_push(limbs: Seq<u32>, x: u32)
    ensures
        low_value(limbs.push(x), limbs.len() + 1) == low_value(limbs, limbs.len()) + x as nat
            * weight(limbs.len()),
{
    lemma_low_value_agrees(limbs.push(x), limbs, limbs.len());
}

proof fn lemma_weight_one(n: nat)
    ensures
        n * weight(0) == n,
{
    assert(n * weight(0) == n) by (nonlinear_arith)
        requires
            weight(0) == 1,
    ;
}

/// The limb at a place; zero beyond the last one.
fn limb(limbs: &Vec<u32>, place: usize) -> (r: u64)
    ensures
        r == limb_at(limbs@, place as int),
        r < BASE,
{
    if place < limbs.len() { limbs[place] as u64 } else { 0 }
}

/// A sum of weighted limbs grows by one limb and its carry.
proof fn lemma_carried(w: nat, total: nat, next: nat, digit: nat)
    requires
        total == next * BASE as nat + digit,
    ensures
        digit * w + next * (w * BASE as nat) == total * w,
{
    assert(digit * w + next * (w * BASE as nat) == total * w) by (nonlinear_arith)
        requires
            total == next * BASE as nat + digit,
    ;
}

proof fn lemma_low_value_update(limbs: Seq<u32>, place: int, x: u32, n: nat)
    requires
        0 <= place < limbs.len(),
        limbs[place] == 0,
        n <= limbs.len(),
    ensures
        low_value(limbs.update(place, x), n) == low_value(limbs, n) + if place < n {
            x as nat * weight(place as nat)
        } else {
            0
        },
    decreases n,
{
    if n > 0 {
        lemma_low_value_update(limbs, place, x, (n - 1) as nat);
        if place == n - 1 {
            lemma_nothing_carried(limb_at(limbs, place), place as nat);
        }
    }
}

proof fn lemma_low_value_zeros(limbs: Seq<u32>, n: nat)
    requires
        forall|i: int| 0 <= i < limbs.len() ==> #[trigger] limbs[i] == 0,
    ensures
        low_value(limbs, n) == 0,
    decreases n,
{
    if n > 0 {
        lemma_low_value_zeros(limbs, (n - 1) as nat);
        lemma_nothing_carried(limb_at(limbs, n - 1), (n - 1) as nat);
    }
}

proof fn lemma_nothing_carried(carry: nat, place: nat)
    requires
        carry == 0,
    ensures
        carry * weight(place) == 0,
{
    assert(carry * weight(place) == 0) by (nonlinear_arith)
        requires
            carry == 0,
    ;
}

impl Natural {
    /// A number of one limb.
    pub fn of(n: u32) -> (r: Natural)
        ensures
            r.value() == n,
    {
        let mut limbs: Vec<u32> = Vec::new();
        limbs.push(n);
        assert(limbs@ =~= Seq::empty().push(n));
        proof {
            lemma_low_value_push(Seq::empty(), n);
            lemma_weight_one(n as nat);
        }
        Natural { limbs }
    }

    /// A number of two limbs.
    pub fn of_u64(n: u64) -> (r: Natural)
        ensures
            r.value() == n,
    {
        let mut limbs: Vec<u32> = Vec::new();
        let low: u32 = (n % BASE) as u32;
        let high: u32 = (n / BASE) as u32;
        limbs.push(low);
        limbs.push(high);
        proof {
            let one = Seq::<u32>::empty().push(low);
            assert(limbs@ =~= one.push(high));
            lemma_low_value_push(Seq::empty(), low);
            lemma_weight_one(low as nat);
            lemma_low_value_push(one, high);
            assert(weight(1) == weight(0) * BASE as nat);
            assert(high as nat * weight(1) == high * BASE) by (nonlinear_arith)
                requires
                    weight(1) == BASE as nat,
            ;
            assert(n == low + high * BASE);
        }
        Natural { limbs }
    }

    /// The same number.
    pub fn copy(&self) -> (r: Natural)
        ensures
            r.value() == self.value(),
    {
        self.times_plus(1, 0)
    }

    /// The number times `m`, plus `c`.
    pub fn times_plus(&self, m: u32, c: u32) -> (r: Natural)
        ensures
            r.value() == self.value() * m + c,
    {
        let mut limbs: Vec<u32> = Vec::new();
        let mut carry: u64 = c as u64;
        let mut i: usize = 0;
        proof {
            lemma_weight_one(c as nat);
            assert(low_value(self.limbs@, 0) * m == 0) by (nonlinear_arith)
                requires
                    low_value(self.limbs@, 0) == 0,
            ;
        }
        while i < self.limbs.len()
            invariant
                i <= self.limbs@.len(),
                limbs@.len() == i,
                carry < BASE,
                low_value(limbs@, i as nat) + carry as nat * weight(i as nat) == low_value(
                    self.limbs@,
                    i as nat,
                ) * m + c,
            decreases self.limbs@.len() - i,
        {
            let l: u64 = limb(&self.limbs, i);
            let m64: u64 = m as u64;
            assert(l * m64 + carry <= 0xffff_ffff * 0xffff_ffff + 0xffff_ffff) by (nonlinear_arith)
                requires
                    l <= 0xffff_ffff,
                    m64 <= 0xffff_ffff,
                    carry <= 0xffff_ffff,
            ;
            assert(l * m64 >= 0);
            let total: u64 = l * m64 + carry;
            let next: u64 = total / BASE;
            let digit: u32 = (total % BASE) as u32;
            proof {
                let w = weight(i as nat);
                let before = low_value(self.limbs@, i as nat);
                lemma_carried(w, total as nat, next as nat, digit as nat);
                lemma_low_value_push(limbs@, digit);
                assert(total as nat * w + before * m == carry as nat * w + (before + l as nat * w)
                    * m) by (nonlinear_arith)
                    requires
                        total == l * m + carry,
                ;
            }
            limbs.push(digit);
            carry = next;
            i += 1;
        }
        if carry > 0 {
            proof {
                lemma_low_value_push(limbs@, carry as u32);
            }
            limbs.push(carry as u32);
        } else {
            proof {
                lemma_nothing_carried(carry as nat, limbs@.len());
            }
        }
        Natural { limbs }
    }

    /// The sum of two numbers.
    pub fn plus(&self, other: &Natural) -> (r: Natural)
        ensures
            r.value() == self.value() + other.value(),
    {
        let a = &self.limbs;
        let b = &other.limbs;
        let n: usize = if a.len() < b.len() { b.len() } else { a.len() };
        let mut limbs: Vec<u32> = Vec::new();
        let mut carry: u64 = 0;
        let mut i: usize = 0;
        while i < n
            invariant
                i <= n,
                limbs@.len() == i,
                carry <= 1,
                low_value(limbs@, i as nat) + carry as nat * weight(i as nat) == low_value(
                    a@,
                    i as nat,
                ) + low_value(b@, i as nat),
            decreases n - i,
        {
            let x: u64 = limb(a, i);
            let y: u64 = limb(b, i);
            let total: u64 = x + y + carry;
            let next: u64 = total / BASE;
            let digit: u32 = (total % BASE) as u32;
            proof {
                let w = weight(i as nat);
                lemma_carried(w, total as nat, next as nat, digit as nat);
                lemma_low_value_push(limbs@, digit);
                assert(total as nat * w == x as nat * w + y as nat * w + carry as nat * w)
                    by (nonlinear_arith)
                    requires
                        total == x + y + carry,
                ;
            }
            limbs.push(digit);
            carry = next;
            i += 1;
        }
        proof {
            lemma_low_value_beyond(a@, n as nat);
            lemma_low_value_beyond(b@, n as nat);
        }
        if carry > 0 {
            proof {
                lemma_low_value_push(limbs@, carry as u32);
            }
            limbs.push(carry as u32);
        } else {
            proof {
                lemma_nothing_carried(carry as nat, limbs@.len());
            }
        }
        Natural { limbs }
    }

    /// Whether the number is not larger than another.
    pub fn at_most(&self, other: &Natural) -> (r: bool)
        ensures
            r == (self.value() <= other.value()),
    {
        let a = &self.limbs;
        let b = &other.limbs;
        let n: usize = if a.len() < b.len() { b.len() } else { a.len() };
        let mut i: usize = n;
        proof {
            lemma_low_value_beyond(a@, n as nat);
            lemma_low_value_beyond(b@, n as nat);
        }
        while i > 0
            invariant
                i <= n,
                self.value() - low_value(a@, i as nat) == other.value() - low_value(b@, i as nat),
            decreases i,
        {
            let x: u64 = limb(a, i - 1);
            let y: u64 = limb(b, i - 1);
            proof {
                let w = weight((i - 1) as nat);
                lemma_low_value_bounded(a@, (i - 1) as nat);
                lemma_low_value_bounded(b@, (i - 1) as nat);
                if x < y {
                    assert(x as nat * w + w <= y as nat * w) by (nonlinear_arith)
                        requires
                            x + 1 <= y,
                    ;
                } else if y < x {
                    assert(y as nat * w + w <= x as nat * w) by (nonlinear_arith)
                        requires
                            y + 1 <= x,
                    ;
                }
            }
            if x != y {
                return x < y;
            }
            i -= 1;
        }
        true
    }

    /// The product of two numbers.
    pub fn times(&self, other: &Natural) -> (r: Natural)
        ensures
            r.value() == self.value() * other.value(),
    {
        let b = &other.limbs;
        let ghost n = self.value();
        let mut sum = Natural::of(0);
        let mut moved = self.copy();
        let mut i: usize = 0;
        proof {
            lemma_weight_one(n);
            assert(n * low_value(b@, 0) == 0) by (nonlinear_arith)
                requires
                    low_value(b@, 0) == 0,
            ;
        }
        while i < b.len()
            invariant
                i <= b@.len(),
                moved.value() == n * weight(i as nat),
                sum.value() == n * low_value(b@, i as nat),
            decreases b@.len() - i,
        {
            proof {
                let w = weight(i as nat);
                let l = b@[i as int] as nat;
                let low = low_value(b@, i as nat);
                assert(n * (low + l * w) == n * low + n * w * l) by (nonlinear_arith);
                assert(n * w * 0x1_0000 * 0x1_0000 == n * (w * BASE as nat)) by (nonlinear_arith)
                    requires
                        BASE == 0x1_0000_0000,
                ;
            }
            sum = sum.plus(&moved.times_plus(b[i], 0));
            moved = moved.times_plus(0x1_0000, 0).times_plus(0x1_0000, 0);
            i += 1;
        }
        sum
    }

    /// The number divided by another, rounded down.
    pub fn over(&self, divisor: u64) -> (r: Natural)
        requires
            divisor > 0,
        ensures
            r.value() == self.value() / (divisor as nat),
    {
        let a = &self.limbs;
        let n: usize = a.len();
        let d: u128 = divisor as u128;
        let mut limbs: Vec<u32> = Vec::new();
        while limbs.len() < n
            invariant
                limbs@.len() <= n,
                forall|k: int| 0 <= k < limbs@.len() ==> #[trigger] limbs@[k] == 0,
            decreases n - limbs@.len(),
        {
            limbs.push(0);
        }
        let mut rest: u128 = 0;
        let mut i: usize = n;
        proof {
            lemma_low_value_zeros(limbs@, n as nat);
            lemma_nothing_carried(0, n as nat);
        }
        while i > 0
            invariant
                i <= n,
                n == a@.len(),
                limbs@.len() == n,
                0 < d == divisor,
                rest < d,
                forall|k: int| 0 <= k < i ==> #[trigger] limbs@[k] == 0,
                self.value() == low_value(a@, i as nat) + low_value(limbs@, n as nat) * d + rest
                    * weight(i as nat),
            decreases i,
        {
            i -= 1;
            let l: u128 = limb(a, i) as u128;
            assert(rest * 0x1_0000_0000 + l < d * 0x1_0000_0000) by (nonlinear_arith)
                requires
                    rest + 1 <= d,
                    l < 0x1_0000_0000,
            ;
            assert(d <= 0xffff_ffff_ffff_ffff);
            let part: u128 = rest * 0x1_0000_0000 + l;
            let q: u128 = part / d;
            let left: u128 = part % d;
            proof {
                vstd::arithmetic::div_mod::lemma_fundamental_div_mod(part as int, d as int);
                assert(q < 0x1_0000_0000) by (nonlinear_arith)
                    requires
                        part == d * q + left,
                        left >= 0,
                        d > 0,
                        part < d * 0x1_0000_0000,
                ;
                let w = weight(i as nat);
                let have = low_value(limbs@, n as nat);
                lemma_low_value_update(limbs@, i as int, q as u32, n as nat);
                assert(weight((i + 1) as nat) == w * BASE as nat);
                assert(l * w + have * d + rest * (w * 0x1_0000_0000) == (have + q * w) * d + left
                    * w) by (nonlinear_arith)
                    requires
                        rest * 0x1_0000_0000 + l == d * q + left,
                ;
            }
            limbs.set(i, q as u32);
            rest = left;
        }
        proof {
            lemma_weight_one(rest as nat);
            let q = low_value(limbs@, n as nat) as int;
            assert(q * d == d * q) by (nonlinear_arith);
            vstd::arithmetic::div_mod::lemma_fundamental_div_mod_converse(
                self.value() as int,
                d as int,
                q,
                rest as int,
            );
        }
        Natural { limbs }
    }
}

} // verus!
