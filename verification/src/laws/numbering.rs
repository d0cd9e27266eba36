//! Episode numbers: what they stand for, and how they compare.

use vstd::prelude::*;
use crate::db::numbers::{
    all_digits, blank_run, decimal, digit_run, digits_value, episode_value, fraction_of,
    leading_integer, lemma_ten_to_grows, lemma_ten_to_sum, lemma_two_to_grows, lemma_two_to_sum,
    mantissa_end, overflow, season_mark, settled, two_to, units_at, unsigned, zeros, Rank, PLACES,
};
use crate::laws::texts::law_number_is_read_back;
use crate::natural::ten_to;
use crate::text::{ascii_digit, ascii_int, folded, nat_text, trimmed, white_space};

verus! {

/// A whole episode, in the units that episode numbers are compared in.
pub open spec fn whole() -> nat {
    ten_to(PLACES as nat)
}

/// Digits followed by digits: the value of the first, moved up by as many places,
/// and that of the others.
pub proof fn law_digits_are_decimal(a: Seq<char>, b: Seq<char>)
    requires
        all_digits(b),
    ensures
        digits_value(a + b) == digits_value(a) * ten_to(b.len()) + digits_value(b),
    decreases b.len(),
{
    if b.len() == 0 {
        assert(a + b =~= a);
        assert(digits_value(a) * ten_to(0) == digits_value(a)) by (nonlinear_arith)
            requires
                ten_to(0) == 1,
        ;
    } else {
        let y = b.drop_last();
        assert forall|i: int| 0 <= i < y.len() implies ascii_digit(#[trigger] y[i]) by {
            assert(y[i] == b[i]);
        }
        law_digits_are_decimal(a, y);
        assert((a + b).drop_last() =~= a + y);
        assert((a + b).last() == b.last());
        assert(ascii_digit(b[b.len() - 1]));
        let d = digits_value(a) as int;
        let t = ten_to(y.len()) as int;
        assert((d * t) * 10 == d * (10 * t)) by (nonlinear_arith);
    }
}

proof fn lemma_zeros(n: nat)
    ensures
        digits_value(zeros(n)) == 0,
        all_digits(zeros(n)),
    decreases n,
{
    if n > 0 {
        lemma_zeros((n - 1) as nat);
        assert(zeros(n).drop_last() =~= zeros((n - 1) as nat));
    }
}

/// Text that stands for a number of digits, read up to the digits' end.
proof fn lemma_run(s: Seq<char>, from: int, to: int)
    requires
        0 <= from <= to <= s.len(),
        forall|i: int| from <= i < to ==> ascii_digit(#[trigger] s[i]),
        to < s.len() ==> !ascii_digit(s[to]),
    ensures
        digit_run(s, from) == to - from,
    decreases to - from,
{
    if from < to {
        assert(ascii_digit(s[from]));
        lemma_run(s, from + 1, to);
    }
}

proof fn lemma_no_mark(s: Seq<char>)
    requires
        forall|i: int| 0 <= i < s.len() ==> #[trigger] s[i] != 'x' && s[i] != 'X',
    ensures
        season_mark(s) == s.len(),
    decreases s.len(),
{
    if s.len() > 0 {
        let t = s.drop_first();
        assert forall|i: int| 0 <= i < t.len() implies #[trigger] t[i] != 'x' && t[i] != 'X' by {
            assert(t[i] == s[i + 1]);
        }
        assert(s[0] != 'x' && s[0] != 'X');
        lemma_no_mark(t);
    }
}

proof fn lemma_mark_at(s: Seq<char>, n: int)
    requires
        0 <= n < s.len(),
        s[n] == 'x' || s[n] == 'X',
        forall|i: int| 0 <= i < n ==> #[trigger] s[i] != 'x' && s[i] != 'X',
    ensures
        season_mark(s) == n,
    decreases n,
{
    if n > 0 {
        let t = s.drop_first();
        assert forall|i: int| 0 <= i < n - 1 implies #[trigger] t[i] != 'x' && t[i] != 'X' by {
            assert(t[i] == s[i + 1]);
        }
        assert(s[0] != 'x' && s[0] != 'X');
        lemma_mark_at(t, n - 1);
    }
}

proof fn lemma_visible_ends(s: Seq<char>)
    requires
        s.len() > 0 ==> ascii_digit(s[0]) && ascii_digit(s.last()),
    ensures
        trimmed(s) == s,
{
    if s.len() > 0 {
        assert(!white_space(s[0]));
        assert(!white_space(s.last()));
    }
}

/// A number of digits stands for as many whole episodes.
pub proof fn law_digits_stand_for_their_number(d: Seq<char>)
    requires
        ascii_int(d),
    ensures
        episode_value(d) == Some(settled(digits_value(d) as int * whole())),
        decimal(d) == Some(settled(digits_value(d) as int * whole())),
{
    let n = d.len() as int;
    lemma_visible_ends(d);
    assert forall|i: int| 0 <= i < d.len() implies #[trigger] d[i] != 'x' && d[i] != 'X' by {
        assert(ascii_digit(d[i]));
    }
    lemma_no_mark(d);
    lemma_run(d, 0, n);
    assert(d.take(n) =~= d);
    assert(fraction_of(d) =~= Seq::empty());
    lemma_units(d, PLACES as int);
    assert(d + Seq::<char>::empty() =~= d);
    assert(ascii_digit(d[0]));
    assert(unsigned(d) == d);
    reveal_strlit("inf");
    reveal_strlit("infinity");
    reveal_strlit("nan");
    assert(folded(d)[0] == d[0]);
    assert("inf"@[0] == 'i' && "infinity"@[0] == 'i' && "nan"@[0] == 'n');
}

proof fn lemma_units(d: Seq<char>, by: int)
    requires
        by >= 0,
        all_digits(d),
    ensures
        units_at(d, by) == digits_value(d) * ten_to(by as nat),
{
    lemma_zeros(by as nat);
    law_digits_are_decimal(d, zeros(by as nat));
}

/// A number with a fraction stands for its whole episodes and the fraction of one.
pub proof fn law_fraction_counts(w: Seq<char>, f: Seq<char>)
    requires
        ascii_int(w),
        ascii_int(f),
        f.len() <= PLACES,
    ensures
        episode_value(w + seq!['.'] + f) == Some(
            settled(
                digits_value(w) as int * whole() + digits_value(f) * ten_to(
                    (PLACES - f.len()) as nat,
                ),
            ),
        ),
        decimal(w + seq!['.'] + f) == episode_value(w + seq!['.'] + f),
{
    let s = w + seq!['.'] + f;
    let n = w.len() as int;
    assert forall|i: int| 0 <= i < s.len() implies #[trigger] s[i] != 'x' && s[i] != 'X' by {
        if i < n {
            assert(ascii_digit(w[i]));
        } else if i > n {
            assert(ascii_digit(f[i - n - 1]));
        }
    }
    assert(ascii_digit(w[0]));
    assert(ascii_digit(f[f.len() - 1]));
    lemma_visible_ends(s);
    lemma_no_mark(s);
    assert forall|i: int| 0 <= i < n implies ascii_digit(#[trigger] s[i]) by {
        assert(ascii_digit(w[i]));
    }
    assert forall|i: int| n + 1 <= i < s.len() implies ascii_digit(#[trigger] s[i]) by {
        assert(ascii_digit(f[i - n - 1]));
    }
    lemma_run(s, 0, n);
    lemma_run(s, n + 1, s.len() as int);
    assert(s.take(n) =~= w);
    assert(s.subrange(n + 1, s.len() as int) =~= f);
    let by = PLACES - f.len();
    assert(all_digits(w + f)) by {
        assert forall|i: int| 0 <= i < (w + f).len() implies ascii_digit(#[trigger] (w + f)[i]) by {
            if i < n {
                assert(ascii_digit(w[i]));
            } else {
                assert(ascii_digit(f[i - n]));
            }
        }
    }
    lemma_units(w + f, by);
    law_digits_are_decimal(w, f);
    lemma_ten_to_sum(f.len(), by as nat);
    assert(fraction_of(s) == f);
    assert(mantissa_end(s) == s.len());
    assert(unsigned(s) == s);
    reveal_strlit("inf");
    reveal_strlit("infinity");
    reveal_strlit("nan");
    assert(folded(s)[0] == w[0]);
    assert("inf"@[0] == 'i' && "infinity"@[0] == 'i' && "nan"@[0] == 'n');
    let a = digits_value(w) as int;
    let b = digits_value(f) as int;
    let t = ten_to(f.len()) as int;
    let u = ten_to(by as nat) as int;
    assert((a * t + b) * u == a * (t * u) + b * u) by (nonlinear_arith);
}

/// A season and an episode in it: every season has room for a hundred thousand
/// episodes.
pub proof fn law_season_and_episode(s: Seq<char>, mark: char, e: Seq<char>)
    requires
        ascii_int(s),
        mark == 'x' || mark == 'X',
        ascii_int(e),
    ensures
        episode_value(s.push(mark) + e) == Some(
            settled(digits_value(s) as int * whole()).times(100_000).plus(
                settled(digits_value(e) as int * whole()),
            ),
        ),
{
    let t = s.push(mark) + e;
    let n = s.len() as int;
    assert(ascii_digit(s[0]));
    assert(ascii_digit(e[e.len() - 1]));
    assert(t.last() == e[e.len() - 1]);
    lemma_visible_ends(t);
    assert forall|i: int| 0 <= i < n implies #[trigger] t[i] != 'x' && t[i] != 'X' by {
        assert(ascii_digit(s[i]));
    }
    lemma_mark_at(t, n);
    assert(t.take(n) =~= s);
    assert(t.skip(n + 1) =~= e);
    lemma_visible_ends(s);
    lemma_visible_ends(e);
    law_digits_stand_for_their_number(s);
    law_digits_stand_for_their_number(e);
}

proof fn lemma_below_overflow(n: int)
    requires
        n < 0x1_0000_0000_0000_0000,
    ensures
        n * whole() < overflow(),
{
    lemma_two_to_sum(32, 32);
    reveal_with_fuel(two_to, 33);
    assert(two_to(32) == 0x1_0000_0000);
    assert(two_to(64) == 0x1_0000_0000_0000_0000) by (nonlinear_arith)
        requires
            two_to(64) == two_to(32) * two_to(32),
            two_to(32) == 0x1_0000_0000,
    ;
    lemma_two_to_grows(64, 970);
    lemma_two_to_grows(1, 54);
    lemma_ten_to_grows(0, PLACES as nat);
    let p = two_to(970) as int;
    let q = two_to(54) as int;
    let t = whole() as int;
    assert((q - 1) * p >= p) by (nonlinear_arith)
        requires
            q >= 2,
            p > 0,
    ;
    assert(n * t < ((q - 1) * p) * t) by (nonlinear_arith)
        requires
            n < (q - 1) * p,
            t > 0,
    ;
    assert((two_to(54) - 1) * two_to(970) * ten_to(PLACES as nat) == ((q - 1) * p) * t);
}

/// Episodes compare as their numbers do, and stand apart from one another.
pub proof fn law_episodes_compare_as_numbers(m: u64, n: u64)
    ensures
        ({
            let a = episode_value(nat_text(m as nat));
            let b = episode_value(nat_text(n as nat));
            &&& a matches Some(x) && b matches Some(y) && (x.at_most(y) <==> m <= n)
            &&& a == Some(Rank::At(m * whole()))
        }),
{
    law_number_is_read_back(m as nat);
    law_number_is_read_back(n as nat);
    law_digits_stand_for_their_number(nat_text(m as nat));
    law_digits_stand_for_their_number(nat_text(n as nat));
    lemma_below_overflow(m as int);
    lemma_below_overflow(n as int);
    lemma_ten_to_grows(0, PLACES as nat);
    lemma_below_overflow(0);
    let t = whole() as int;
    assert(0 * t == 0);
    assert(m * t >= 0 && n * t >= 0 && (m <= n <==> m * t <= n * t)) by (nonlinear_arith)
        requires
            t > 0,
            m >= 0,
            n >= 0,
    ;
}

/// The season counts first and the episode in it second.
pub proof fn law_seasons_count_first(s: u32, e: u32, r: u32, d: u32)
    requires
        e < 100_000,
        d < 100_000,
    ensures
        ({
            let a = episode_value(nat_text(s as nat).push('x') + nat_text(e as nat));
            let b = episode_value(nat_text(r as nat).push('x') + nat_text(d as nat));
            &&& a matches Some(x) && b matches Some(y) && (x.at_most(y) <==> s < r || (s == r && e
                <= d))
        }),
{
    lemma_season_place(s, e);
    lemma_season_place(r, d);
    lemma_ten_to_grows(0, PLACES as nat);
    let t = whole() as int;
    let x = s * 100_000 + e;
    let y = r * 100_000 + d;
    assert(x <= y <==> x * t <= y * t) by (nonlinear_arith)
        requires
            t > 0,
    ;
}

proof fn lemma_season_place(s: u32, e: u32)
    requires
        e < 100_000,
    ensures
        episode_value(nat_text(s as nat).push('x') + nat_text(e as nat)) == Some(
            Rank::At((s * 100_000 + e) * whole()),
        ),
{
    law_number_is_read_back(s as nat);
    law_number_is_read_back(e as nat);
    law_season_and_episode(nat_text(s as nat), 'x', nat_text(e as nat));
    lemma_ten_to_grows(0, PLACES as nat);
    let t = whole() as int;
    lemma_below_overflow(s as int);
    lemma_below_overflow(e as int);
    lemma_below_overflow(s * 100_000);
    lemma_below_overflow(s * 100_000 + e);
    lemma_below_overflow(0);
    assert((s * t) * 100_000 == (s * 100_000) * t) by (nonlinear_arith);
    assert((s * 100_000) * t + e * t == (s * 100_000 + e) * t) by (nonlinear_arith);
    assert(0 <= s * t && 0 <= e * t && 0 <= (s * 100_000) * t && 0 <= (s * 100_000 + e) * t)
        by (nonlinear_arith)
        requires
            t > 0,
            s >= 0,
            e >= 0,
    ;
}

/// The whole number at the start of a text, as far as it fits; its sign counts,
/// white space before it and what follows it do not.
pub proof fn law_leading_number(n: i64, rest: Seq<char>, c: char)
    requires
        c == ' ' || '\u{9}' <= c <= '\u{d}',
        rest.len() > 0 ==> !ascii_digit(rest[0]),
    ensures
        n >= 0 ==> leading_integer(nat_text(n as nat) + rest) == n,
        n >= 0 ==> leading_integer(seq![c] + nat_text(n as nat) + rest) == n,
        n > 0 ==> leading_integer(seq!['-'] + nat_text(n as nat) + rest) == -n,
{
    if n >= 0 {
        let d = nat_text(n as nat);
        law_number_is_read_back(n as nat);
        let s = d + rest;
        assert(ascii_digit(d[0]));
        assert(s[0] == d[0]);
        lemma_leading_digits(d, rest);
        assert(s.skip(0) =~= s);
        assert(blank_run(s) == 0);
        let p = seq![c] + d + rest;
        assert(p.drop_first() =~= s);
        assert(blank_run(p) == 1);
        assert(p.skip(1) =~= s);
        let m = seq!['-'] + d + rest;
        assert(blank_run(m) == 0);
        assert(m.skip(0) =~= m);
        assert(m.drop_first() =~= s);
    }
}

proof fn lemma_leading_digits(d: Seq<char>, rest: Seq<char>)
    requires
        ascii_int(d),
        rest.len() > 0 ==> !ascii_digit(rest[0]),
    ensures
        digit_run(d + rest, 0) == d.len(),
        (d + rest).take(d.len() as int) == d,
{
    let s = d + rest;
    let n = d.len() as int;
    assert forall|i: int| 0 <= i < n implies ascii_digit(#[trigger] s[i]) by {
        assert(ascii_digit(d[i]));
    }
    lemma_run(s, 0, n);
    assert(s.take(n) =~= d);
}

/// A text that does not start with a number counts as zero.
pub proof fn law_no_leading_number(s: Seq<char>)
    requires
        s.len() > 0 ==> !ascii_digit(s[0]) && s[0] != '+' && s[0] != '-' && !white_space(s[0]) && s[0]
            >= '\u{20}',
    ensures
        leading_integer(s) == 0,
{
    assert(blank_run(s) == 0);
    assert(s.skip(0) =~= s);
    assert(digit_run(s, 0) == 0);
    assert(s.take(0) =~= Seq::empty());
}

/// Ranks are compared as a whole: what is in order at all is at most itself, one of
/// two is at most the other, and the comparison carries over.
pub proof fn law_ranks_are_ordered(a: Rank, b: Rank, c: Rank)
    requires
        !(a is Unordered),
        !(b is Unordered),
        !(c is Unordered),
    ensures
        a.at_most(a),
        a.at_most(b) || b.at_most(a),
        a.at_most(b) && b.at_most(c) ==> a.at_most(c),
        a.at_most(b) && b.at_most(a) ==> a == b,
        Rank::Lowest.at_most(a) && a.at_most(Rank::Highest),
        !Rank::Unordered.at_most(a) && !a.at_most(Rank::Unordered),
        a.at_most(b) <==> b.negated().at_most(a.negated()),
{
}

/// A sign in front of a number: plus changes nothing, minus turns it round.
pub proof fn law_signs(d: Seq<char>)
    requires
        ascii_int(d),
    ensures
        decimal(seq!['+'] + d) == decimal(d),
        decimal(seq!['-'] + d) matches Some(r) && decimal(d) == Some(r.negated()),
{
    let p = seq!['+'] + d;
    let m = seq!['-'] + d;
    assert(p.drop_first() =~= d);
    assert(m.drop_first() =~= d);
    assert(ascii_digit(d[0]));
    law_digits_stand_for_their_number(d);
}

/// Infinity and what is no number are read in any case.
pub proof fn law_words_for_numbers(s: Seq<char>)
    requires
        s.len() > 0 ==> s[0] != '+' && s[0] != '-',
    ensures
        folded(s) == "inf"@ || folded(s) == "infinity"@ ==> decimal(s) == Some(Rank::Highest)
            && decimal(seq!['-'] + s) == Some(Rank::Lowest),
        folded(s) == "nan"@ ==> decimal(s) == Some(Rank::Unordered),
{
    reveal_strlit("inf");
    reveal_strlit("infinity");
    reveal_strlit("nan");
    assert("inf"@.len() == 3 && "infinity"@.len() == 8 && "nan"@.len() == 3);
    assert("inf"@[0] != "nan"@[0]);
    assert((seq!['-'] + s).drop_first() =~= s);
    assert(unsigned(s) == s);
}

/// An exponent moves the digits up by as many places; a mark without one is no number.
pub proof fn law_exponent(w: Seq<char>, mark: char, e: Seq<char>)
    requires
        ascii_int(w),
        mark == 'e' || mark == 'E',
        ascii_int(e),
    ensures
        decimal(w.push(mark) + e) == Some(
            settled(digits_value(w) as int * ten_to((PLACES + digits_value(e)) as nat)),
        ),
        decimal(w.push(mark)) is None,
{
    lemma_bare_mark(w, mark);
    let s = w.push(mark) + e;
    let n = w.len() as int;
    assert forall|i: int| 0 <= i < n implies ascii_digit(#[trigger] s[i]) by {
        assert(ascii_digit(w[i]));
    }
    lemma_run(s, 0, n);
    assert(s.take(n) =~= w);
    assert(s[n] == mark);
    assert(fraction_of(s) =~= Seq::empty());
    assert(mantissa_end(s) == n);
    let t = s.skip(n + 1);
    assert(t =~= e);
    assert(ascii_digit(e[0]));
    assert(unsigned(t) == e);
    assert(w + Seq::<char>::empty() =~= w);
    lemma_units(w, PLACES + digits_value(e));
    assert(ascii_digit(w[0]));
    assert(unsigned(s) == s);
    reveal_strlit("inf");
    reveal_strlit("infinity");
    reveal_strlit("nan");
    assert(folded(s)[0] == w[0]);
    assert("inf"@[0] == 'i' && "infinity"@[0] == 'i' && "nan"@[0] == 'n');
}

proof fn lemma_bare_mark(w: Seq<char>, mark: char)
    requires
        ascii_int(w),
        mark == 'e' || mark == 'E',
    ensures
        decimal(w.push(mark)) is None,
{
    let s = w.push(mark);
    let n = w.len() as int;
    assert forall|i: int| 0 <= i < n implies ascii_digit(#[trigger] s[i]) by {
        assert(ascii_digit(w[i]));
    }
    lemma_run(s, 0, n);
    assert(mantissa_end(s) == n);
    assert(s.skip(n + 1) =~= Seq::empty());
    assert(ascii_digit(w[0]));
    assert(unsigned(s) == s);
    reveal_strlit("inf");
    reveal_strlit("infinity");
    reveal_strlit("nan");
    assert(folded(s)[0] == w[0]);
    assert("inf"@[0] == 'i' && "infinity"@[0] == 'i' && "nan"@[0] == 'n');
}

/// A text that starts with no digit, and is no season and episode, stands for none.
pub proof fn law_no_number(s: Seq<char>)
    requires
        trimmed(s).len() > 0 ==> !ascii_digit(trimmed(s)[0]),
        forall|i: int| 0 <= i < trimmed(s).len() ==> #[trigger] trimmed(s)[i] != 'x' && trimmed(s)[i]
            != 'X',
    ensures
        episode_value(s) is None,
{
    lemma_no_mark(trimmed(s));
}

/// A number as large as the first that is infinite is above all others, and one as
/// far below zero is below all; those between keep their places.
pub proof fn law_infinite_numbers(units: int)
    ensures
        units >= overflow() ==> settled(units) == Rank::Highest,
        units <= -overflow() ==> settled(units) == Rank::Lowest,
        -overflow() < units < overflow() ==> settled(units) == Rank::At(units),
{
    lemma_below_overflow(1);
    lemma_ten_to_grows(0, PLACES as nat);
    assert(overflow() > 0);
}

} // verus!
