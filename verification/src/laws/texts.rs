//! Texts: their order, their words, their numbers, and what occurs in them.

use vstd::prelude::*;
use crate::db::numbers::digits_value;
use crate::listing::before_nocase;
use crate::text::{
    alphanumeric, ascii_digit, ascii_int, ascii_text, concatenation, digit_value, folded, int_text,
    join, lowercase, nat_text, occurs_in, precedes, starts_with, trim_end, trim_start, trimmed,
    unicode_alphanumeric, white_space, words, WordKind,
};

verus! {

/// Texts are in the order of their first different characters, and the start of a
/// text is before it.
pub proof fn law_order_of_texts(a: Seq<char>, b: Seq<char>, i: int)
    requires
        0 <= i <= a.len(),
        i < b.len(),
        a.take(i) == b.take(i),
        i == a.len() || a[i] < b[i],
    ensures
        precedes(a, b),
        !precedes(b, a),
    decreases i,
{
    if i > 0 {
        assert(a.take(i)[0] == a[0]);
        assert(b.take(i)[0] == b[0]);
        let x = a.drop_first();
        let y = b.drop_first();
        assert(x.take(i - 1) =~= a.take(i).drop_first());
        assert(y.take(i - 1) =~= b.take(i).drop_first());
        law_order_of_texts(x, y, i - 1);
    }
}

/// What is trimmed off is white space, and nothing else: what is left starts and
/// ends with something else.
pub proof fn law_trimming(s: Seq<char>)
    ensures
        exists|i: int, j: int|
            0 <= i <= j <= s.len() && trimmed(s) == #[trigger] s.subrange(i, j) && (forall|k: int|
                (0 <= k < i || j <= k < s.len()) ==> white_space(#[trigger] s[k])),
        trimmed(s).len() > 0 ==> !white_space(trimmed(s)[0]) && !white_space(trimmed(s).last()),
{
    lemma_trim_start(s);
    let i = choose|i: int|
        0 <= i <= s.len() && trim_start(s) == #[trigger] s.skip(i) && forall|k: int|
            0 <= k < i ==> white_space(#[trigger] s[k]);
    let t = s.skip(i);
    lemma_trim_end(t);
    let n = choose|n: int|
        0 <= n <= t.len() && trim_end(t) == #[trigger] t.take(n) && forall|k: int|
            n <= k < t.len() ==> white_space(#[trigger] t[k]);
    assert(t.take(n) =~= s.subrange(i, i + n));
    assert forall|k: int| (0 <= k < i || i + n <= k < s.len()) implies white_space(
        #[trigger] s[k],
    ) by {
        if k >= i + n {
            assert(t[k - i] == s[k]);
        }
    }
    if trimmed(s).len() > 0 {
        assert(trimmed(s)[0] == t[0]);
    }
}

proof fn lemma_trim_start(s: Seq<char>)
    ensures
        exists|i: int|
            0 <= i <= s.len() && trim_start(s) == #[trigger] s.skip(i) && forall|k: int|
                0 <= k < i ==> white_space(#[trigger] s[k]),
        trim_start(s).len() > 0 ==> !white_space(trim_start(s)[0]),
    decreases s.len(),
{
    if s.len() > 0 && white_space(s[0]) {
        let r = s.drop_first();
        lemma_trim_start(r);
        let i = choose|i: int|
            0 <= i <= r.len() && trim_start(r) == #[trigger] r.skip(i) && forall|k: int|
                0 <= k < i ==> white_space(#[trigger] r[k]);
        assert(s.skip(i + 1) =~= r.skip(i));
        assert forall|k: int| 0 <= k < i + 1 implies white_space(#[trigger] s[k]) by {
            if k > 0 {
                assert(r[k - 1] == s[k]);
            }
        }
    } else {
        assert(s.skip(0) =~= s);
    }
}

proof fn lemma_trim_end(s: Seq<char>)
    ensures
        exists|n: int|
            0 <= n <= s.len() && trim_end(s) == #[trigger] s.take(n) && forall|k: int|
                n <= k < s.len() ==> white_space(#[trigger] s[k]),
        trim_end(s).len() > 0 ==> !white_space(trim_end(s).last()),
    decreases s.len(),
{
    if s.len() > 0 && white_space(s.last()) {
        let r = s.drop_last();
        lemma_trim_end(r);
        let n = choose|n: int|
            0 <= n <= r.len() && trim_end(r) == #[trigger] r.take(n) && forall|k: int|
                n <= k < r.len() ==> white_space(#[trigger] r[k]);
        assert(s.take(n) =~= r.take(n));
        assert forall|k: int| n <= k < s.len() implies white_space(#[trigger] s[k]) by {
            if k < r.len() {
                assert(r[k] == s[k]);
            }
        }
    } else {
        assert(s.take(s.len() as int) =~= s);
    }
}

/// Words are told apart by what belongs to none: a text of such a character
/// between two others has the words of both, and a text without one is a word.
pub proof fn law_words_are_told_apart(a: Seq<char>, c: char, b: Seq<char>, kind: WordKind)
    requires
        !kind.holds(c),
    ensures
        words(a.push(c) + b, kind) == words(a, kind) + words(b, kind),
        b.len() > 0 && (forall|i: int| 0 <= i < b.len() ==> kind.holds(#[trigger] b[i])) ==> words(
            b,
            kind,
        ) == seq![b],
    decreases b.len(),
{
    let s = a.push(c) + b;
    if b.len() == 0 {
        assert(s =~= a.push(c));
        assert(a.push(c).drop_last() =~= a);
        assert(words(b, kind) =~= Seq::empty());
        assert(words(a, kind) + words(b, kind) =~= words(a, kind));
    } else {
        let y = b.drop_last();
        law_words_are_told_apart(a, c, y, kind);
        assert(s.drop_last() =~= a.push(c) + y);
        let before = words(y, kind);
        if kind.holds(b.last()) {
            if b.len() >= 2 && kind.holds(b[b.len() - 2]) {
                crate::text::lemma_words_are_runs(y, kind);
                assert(y.last() == b[b.len() - 2]);
                assert(before.len() > 0);
                let joined = words(a, kind) + before;
                assert(joined.last() == before.last());
                assert(joined.drop_last().push(joined.last().push(b.last())) =~= words(a, kind) + (
                before.drop_last().push(before.last().push(b.last()))));
                assert(s[s.len() - 2] == b[b.len() - 2]);
            } else {
                assert((words(a, kind) + before).push(seq![b.last()]) =~= words(a, kind)
                    + before.push(seq![b.last()]));
                if b.len() == 1 {
                    assert(s[s.len() - 2] == c);
                } else {
                    assert(s[s.len() - 2] == b[b.len() - 2]);
                }
            }
        }
        if forall|i: int| 0 <= i < b.len() ==> kind.holds(#[trigger] b[i]) {
            assert forall|i: int| 0 <= i < y.len() implies kind.holds(#[trigger] y[i]) by {
                assert(y[i] == b[i]);
            }
            assert(kind.holds(b[b.len() - 1]));
            if b.len() >= 2 {
                assert(kind.holds(b[b.len() - 2]));
                assert(y.push(b.last()) =~= b);
                assert(words(b, kind) =~= seq![b]);
            } else {
                assert(before =~= Seq::empty());
                assert(seq![b.last()] =~= b);
                assert(words(b, kind) =~= seq![b]);
            }
        }
    }
}

/// The words of a text hold all its characters of the kind, in their order.
pub proof fn law_words_hold_all(s: Seq<char>, kind: WordKind)
    ensures
        concatenation(words(s, kind)) == s.filter(|c: char| kind.holds(c)),
    decreases s.len(),
{
    reveal(Seq::filter);
    let hit = |c: char| kind.holds(c);
    if s.len() > 0 {
        let init = s.drop_last();
        law_words_hold_all(init, kind);
        let before = words(init, kind);
        if kind.holds(s.last()) {
            if s.len() >= 2 && kind.holds(s[s.len() - 2]) {
                crate::text::lemma_words_are_runs(init, kind);
                assert(init.last() == s[s.len() - 2]);
                let w = before.last().push(s.last());
                assert(before.drop_last().push(w).drop_last() =~= before.drop_last());
                assert(concatenation(before.drop_last()) + w =~= (concatenation(before.drop_last())
                    + before.last()).push(s.last()));
            } else {
                assert(before.push(seq![s.last()]).drop_last() =~= before);
                assert(concatenation(before) + seq![s.last()] =~= concatenation(before).push(
                    s.last(),
                ));
            }
        }
    } else {
        assert(s.filter(hit) =~= Seq::empty());
        assert(concatenation(words(s, kind)) =~= Seq::empty());
    }
}

/// Folding turns an ASCII capital into its small letter and leaves everything else
/// as it is, so that folding twice is folding once.
pub proof fn law_folding(s: Seq<char>, i: int)
    requires
        0 <= i < s.len(),
    ensures
        folded(s).len() == s.len(),
        'A' <= s[i] <= 'Z' ==> folded(s)[i] as int - 'a' as int == s[i] as int - 'A' as int,
        !('A' <= s[i] <= 'Z') ==> folded(s)[i] == s[i],
        folded(folded(s)) == folded(s),
{
    assert(folded(folded(s)) =~= folded(s));
}

/// A text occurs in another exactly where that is made of something, the text and
/// something.
pub proof fn law_occurs_between(a: Seq<char>, part: Seq<char>, b: Seq<char>, s: Seq<char>)
    ensures
        occurs_in(part, a + part + b),
        occurs_in(part, s) ==> exists|x: Seq<char>, y: Seq<char>| s == #[trigger] (x + part + y),
{
    let t = a + part + b;
    assert(t.skip(a.len() as int).take(part.len() as int) =~= part);
    assert(starts_with(t.skip(a.len() as int), part));
    if occurs_in(part, s) {
        let at = choose|at: int| 0 <= at <= s.len() && #[trigger] starts_with(s.skip(at), part);
        let x = s.take(at);
        let y = s.skip(at + part.len());
        assert(s.skip(at).take(part.len() as int) == part);
        assert forall|i: int| 0 <= i < s.len() implies s[i] == #[trigger] (x + part + y)[i] by {
            if at <= i < at + part.len() {
                assert(s.skip(at).take(part.len() as int)[i - at] == s[i]);
            }
        }
        assert(s =~= x + part + y);
    }
}

/// The text of a number is made of digits and stands for the number.
pub proof fn law_number_is_read_back(n: nat)
    ensures
        digits_value(nat_text(n)) == n,
        ascii_int(nat_text(n)),
        n >= 10 ==> nat_text(n)[0] != '0',
        n >= 1 ==> nat_text(n)[0] != '0',
    decreases n,
{
    let d: int = if n < 10 { n as int } else { (n % 10) as int };
    let c = crate::text::digit_char(d);
    assert(digit_value(c) == d);
    assert(ascii_digit(c));
    if n >= 10 {
        law_number_is_read_back(n / 10);
        let init = nat_text(n / 10);
        assert(init.push(c).drop_last() =~= init);
        assert forall|i: int| 0 <= i < nat_text(n).len() implies ascii_digit(
            #[trigger] nat_text(n)[i],
        ) by {
            if i < init.len() {
                assert(nat_text(n)[i] == init[i]);
            }
        }
        assert(nat_text(n)[0] == init[0]);
    } else {
        assert(seq![c].drop_last() =~= Seq::empty());
        assert(digits_value(Seq::empty()) == 0);
    }
}

/// Without regard to case, texts are in the order of their small letters; of two
/// with the same, the one with the earlier characters is first.
pub proof fn law_order_without_case(a: Seq<char>, b: Seq<char>)
    ensures
        precedes(folded(a), folded(b)) ==> before_nocase(a, b) && !before_nocase(b, a),
        folded(a) == folded(b) && precedes(a, b) ==> before_nocase(a, b) && !before_nocase(b, a),
        !before_nocase(a, a),
{
    crate::text::lemma_precedes_total(folded(a), folded(b));
    crate::text::lemma_precedes_total(a, b);
    crate::text::lemma_precedes_total(a, a);
    crate::text::lemma_precedes_total(folded(a), folded(a));
}

/// Words joined by spaces: the first words, a space and the last one.
pub proof fn law_join(w: Seq<Seq<char>>, t: Seq<char>)
    ensures
        join(seq![t]) == t,
        w.len() > 0 ==> join(w.push(t)) == join(w) + seq![' '] + t,
        join(Seq::<Seq<char>>::empty()).len() == 0,
{
    if w.len() > 0 {
        assert(w.push(t).drop_last() =~= w);
        assert(join(w).push(' ') + t =~= join(w) + seq![' '] + t);
    }
}

/// A number below zero is written with a minus sign and the digits of the one above.
pub proof fn law_signed_numbers(n: int)
    ensures
        n >= 0 ==> int_text(n) == nat_text(n as nat),
        n < 0 ==> int_text(n)[0] == '-' && int_text(n).skip(1) == nat_text((-n) as nat),
{
    if n < 0 {
        assert(int_text(n).skip(1) =~= nat_text((-n) as nat));
    }
}

/// Letters and digits make words, and a space does not; what is printed of the Latin
/// letters is no white space.
pub proof fn law_characters(c: char)
    ensures
        ('a' <= c <= 'z' || 'A' <= c <= 'Z' || '0' <= c <= '9') ==> alphanumeric(c)
            && !white_space(c),
        '!' <= c <= '~' || '\u{a1}' <= c <= '\u{ff}' ==> !white_space(c),
        white_space(' '),
        !alphanumeric(' '),
        '!' <= c <= '/' || ':' <= c <= '@' || '[' <= c <= '`' || '{' <= c <= '~'
            ==> !alphanumeric(c),
        '0' <= c <= '9' <==> ascii_digit(c),
        '\u{80}' <= c ==> (alphanumeric(c) <==> !white_space(c) && unicode_alphanumeric(c)),
{
}

/// A text of ASCII characters is in small letters what it is once folded.
pub proof fn law_small_letters(s: Seq<char>)
    ensures
        (forall|i: int| 0 <= i < s.len() ==> (#[trigger] s[i]) <= '\u{7f}') ==> lowercase(s)
            == folded(s),
        folded(lowercase(s)) == lowercase(s),
{
    assert(folded(lowercase(s)) =~= lowercase(s));
    if forall|i: int| 0 <= i < s.len() ==> (#[trigger] s[i]) <= '\u{7f}' {
        assert(ascii_text(s));
    }
}

/// A text starts with another where it is that and something more.
pub proof fn law_starts_with(head: Seq<char>, rest: Seq<char>, s: Seq<char>)
    ensures
        starts_with(head + rest, head),
        starts_with(s, head) ==> exists|r: Seq<char>| s == #[trigger] (head + r),
{
    assert((head + rest).take(head.len() as int) =~= head);
    if starts_with(s, head) {
        let r = s.skip(head.len() as int);
        assert(s =~= s.take(head.len() as int) + r);
    }
}

} // verus!
