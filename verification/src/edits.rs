//! What the edit distance of two texts is: the least number of edits of single
//! characters that turn one into the other.

use vstd::prelude::*;
use crate::matching::{edit_distance, law_edit_distance_reflexive, lemma_edit_distance_bounded};

verus! {

/// Whether a text is another with the character at a place inserted, deleted or
/// replaced.
pub open spec fn edited_at(a: Seq<char>, b: Seq<char>, i: int) -> bool {
    ||| 0 <= i < b.len() && b.remove(i) == a
    ||| 0 <= i < a.len() && a.remove(i) == b
    ||| 0 <= i < a.len() && a.len() == b.len() && b == a.update(i, b[i])
}

/// Whether one edit turns a text into another.
pub open spec fn one_edit(a: Seq<char>, b: Seq<char>) -> bool {
    exists|i: int| edited_at(a, b, i)
}

/// Whether a number of edits turns a text into another.
pub open spec fn edits(a: Seq<char>, b: Seq<char>, n: nat) -> bool
    decreases n,
{
    if n == 0 {
        a == b
    } else {
        exists|c: Seq<char>| #[trigger] one_edit(a, c) && edits(c, b, (n - 1) as nat)
    }
}

proof fn lemma_length_gap(a: Seq<char>, b: Seq<char>)
    ensures
        a.len() <= b.len() + edit_distance(a, b),
        b.len() <= a.len() + edit_distance(a, b),
    decreases a.len() + b.len(),
{
    if a.len() > 0 && b.len() > 0 {
        lemma_length_gap(a.drop_last(), b);
        lemma_length_gap(a, b.drop_last());
        lemma_length_gap(a.drop_last(), b.drop_last());
    }
}

/// Going from one text to another by way of a third is never shorter.
pub proof fn law_edit_distance_triangle(a: Seq<char>, b: Seq<char>, c: Seq<char>)
    ensures
        edit_distance(a, c) <= edit_distance(a, b) + edit_distance(b, c),
    decreases a.len() + b.len() + c.len(),
{
    if b.len() == 0 {
        lemma_edit_distance_bounded(a, c);
    } else if a.len() == 0 || c.len() == 0 {
        lemma_length_gap(a, b);
        lemma_length_gap(b, c);
    } else {
        let (x, y, z) = (a.drop_last(), b.drop_last(), c.drop_last());
        law_edit_distance_triangle(x, b, c);
        law_edit_distance_triangle(a, b, z);
        law_edit_distance_triangle(a, y, c);
        law_edit_distance_triangle(a, y, z);
        law_edit_distance_triangle(x, y, c);
        law_edit_distance_triangle(x, y, z);
    }
}

proof fn lemma_edit_costs_one(a: Seq<char>, b: Seq<char>, i: int)
    requires
        edited_at(a, b, i),
    ensures
        edit_distance(a, b) <= 1,
    decreases a.len() + b.len(),
{
    let (x, y) = (a.drop_last(), b.drop_last());
    if 0 <= i < b.len() && b.remove(i) == a {
        if i == b.len() - 1 {
            assert(y =~= a);
            law_edit_distance_reflexive(a);
        } else {
            assert(a.last() == b.last());
            assert(y.remove(i) =~= x);
            lemma_edit_costs_one(x, y, i);
        }
    } else if 0 <= i < a.len() && a.remove(i) == b {
        if i == a.len() - 1 {
            assert(x =~= b);
            law_edit_distance_reflexive(b);
        } else {
            assert(a.last() == b.last());
            assert(x.remove(i) =~= y);
            lemma_edit_costs_one(x, y, i);
        }
    } else if i == a.len() - 1 {
        assert(x =~= y);
        law_edit_distance_reflexive(x);
    } else {
        assert(a.last() == b.last());
        assert(y =~= x.update(i, y[i]));
        lemma_edit_costs_one(x, y, i);
    }
}

proof fn lemma_edits_then(a: Seq<char>, b: Seq<char>, c: Seq<char>, n: nat)
    requires
        edits(a, b, n),
        one_edit(b, c),
    ensures
        edits(a, c, n + 1),
    decreases n,
{
    if n == 0 {
        assert(edits(c, c, 0));
        assert(one_edit(a, c));
    } else {
        let d = choose|d: Seq<char>| #[trigger] one_edit(a, d) && edits(d, b, (n - 1) as nat);
        lemma_edits_then(d, b, c, (n - 1) as nat);
        assert(one_edit(a, d));
    }
}

proof fn lemma_edits_before(a: Seq<char>, b: Seq<char>, n: nat, x: char)
    requires
        edits(a, b, n),
    ensures
        edits(a.push(x), b.push(x), n),
    decreases n,
{
    if n > 0 {
        let d = choose|d: Seq<char>| #[trigger] one_edit(a, d) && edits(d, b, (n - 1) as nat);
        lemma_edits_before(d, b, (n - 1) as nat, x);
        let i = choose|i: int| edited_at(a, d, i);
        if 0 <= i < d.len() && d.remove(i) == a {
            assert(d.push(x).remove(i) =~= a.push(x));
        } else if 0 <= i < a.len() && a.remove(i) == d {
            assert(a.push(x).remove(i) =~= d.push(x));
        } else {
            assert(d.push(x) =~= a.push(x).update(i, d.push(x)[i]));
        }
        assert(edited_at(a.push(x), d.push(x), i));
        assert(one_edit(a.push(x), d.push(x)));
    }
}

/// As many edits as the distance says turn one text into the other.
proof fn lemma_distance_suffices(a: Seq<char>, b: Seq<char>)
    ensures
        edits(a, b, edit_distance(a, b)),
    decreases a.len() + b.len(),
{
    let n = edit_distance(a, b);
    let (x, y) = (a.drop_last(), b.drop_last());
    if a.len() > 0 {
        assert(a.remove(a.len() - 1) =~= x);
        assert(edited_at(a, x, a.len() - 1));
        assert(one_edit(a, x));
        assert(a =~= x.push(a.last()));
    }
    if b.len() > 0 {
        assert(b.remove(b.len() - 1) =~= y);
        assert(edited_at(y, b, b.len() - 1));
        assert(one_edit(y, b));
        assert(b =~= y.push(b.last()));
    }
    if a.len() == 0 {
        if b.len() == 0 {
            assert(a =~= b);
        } else {
            lemma_distance_suffices(a, y);
            lemma_edits_then(a, y, b, edit_distance(a, y));
        }
    } else if b.len() == 0 {
        lemma_distance_suffices(x, b);
    } else if n == edit_distance(x, b) + 1 {
        lemma_distance_suffices(x, b);
    } else if n == edit_distance(a, y) + 1 {
        lemma_distance_suffices(a, y);
        lemma_edits_then(a, y, b, edit_distance(a, y));
    } else {
        lemma_distance_suffices(x, y);
        lemma_edits_before(x, y, edit_distance(x, y), a.last());
        if a.last() != b.last() {
            let c = y.push(a.last());
            assert(b =~= c.update(c.len() - 1, b[c.len() - 1]));
            assert(edited_at(c, b, c.len() - 1));
            assert(one_edit(c, b));
            lemma_edits_then(a, c, b, edit_distance(x, y));
        }
    }
}

proof fn lemma_distance_is_needed(a: Seq<char>, b: Seq<char>, n: nat)
    requires
        edits(a, b, n),
    ensures
        edit_distance(a, b) <= n,
    decreases n,
{
    if n == 0 {
        law_edit_distance_reflexive(a);
    } else {
        let c = choose|c: Seq<char>| #[trigger] one_edit(a, c) && edits(c, b, (n - 1) as nat);
        lemma_distance_is_needed(c, b, (n - 1) as nat);
        let i = choose|i: int| edited_at(a, c, i);
        lemma_edit_costs_one(a, c, i);
        law_edit_distance_triangle(a, c, b);
    }
}

/// The edit distance is the least number of edits: so many turn one text into
/// the other, and no fewer do.
pub proof fn law_edit_distance_is_least(a: Seq<char>, b: Seq<char>, n: nat)
    ensures
        edits(a, b, edit_distance(a, b)),
        edits(a, b, n) ==> edit_distance(a, b) <= n,
{
    lemma_distance_suffices(a, b);
    if edits(a, b, n) {
        lemma_distance_is_needed(a, b, n);
    }
}

} // verus!
