//! Lists of different texts in alphabetical order, and counts by label.

use vstd::prelude::*;
use crate::rows::{
    count_where, key_views, law_sorted_is_in_order, law_sorted_is_permutation, lemma_count_zero,
    lemma_filter_none, lemma_filter_step, lemma_sorted_contains, lemma_sorted_pairwise, orders,
    sort_rows,
};
use crate::text::{
    chars_of, fold_chars, folded, lemma_precedes_total, lemma_precedes_transitive, precedes,
    same_chars, same_text, text_precedes,
};

verus! {

/// Whether every text of a list stands before the later ones.
pub open spec fn ascending(s: Seq<Seq<char>>) -> bool {
    forall|i: int, j: int| 0 <= i < j < s.len() ==> precedes(#[trigger] s[i], #[trigger] s[j])
}

/// A list in alphabetical order without repetition is determined by which texts
/// it holds.
pub proof fn law_listing_determined(a: Seq<Seq<char>>, b: Seq<Seq<char>>)
    requires
        ascending(a),
        ascending(b),
        forall|t: Seq<char>| a.contains(t) <==> b.contains(t),
    ensures
        a == b,
    decreases a.len(),
{
    if a.len() == 0 {
        if b.len() > 0 {
            assert(b.contains(b[0]));
            assert(a.contains(b[0]));
        }
        assert(a =~= b);
    } else {
        assert(a.contains(a[0]));
        assert(b.contains(a[0]));
        let x = a.last();
        let y = b.last();
        assert(a[a.len() - 1] == x && b[b.len() - 1] == y);
        assert(a.contains(x) && b.contains(y));
        assert(b.contains(x) && a.contains(y));
        let j = choose|j: int| 0 <= j < b.len() && b[j] == x;
        let i = choose|i: int| 0 <= i < a.len() && a[i] == y;
        lemma_precedes_total(x, y);
        assert(x == y) by {
            if j < b.len() - 1 {
                assert(precedes(b[j], b[b.len() - 1]));
            }
            if i < a.len() - 1 {
                assert(precedes(a[i], a[a.len() - 1]));
            }
        }
        let a1 = a.drop_last();
        let b1 = b.drop_last();
        assert forall|t: Seq<char>| a1.contains(t) <==> b1.contains(t) by {
            lemma_last_is_apart(a, t);
            lemma_last_is_apart(b, t);
        }
        law_listing_determined(a1, b1);
        assert(a =~= a1.push(x));
        assert(b =~= b1.push(y));
    }
}

proof fn lemma_last_is_apart(a: Seq<Seq<char>>, t: Seq<char>)
    requires
        ascending(a),
        a.len() > 0,
    ensures
        a.drop_last().contains(t) <==> a.contains(t) && t != a.last(),
{
    let a1 = a.drop_last();
    if a1.contains(t) {
        let i = choose|i: int| 0 <= i < a1.len() && a1[i] == t;
        assert(a[i] == t);
        assert(precedes(a[i], a[a.len() - 1]));
        lemma_precedes_total(t, a.last());
    }
    if a.contains(t) && t != a.last() {
        let i = choose|i: int| 0 <= i < a.len() && a[i] == t;
        assert(a1[i] == t);
    }
}

/// Puts a text into its place in an alphabetical list, unless it is there.
pub fn list_text(list: &mut Vec<String>, text: &str)
    requires
        ascending(key_views(old(list)@)),
    ensures
        ascending(key_views(final(list)@)),
        final(list)@.len() <= old(list)@.len() + 1,
        forall|t: Seq<char>| #[trigger]
            key_views(final(list)@).contains(t) <==> t == text@ || key_views(old(list)@).contains(t),
{
    let ghost before = key_views(list@);
    let chars = chars_of(text);
    let mut i: usize = 0;
    while i < list.len() && text_precedes(&chars_of(list[i].as_str()), &chars)
        invariant
            i <= list@.len(),
            chars@ == text@,
            before == key_views(list@),
            ascending(before),
            forall|k: int| 0 <= k < i ==> precedes(#[trigger] before[k], text@),
        decreases list@.len() - i,
    {
        assert(before[i as int] == list@[i as int]@);
        i += 1;
    }
    if i < list.len() && same_text(list[i].as_str(), text) {
        assert(before[i as int] == text@);
        return ;
    }
    let ghost old_list = list@;
    let ghost here = text@;
    list.insert(i, text.to_owned());
    proof {
        let after = key_views(list@);
        assert(after =~= before.insert(i as int, here));
        assert forall|k: int| i <= k < before.len() implies precedes(here, #[trigger] before[k]) by {
            lemma_precedes_total(before[i as int], here);
            assert(before[i as int] == old_list[i as int]@);
            if k > i {
                assert(precedes(before[i as int], before[k]));
                lemma_precedes_transitive(here, before[i as int], before[k]);
            }
        }
        assert forall|t: Seq<char>| #[trigger] after.contains(t) <==> t == here || before.contains(
            t,
        ) by {
            if after.contains(t) {
                let k = choose|k: int| 0 <= k < after.len() && after[k] == t;
                if k < i {
                    assert(before[k] == t);
                } else if k > i {
                    assert(before[k - 1] == t);
                }
            }
            if before.contains(t) {
                let k = choose|k: int| 0 <= k < before.len() && before[k] == t;
                if k < i {
                    assert(after[k] == t);
                } else {
                    assert(after[k + 1] == t);
                }
            }
            assert(after[i as int] == here);
        }
        assert forall|p: int, q: int| 0 <= p < q < after.len() implies precedes(
            #[trigger] after[p],
            #[trigger] after[q],
        ) by {
            if q < i {
                assert(precedes(before[p], before[q]));
            } else if q == i {
                assert(precedes(before[p], here));
            } else if p < i {
                assert(precedes(before[p], before[q - 1]));
            } else if p == i {
                assert(precedes(here, before[q - 1]));
            } else {
                assert(precedes(before[p - 1], before[q - 1]));
            }
        }
    }
}

/// The texts of a list, each where it occurs first.
pub open spec fn first_uses(texts: Seq<Seq<char>>) -> Seq<Seq<char>>
    decreases texts.len(),
{
    if texts.len() == 0 {
        Seq::empty()
    } else {
        let before = first_uses(texts.drop_last());
        if before.contains(texts.last()) {
            before
        } else {
            before.push(texts.last())
        }
    }
}

/// No text occurs twice among the first uses, and every text of the list occurs.
pub proof fn lemma_first_uses(texts: Seq<Seq<char>>)
    ensures
        first_uses(texts).no_duplicates(),
        forall|t: Seq<char>| #[trigger] first_uses(texts).contains(t) <==> texts.contains(t),
    decreases texts.len(),
{
    if texts.len() > 0 {
        let init = texts.drop_last();
        lemma_first_uses(init);
        let before = first_uses(init);
        let last = texts.last();
        let all = first_uses(texts);
        assert forall|t: Seq<char>| #[trigger] all.contains(t) <==> texts.contains(t) by {
            if all.contains(t) {
                let k = choose|k: int| 0 <= k < all.len() && all[k] == t;
                if k < before.len() {
                    assert(before[k] == t);
                    assert(before.contains(t));
                    let m = choose|m: int| 0 <= m < init.len() && init[m] == t;
                    assert(texts[m] == t);
                } else {
                    assert(texts[texts.len() - 1] == t);
                }
            }
            if texts.contains(t) {
                let m = choose|m: int| 0 <= m < texts.len() && texts[m] == t;
                if m < init.len() {
                    assert(init[m] == t);
                    assert(before.contains(t));
                    let k = choose|k: int| 0 <= k < before.len() && before[k] == t;
                    assert(all[k] == t);
                } else if !before.contains(last) {
                    assert(all[before.len() as int] == t);
                }
            }
        }
    }
}

/// The texts of a list, each where it occurs first.
pub fn drop_repeats(texts: &[String]) -> (r: Vec<String>)
    ensures
        key_views(r@) == first_uses(key_views(texts@)),
{
    let ghost all = key_views(texts@);
    let mut out: Vec<String> = Vec::new();
    let mut i: usize = 0;
    assert(all.take(0) =~= Seq::empty());
    assert(key_views(out@) =~= Seq::empty());
    while i < texts.len()
        invariant
            i <= texts@.len(),
            all == key_views(texts@),
            key_views(out@) == first_uses(all.take(i as int)),
        decreases texts@.len() - i,
    {
        let ghost had = out@;
        assert(all.take(i + 1).drop_last() =~= all.take(i as int));
        assert(all.take(i + 1).last() == texts@[i as int]@);
        if !list_holds(&out, texts[i].as_str()) {
            out.push(texts[i].clone());
            assert(key_views(out@) =~= key_views(had).push(texts@[i as int]@));
        }
        i += 1;
    }
    assert(all.take(i as int) =~= all);
    out
}

/// Whether a text stands before another when ASCII letters count alike in either
/// case; those that differ in case alone go by their characters.
pub open spec fn before_nocase(a: Seq<char>, b: Seq<char>) -> bool {
    precedes(folded(a), folded(b)) || folded(a) == folded(b) && precedes(a, b)
}

/// The order of texts in which ASCII letters count alike in either case.
pub open spec fn by_nocase() -> spec_fn(String, String) -> bool {
    |a: String, b: String| before_nocase(a@, b@)
}

/// Whether every text of a list stands before the later ones, ASCII letters
/// counting alike in either case.
pub open spec fn ascending_nocase(s: Seq<Seq<char>>) -> bool {
    forall|i: int, j: int| 0 <= i < j < s.len() ==> before_nocase(#[trigger] s[i], #[trigger] s[j])
}

fn nocase_before(a: &String, b: &String) -> (r: bool)
    ensures
        r == by_nocase()(*a, *b),
{
    let x = chars_of(a.as_str());
    let y = chars_of(b.as_str());
    let u = fold_chars(&x);
    let v = fold_chars(&y);
    if text_precedes(&u, &v) {
        return true;
    }
    same_chars(&u, &v) && text_precedes(&x, &y)
}

proof fn lemma_nocase_orders()
    ensures
        orders(by_nocase()),
{
    assert forall|a: String, b: String| #[trigger] by_nocase()(a, b) implies !by_nocase()(b, a) by {
        lemma_precedes_total(a@, b@);
        lemma_precedes_total(folded(a@), folded(b@));
    }
    assert forall|a: String, b: String, c: String|
        !(#[trigger] by_nocase()(b, a)) && !(#[trigger] by_nocase()(c, b)) implies !by_nocase()(
        c,
        a,
    ) by {
        lemma_precedes_total(folded(a@), folded(b@));
        lemma_precedes_total(folded(b@), folded(c@));
        lemma_precedes_total(folded(a@), folded(c@));
        lemma_precedes_transitive(folded(a@), folded(b@), folded(c@));
        lemma_precedes_transitive(a@, b@, c@);
    }
}

/// Whether two texts differ.
pub open spec fn of_different_texts() -> spec_fn(String, String) -> bool {
    |a: String, b: String| a@ != b@
}

/// The texts of an alphabetical list in the order in which ASCII letters count
/// alike in either case.
pub fn order_nocase(list: Vec<String>) -> (r: Vec<String>)
    requires
        ascending(key_views(list@)),
    ensures
        ascending_nocase(key_views(r@)),
        forall|t: Seq<char>| #[trigger]
            key_views(r@).contains(t) <==> key_views(list@).contains(t),
{
    let ghost before = list@;
    let out = sort_rows(list, nocase_before, Ghost(by_nocase()));
    proof {
        lemma_nocase_orders();
        law_sorted_is_permutation(before, by_nocase());
        law_sorted_is_in_order(before, by_nocase());
        assert forall|p: int, q: int| 0 <= p < q < before.len() implies of_different_texts()(
            #[trigger] before[p],
            #[trigger] before[q],
        ) by {
            assert(precedes(key_views(before)[p], key_views(before)[q]));
            lemma_precedes_total(before[p]@, before[q]@);
        }
        lemma_sorted_pairwise(before, by_nocase(), of_different_texts());
        assert forall|p: int, q: int| 0 <= p < q < out@.len() implies before_nocase(
            #[trigger] key_views(out@)[p],
            #[trigger] key_views(out@)[q],
        ) by {
            assert(!by_nocase()(out@[q], out@[p]));
            assert(of_different_texts()(out@[p], out@[q]));
            lemma_precedes_total(folded(out@[p]@), folded(out@[q]@));
            lemma_precedes_total(out@[p]@, out@[q]@);
        }
        assert forall|t: Seq<char>| #[trigger]
            key_views(out@).contains(t) <==> key_views(before).contains(t) by {
            if key_views(out@).contains(t) {
                let k = choose|k: int| 0 <= k < out@.len() && key_views(out@)[k] == t;
                assert(out@.contains(out@[k]));
                lemma_sorted_contains(before, by_nocase(), out@[k]);
                let m = choose|m: int| 0 <= m < before.len() && before[m] == out@[k];
                assert(key_views(before)[m] == t);
            }
            if key_views(before).contains(t) {
                let m = choose|m: int| 0 <= m < before.len() && key_views(before)[m] == t;
                assert(before.contains(before[m]));
                lemma_sorted_contains(before, by_nocase(), before[m]);
                let k = choose|k: int| 0 <= k < out@.len() && out@[k] == before[m];
                assert(key_views(out@)[k] == t);
            }
        }
    }
    out
}

/// A label and how many things carry it.
#[derive(Debug, Clone, PartialEq)]
pub struct Tally {
    pub label: String,
    pub count: i64,
}

/// What the labels of things spell.
pub open spec fn label_views(labels: Seq<Vec<String>>) -> Seq<Seq<Seq<char>>> {
    labels.map_values(|l: Vec<String>| key_views(l@))
}

/// The condition of carrying a label.
pub open spec fn carries(t: Seq<char>) -> spec_fn(Seq<Seq<char>>) -> bool {
    |l: Seq<Seq<char>>| l.contains(t)
}

/// How many things carry a label.
pub open spec fn how_many(labels: Seq<Seq<Seq<char>>>, t: Seq<char>) -> nat {
    count_where(labels, carries(t))
}

/// Whether a count stands before another: the larger first, equal ones by label.
pub open spec fn counted_before(a: Tally, b: Tally) -> bool {
    a.count > b.count || a.count == b.count && precedes(a.label@, b.label@)
}

/// The order of counts.
pub open spec fn by_count() -> spec_fn(Tally, Tally) -> bool {
    |a: Tally, b: Tally| counted_before(a, b)
}

/// Whether a label is counted.
pub open spec fn tallied(r: Seq<Tally>, t: Seq<char>) -> bool {
    exists|i: int| 0 <= i < r.len() && (#[trigger] r[i]).label@ == t
}

/// Whether counts are those of all labels, in their order.
pub open spec fn tally_of(r: Seq<Tally>, labels: Seq<Seq<Seq<char>>>) -> bool {
    &&& forall|i: int, j: int|
        0 <= i < j < r.len() ==> counted_before(#[trigger] r[i], #[trigger] r[j])
    &&& forall|i: int|
        0 <= i < r.len() ==> (#[trigger] r[i]).count == how_many(labels, r[i].label@) && r[i].count
            > 0
    &&& forall|t: Seq<char>| #[trigger] tallied(r, t) <==> how_many(labels, t) > 0
}

fn tally_before(a: &Tally, b: &Tally) -> (r: bool)
    ensures
        r == by_count()(*a, *b),
{
    if a.count != b.count {
        return a.count > b.count;
    }
    text_precedes(&chars_of(a.label.as_str()), &chars_of(b.label.as_str()))
}

proof fn lemma_by_count_orders()
    ensures
        orders(by_count()),
{
    assert forall|a: Tally, b: Tally| #[trigger] by_count()(a, b) implies !by_count()(b, a) by {
        lemma_precedes_total(a.label@, b.label@);
    }
    assert forall|a: Tally, b: Tally, c: Tally|
        !(#[trigger] by_count()(b, a)) && !(#[trigger] by_count()(c, b)) implies !by_count()(c, a) by {
        lemma_precedes_transitive(a.label@, b.label@, c.label@);
    }
}

/// Whether two counts are of different labels.
pub open spec fn of_different_labels() -> spec_fn(Tally, Tally) -> bool {
    |a: Tally, b: Tally| a.label@ != b.label@
}

/// Whether a text is in a list.
pub fn list_holds(list: &Vec<String>, text: &str) -> (r: bool)
    ensures
        r == key_views(list@).contains(text@),
{
    let mut i: usize = 0;
    while i < list.len()
        invariant
            i <= list@.len(),
            forall|k: int| 0 <= k < i ==> (#[trigger] list@[k])@ != text@,
        decreases list@.len() - i,
    {
        if same_text(list[i].as_str(), text) {
            assert(key_views(list@)[i as int] == text@);
            return true;
        }
        i += 1;
    }
    assert(!key_views(list@).contains(text@)) by {
        if key_views(list@).contains(text@) {
            let k = choose|k: int| 0 <= k < list@.len() && key_views(list@)[k] == text@;
            assert(list@[k]@ == text@);
        }
    }
    false
}

/// How many things carry a label.
fn count_label(labels: &Vec<Vec<String>>, text: &str) -> (r: i64)
    requires
        labels@.len() <= i64::MAX,
    ensures
        r == how_many(label_views(labels@), text@),
{
    let ghost all = label_views(labels@);
    let mut n: usize = 0;
    let mut i: usize = 0;
    proof {
        lemma_filter_none(all, carries(text@));
    }
    while i < labels.len()
        invariant
            i <= labels@.len(),
            n <= i,
            all == label_views(labels@),
            n == all.take(i as int).filter(carries(text@)).len(),
        decreases labels@.len() - i,
    {
        proof {
            lemma_filter_step(all, carries(text@), i as int);
            assert(all[i as int] == key_views(labels@[i as int]@));
        }
        if list_holds(&labels[i], text) {
            n += 1;
        }
        i += 1;
    }
    proof {
        lemma_filter_none(all, carries(text@));
    }
    n as i64
}

/// Counts the labels: how many things carry each, the most frequent first.
pub fn tally(labels: &Vec<Vec<String>>) -> (r: Vec<Tally>)
    requires
        labels@.len() <= i64::MAX,
    ensures
        tally_of(r@, label_views(labels@)),
{
    let ghost all = label_views(labels@);
    let mut names: Vec<String> = Vec::new();
    let mut i: usize = 0;
    while i < labels.len()
        invariant
            i <= labels@.len(),
            all == label_views(labels@),
            ascending(key_views(names@)),
            forall|t: Seq<char>| #[trigger]
                key_views(names@).contains(t) <==> exists|k: int|
                    0 <= k < i && (#[trigger] all[k]).contains(t),
        decreases labels@.len() - i,
    {
        let ghost had = key_views(names@);
        let ghost here = key_views(labels@[i as int]@);
        assert(all[i as int] == here);
        let mut j: usize = 0;
        while j < labels[i].len()
            invariant
                i < labels@.len(),
                here == key_views(labels@[i as int]@),
                j <= labels@[i as int]@.len(),
                ascending(key_views(names@)),
                forall|t: Seq<char>| #[trigger]
                    key_views(names@).contains(t) <==> had.contains(t) || here.take(
                        j as int,
                    ).contains(t),
            decreases labels@[i as int]@.len() - j,
        {
            list_text(&mut names, labels[i][j].as_str());
            proof {
                assert(here.take(j + 1) =~= here.take(j as int).push(here[j as int]));
                assert forall|t: Seq<char>| #[trigger]
                    key_views(names@).contains(t) <==> had.contains(t) || here.take(
                        j + 1,
                    ).contains(t) by {
                    let a = here.take(j as int);
                    let b = a.push(here[j as int]);
                    if a.contains(t) {
                        let k = choose|k: int| 0 <= k < a.len() && a[k] == t;
                        assert(b[k] == t);
                    }
                    if b.contains(t) {
                        let k = choose|k: int| 0 <= k < b.len() && b[k] == t;
                        if k < a.len() {
                            assert(a[k] == t);
                        }
                    }
                    assert(b[j as int] == here[j as int]);
                }
            }
            j += 1;
        }
        assert(here.take(j as int) =~= here);
        i += 1;
        proof {
            assert forall|t: Seq<char>| #[trigger]
                key_views(names@).contains(t) <==> exists|k: int|
                    0 <= k < i && (#[trigger] all[k]).contains(t) by {
                if here.contains(t) {
                    assert(all[i - 1].contains(t));
                }
                if had.contains(t) {
                    let k = choose|k: int| 0 <= k < i - 1 && (#[trigger] all[k]).contains(t);
                    assert(all[k].contains(t));
                }
            }
        }
    }
    let mut counts: Vec<Tally> = Vec::new();
    let mut n: usize = 0;
    while n < names.len()
        invariant
            labels@.len() <= i64::MAX,
            all == label_views(labels@),
            n <= names@.len(),
            counts@.len() == n,
            forall|k: int|
                0 <= k < n ==> (#[trigger] counts@[k]).label@ == key_views(names@)[k]
                    && counts@[k].count == how_many(all, counts@[k].label@),
        decreases names@.len() - n,
    {
        let count: i64 = count_label(labels, names[n].as_str());
        counts.push(Tally { label: names[n].clone(), count });
        n += 1;
    }
    let ghost list = counts@;
    let out = sort_rows(counts, tally_before, Ghost(by_count()));
    proof {
        lemma_by_count_orders();
        law_sorted_is_permutation(list, by_count());
        law_sorted_is_in_order(list, by_count());
        assert forall|p: int, q: int| 0 <= p < q < list.len() implies of_different_labels()(
            #[trigger] list[p],
            #[trigger] list[q],
        ) by {
            assert(precedes(key_views(names@)[p], key_views(names@)[q]));
            lemma_precedes_total(list[p].label@, list[q].label@);
        }
        lemma_sorted_pairwise(list, by_count(), of_different_labels());
        assert forall|p: int, q: int| 0 <= p < q < out@.len() implies counted_before(
            #[trigger] out@[p],
            #[trigger] out@[q],
        ) by {
            assert(!by_count()(out@[q], out@[p]));
            assert(of_different_labels()(out@[p], out@[q]));
            lemma_precedes_total(out@[p].label@, out@[q].label@);
        }
        assert forall|t: Seq<char>| #[trigger] key_views(names@).contains(t) <==> how_many(all, t)
            > 0 by {
            lemma_count_zero(all, carries(t));
            if how_many(all, t) > 0 {
                let k = choose|k: int| 0 <= k < all.len() && carries(t)(#[trigger] all[k]);
                assert(all[k].contains(t));
            } else if key_views(names@).contains(t) {
                let k = choose|k: int| 0 <= k < all.len() && (#[trigger] all[k]).contains(t);
                assert(carries(t)(all[k]));
            }
        }
        assert forall|p: int| 0 <= p < out@.len() implies (#[trigger] out@[p]).count == how_many(
            all,
            out@[p].label@,
        ) && out@[p].count > 0 by {
            assert(out@.contains(out@[p]));
            lemma_sorted_contains(list, by_count(), out@[p]);
            let k = choose|k: int| 0 <= k < list.len() && list[k] == out@[p];
            assert(key_views(names@)[k] == list[k].label@);
            assert(key_views(names@).contains(list[k].label@));
        }
        assert forall|t: Seq<char>| #[trigger] tallied(out@, t) <==> how_many(all, t) > 0 by {
            if tallied(out@, t) {
                let p = choose|p: int| 0 <= p < out@.len() && (#[trigger] out@[p]).label@ == t;
                assert(out@[p].count > 0);
            }
            if how_many(all, t) > 0 {
                assert(key_views(names@).contains(t));
                let k = choose|k: int| 0 <= k < names@.len() && key_views(names@)[k] == t;
                assert(list[k].label@ == t);
                assert(list.contains(list[k]));
                lemma_sorted_contains(list, by_count(), list[k]);
                let p = choose|p: int| 0 <= p < out@.len() && out@[p] == list[k];
                assert(out@[p].label@ == t);
            }
        }
    }
    out
}

} // verus!
