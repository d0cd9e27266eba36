//! Titles: how they are compared, and how alike they are.

use vstd::prelude::*;
use crate::catalog_index::{
    best_link, first_exact, fuzzily_linked, linkable, preferred, wins, TitleEntry,
};
use crate::genres::{unaccented, without_accents};
use crate::matching::{
    base_of, best_score, candidate_score, dedup_key, different_work, edit_distance, edit_similarity,
    greatest, law_edit_distance_reflexive, lemma_edit_distance_bounded, match_score, matched,
    normalized, share, texts, title_words, without_noise, word_overlap, word_set, MatchResult,
    TitleCandidate, FUZZY_LINK_THRESHOLD, MATCH_THRESHOLD, PART_ONE, SCORE_ONE, SEASON_BONUS,
};
use crate::text::{
    ascii_lower, ascii_text, folded, join, law_split_undoes_join, lemma_join_holds, lowercase,
    words, WordKind,
};

verus! {

/// The scores that decide, relative to a perfect match.
pub proof fn law_thresholds()
    ensures
        100 * MATCH_THRESHOLD == 72 * SCORE_ONE,
        100 * FUZZY_LINK_THRESHOLD == 84 * SCORE_ONE,
        10 * SEASON_BONUS == 9 * SCORE_ONE,
        10 * PART_ONE == SCORE_ONE,
{
}

/// Whether a character is an ASCII small letter or a digit.
pub open spec fn plain_char(c: char) -> bool {
    ('a' <= c && c <= 'z') || ('0' <= c && c <= '9')
}

/// Whether words are made of ASCII small letters and digits.
pub open spec fn plain_words(w: Seq<Seq<char>>) -> bool {
    &&& forall|i: int| 0 <= i < w.len() ==> #[trigger] w[i].len() > 0
    &&& forall|i: int, j: int|
        0 <= i < w.len() && 0 <= j < w[i].len() ==> plain_char(#[trigger] w[i][j])
}

/// A title of plain words that does not end in noise is left as it is.
pub proof fn law_plain_title_is_kept(w: Seq<Seq<char>>)
    requires
        plain_words(w),
        w.len() > 0 ==> w.last() != "latino"@ && w.last() != "castellano"@ && w.last() != "hd"@
            && w.last() != "online"@,
        w.len() > 1 ==> !(w[w.len() - 2] == "sub"@ && w.last() == "espanol"@),
    ensures
        normalized(join(w)) == join(w),
        title_words(join(w)) == w,
{
    let s = join(w);
    lemma_plain_text(w);
    assert(without_noise(w) == w);
}

pub proof fn lemma_plain_text(w: Seq<Seq<char>>)
    requires
        plain_words(w),
    ensures
        lowercase(without_accents(join(w))) == join(w),
        words(join(w), WordKind::Alphanumeric) == w,
        ascii_text(join(w)),
{
    let s = join(w);
    let p = |c: char| c == ' ' || plain_char(c);
    assert forall|i: int, j: int| 0 <= i < w.len() && 0 <= j < w[i].len() implies p(
        #[trigger] w[i][j],
    ) by {
        assert(plain_char(w[i][j]));
    }
    lemma_join_holds(w, p);
    assert forall|i: int, j: int|
        0 <= i < w.len() && 0 <= j < w[i].len() implies WordKind::Alphanumeric.holds(
        #[trigger] w[i][j],
    ) by {
        assert(plain_char(w[i][j]));
    }
    law_split_undoes_join(w, WordKind::Alphanumeric);
    assert forall|i: int| 0 <= i < s.len() implies unaccented(#[trigger] s[i]) == s[i] && ascii_lower(
        s[i],
    ) == s[i] && s[i] < '\u{80}' by {
        assert(p(s[i]));
    }
    assert(without_accents(s) =~= s);
    assert(folded(s) =~= s);
}

/// The case of the letters of an ASCII title does not count.
pub proof fn law_case_of_title_does_not_count(a: Seq<char>, b: Seq<char>)
    requires
        ascii_text(a),
        ascii_text(b),
        folded(a) == folded(b),
    ensures
        normalized(a) == normalized(b),
{
    lemma_ascii_unaccented(a);
    lemma_ascii_unaccented(b);
}

proof fn lemma_ascii_unaccented(a: Seq<char>)
    requires
        ascii_text(a),
    ensures
        without_accents(a) == a,
{
    assert forall|i: int| 0 <= i < a.len() implies unaccented(#[trigger] a[i]) == a[i] by {
        assert(a[i] < '\u{80}');
    }
    assert(without_accents(a) =~= a);
}

/// Accents do not count.
pub proof fn law_accents_of_title_do_not_count(title: Seq<char>)
    ensures
        normalized(without_accents(title)) == normalized(title),
{
    assert(without_accents(without_accents(title)) =~= without_accents(title));
}

/// The accents that are stripped, and the letters that they are stripped from.
pub proof fn law_accents(c: char)
    ensures
        "áàäâ"@.contains(c) ==> unaccented(c) == 'a',
        "éèëê"@.contains(c) ==> unaccented(c) == 'e',
        "íìïî"@.contains(c) ==> unaccented(c) == 'i',
        "óòöô"@.contains(c) ==> unaccented(c) == 'o',
        "úùüû"@.contains(c) ==> unaccented(c) == 'u',
        "ÁÀÄÂ"@.contains(c) ==> unaccented(c) == 'A',
        "ÉÈËÊ"@.contains(c) ==> unaccented(c) == 'E',
        "ÍÌÏÎ"@.contains(c) ==> unaccented(c) == 'I',
        "ÓÒÖÔ"@.contains(c) ==> unaccented(c) == 'O',
        "ÚÙÜÛ"@.contains(c) ==> unaccented(c) == 'U',
        c == 'ñ' ==> unaccented(c) == 'n',
        c == 'Ñ' ==> unaccented(c) == 'N',
        unaccented(c) != c ==> c >= '\u{c0}' && (('a' <= unaccented(c) <= 'z' && c >= '\u{e0}') || (
        'A' <= unaccented(c) <= 'Z' && c < '\u{e0}')),
{
    reveal_strlit("áàäâ");
    reveal_strlit("éèëê");
    reveal_strlit("íìïî");
    reveal_strlit("óòöô");
    reveal_strlit("úùüû");
    reveal_strlit("ÁÀÄÂ");
    reveal_strlit("ÉÈËÊ");
    reveal_strlit("ÍÌÏÎ");
    reveal_strlit("ÓÒÖÔ");
    reveal_strlit("ÚÙÜÛ");
}

/// A share is the part of the whole, rounded up to a unit.
pub proof fn law_share(part: nat, whole: nat)
    requires
        whole > 0,
    ensures
        part * PART_ONE <= share(part, whole) * whole < part * PART_ONE + whole,
        part == whole ==> share(part, whole) == PART_ONE,
        part == 0 ==> share(part, whole) == 0,
{
    let x = part * PART_ONE + whole - 1;
    let w = whole as int;
    assert(part * PART_ONE >= 0) by (nonlinear_arith)
        requires
            part >= 0,
    ;
    vstd::arithmetic::div_mod::lemma_fundamental_div_mod(x as int, w);
    let q = x as int / w;
    assert(q * w == w * q) by (nonlinear_arith);
    assert(share(part, whole) == q);
    if part == whole {
        assert(x == w * PART_ONE + (w - 1)) by (nonlinear_arith)
            requires
                x == part * PART_ONE + whole - 1,
                part == w,
                whole == w,
        ;
        vstd::arithmetic::div_mod::lemma_fundamental_div_mod_converse(
            x as int,
            w,
            PART_ONE as int,
            w - 1,
        );
    }
    if part == 0 {
        vstd::arithmetic::div_mod::lemma_basic_div(w - 1, w);
    }
}

/// How alike two texts are by their letters: the part of the longer one that need
/// not be edited. It is all of it exactly for equal texts.
pub proof fn law_likeness_of_letters(a: Seq<char>, b: Seq<char>)
    requires
        a.len() > 0 || b.len() > 0,
    ensures
        ({
            let longer = greatest(a.len(), b.len()) as int;
            let kept = longer - edit_distance(a, b);
            &&& 0 <= kept
            &&& kept * PART_ONE <= edit_similarity(a, b) * longer < kept * PART_ONE + longer
            &&& longer >= a.len() && longer >= b.len() && (longer == a.len() || longer == b.len())
        }),
        a == b ==> edit_similarity(a, b) == PART_ONE,
{
    lemma_edit_distance_bounded(a, b);
    let longer = greatest(a.len(), b.len());
    let kept = (longer - edit_distance(a, b)) as nat;
    law_share(kept, longer);
    if a == b {
        law_edit_distance_reflexive(a);
    }
}

/// How alike two texts are by their words: the part of the words of either that is
/// words of both.
pub proof fn law_likeness_of_words(a: Seq<char>, b: Seq<char>)
    requires
        words(a, WordKind::Visible).len() > 0 || words(b, WordKind::Visible).len() > 0,
    ensures
        ({
            let x = words(a, WordKind::Visible).to_set();
            let y = words(b, WordKind::Visible).to_set();
            let all = x.union(y).len() as int;
            let both = x.intersect(y).len() as int;
            &&& all > 0
            &&& both * PART_ONE <= word_overlap(a, b) * all < both * PART_ONE + all
            &&& both == 0 ==> word_overlap(a, b) == 0
            &&& both == all ==> word_overlap(a, b) == PART_ONE
        }),
{
    broadcast use vstd::seq_lib::seq_to_set_is_finite;

    let x = word_set(a);
    let y = word_set(b);
    let all = x + y;
    let u = x.union(y);
    assert(all =~= u);
    if words(a, WordKind::Visible).len() > 0 {
        assert(words(a, WordKind::Visible).contains(words(a, WordKind::Visible)[0]));
        assert(u.contains(words(a, WordKind::Visible)[0]));
    } else {
        assert(words(b, WordKind::Visible).contains(words(b, WordKind::Visible)[0]));
        assert(u.contains(words(b, WordKind::Visible)[0]));
    }
    assert(u.len() > 0);
    law_share(x.intersect(y).len(), u.len());
}

/// The score of titles that are not equal, no seasons of one show and no work that
/// reuses the other's name: six parts of ten for the words, four for the letters.
pub proof fn law_score_weighs_words_and_letters(a: Seq<char>, b: Seq<char>)
    requires
        a != b,
        !different_work(a, b),
        base_of(a) != base_of(b),
    ensures
        match_score(a, b) == 6 * word_overlap(a, b) + 4 * edit_similarity(a, b),
{
}

/// Of several titles the best score counts: no title scores higher, and one scores
/// that much where there is any.
pub proof fn law_best_score(queries: Seq<Seq<char>>, candidate: Seq<char>)
    ensures
        forall|i: int|
            0 <= i < queries.len() ==> match_score(normalized(#[trigger] queries[i]), candidate)
                <= best_score(queries, candidate),
        queries.len() > 0 ==> exists|i: int|
            0 <= i < queries.len() && match_score(normalized(#[trigger] queries[i]), candidate)
                == best_score(queries, candidate),
        queries.len() == 0 ==> best_score(queries, candidate) == 0,
    decreases queries.len(),
{
    if queries.len() > 0 {
        let init = queries.drop_last();
        let n = queries.len() - 1;
        law_best_score(init, candidate);
        assert forall|i: int| 0 <= i < queries.len() implies match_score(
            normalized(#[trigger] queries[i]),
            candidate,
        ) <= best_score(queries, candidate) by {
            if i < n {
                assert(init[i] == queries[i]);
            }
        }
        if match_score(normalized(queries[n]), candidate) < best_score(queries, candidate) {
            if init.len() > 0 {
                let i = choose|i: int|
                    0 <= i < init.len() && match_score(normalized(#[trigger] init[i]), candidate)
                        == best_score(init, candidate);
                assert(init[i] == queries[i]);
            }
        } else {
            assert(match_score(normalized(queries[n]), candidate) == best_score(queries, candidate));
        }
    }
}

/// Titles with the same base have the same key, which holds the base's characters
/// without the spaces; it is that of the whole title where the base is empty.
pub proof fn law_dedup_key(a: Seq<char>, b: Seq<char>)
    ensures
        base_of(normalized(a)) == base_of(normalized(b)) && base_of(normalized(a)).len() > 0
            ==> dedup_key(a) == dedup_key(b),
        base_of(normalized(a)).len() > 0 ==> dedup_key(a) == base_of(normalized(a)).filter(
            |c: char| WordKind::Visible.holds(c),
        ),
        base_of(normalized(a)).len() == 0 ==> dedup_key(a) == normalized(a).filter(
            |c: char| WordKind::Visible.holds(c),
        ),
{
    crate::laws::texts::law_words_hold_all(base_of(normalized(a)), WordKind::Visible);
    crate::laws::texts::law_words_hold_all(base_of(normalized(b)), WordKind::Visible);
    crate::matching::law_base_is_stripped(normalized(a));
    let w = words(base_of(normalized(a)), WordKind::Visible);
    if w.len() > 0 {
        crate::text::lemma_words_are_runs(base_of(normalized(a)), WordKind::Visible);
        assert(w[w.len() - 1].len() > 0);
    }
    crate::laws::texts::law_words_hold_all(normalized(a), WordKind::Visible);
    crate::laws::texts::law_words_hold_all(normalized(b), WordKind::Visible);
}

/// The more popular of two entries with one title is linked, and of equally
/// popular ones the one with the lower id.
pub proof fn law_popular_entry_wins(id: i64, popularity: i64, other: i64, others: i64)
    ensures
        popularity > others ==> wins(id, popularity, (other, others)) && !wins(
            other,
            others,
            (id, popularity),
        ),
        popularity == others && id < other ==> wins(id, popularity, (other, others)) && !wins(
            other,
            others,
            (id, popularity),
        ),
        !wins(id, popularity, (id, popularity)),
{
}

/// The first of some titles that an entry has links to that entry.
pub proof fn law_first_title_links(entries: Seq<TitleEntry>, candidates: Seq<Seq<char>>)
    ensures
        first_exact(entries, candidates) is None <==> forall|i: int, e: int|
            #![trigger candidates[i], entries[e]]
            0 <= i < candidates.len() && 0 <= e < entries.len() ==> entries[e].norm != normalized(
                candidates[i],
            ),
        first_exact(entries, candidates) matches Some(id) ==> exists|i: int|
            0 <= i < candidates.len() && (preferred(
                entries,
                normalized(#[trigger] candidates[i]),
            ) matches Some(row) && row.0 == id) && forall|k: int|
                0 <= k < i ==> preferred(entries, normalized(#[trigger] candidates[k])) is None,
    decreases candidates.len(),
{
    if candidates.len() > 0 {
        let rest = candidates.drop_first();
        law_first_title_links(entries, rest);
        crate::catalog_index::law_preferred_wins(entries, normalized(candidates[0]));
        if preferred(entries, normalized(candidates[0])) is Some {
            let e = choose|e: int|
                0 <= e < entries.len() && (#[trigger] entries[e]).norm == normalized(candidates[0]);
            assert(entries[e].norm == normalized(candidates[0]));
        } else {
            if first_exact(entries, candidates) is Some {
                let id = first_exact(entries, candidates)->0;
                let i = choose|i: int|
                    0 <= i < rest.len() && (preferred(
                        entries,
                        normalized(#[trigger] rest[i]),
                    ) matches Some(row) && row.0 == id) && forall|k: int|
                        0 <= k < i ==> preferred(entries, normalized(#[trigger] rest[k])) is None;
                assert(candidates[i + 1] == rest[i]);
                assert forall|k: int| 0 <= k < i + 1 implies preferred(
                    entries,
                    normalized(#[trigger] candidates[k]),
                ) is None by {
                    if k > 0 {
                        assert(rest[k - 1] == candidates[k]);
                    }
                }
                crate::catalog_index::law_preferred_wins(entries, normalized(candidates[i + 1]));
                let e = choose|e: int|
                    0 <= e < entries.len() && (#[trigger] entries[e]).norm == normalized(
                        candidates[i + 1],
                    );
                assert(entries[e].norm == normalized(candidates[i + 1]));
            } else {
                assert forall|i: int, e: int|
                    #![trigger candidates[i], entries[e]]
                    0 <= i < candidates.len() && 0 <= e < entries.len() implies entries[e].norm
                    != normalized(candidates[i]) by {
                    if i > 0 {
                        assert(rest[i - 1] == candidates[i]);
                    }
                }
            }
        }
    }
}

/// A short single word is no ground to take two titles for seasons of one show: they
/// score what their words and letters do.
pub proof fn law_short_base_has_no_bonus(a: Seq<char>, b: Seq<char>)
    requires
        a != b,
        !different_work(a, b),
        words(base_of(a), WordKind::Visible).len() < 2,
        base_of(a).len() < 4,
    ensures
        match_score(a, b) == 6 * word_overlap(a, b) + 4 * edit_similarity(a, b),
{
}

/// A title that goes on with more than a season is another work, and scores nothing;
/// a title and its seasons with a base of two words, or of four letters, score at
/// least nine tenths.
pub proof fn law_score_of_works_and_seasons(a: Seq<char>, b: Seq<char>)
    ensures
        a != b && different_work(a, b) ==> match_score(a, b) == 0,
        !different_work(a, b) && base_of(a) == base_of(b) && (words(
            base_of(a),
            WordKind::Visible,
        ).len() >= 2 || base_of(a).len() >= 4) ==> 10 * match_score(a, b) >= 9 * SCORE_ONE,
{
    if base_of(a).len() == 0 {
        crate::matching::law_base_is_stripped(a);
        crate::text::lemma_words_are_runs(base_of(a), WordKind::Visible);
        assert(words(base_of(a), WordKind::Visible).len() == 0);
    }
}

/// A candidate's score is the best that one of the titles asked for gives it.
pub proof fn law_candidate_score(
    queries: Seq<&str>,
    candidates: Seq<TitleCandidate>,
    i: int,
    q: int,
)
    requires
        0 <= q < queries.len(),
    ensures
        match_score(normalized(queries[q]@), normalized(candidates[i].title@)) <= candidate_score(
            queries,
            candidates,
            i,
        ),
        exists|k: int|
            0 <= k < queries.len() && candidate_score(queries, candidates, i) == match_score(
                normalized((#[trigger] queries[k])@),
                normalized(candidates[i].title@),
            ),
{
    let all = texts(queries);
    let c = normalized(candidates[i].title@);
    law_best_score(all, c);
    assert(all[q] == queries[q]@);
    let k = choose|k: int|
        0 <= k < all.len() && match_score(normalized(#[trigger] all[k]), c) == best_score(all, c);
    assert(all[k] == queries[k]@);
}

/// The best link scores no less than any other, and is of an entry no less popular
/// than that of any other that scores as much.
pub proof fn law_best_link(
    queries: Seq<&str>,
    entries: Seq<TitleEntry>,
    q: int,
    e: int,
    p: int,
    d: int,
)
    requires
        best_link(queries, entries, q, e),
        0 <= p < queries.len(),
        0 <= d < entries.len(),
        linkable(queries[p]@, entries[d]),
    ensures
        linkable(queries[q]@, entries[e]),
        match_score(normalized(queries[p]@), entries[d].norm) <= match_score(
            normalized(queries[q]@),
            entries[e].norm,
        ),
        match_score(normalized(queries[p]@), entries[d].norm) == match_score(
            normalized(queries[q]@),
            entries[e].norm,
        ) ==> entries[d].popularity <= entries[e].popularity,
{
}

/// The best match: no candidate scores higher, and those before it score less; there
/// is one exactly where some candidate scores at least seventy-two in a hundred.
pub proof fn law_best_match(
    r: Option<MatchResult>,
    queries: Seq<&str>,
    candidates: Seq<TitleCandidate>,
    i: int,
)
    requires
        matched(r, queries, candidates),
        0 <= i < candidates.len(),
    ensures
        100 * candidate_score(queries, candidates, i) >= 72 * SCORE_ONE ==> r is Some,
        r matches Some(m) ==> {
            &&& m.index < candidates.len()
            &&& m.score == candidate_score(queries, candidates, m.index as int)
            &&& 100 * m.score >= 72 * SCORE_ONE
            &&& candidate_score(queries, candidates, i) <= m.score
            &&& candidate_score(queries, candidates, i) == m.score ==> m.index <= i
        },
{
}

/// Titles are linked where some link is there, to the entry of the best one.
pub proof fn law_linked_by_likeness(
    r: Option<i64>,
    queries: Seq<&str>,
    entries: Seq<TitleEntry>,
    q: int,
    e: int,
)
    requires
        fuzzily_linked(r, queries, entries),
        0 <= q < queries.len(),
        0 <= e < entries.len(),
        linkable(queries[q]@, entries[e]),
    ensures
        r is Some,
        exists|p: int, d: int|
            0 <= p < queries.len() && 0 <= d < entries.len() && entries[d].id == r->0
                && #[trigger] linkable(queries[p]@, entries[d]) && match_score(
                normalized(queries[q]@),
                entries[e].norm,
            ) <= match_score(normalized(queries[p]@), entries[d].norm),
{
    assert(r is Some);
    let (p, d) = choose|p: int, d: int|
        0 <= p < queries.len() && 0 <= d < entries.len() && entries[d].id == r->0
            && #[trigger] best_link(queries, entries, p, d);
    law_best_link(queries, entries, p, d, q, e);
    assert(linkable(queries[p]@, entries[d]));
}

} // verus!
