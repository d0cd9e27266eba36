//! Fuzzy title matching between catalog titles (romaji or English) and the
//! titles that sites show (Spanish or romaji, with noise such as "Sub Español",
//! season suffixes and punctuation).
//!
//! A match score is a whole number of units, [`SCORE_ONE`] of which stand for a
//! perfect match.

use vstd::prelude::*;
use crate::genres::{strip_accents, unaccented, without_accents};
use crate::text::{
    are_words, ascii_alphanumeric, ascii_int, ascii_lower, ascii_text, chars_of, concat_words,
    concatenation, copy_range, folded, is_ascii_int, join, join_words, law_separators_do_not_count,
    law_split_undoes_join, lemma_concatenation_holds, lemma_join_holds, lemma_join_nonempty,
    lemma_words_append, lemma_words_are_runs, lemma_words_hold, lowercase, same_chars,
    same_words_in_place, spellings, spells, split_words, text_of, white_space, words, WordKind,
};

verus! {

/// The score of a perfect match.
pub const SCORE_ONE: u64 = 10_000_000_000_000_000;

/// Below this score (0.72 of a perfect match) nothing is reported as a match:
/// a wrong automatic link is worse than an unlinked title.
pub const MATCH_THRESHOLD: u64 = 7_200_000_000_000_000;

/// Minimum score (0.84 of a perfect match) for linking a series unattended.
pub const FUZZY_LINK_THRESHOLD: u64 = 8_400_000_000_000_000;

/// The least score (0.9 of a perfect match) of two titles of one franchise.
pub const SEASON_BONUS: u64 = 9_000_000_000_000_000;

/// The units in which the two parts of a score are measured before they are
/// weighted six to four.
pub const PART_ONE: u64 = 1_000_000_000_000_000;

/// Whether a word list ends in a one-word noise suffix.
pub open spec fn ends_in_noise_word(w: Seq<Seq<char>>) -> bool {
    w.len() > 0 && (w.last() == "latino"@ || w.last() == "castellano"@ || w.last() == "hd"@
        || w.last() == "online"@)
}

/// Whether a word list ends in the two-word noise suffix.
pub open spec fn ends_in_sub_espanol(w: Seq<Seq<char>>) -> bool {
    w.len() > 1 && w[w.len() - 2] == "sub"@ && w.last() == "espanol"@
}

/// A word list without the noise suffixes at its end.
pub open spec fn without_noise(w: Seq<Seq<char>>) -> Seq<Seq<char>>
    decreases w.len(),
{
    if ends_in_noise_word(w) {
        without_noise(w.drop_last())
    } else if ends_in_sub_espanol(w) {
        without_noise(w.take(w.len() - 2))
    } else {
        w
    }
}

/// The words that a normalized title consists of: the runs of letters and
/// numbers of the title without accents and in lower case, less the noise that
/// sites put at the end.
pub open spec fn title_words(title: Seq<char>) -> Seq<Seq<char>> {
    without_noise(words(lowercase(without_accents(title)), WordKind::Alphanumeric))
}

/// A title as it is compared: its words with single spaces between them.
pub open spec fn normalized(title: Seq<char>) -> Seq<char> {
    join(title_words(title))
}

/// Drops the noise suffixes at the end of a word list.
fn strip_noise_suffixes(list: &mut Vec<Vec<char>>)
    ensures
        spellings(final(list)@) == without_noise(spellings(old(list)@)),
{
    loop
        invariant
            without_noise(spellings(list@)) == without_noise(spellings(old(list)@)),
        ensures
            spellings(list@) == without_noise(spellings(old(list)@)),
        decreases list.len(),
    {
        let n: usize = list.len();
        if n > 0 && (spells(&list[n - 1], "latino") || spells(&list[n - 1], "castellano") || spells(
            &list[n - 1],
            "hd",
        ) || spells(&list[n - 1], "online")) {
            let ghost before = spellings(list@);
            list.pop();
            assert(spellings(list@) == before.drop_last());
        } else if n > 1 && spells(&list[n - 2], "sub") && spells(&list[n - 1], "espanol") {
            let ghost before = spellings(list@);
            list.pop();
            list.pop();
            assert(spellings(list@) == before.take(before.len() - 2));
        } else {
            break;
        }
    }
}

/// The words of a normalized title.
fn normalized_words(title: &str) -> (r: Vec<Vec<char>>)
    ensures
        spellings(r@) == title_words(title@),
{
    let plain = strip_accents(title);
    let lower = plain.as_str().to_lowercase();
    let chars = chars_of(lower.as_str());
    let mut list = split_words(&chars, WordKind::Alphanumeric);
    strip_noise_suffixes(&mut list);
    list
}

/// A title as it is compared: lower case, no accents, anything but letters and
/// numbers collapsed to single spaces, and without the noise that sites put at
/// the end ("Sub Español", "Latino", "Castellano", "HD", "Online").
pub fn normalize_title(s: &str) -> (r: String)
    ensures
        r@ == normalized(s@),
{
    let list = normalized_words(s);
    text_of(&join_words(&list))
}

/// Edit distance: the least number of insertions, deletions and substitutions
/// of one character that turn `a` into `b`.
pub open spec fn edit_distance(a: Seq<char>, b: Seq<char>) -> nat
    decreases a.len() + b.len(),
{
    if a.len() == 0 {
        b.len()
    } else if b.len() == 0 {
        a.len()
    } else {
        let cost: nat = if a.last() == b.last() { 0 } else { 1 };
        least(
            least(edit_distance(a.drop_last(), b) + 1, edit_distance(a, b.drop_last()) + 1),
            edit_distance(a.drop_last(), b.drop_last()) + cost,
        )
    }
}

/// The smaller of two numbers.
pub open spec fn least(x: nat, y: nat) -> nat {
    if x <= y { x } else { y }
}

/// The larger of two numbers.
pub open spec fn greatest(x: nat, y: nat) -> nat {
    if x >= y { x } else { y }
}

/// The edit distance is at most the length of the longer text.
pub proof fn lemma_edit_distance_bounded(a: Seq<char>, b: Seq<char>)
    ensures
        edit_distance(a, b) <= greatest(a.len(), b.len()),
    decreases a.len() + b.len(),
{
    if a.len() > 0 && b.len() > 0 {
        lemma_edit_distance_bounded(a.drop_last(), b.drop_last());
    }
}

/// The edit distance from a text to itself is zero.
pub proof fn law_edit_distance_reflexive(a: Seq<char>)
    ensures
        edit_distance(a, a) == 0,
    decreases a.len(),
{
    if a.len() > 0 {
        law_edit_distance_reflexive(a.drop_last());
    }
}

/// The edit distance is the same in both directions.
pub proof fn law_edit_distance_symmetric(a: Seq<char>, b: Seq<char>)
    ensures
        edit_distance(a, b) == edit_distance(b, a),
    decreases a.len() + b.len(),
{
    if a.len() > 0 && b.len() > 0 {
        law_edit_distance_symmetric(a.drop_last(), b);
        law_edit_distance_symmetric(a, b.drop_last());
        law_edit_distance_symmetric(a.drop_last(), b.drop_last());
    }
}

/// Only equal texts are at edit distance zero.
pub proof fn law_edit_distance_separates(a: Seq<char>, b: Seq<char>)
    ensures
        edit_distance(a, b) == 0 ==> a == b,
    decreases a.len() + b.len(),
{
    if a.len() > 0 && b.len() > 0 {
        law_edit_distance_separates(a.drop_last(), b.drop_last());
        if a.last() == b.last() && a.drop_last() == b.drop_last() {
            assert(a =~= a.drop_last().push(a.last()));
            assert(b =~= b.drop_last().push(b.last()));
        }
    } else {
        if edit_distance(a, b) == 0 {
            assert(a =~= b);
        }
    }
}

/// The edit distance between two texts.
pub fn levenshtein(a: &Vec<char>, b: &Vec<char>) -> (r: usize)
    ensures
        r == edit_distance(a@, b@),
{
    let n: usize = a.len();
    let m: usize = b.len();
    if n == 0 {
        return m;
    }
    if m == 0 {
        return n;
    }
    let mut row: Vec<usize> = Vec::new();
    let mut j: usize = 0;
    while j < m
        invariant
            j <= m,
            m == b@.len(),
            row.len() == j,
            forall|k: int| 0 <= k < j ==> #[trigger] row@[k] == k + 1,
        decreases m - j,
    {
        j += 1;
        row.push(j);
    }
    // row[k] is the distance from the first `i` characters of `a` to the first
    // `k + 1` characters of `b`.
    assert(a@.take(0) =~= Seq::<char>::empty());
    let mut i: usize = 0;
    while i < n
        invariant
            i <= n,
            n == a@.len(),
            m == b@.len(),
            m > 0,
            row.len() == m,
            forall|k: int|
                0 <= k < m ==> #[trigger] row@[k] == edit_distance(a@.take(i as int), b@.take(k + 1)),
        decreases n - i,
    {
        let mut diagonal: usize = i;
        let mut left: usize = i + 1;
        let ghost above = a@.take(i as int);
        let ghost here = a@.take(i + 1);
        assert(here.drop_last() =~= above);
        assert(here.last() == a@[i as int]);
        assert(b@.take(0) =~= Seq::<char>::empty());
        let mut j: usize = 0;
        while j < m
            invariant
                j <= m,
                i < n,
                n == a@.len(),
                m == b@.len(),
                row.len() == m,
                above == a@.take(i as int),
                here == a@.take(i + 1),
                here.drop_last() == above,
                here.last() == a@[i as int],
                diagonal == edit_distance(above, b@.take(j as int)),
                left == edit_distance(here, b@.take(j as int)),
                forall|k: int|
                    0 <= k < j ==> #[trigger] row@[k] == edit_distance(here, b@.take(k + 1)),
                forall|k: int|
                    j <= k < m ==> #[trigger] row@[k] == edit_distance(above, b@.take(k + 1)),
            decreases m - j,
        {
            let ghost target = b@.take(j + 1);
            assert(target.drop_last() =~= b@.take(j as int));
            assert(target.last() == b@[j as int]);
            let up: usize = row[j];
            proof {
                lemma_edit_distance_bounded(above, target);
                lemma_edit_distance_bounded(here, b@.take(j as int));
                lemma_edit_distance_bounded(above, b@.take(j as int));
            }
            let best: usize = if a[i] == b[j] {
                smallest(up, left, diagonal)
            } else {
                smallest_plus_one(up, left, diagonal)
            };
            diagonal = up;
            left = best;
            row.set(j, best);
            j += 1;
        }
        i += 1;
    }
    assert(a@.take(n as int) =~= a@);
    assert(b@.take(m as int) =~= b@);
    row[m - 1]
}

/// The least of `up + 1`, `left + 1` and `diagonal`.
fn smallest(up: usize, left: usize, diagonal: usize) -> (r: usize)
    ensures
        r == least(least((up + 1) as nat, (left + 1) as nat), diagonal as nat),
{
    let side: usize = if up < left { up } else { left };
    if diagonal <= side { diagonal } else { side + 1 }
}

/// One more than the least of the three.
fn smallest_plus_one(up: usize, left: usize, diagonal: usize) -> (r: usize)
    requires
        least(least(up as nat, left as nat), diagonal as nat) < usize::MAX,
    ensures
        r == least(least((up + 1) as nat, (left + 1) as nat), (diagonal + 1) as nat),
{
    let side: usize = if up < left { up } else { left };
    if diagonal <= side { diagonal + 1 } else { side + 1 }
}

/// `part` out of `whole`, rounded up to a whole number of units.
pub open spec fn share(part: nat, whole: nat) -> nat {
    (part * PART_ONE + whole - 1) as nat / whole
}

/// How much of the longer text two texts have in common by edit distance.
pub open spec fn edit_similarity(a: Seq<char>, b: Seq<char>) -> nat {
    let longer = greatest(a.len(), b.len());
    if longer == 0 {
        PART_ONE as nat
    } else {
        share((longer - edit_distance(a, b)) as nat, longer)
    }
}

/// The set of a text's words.
pub open spec fn word_set(s: Seq<char>) -> Set<Seq<char>> {
    words(s, WordKind::Visible).to_set()
}

/// How many of the words of two texts are words of both.
pub open spec fn word_overlap(a: Seq<char>, b: Seq<char>) -> nat {
    if (word_set(a) + word_set(b)).len() == 0 {
        PART_ONE as nat
    } else {
        share(word_set(a).intersect(word_set(b)).len(), (word_set(a) + word_set(b)).len())
    }
}

/// A share is at most one, and none of a whole is nothing.
proof fn lemma_share_bounded(part: nat, whole: nat)
    requires
        0 < whole,
        part <= whole,
    ensures
        share(part, whole) <= PART_ONE,
{
    assert(part * PART_ONE + whole - 1 < whole * (PART_ONE + 1)) by (nonlinear_arith)
        requires
            part <= whole,
            0 < whole,
    ;
    vstd::arithmetic::div_mod::lemma_multiply_divide_lt(
        part * PART_ONE + whole - 1,
        whole as int,
        PART_ONE + 1,
    );
}

/// `part` out of `whole`, rounded up to a whole number of units.
fn share_of(part: usize, whole: u128) -> (r: u64)
    requires
        0 < whole <= 0x2_0000_0000_0000_0000,
        part <= whole,
    ensures
        r == share(part as nat, whole as nat),
        r <= PART_ONE,
{
    proof {
        lemma_share_bounded(part as nat, whole as nat);
        assert(part * PART_ONE <= 0xffff_ffff_ffff_ffff * PART_ONE) by (nonlinear_arith)
            requires
                part <= 0xffff_ffff_ffff_ffff,
        ;
    }
    let q: u128 = (part as u128 * PART_ONE as u128 + whole - 1) / whole;
    q as u64
}

/// How much of the longer text two texts have in common by edit distance.
fn levenshtein_ratio(a: &Vec<char>, b: &Vec<char>) -> (r: u64)
    ensures
        r == edit_similarity(a@, b@),
        r <= PART_ONE,
{
    let longer: usize = if a.len() >= b.len() { a.len() } else { b.len() };
    if longer == 0 {
        return PART_ONE;
    }
    let distance: usize = levenshtein(a, b);
    proof {
        lemma_edit_distance_bounded(a@, b@);
    }
    share_of(longer - distance, longer as u128)
}

/// Whether a word occurs among the first `upto` words of a list.
fn occurs(list: &Vec<Vec<char>>, upto: usize, word: &Vec<char>) -> (r: bool)
    requires
        upto <= list@.len(),
    ensures
        r == spellings(list@).take(upto as int).contains(word@),
{
    let mut i: usize = 0;
    while i < upto
        invariant
            i <= upto <= list@.len(),
            !spellings(list@).take(i as int).contains(word@),
        decreases upto - i,
    {
        let ghost next = spellings(list@).take(i + 1);
        if same_chars(&list[i], word) {
            assert(spellings(list@).take(upto as int)[i as int] == word@);
            return true;
        }
        assert(next == spellings(list@).take(i as int).push(list@[i as int]@));
        i += 1;
        assert(!next.contains(word@)) by {
            vstd::seq_lib::lemma_seq_contains_after_push(
                spellings(list@).take(i - 1),
                list@[i - 1]@,
                word@,
            );
        }
    }
    false
}

/// How many different words `a` holds, and how many of them `b` holds too.
fn count_words(a: &Vec<Vec<char>>, b: &Vec<Vec<char>>) -> (r: (usize, usize))
    ensures
        r.0 == spellings(a@).to_set().len(),
        r.1 == spellings(a@).to_set().intersect(spellings(b@).to_set()).len(),
{
    let ghost wa = spellings(a@);
    let ghost wb = spellings(b@);
    let mut different: usize = 0;
    let mut shared: usize = 0;
    let mut i: usize = 0;
    proof {
        assert(wa.take(0).to_set() =~= Set::empty());
        assert(wa.take(0).to_set().intersect(wb.to_set()) =~= Set::empty());
        assert(wb.take(wb.len() as int) =~= wb);
    }
    while i < a.len()
        invariant
            i <= a.len(),
            wa == spellings(a@),
            wb == spellings(b@),
            wb.take(wb.len() as int) == wb,
            different <= i,
            shared <= i,
            different == wa.take(i as int).to_set().len(),
            shared == wa.take(i as int).to_set().intersect(wb.to_set()).len(),
        decreases a.len() - i,
    {
        let ghost before = wa.take(i as int);
        let ghost now = wa.take(i + 1);
        let ghost w = a@[i as int]@;
        proof {
            broadcast use vstd::seq_lib::seq_to_set_is_finite;
            assert(now =~= before.push(w));
            before.lemma_push_to_set_commute(w);
            if wb.contains(w) {
                assert(now.to_set().intersect(wb.to_set()) =~= before.to_set().intersect(
                    wb.to_set(),
                ).insert(w));
            } else {
                assert(now.to_set().intersect(wb.to_set()) =~= before.to_set().intersect(
                    wb.to_set(),
                ));
            }
        }
        if !occurs(a, i, &a[i]) {
            different += 1;
            if occurs(b, b.len(), &a[i]) {
                shared += 1;
            }
        } else {
            assert(before.to_set().insert(w) =~= before.to_set());
            assert(before.to_set().intersect(wb.to_set()).insert(w) =~= before.to_set().intersect(
                wb.to_set(),
            ) || !wb.contains(w));
        }
        i += 1;
    }
    assert(wa.take(i as int) =~= wa);
    (different, shared)
}

/// How many of the words of two texts are words of both.
fn jaccard(a: &Vec<char>, b: &Vec<char>) -> (r: u64)
    ensures
        r == word_overlap(a@, b@),
        r <= PART_ONE,
{
    let ta = split_words(a, WordKind::Visible);
    let tb = split_words(b, WordKind::Visible);
    let (different_a, shared) = count_words(&ta, &tb);
    let (different_b, _) = count_words(&tb, &ta);
    proof {
        broadcast use vstd::seq_lib::seq_to_set_is_finite;
        vstd::set_lib::lemma_set_intersect_union_lens(word_set(a@), word_set(b@));
        vstd::set_lib::lemma_len_intersect(word_set(a@), word_set(b@));
        assert(word_set(b@).intersect(word_set(a@)) =~= word_set(a@).intersect(word_set(b@)));
        vstd::set_lib::lemma_len_intersect(word_set(b@), word_set(a@));
    }
    let all: u128 = different_a as u128 + different_b as u128 - shared as u128;
    if all == 0 {
        return PART_ONE;
    }
    share_of(shared, all)
}

/// Words that denote a later season or part of the same show.
pub open spec fn season_marker(t: Seq<char>) -> bool {
    t == "season"@ || t == "temporada"@ || t == "part"@ || t == "parte"@ || t == "cour"@ || t
        == "final"@ || t == "the"@
}

/// The Roman numerals from two to ten.
pub open spec fn roman_numeral(t: Seq<char>) -> bool {
    t == "ii"@ || t == "iii"@ || t == "iv"@ || t == "v"@ || t == "vi"@ || t == "vii"@ || t
        == "viii"@ || t == "ix"@ || t == "x"@
}

/// An English ordinal in digits: "1st", "2nd", "3rd", "24th".
pub open spec fn ordinal(t: Seq<char>) -> bool {
    let head = t.take(t.len() - 2);
    let tail = t.skip(t.len() - 2);
    t.len() > 2 && ascii_int(head) && (tail == "st"@ || tail == "nd"@ || tail == "rd"@ || tail
        == "th"@)
}

/// A year from 1900 to 2099.
pub open spec fn year(t: Seq<char>) -> bool {
    t.len() == 4 && ascii_int(t) && (t.take(2) == "19"@ || t.take(2) == "20"@)
}

/// Whether a word at the end of a title only tells which season, part or
/// release it is.
pub open spec fn season_word(t: Seq<char>) -> bool {
    season_marker(t) || ordinal(t) || roman_numeral(t) || year(t)
}

/// Whether a title ends in a number that a season marker stands before.
pub open spec fn ends_in_numbered_season(w: Seq<Seq<char>>) -> bool {
    w.len() >= 2 && ascii_int(w.last()) && season_marker(w[w.len() - 2])
}

/// The words of a title without the season, part or year at its end. A bare
/// number goes only with a marker word before it.
pub open spec fn without_season(w: Seq<Seq<char>>) -> Seq<Seq<char>>
    decreases w.len(),
{
    if w.len() > 0 && season_word(w.last()) {
        without_season(w.drop_last())
    } else if ends_in_numbered_season(w) {
        without_season(w.take(w.len() - 2))
    } else {
        w
    }
}

/// The franchise base of a normalized title: the title without the season, part
/// or year at its end.
pub open spec fn base_of(norm: Seq<char>) -> Seq<char> {
    join(without_season(words(norm, WordKind::Visible)))
}

/// Whether two normalized titles are the same show but for a season, part or
/// year at the end. The shared base needs two words, or one of four characters.
pub open spec fn one_franchise(a: Seq<char>, b: Seq<char>) -> bool {
    &&& base_of(a) == base_of(b)
    &&& base_of(a).len() > 0
    &&& words(base_of(a), WordKind::Visible).len() >= 2 || base_of(a).len() >= 4
}

/// Whether the longer of two titles starts with the words of the shorter and
/// goes on with more than a season, part or year: a different work that reuses
/// the name.
pub open spec fn reuses_name(short: Seq<char>, long: Seq<char>) -> bool {
    let ws = words(short, WordKind::Visible);
    let wl = words(long, WordKind::Visible);
    0 < ws.len() < wl.len() && wl.take(ws.len() as int) == ws && base_of(long) != join(ws)
}

/// Whether one of two titles is a different work that reuses the other's name.
pub open spec fn different_work(a: Seq<char>, b: Seq<char>) -> bool {
    reuses_name(a, b) || reuses_name(b, a)
}

/// The score of a normalized title against another: one when they are equal,
/// nothing when one is a different work that reuses the other's name, and else
/// six parts of word overlap to four parts of edit similarity, raised to the
/// season bonus within a franchise.
pub open spec fn match_score(a: Seq<char>, b: Seq<char>) -> nat {
    let blend = 6 * word_overlap(a, b) + 4 * edit_similarity(a, b);
    if a == b {
        SCORE_ONE as nat
    } else if different_work(a, b) {
        0
    } else if one_franchise(a, b) {
        greatest(blend, SEASON_BONUS as nat)
    } else {
        blend
    }
}

/// Whether a word is a season marker.
pub fn is_season_marker(t: &Vec<char>) -> (r: bool)
    ensures
        r == season_marker(t@),
{
    spells(t, "season") || spells(t, "temporada") || spells(t, "part") || spells(t, "parte")
        || spells(t, "cour") || spells(t, "final") || spells(t, "the")
}

/// Whether a word is a Roman numeral from two to ten.
pub fn is_roman_numeral(t: &Vec<char>) -> (r: bool)
    ensures
        r == roman_numeral(t@),
{
    spells(t, "ii") || spells(t, "iii") || spells(t, "iv") || spells(t, "v") || spells(t, "vi")
        || spells(t, "vii") || spells(t, "viii") || spells(t, "ix") || spells(t, "x")
}

/// Whether a word is an ordinal in digits.
pub fn is_ordinal(t: &Vec<char>) -> (r: bool)
    ensures
        r == ordinal(t@),
{
    let n: usize = t.len();
    if n <= 2 {
        return false;
    }
    let tail = copy_range(t, n - 2, n);
    let head = copy_range(t, 0, n - 2);
    assert(tail@ =~= t@.skip(n - 2));
    assert(head@ =~= t@.take(n - 2));
    is_ascii_int(&head) && (spells(&tail, "st") || spells(&tail, "nd") || spells(&tail, "rd")
        || spells(&tail, "th"))
}

/// Whether a word is a year from 1900 to 2099.
fn is_year(t: &Vec<char>) -> (r: bool)
    ensures
        r == year(t@),
{
    if t.len() != 4 || !is_ascii_int(t) {
        return false;
    }
    let head = copy_range(t, 0, 2);
    assert(head@ =~= t@.take(2));
    spells(&head, "19") || spells(&head, "20")
}

/// The words of a normalized title without the season, part or year at its end.
fn base_words(norm: &Vec<char>) -> (r: Vec<Vec<char>>)
    ensures
        spellings(r@) == without_season(words(norm@, WordKind::Visible)),
{
    let mut list = split_words(norm, WordKind::Visible);
    let ghost all = spellings(list@);
    loop
        invariant
            without_season(spellings(list@)) == without_season(all),
        ensures
            spellings(list@) == without_season(all),
        decreases list.len(),
    {
        let n: usize = list.len();
        let ghost before = spellings(list@);
        if n == 0 {
            break;
        }
        if is_season_marker(&list[n - 1]) || is_ordinal(&list[n - 1]) || is_roman_numeral(
            &list[n - 1],
        ) || is_year(&list[n - 1]) {
            list.pop();
            assert(spellings(list@) == before.drop_last());
        } else if n >= 2 && is_ascii_int(&list[n - 1]) && is_season_marker(&list[n - 2]) {
            list.pop();
            list.pop();
            assert(spellings(list@) == before.take(before.len() - 2));
        } else {
            break;
        }
    }
    list
}

/// The franchise base of a normalized title.
pub fn franchise_base(norm: &Vec<char>) -> (r: Vec<char>)
    ensures
        r@ == base_of(norm@),
{
    let list = base_words(norm);
    join_words(&list)
}

/// Whether two normalized titles are the same show but for a season, part or
/// year at the end.
fn same_franchise(a: &Vec<char>, b: &Vec<char>) -> (r: bool)
    ensures
        r == one_franchise(a@, b@),
{
    let base = franchise_base(a);
    let list = split_words(&base, WordKind::Visible);
    assert(list@.len() == spellings(list@).len());
    if base.len() == 0 || (list.len() < 2 && base.len() < 4) {
        return false;
    }
    let other = franchise_base(b);
    same_chars(&base, &other)
}

/// A key under which unlinked titles of one show collapse across sites: the
/// franchise base of the title with its white space removed, or all of the
/// normalized title where nothing is left.
pub open spec fn dedup_key(title: Seq<char>) -> Seq<char> {
    let norm = normalized(title);
    let key = concatenation(words(base_of(norm), WordKind::Visible));
    if key.len() == 0 { concatenation(words(norm, WordKind::Visible)) } else { key }
}

/// A key under which unlinked titles of one show collapse across sites: the
/// normalized title without the season or part at its end and without white
/// space. It is empty only for a title that normalizes to nothing.
pub fn franchise_dedup_key(title: &str) -> (r: String)
    ensures
        r@ == dedup_key(title@),
        r@.len() == 0 <==> normalized(title@).len() == 0,
        forall|i: int| 0 <= i < r@.len() ==> !white_space(#[trigger] r@[i]),
{
    let norm = chars_of(normalize_title(title).as_str());
    let base = franchise_base(&norm);
    let mut list = split_words(&base, WordKind::Visible);
    let mut key = concat_words(&list);
    if key.len() == 0 {
        list = split_words(&norm, WordKind::Visible);
        key = concat_words(&list);
    }
    proof {
        lemma_words_are_runs(norm@, WordKind::Visible);
        lemma_words_are_runs(base@, WordKind::Visible);
        lemma_concatenation_holds(spellings(list@), WordKind::Visible);
        law_normalized_shape(title@);
        let w = title_words(title@);
        if w.len() > 0 {
            assert(w[w.len() - 1].len() > 0);
            lemma_join_nonempty(w);
        }
    }
    text_of(&key)
}

/// Whether `long` starts with the words of `short` and goes on with more than a
/// season, part or year.
fn extends_name(short: &Vec<char>, long: &Vec<char>) -> (r: bool)
    ensures
        r == reuses_name(short@, long@),
{
    let ws = split_words(short, WordKind::Visible);
    let wl = split_words(long, WordKind::Visible);
    assert(ws@.len() == spellings(ws@).len());
    assert(wl@.len() == spellings(wl@).len());
    if ws.len() == 0 || wl.len() <= ws.len() {
        return false;
    }
    let mut i: usize = 0;
    while i < ws.len()
        invariant
            i <= ws.len() < wl.len(),
            spellings(ws@) == words(short@, WordKind::Visible),
            spellings(wl@) == words(long@, WordKind::Visible),
            forall|k: int| 0 <= k < i ==> spellings(ws@)[k] == spellings(wl@)[k],
        decreases ws.len() - i,
    {
        if !same_chars(&ws[i], &wl[i]) {
            assert(spellings(wl@).take(ws@.len() as int)[i as int] != spellings(ws@)[i as int]);
            return false;
        }
        i += 1;
    }
    assert(spellings(wl@).take(ws@.len() as int) =~= spellings(ws@));
    let base = franchise_base(long);
    let name = join_words(&ws);
    !same_chars(&base, &name)
}

/// Whether one of two normalized titles is a different work that reuses the
/// other's name: "Steins;Gate" against "Steins;Gate 0".
pub fn distinct_extension(a: &str, b: &str) -> (r: bool)
    ensures
        r == different_work(a@, b@),
{
    let ca = chars_of(a);
    let cb = chars_of(b);
    extends_name(&ca, &cb) || extends_name(&cb, &ca)
}

/// The score of one normalized title against another.
pub fn score(query_norm: &str, candidate_norm: &str) -> (r: u64)
    ensures
        r == match_score(query_norm@, candidate_norm@),
        r <= SCORE_ONE,
{
    let q = chars_of(query_norm);
    let c = chars_of(candidate_norm);
    if same_chars(&q, &c) {
        return SCORE_ONE;
    }
    if distinct_extension(query_norm, candidate_norm) {
        return 0;
    }
    let blend: u64 = 6 * jaccard(&q, &c) + 4 * levenshtein_ratio(&q, &c);
    if same_franchise(&q, &c) && blend < SEASON_BONUS {
        SEASON_BONUS
    } else {
        blend
    }
}

/// The score of a title against another is the same in both directions.
pub proof fn law_score_symmetric(a: Seq<char>, b: Seq<char>)
    ensures
        match_score(a, b) == match_score(b, a),
{
    law_edit_distance_symmetric(a, b);
    assert(word_set(a) + word_set(b) =~= word_set(b) + word_set(a));
    assert(word_set(a).intersect(word_set(b)) =~= word_set(b).intersect(word_set(a)));
}

/// A score never exceeds a perfect match, and an equal title has it.
pub proof fn law_score_bounded(a: Seq<char>, b: Seq<char>)
    ensures
        match_score(a, b) <= SCORE_ONE,
        match_score(a, a) == SCORE_ONE,
{
    lemma_edit_distance_bounded(a, b);
    let longer = greatest(a.len(), b.len());
    if longer > 0 {
        lemma_share_bounded((longer - edit_distance(a, b)) as nat, longer);
    }
    let all = word_set(a) + word_set(b);
    let both = word_set(a).intersect(word_set(b));
    broadcast use vstd::seq_lib::seq_to_set_is_finite;

    vstd::set_lib::lemma_set_intersect_union_lens(word_set(a), word_set(b));
    vstd::set_lib::lemma_len_intersect(word_set(a), word_set(b));
    assert(word_set(b).intersect(word_set(a)) =~= both);
    vstd::set_lib::lemma_len_intersect(word_set(b), word_set(a));
    if all.len() > 0 {
        lemma_share_bounded(both.len(), all.len());
    }
}

/// A different work that reuses a title's name never matches it.
pub proof fn law_different_work_never_matches(a: Seq<char>, b: Seq<char>)
    requires
        different_work(a, b),
    ensures
        match_score(a, b) < MATCH_THRESHOLD,
        match_score(a, b) < FUZZY_LINK_THRESHOLD,
{
}

/// Two titles of one franchise always match, unless one is a different work
/// that reuses the other's name.
pub proof fn law_one_franchise_always_matches(a: Seq<char>, b: Seq<char>)
    requires
        one_franchise(a, b),
        !different_work(a, b),
    ensures
        match_score(a, b) >= MATCH_THRESHOLD,
        match_score(a, b) >= FUZZY_LINK_THRESHOLD,
{
}

/// Stripping the season from a title a second time changes nothing.
pub proof fn law_without_season_idempotent(w: Seq<Seq<char>>)
    ensures
        without_season(without_season(w)) == without_season(w),
    decreases w.len(),
{
    if w.len() > 0 && season_word(w.last()) {
        law_without_season_idempotent(w.drop_last());
    } else if ends_in_numbered_season(w) {
        law_without_season_idempotent(w.take(w.len() - 2));
    }
}

/// Stripping the noise from a title a second time changes nothing.
pub proof fn law_without_noise_idempotent(w: Seq<Seq<char>>)
    ensures
        without_noise(without_noise(w)) == without_noise(w),
    decreases w.len(),
{
    if ends_in_noise_word(w) {
        law_without_noise_idempotent(w.drop_last());
    } else if ends_in_sub_espanol(w) {
        law_without_noise_idempotent(w.take(w.len() - 2));
    }
}

/// A prefix of words is words.
proof fn lemma_prefix_words(w: Seq<Seq<char>>, n: int, kind: WordKind)
    requires
        are_words(w, kind),
        0 <= n <= w.len(),
    ensures
        are_words(w.take(n), kind),
{
    assert forall|i: int| 0 <= i < n implies #[trigger] w.take(n)[i].len() > 0 by {
        assert(w.take(n)[i] == w[i]);
    }
    assert forall|i: int, j: int| 0 <= i < n && 0 <= j < w.take(n)[i].len() implies kind.holds(
        #[trigger] w.take(n)[i][j],
    ) by {
        assert(kind.holds(w[i][j]));
    }
}

proof fn lemma_without_noise(w: Seq<Seq<char>>)
    ensures
        without_noise(w).len() <= w.len(),
        without_noise(w) == w.take(without_noise(w).len() as int),
        !ends_in_noise_word(without_noise(w)),
        !ends_in_sub_espanol(without_noise(w)),
    decreases w.len(),
{
    if ends_in_noise_word(w) {
        let v = w.drop_last();
        lemma_without_noise(v);
        assert(v.take(without_noise(v).len() as int) =~= w.take(without_noise(v).len() as int));
    } else if ends_in_sub_espanol(w) {
        let v = w.take(w.len() - 2);
        lemma_without_noise(v);
        assert(v.take(without_noise(v).len() as int) =~= w.take(without_noise(v).len() as int));
    } else {
        assert(w.take(w.len() as int) =~= w);
    }
}

proof fn lemma_without_season(w: Seq<Seq<char>>)
    ensures
        without_season(w).len() <= w.len(),
        without_season(w) == w.take(without_season(w).len() as int),
        without_season(w).len() > 0 ==> !season_word(without_season(w).last()),
        !ends_in_numbered_season(without_season(w)),
    decreases w.len(),
{
    if w.len() > 0 && season_word(w.last()) {
        let v = w.drop_last();
        lemma_without_season(v);
        assert(v.take(without_season(v).len() as int) =~= w.take(without_season(v).len() as int));
    } else if ends_in_numbered_season(w) {
        let v = w.take(w.len() - 2);
        lemma_without_season(v);
        assert(v.take(without_season(v).len() as int) =~= w.take(without_season(v).len() as int));
    } else {
        assert(w.take(w.len() as int) =~= w);
    }
}

/// A normalized title consists of words of letters and numbers with single
/// spaces between them, and does not end in noise.
pub proof fn law_normalized_shape(title: Seq<char>)
    ensures
        are_words(title_words(title), WordKind::Alphanumeric),
        are_words(title_words(title), WordKind::Visible),
        normalized(title) == join(title_words(title)),
        words(normalized(title), WordKind::Alphanumeric) == title_words(title),
        words(normalized(title), WordKind::Visible) == title_words(title),
        !ends_in_noise_word(title_words(title)),
        !ends_in_sub_espanol(title_words(title)),
{
    let all = words(lowercase(without_accents(title)), WordKind::Alphanumeric);
    let w = title_words(title);
    lemma_words_are_runs(lowercase(without_accents(title)), WordKind::Alphanumeric);
    lemma_without_noise(all);
    lemma_prefix_words(all, w.len() as int, WordKind::Alphanumeric);
    assert forall|i: int, j: int|
        0 <= i < w.len() && 0 <= j < w[i].len() implies WordKind::Visible.holds(
        #[trigger] w[i][j],
    ) by {
        assert(WordKind::Alphanumeric.holds(w[i][j]));
    }
    law_split_undoes_join(w, WordKind::Alphanumeric);
    law_split_undoes_join(w, WordKind::Visible);
}

/// Whether a text is left as it is by stripping accents and lower-casing.
pub open spec fn plain_lower(s: Seq<char>) -> bool {
    lowercase(without_accents(s)) == s
}

/// A normalized title that is ASCII is left as it is by stripping accents and
/// lower-casing.
pub proof fn law_normalized_is_plain(title: Seq<char>)
    requires
        ascii_text(normalized(title)),
    ensures
        plain_lower(normalized(title)),
{
    let norm = normalized(title);
    let small = |c: char| !('A' <= c && c <= 'Z');
    let lower = lowercase(without_accents(title));
    let all = words(lower, WordKind::Alphanumeric);
    let w = title_words(title);
    law_normalized_shape(title);
    assert forall|i: int| 0 <= i < lower.len() implies small(#[trigger] lower[i]) by {}
    lemma_words_hold(lower, WordKind::Alphanumeric, small);
    lemma_without_noise(all);
    assert forall|i: int, j: int| 0 <= i < w.len() && 0 <= j < w[i].len() implies small(
        #[trigger] w[i][j],
    ) by {
        assert(small(all[i][j]));
    }
    lemma_join_holds(w, small);
    assert forall|i: int| 0 <= i < norm.len() implies unaccented(#[trigger] norm[i]) == norm[i]
        by {
        assert(norm[i] < '\u{80}');
    }
    assert(without_accents(norm) =~= norm);
    assert forall|i: int| 0 <= i < norm.len() implies ascii_lower(#[trigger] norm[i]) == norm[i]
        by {
        assert(small(norm[i]));
    }
    assert(lowercase(norm) =~= norm);
}

/// Normalizing a title a second time changes nothing, wherever lower-casing
/// leaves the normalized title as it is, as it does where that is ASCII.
pub proof fn law_normalize_idempotent(title: Seq<char>)
    requires
        ascii_text(normalized(title)) || plain_lower(normalized(title)),
    ensures
        normalized(normalized(title)) == normalized(title),
{
    if ascii_text(normalized(title)) {
        law_normalized_is_plain(title);
    }
    law_normalized_shape(title);
    law_without_noise_idempotent(words(lowercase(without_accents(title)), WordKind::Alphanumeric));
}

/// Punctuation only separates words: two titles that differ in nothing but
/// characters that are no letters and numbers normalize to the same text.
pub proof fn law_punctuation_separates(a: Seq<char>, b: Seq<char>)
    requires
        same_words_in_place(
            lowercase(without_accents(a)),
            lowercase(without_accents(b)),
            WordKind::Alphanumeric,
        ),
    ensures
        normalized(a) == normalized(b),
{
    law_separators_do_not_count(
        lowercase(without_accents(a)),
        lowercase(without_accents(b)),
        WordKind::Alphanumeric,
    );
}

/// In a title that is ASCII but for its accents, an ASCII character that is no
/// letter and no digit counts as a space.
pub proof fn law_ascii_punctuation_is_space(title: Seq<char>, i: int)
    requires
        ascii_text(without_accents(title)),
        0 <= i < title.len(),
        title[i] < '\u{80}',
        !ascii_alphanumeric(title[i]),
    ensures
        normalized(title.update(i, ' ')) == normalized(title),
{
    let other = title.update(i, ' ');
    let x = without_accents(title);
    let y = without_accents(other);
    assert(y =~= x.update(i, ' '));
    assert(ascii_text(y));
    let a = lowercase(x);
    let b = lowercase(y);
    assert(a[i] == title[i]);
    assert forall|k: int| 0 <= k < a.len() implies (#[trigger] a[k]) == b[k] || (
    !WordKind::Alphanumeric.holds(a[k]) && !WordKind::Alphanumeric.holds(b[k])) by {
        if k != i {
            assert(x[k] == y[k]);
        }
    }
    law_punctuation_separates(title, other);
}

/// Whether lower-casing goes on alike behind a title: what is put behind it
/// changes nothing of it, and is not changed by it.
pub open spec fn lowered_apart(s: Seq<char>, suffix: Seq<char>) -> bool {
    lowercase(without_accents(s + suffix)) == lowercase(without_accents(s)) + lowercase(
        without_accents(suffix),
    )
}

/// Lower-casing goes on alike behind a title that is ASCII but for its accents.
pub proof fn law_ascii_is_lowered_apart(s: Seq<char>, suffix: Seq<char>)
    requires
        ascii_text(without_accents(s)),
        ascii_text(without_accents(suffix)),
    ensures
        lowered_apart(s, suffix),
{
    let t = without_accents(s + suffix);
    assert(t =~= without_accents(s) + without_accents(suffix));
    assert forall|i: int| 0 <= i < t.len() implies (#[trigger] t[i]) < '\u{80}' by {
        if i < s.len() {
            assert(t[i] == without_accents(s)[i]);
        } else {
            assert(t[i] == without_accents(suffix)[i - s.len()]);
        }
    }
    assert(folded(t) =~= folded(without_accents(s)) + folded(without_accents(suffix)));
}

/// The words of a text that goes on with a space and a plain word.
proof fn lemma_suffix_word(x: Seq<char>, suffix: Seq<char>, word: Seq<char>)
    requires
        suffix == seq![' '] + word,
        word.len() > 0,
        forall|j: int| 0 <= j < word.len() ==> ascii_alphanumeric(#[trigger] word[j]),
    ensures
        words(x + suffix, WordKind::Alphanumeric) == words(x, WordKind::Alphanumeric).push(word),
{
    assert(x + suffix =~= x.push(' ') + word);
    assert(word.take(word.len() as int) =~= word);
    lemma_words_append(x, word, word.len() as int, WordKind::Alphanumeric);
}

/// Whether a text is one of the noise suffixes as sites write them.
pub open spec fn noise_suffix(s: Seq<char>) -> bool {
    s == " Latino"@ || s == " Castellano"@ || s == " HD"@ || s == " Online"@ || s
        == " Sub Español"@
}

/// The noise that sites put behind a title does not count: it changes nothing of
/// the normalized form, wherever lower-casing goes on alike behind the title, as
/// it does behind one that is ASCII but for its accents.
pub proof fn law_noise_is_dropped(s: Seq<char>, suffix: Seq<char>)
    requires
        noise_suffix(suffix),
        ascii_text(without_accents(s)) || lowered_apart(s, suffix),
    ensures
        normalized(s + suffix) == normalized(s),
{
    reveal_strlit(" Latino");
    reveal_strlit("latino");
    reveal_strlit(" Castellano");
    reveal_strlit("castellano");
    reveal_strlit(" HD");
    reveal_strlit("hd");
    reveal_strlit(" Online");
    reveal_strlit("online");
    reveal_strlit(" Sub Español");
    reveal_strlit("sub");
    reveal_strlit("espanol");
    let x = lowercase(without_accents(s));
    let all = words(x, WordKind::Alphanumeric);
    let y = without_accents(suffix);
    assert(ascii_text(y));
    if ascii_text(without_accents(s)) {
        law_ascii_is_lowered_apart(s, suffix);
    }
    if suffix == " Latino"@ {
        lemma_noise_word(x, folded(y), "latino"@);
    } else if suffix == " Castellano"@ {
        lemma_noise_word(x, folded(y), "castellano"@);
    } else if suffix == " HD"@ {
        lemma_noise_word(x, folded(y), "hd"@);
    } else if suffix == " Online"@ {
        lemma_noise_word(x, folded(y), "online"@);
    } else {
        let first = seq![' '] + "sub"@;
        let second = seq![' '] + "espanol"@;
        assert(folded(y) =~= first + second);
        lemma_suffix_word(x, first, "sub"@);
        lemma_suffix_word(x + first, second, "espanol"@);
        assert(x + folded(y) =~= x + first + second);
        let both = all.push("sub"@).push("espanol"@);
        assert("espanol"@[0] != "online"@[0]);
        assert(!ends_in_noise_word(both));
        assert(both.take(both.len() - 2) =~= all);
    }
}

proof fn lemma_noise_word(x: Seq<char>, suffix: Seq<char>, word: Seq<char>)
    requires
        suffix =~= seq![' '] + word,
        word.len() > 0,
        forall|j: int| 0 <= j < word.len() ==> ascii_alphanumeric(#[trigger] word[j]),
        word == "latino"@ || word == "castellano"@ || word == "hd"@ || word == "online"@,
    ensures
        without_noise(words(x + suffix, WordKind::Alphanumeric)) == without_noise(
            words(x, WordKind::Alphanumeric),
        ),
{
    let all = words(x, WordKind::Alphanumeric);
    lemma_suffix_word(x, suffix, word);
    assert(all.push(word).drop_last() =~= all);
}

/// The franchise base of a title consists of the title's first words with single
/// spaces between them, does not end in a season, part or year, and is its own
/// base.
pub proof fn law_base_is_stripped(norm: Seq<char>)
    ensures
        words(base_of(norm), WordKind::Visible) == without_season(words(norm, WordKind::Visible)),
        words(base_of(norm), WordKind::Visible) == words(norm, WordKind::Visible).take(
            words(base_of(norm), WordKind::Visible).len() as int,
        ),
        words(base_of(norm), WordKind::Visible).len() > 0 ==> !season_word(
            words(base_of(norm), WordKind::Visible).last(),
        ),
        !ends_in_numbered_season(words(base_of(norm), WordKind::Visible)),
        base_of(base_of(norm)) == base_of(norm),
{
    let all = words(norm, WordKind::Visible);
    let w = without_season(all);
    lemma_words_are_runs(norm, WordKind::Visible);
    lemma_without_season(all);
    lemma_prefix_words(all, w.len() as int, WordKind::Visible);
    law_split_undoes_join(w, WordKind::Visible);
    law_without_season_idempotent(all);
}

/// One candidate title off a search-results page.
pub struct TitleCandidate<'a> {
    pub title: &'a str,
    /// Where the candidate leads to.
    pub url: &'a str,
}

/// The winning candidate's position in the list, and its score.
#[derive(Debug, Clone, Copy, PartialEq, Eq, Structural)]
pub struct MatchResult {
    pub index: usize,
    pub score: u64,
}

/// The best score that any of the titles has against a normalized candidate;
/// zero when there are none.
pub open spec fn best_score(queries: Seq<Seq<char>>, candidate: Seq<char>) -> nat
    decreases queries.len(),
{
    if queries.len() == 0 {
        0
    } else {
        greatest(
            best_score(queries.drop_last(), candidate),
            match_score(normalized(queries.last()), candidate),
        )
    }
}

/// What the texts of a list spell.
pub open spec fn texts(list: Seq<&str>) -> Seq<Seq<char>> {
    list.map_values(|t: &str| t@)
}

/// The best score of a normalized candidate against normalized queries.
fn best_candidate_score(
    normalized_queries: &Vec<String>,
    candidate_norm: &str,
    Ghost(queries): Ghost<Seq<Seq<char>>>,
) -> (r: u64)
    requires
        normalized_queries@.len() == queries.len(),
        forall|i: int|
            0 <= i < queries.len() ==> #[trigger] normalized_queries@[i]@ == normalized(queries[i]),
    ensures
        r == best_score(queries, candidate_norm@),
{
    let mut best: u64 = 0;
    let mut i: usize = 0;
    assert(queries.take(0) =~= Seq::empty());
    while i < normalized_queries.len()
        invariant
            i <= normalized_queries.len(),
            normalized_queries@.len() == queries.len(),
            forall|k: int|
                0 <= k < queries.len() ==> #[trigger] normalized_queries@[k]@ == normalized(
                    queries[k],
                ),
            best == best_score(queries.take(i as int), candidate_norm@),
        decreases normalized_queries.len() - i,
    {
        let s: u64 = score(normalized_queries[i].as_str(), candidate_norm);
        assert(queries.take(i + 1).drop_last() =~= queries.take(i as int));
        if s > best {
            best = s;
        }
        i += 1;
    }
    assert(queries.take(i as int) =~= queries);
    best
}

/// The score that candidate `i` of a list has against the queries.
pub open spec fn candidate_score(
    queries: Seq<&str>,
    candidates: Seq<TitleCandidate>,
    i: int,
) -> nat {
    best_score(texts(queries), normalized(candidates[i].title@))
}

/// Whether a candidate is the best for any of the queries: the first of those with
/// the highest score, or none if no score is high enough.
pub open spec fn matched(
    r: Option<MatchResult>,
    queries: Seq<&str>,
    candidates: Seq<TitleCandidate>,
) -> bool {
    &&& r is None <==> forall|i: int|
        0 <= i < candidates.len() ==> #[trigger] candidate_score(queries, candidates, i)
            < MATCH_THRESHOLD
    &&& r matches Some(m) ==> {
        &&& m.index < candidates.len()
        &&& m.score == candidate_score(queries, candidates, m.index as int)
        &&& m.score >= MATCH_THRESHOLD
        &&& forall|i: int|
            0 <= i < candidates.len() ==> #[trigger] candidate_score(queries, candidates, i)
                <= m.score
        &&& forall|i: int|
            0 <= i < m.index ==> #[trigger] candidate_score(queries, candidates, i) < m.score
    }
}

/// The best candidate for any of `queries`: the first of those with the highest
/// score, or `None` if no score reaches [`MATCH_THRESHOLD`].
pub fn best_match(queries: &[&str], candidates: &[TitleCandidate]) -> (r: Option<MatchResult>)
    ensures
        matched(r, queries@, candidates@),
{
    let mut normalized_queries: Vec<String> = Vec::new();
    let mut i: usize = 0;
    while i < queries.len()
        invariant
            i <= queries@.len(),
            normalized_queries@.len() == i,
            forall|k: int|
                0 <= k < i ==> #[trigger] normalized_queries@[k]@ == normalized(
                    texts(queries@)[k],
                ),
        decreases queries@.len() - i,
    {
        let q = normalize_title(queries[i]);
        normalized_queries.push(q);
        i += 1;
    }
    let mut best: Option<MatchResult> = None;
    let mut index: usize = 0;
    while index < candidates.len()
        invariant
            index <= candidates@.len(),
            normalized_queries@.len() == queries@.len(),
            forall|k: int|
                0 <= k < queries@.len() ==> #[trigger] normalized_queries@[k]@ == normalized(
                    texts(queries@)[k],
                ),
            best is None ==> forall|k: int|
                0 <= k < index ==> #[trigger] candidate_score(queries@, candidates@, k)
                    < MATCH_THRESHOLD,
            best matches Some(m) ==> {
                &&& m.index < index
                &&& m.score == candidate_score(queries@, candidates@, m.index as int)
                &&& m.score >= MATCH_THRESHOLD
                &&& forall|k: int|
                    0 <= k < index ==> #[trigger] candidate_score(queries@, candidates@, k)
                        <= m.score
                &&& forall|k: int|
                    0 <= k < m.index ==> #[trigger] candidate_score(queries@, candidates@, k)
                        < m.score
            },
        decreases candidates@.len() - index,
    {
        let norm = normalize_title(candidates[index].title);
        let s: u64 = best_candidate_score(
            &normalized_queries,
            norm.as_str(),
            Ghost(texts(queries@)),
        );
        assert(s == candidate_score(queries@, candidates@, index as int));
        let better = match best {
            None => s >= MATCH_THRESHOLD,
            Some(m) => s > m.score,
        };
        if better {
            best = Some(MatchResult { index, score: s });
        }
        index += 1;
    }
    best
}

} // verus!
