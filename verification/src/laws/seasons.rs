//! What the end of a title tells: seasons, parts and years, which are the same
//! show, and other words, which make another work.

use vstd::prelude::*;
use crate::matching::{
    base_of, different_work, match_score, ordinal, reuses_name, roman_numeral, season_marker,
    season_word, without_season, year, SEASON_BONUS,
};
use crate::text::{
    are_words, ascii_digit, ascii_int, join, law_split_undoes_join, white_space, words, WordKind,
};

verus! {

/// The endings of English ordinals in digits.
pub open spec fn ordinal_ending(t: Seq<char>) -> bool {
    t == "st"@ || t == "nd"@ || t == "rd"@ || t == "th"@
}

/// The words that name a season or a part.
pub open spec fn season_name(t: Seq<char>) -> bool {
    seq![
        "season"@,
        "temporada"@,
        "part"@,
        "parte"@,
        "cour"@,
        "final"@,
        "the"@,
    ].contains(t)
}

/// The Roman numerals from two to ten.
pub open spec fn season_numeral(t: Seq<char>) -> bool {
    seq!["ii"@, "iii"@, "iv"@, "v"@, "vi"@, "vii"@, "viii"@, "ix"@, "x"@].contains(t)
}

/// Digits with the ending of an ordinal are an ordinal, and every ordinal is that.
pub proof fn law_ordinals_end_in(digits: Seq<char>, ending: Seq<char>, t: Seq<char>)
    ensures
        ascii_int(digits) && ordinal_ending(ending) ==> ordinal(digits + ending),
        ordinal(t) ==> exists|d: Seq<char>, e: Seq<char>|
            ascii_int(d) && ordinal_ending(e) && t == #[trigger] (d + e),
{
    reveal_strlit("st");
    reveal_strlit("nd");
    reveal_strlit("rd");
    reveal_strlit("th");
    if ascii_int(digits) && ordinal_ending(ending) {
        let x = digits + ending;
        assert(x.take(x.len() - 2) =~= digits);
        assert(x.skip(x.len() - 2) =~= ending);
    }
    if ordinal(t) {
        let d = t.take(t.len() - 2);
        let e = t.skip(t.len() - 2);
        assert(t =~= d + e);
    }
}

/// Years are the numbers from 1900 to 2099 in digits.
pub proof fn law_years(a: char, b: char, c: char, d: char)
    requires
        ascii_digit(a),
        ascii_digit(b),
        ascii_digit(c),
        ascii_digit(d),
    ensures
        year(seq![a, b, c, d]) <==> (a == '1' && b == '9') || (a == '2' && b == '0'),
{
    reveal_strlit("19");
    reveal_strlit("20");
    let t = seq![a, b, c, d];
    assert(t.take(2) =~= seq![a, b]);
    assert("19"@ =~= seq!['1', '9']);
    assert("20"@ =~= seq!['2', '0']);
    if t.take(2) == "19"@ {
        assert(t.take(2)[0] == a && t.take(2)[1] == b);
    }
    if t.take(2) == "20"@ {
        assert(t.take(2)[0] == a && t.take(2)[1] == b);
    }
}

/// A word tells the season exactly where it names one, is a numeral, is an ordinal
/// in digits or is a year.
pub proof fn law_season_words(t: Seq<char>)
    ensures
        season_name(t) ==> season_word(t),
        season_numeral(t) ==> season_word(t),
        season_word(t) && !season_name(t) && !season_numeral(t) ==> t.len() > 2 && ascii_digit(t[0]),
        season_name(t) <==> season_marker(t),
        season_numeral(t) <==> roman_numeral(t),
{
    let names = seq![
        "season"@,
        "temporada"@,
        "part"@,
        "parte"@,
        "cour"@,
        "final"@,
        "the"@,
    ];
    let numerals = seq!["ii"@, "iii"@, "iv"@, "v"@, "vi"@, "vii"@, "viii"@, "ix"@, "x"@];
    if season_marker(t) {
        assert(names[0] == t || names[1] == t || names[2] == t || names[3] == t || names[4] == t
            || names[5] == t || names[6] == t);
    }
    if roman_numeral(t) {
        assert(numerals[0] == t || numerals[1] == t || numerals[2] == t || numerals[3] == t
            || numerals[4] == t || numerals[5] == t || numerals[6] == t || numerals[7] == t
            || numerals[8] == t);
    }
    if ordinal(t) {
        assert(t.take(t.len() - 2)[0] == t[0]);
    }
}

/// Words that a title may consist of.
pub open spec fn title_of(w: Seq<Seq<char>>) -> bool {
    w.len() > 0 && are_words(w, WordKind::Visible)
}

proof fn lemma_visible_word(w: Seq<Seq<char>>, t: Seq<char>)
    requires
        are_words(w, WordKind::Visible),
        t.len() > 0,
        forall|i: int| 0 <= i < t.len() ==> !white_space(#[trigger] t[i]),
    ensures
        are_words(w.push(t), WordKind::Visible),
{
    let v = w.push(t);
    assert forall|i: int| 0 <= i < v.len() implies #[trigger] v[i].len() > 0 by {
        if i < w.len() {
            assert(v[i] == w[i]);
        }
    }
    assert forall|i: int, j: int|
        0 <= i < v.len() && 0 <= j < v[i].len() implies WordKind::Visible.holds(
        #[trigger] v[i][j],
    ) by {
        if i < w.len() {
            assert(v[i] == w[i]);
            assert(WordKind::Visible.holds(w[i][j]));
        } else {
            assert(!white_space(t[j]));
        }
    }
}

proof fn lemma_digits_visible(t: Seq<char>)
    requires
        ascii_int(t),
    ensures
        forall|i: int| 0 <= i < t.len() ==> !white_space(#[trigger] t[i]),
{
    assert forall|i: int| 0 <= i < t.len() implies !white_space(#[trigger] t[i]) by {
        assert(ascii_digit(t[i]));
    }
}

/// A word that tells the season, put behind a title, leaves the title's base as it
/// is.
pub proof fn law_season_word_keeps_base(w: Seq<Seq<char>>, t: Seq<char>)
    requires
        are_words(w.push(t), WordKind::Visible),
        season_word(t),
    ensures
        base_of(join(w.push(t))) == base_of(join(w)),
{
    lemma_init_words(w, t);
    law_split_undoes_join(w.push(t), WordKind::Visible);
    law_split_undoes_join(w, WordKind::Visible);
    assert(w.push(t).drop_last() =~= w);
}

proof fn lemma_init_words(w: Seq<Seq<char>>, t: Seq<char>)
    requires
        are_words(w.push(t), WordKind::Visible),
    ensures
        are_words(w, WordKind::Visible),
{
    let v = w.push(t);
    assert forall|i: int| 0 <= i < w.len() implies #[trigger] w[i].len() > 0 by {
        assert(v[i] == w[i]);
    }
    assert forall|i: int, j: int|
        0 <= i < w.len() && 0 <= j < w[i].len() implies WordKind::Visible.holds(
        #[trigger] w[i][j],
    ) by {
        assert(v[i] == w[i]);
        assert(WordKind::Visible.holds(v[i][j]));
    }
}

/// The name of a season and a number, put behind a title, leave the title's base
/// as it is.
pub proof fn law_numbered_season_keeps_base(w: Seq<Seq<char>>, name: Seq<char>, digits: Seq<char>)
    requires
        are_words(w.push(name), WordKind::Visible),
        season_name(name),
        ascii_int(digits),
    ensures
        base_of(join(w.push(name).push(digits))) == base_of(join(w)),
{
    let v = w.push(name).push(digits);
    lemma_digits_visible(digits);
    lemma_visible_word(w.push(name), digits);
    law_season_words(name);
    law_split_undoes_join(v, WordKind::Visible);
    lemma_init_words(w, name);
    law_split_undoes_join(w, WordKind::Visible);
    assert(v.drop_last() =~= w.push(name));
    assert(v.take(v.len() - 2) =~= w);
    law_season_word_keeps_base(w, name);
    law_split_undoes_join(w.push(name), WordKind::Visible);
}

/// Any other word, and a number that no name of a season stands before, belongs to
/// the title: put behind it, it stays.
pub proof fn law_other_word_stays(w: Seq<Seq<char>>, t: Seq<char>)
    requires
        are_words(w.push(t), WordKind::Visible),
        !season_name(t),
        !season_numeral(t),
        !year(t),
        forall|d: Seq<char>, e: Seq<char>|
            ascii_int(d) && ordinal_ending(e) ==> t != #[trigger] (d + e),
        ascii_int(t) ==> w.len() == 0 || !season_name(w.last()),
    ensures
        base_of(join(w.push(t))) == join(w.push(t)),
{
    let v = w.push(t);
    law_season_words(t);
    law_ordinals_end_in(t, t, t);
    law_split_undoes_join(v, WordKind::Visible);
    if w.len() > 0 {
        law_season_words(w.last());
        assert(v[v.len() - 2] == w.last());
    }
    assert(!season_word(v.last()));
}

/// A season of a show matches the show: an ordinal in digits with "season" behind
/// it leaves the base as it is, makes no other work, and gives at least the score
/// of one franchise where the title is long enough.
pub proof fn law_season_of_a_show_matches(
    w: Seq<Seq<char>>,
    digits: Seq<char>,
    ending: Seq<char>,
)
    requires
        title_of(w),
        without_season(w) == w,
        ascii_int(digits),
        ordinal_ending(ending),
    ensures
        ({
            let show = join(w);
            let season = join(w.push(digits + ending).push("season"@));
            &&& base_of(season) == show
            &&& !different_work(show, season)
            &&& w.len() >= 2 || show.len() >= 4 ==> match_score(show, season) >= SEASON_BONUS
        }),
{
    reveal_strlit("st");
    reveal_strlit("nd");
    reveal_strlit("rd");
    reveal_strlit("th");
    reveal_strlit("season");
    let t = digits + ending;
    let show = join(w);
    let v = w.push(t).push("season"@);
    let season = join(v);
    law_ordinals_end_in(digits, ending, t);
    lemma_digits_visible(digits);
    assert forall|i: int| 0 <= i < t.len() implies !white_space(#[trigger] t[i]) by {
        if i < digits.len() {
            assert(t[i] == digits[i]);
        } else {
            assert(t[i] == ending[i - digits.len()]);
        }
    }
    lemma_visible_word(w, t);
    lemma_visible_word(w.push(t), "season"@);
    assert(season_name("season"@)) by {
        assert(seq![
            "season"@,
            "temporada"@,
            "part"@,
            "parte"@,
            "cour"@,
            "final"@,
            "the"@,
        ][0] == "season"@);
    }
    law_season_words("season"@);
    law_season_word_keeps_base(w.push(t), "season"@);
    law_season_word_keeps_base(w, t);
    law_split_undoes_join(w, WordKind::Visible);
    law_split_undoes_join(v, WordKind::Visible);
    assert(base_of(show) == show);
    crate::text::lemma_join_nonempty(w);
    assert(w[w.len() - 1].len() > 0);
    if show == season {
        assert(words(show, WordKind::Visible) == words(season, WordKind::Visible));
    }
}

/// A title that goes on with a word that tells no season is another work: it never
/// matches the shorter one.
pub proof fn law_extended_title_is_another_work(w: Seq<Seq<char>>, t: Seq<char>)
    requires
        title_of(w),
        are_words(w.push(t), WordKind::Visible),
        !season_name(t),
        !season_numeral(t),
        !year(t),
        forall|d: Seq<char>, e: Seq<char>|
            ascii_int(d) && ordinal_ending(e) ==> t != #[trigger] (d + e),
        ascii_int(t) ==> !season_name(w.last()),
    ensures
        different_work(join(w), join(w.push(t))),
        match_score(join(w), join(w.push(t))) == 0,
{
    let v = w.push(t);
    law_other_word_stays(w, t);
    law_split_undoes_join(w, WordKind::Visible);
    law_split_undoes_join(v, WordKind::Visible);
    assert(v.take(w.len() as int) =~= w);
    if join(v) == join(w) {
        assert(words(join(v), WordKind::Visible) == words(join(w), WordKind::Visible));
        assert(v.len() == w.len() + 1);
    }
    assert(reuses_name(join(w), join(v)));
}

} // verus!
