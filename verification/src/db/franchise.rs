//! Seasons and arcs of one show put together, and what to call them.

use vstd::prelude::*;
use crate::matching::{
    is_ordinal, is_roman_numeral, is_season_marker, normalize_title, normalized, ordinal,
    roman_numeral, season_marker,
};
use crate::text::{
    ascii_int, chars_of, copy_range, is_ascii_int, join, join_words, lower_case, precedes,
    same_text, spellings, spells, split_words, text_of, text_precedes, trim_chars, trimmed,
    upper_case, uppercase, words, WordKind,
};

verus! {

/// The form in which a word of a title is tested: a word of a shown title is
/// normalized first.
pub open spec fn tested_form(t: Seq<char>, raw: bool) -> Seq<char> {
    if raw { normalized(t) } else { t }
}

/// Whether a word at the end of a title only tells which season or part it is.
pub open spec fn part_word(t: Seq<char>) -> bool {
    season_marker(t) || ordinal(t) || roman_numeral(t)
}

/// The words of a title without the season or part at its end. A bare number
/// goes only with a marker word before it.
pub open spec fn without_part(w: Seq<Seq<char>>, raw: bool) -> Seq<Seq<char>>
    decreases w.len(),
{
    if w.len() > 0 && part_word(tested_form(w.last(), raw)) {
        without_part(w.drop_last(), raw)
    } else if w.len() >= 2 && ascii_int(tested_form(w.last(), raw)) && season_marker(
        tested_form(w[w.len() - 2], raw),
    ) {
        without_part(w.take(w.len() - 2), raw)
    } else {
        w
    }
}

/// The key under which the seasons of one show collapse: the normalized title
/// without the season or part at its end, all of it where nothing is left, and
/// the title as it is where it normalizes to nothing. A blank title goes under a
/// question mark, as a title that is one does.
pub open spec fn franchise(title: Seq<char>) -> Seq<char> {
    let norm = normalized(title);
    let key = join(without_part(words(norm, WordKind::Visible), false));
    if key.len() > 0 {
        key
    } else if norm.len() > 0 {
        norm
    } else if trimmed(title).len() > 0 {
        trimmed(title)
    } else {
        seq!['?']
    }
}

/// Every title has a key.
pub proof fn law_franchise_never_empty(title: Seq<char>)
    ensures
        franchise(title).len() > 0,
{
}

/// The first place of a colon; the text's length if it has none.
pub open spec fn colon(s: Seq<char>) -> int
    decreases s.len(),
{
    if s.len() == 0 || s[0] == ':' { 0 } else { 1 + colon(s.drop_first()) }
}

/// Whether a title has a colon with something before it.
pub open spec fn qualified(title: Seq<char>) -> bool {
    colon(title) < title.len() && trimmed(title.take(colon(title))).len() > 0
}

/// The key of the show that a title with a qualifier behind a colon may hang
/// off. Only a candidate: a colon is ordinary punctuation too.
pub open spec fn parent_franchise(title: Seq<char>) -> Option<Seq<char>> {
    let parent = franchise(title.take(colon(title)));
    if qualified(title) && parent != franchise(title) {
        Some(parent)
    } else {
        None
    }
}

/// What to call the franchise of a title: the title without the season or part
/// at its end, case and accents kept; the whole title where nothing is left.
pub open spec fn display_title(title: Seq<char>) -> Seq<char> {
    let short = trimmed(join(without_part(words(title, WordKind::Visible), true)));
    if short.len() == 0 { trimmed(title) } else { short }
}

/// What to call the show that a title with a qualifier behind a colon hangs off.
pub open spec fn base_title(title: Seq<char>) -> Seq<char> {
    if qualified(title) { display_title(title.take(colon(title))) } else { display_title(title) }
}

/// The form in which a word of a title is tested.
fn form_of(t: &Vec<char>, raw: bool) -> (r: Vec<char>)
    ensures
        r@ == tested_form(t@, raw),
{
    if raw {
        chars_of(normalize_title(text_of(t).as_str()).as_str())
    } else {
        copy_range(t, 0, t.len())
    }
}

/// Drops the season or part at the end of a title's words.
pub fn strip_season_markers(tokens: &mut Vec<Vec<char>>, raw: bool)
    ensures
        spellings(final(tokens)@) == without_part(spellings(old(tokens)@), raw),
{
    loop
        invariant
            without_part(spellings(tokens@), raw) == without_part(spellings(old(tokens)@), raw),
        ensures
            spellings(tokens@) == without_part(spellings(old(tokens)@), raw),
        decreases tokens.len(),
    {
        let n: usize = tokens.len();
        let ghost before = spellings(tokens@);
        if n == 0 {
            break;
        }
        let last = form_of(&tokens[n - 1], raw);
        if is_season_marker(&last) || is_ordinal(&last) || is_roman_numeral(&last) {
            tokens.pop();
            assert(spellings(tokens@) == before.drop_last());
        } else if n >= 2 && is_ascii_int(&last) && is_season_marker(
            &form_of(&tokens[n - 2], raw),
        ) {
            tokens.pop();
            tokens.pop();
            assert(spellings(tokens@) == before.take(before.len() - 2));
        } else {
            break;
        }
    }
}

/// The key under which the seasons of one show collapse.
pub fn franchise_key(title: &str) -> (r: String)
    ensures
        r@ == franchise(title@),
        r@.len() > 0,
{
    let norm = chars_of(normalize_title(title).as_str());
    let mut tokens = split_words(&norm, WordKind::Visible);
    strip_season_markers(&mut tokens, false);
    let key = join_words(&tokens);
    if key.len() > 0 {
        return text_of(&key);
    }
    if norm.len() > 0 {
        return text_of(&norm);
    }
    let plain = trim_chars(&chars_of(title));
    if plain.len() > 0 {
        return text_of(&plain);
    }
    let mut blank: Vec<char> = Vec::new();
    blank.push('?');
    assert(blank@ =~= seq!['?']);
    text_of(&blank)
}

/// The first place of a colon.
fn find_colon(chars: &Vec<char>) -> (r: usize)
    ensures
        r == colon(chars@),
        r <= chars@.len(),
{
    let mut i: usize = 0;
    assert(chars@.skip(0) =~= chars@);
    while i < chars.len() && chars[i] != ':'
        invariant
            i <= chars@.len(),
            colon(chars@) == i + colon(chars@.skip(i as int)),
        decreases chars@.len() - i,
    {
        assert(chars@.skip(i as int).drop_first() =~= chars@.skip(i + 1));
        i += 1;
    }
    i
}

/// What stands before the first colon of a title, if it has one with something
/// before it.
fn colon_head(title: &str) -> (r: Option<String>)
    ensures
        r is Some <==> qualified(title@),
        r matches Some(h) ==> h@ == title@.take(colon(title@)),
{
    let chars = chars_of(title);
    let at: usize = find_colon(&chars);
    if at == chars.len() {
        return None;
    }
    let head = copy_range(&chars, 0, at);
    assert(head@ =~= title@.take(at as int));
    if trim_chars(&head).len() == 0 {
        None
    } else {
        Some(text_of(&head))
    }
}

/// The key of the show that a title with a qualifier behind a colon may hang
/// off.
pub fn franchise_parent_key(title: &str) -> (r: Option<String>)
    ensures
        r is Some <==> parent_franchise(title@) is Some,
        r matches Some(p) ==> parent_franchise(title@) == Some(p@),
{
    let head = match colon_head(title) {
        Some(h) => h,
        None => {
            return None;
        },
    };
    let parent = franchise_key(head.as_str());
    let key = franchise_key(title);
    if same_text(parent.as_str(), key.as_str()) {
        None
    } else {
        Some(parent)
    }
}

/// What to call the franchise of a title.
pub fn franchise_display_title(title: &str) -> (r: String)
    ensures
        r@ == display_title(title@),
{
    let chars = chars_of(title);
    let mut tokens = split_words(&chars, WordKind::Visible);
    strip_season_markers(&mut tokens, true);
    let short = trim_chars(&join_words(&tokens));
    if short.len() == 0 {
        text_of(&trim_chars(&chars))
    } else {
        text_of(&short)
    }
}

/// What to call the show that a title with a qualifier behind a colon hangs off.
pub fn franchise_base_title(title: &str) -> (r: String)
    ensures
        r@ == base_title(title@),
{
    match colon_head(title) {
        Some(h) => franchise_display_title(h.as_str()),
        None => franchise_display_title(title),
    }
}

/// The minutes that an episode of a format is taken to last.
pub open spec fn format_minutes(format: Option<Seq<char>>) -> i64 {
    match format {
        None => 24,
        Some(f) => {
            let name = uppercase(trimmed(f));
            if name == "MOVIE"@ || name == "PELICULA"@ || name == "PELÍCULA"@ {
                100
            } else if name == "MUSIC"@ {
                5
            } else if name == "TV_SHORT"@ {
                8
            } else if name == "OVA"@ || name == "SPECIAL"@ {
                26
            } else {
                24
            }
        },
    }
}

/// The minutes that an episode of a format is taken to last. An estimate: real
/// durations of the catalog win over it.
pub fn minutes_per_episode(format: Option<&str>) -> (r: i64)
    ensures
        r == format_minutes(crate::db::opt_str(format)),
{
    match format {
        None => 24,
        Some(f) => {
            let plain = text_of(&trim_chars(&chars_of(f)));
            let name = chars_of(plain.as_str().to_uppercase().as_str());
            if spells(&name, "MOVIE") || spells(&name, "PELICULA") || spells(&name, "PELÍCULA") {
                100
            } else if spells(&name, "MUSIC") {
                5
            } else if spells(&name, "TV_SHORT") {
                8
            } else if spells(&name, "OVA") || spells(&name, "SPECIAL") {
                26
            } else {
                24
            }
        },
    }
}

/// Whether a title is written in capitals: it has upper-case letters and no
/// lower-case ones.
pub open spec fn shouted(s: Seq<char>) -> bool {
    &&& exists|i: int| 0 <= i < s.len() && upper_case(#[trigger] s[i])
    &&& forall|i: int| 0 <= i < s.len() ==> !lower_case(#[trigger] s[i])
}

/// Whether a title rather than another is shown for a franchise: the shorter
/// one, then one that is not shouted, then the first in order.
pub open spec fn shown_rather(a: Seq<char>, b: Seq<char>) -> bool {
    if a.len() != b.len() {
        a.len() < b.len()
    } else if shouted(a) != shouted(b) {
        shouted(b)
    } else {
        precedes(a, b)
    }
}

/// Which title is shown does not depend on the order in which they come: of two
/// different ones exactly one is preferred, and the preference carries over.
pub proof fn law_shown_rather_orders(a: Seq<char>, b: Seq<char>, c: Seq<char>)
    ensures
        shown_rather(a, b) ==> !shown_rather(b, a),
        shown_rather(a, b) || shown_rather(b, a) || a == b,
        shown_rather(a, b) && shown_rather(b, c) ==> shown_rather(a, c),
        !shown_rather(b, a) && !shown_rather(c, b) ==> !shown_rather(c, a),
{
    crate::text::lemma_precedes_total(a, b);
    crate::text::lemma_precedes_total(b, c);
    crate::text::lemma_precedes_total(a, c);
    crate::text::lemma_precedes_transitive(a, b, c);
}

/// Whether a title is written in capitals.
fn is_shouted(chars: &Vec<char>) -> (r: bool)
    ensures
        r == shouted(chars@),
{
    let mut upper: bool = false;
    let mut i: usize = 0;
    while i < chars.len()
        invariant
            i <= chars@.len(),
            upper == exists|k: int| 0 <= k < i && upper_case(#[trigger] chars@[k]),
            forall|k: int| 0 <= k < i ==> !lower_case(#[trigger] chars@[k]),
        decreases chars@.len() - i,
    {
        if chars[i].is_lowercase() {
            assert(lower_case(chars@[i as int]));
            return false;
        }
        if chars[i].is_uppercase() {
            assert(upper_case(chars@[i as int]));
            upper = true;
        }
        i += 1;
    }
    upper
}

/// Whether a title rather than another is shown for a franchise.
pub fn prefer_display_title(candidate: &str, current: &str) -> (r: bool)
    ensures
        r == shown_rather(candidate@, current@),
{
    let a = chars_of(candidate);
    let b = chars_of(current);
    if a.len() != b.len() {
        return a.len() < b.len();
    }
    let sa: bool = is_shouted(&a);
    let sb: bool = is_shouted(&b);
    if sa != sb {
        return sb;
    }
    text_precedes(&a, &b)
}

/// What a franchise was watched: episodes really marked seen, and the length of
/// an entry that was marked as watched elsewhere. The two measure the same
/// thing twice and are never added up.
#[derive(Debug, Clone, PartialEq)]
pub struct FranchiseRollup {
    pub display_title: String,
    /// Episodes marked seen, over all seasons and sites.
    pub real_seen: i64,
    /// Minutes of those episodes.
    pub real_minutes: i64,
    /// The largest catalog length among those marked as watched elsewhere.
    pub external_episodes: i64,
    pub external_minutes: i64,
}

/// The larger of two numbers.
pub open spec fn larger(a: int, b: int) -> int {
    if a >= b { a } else { b }
}

impl FranchiseRollup {
    /// The episodes credited to the franchise: the larger of the two counts.
    pub fn episodes(&self) -> (r: i64)
        ensures
            r == larger(self.real_seen as int, self.external_episodes as int),
    {
        if self.real_seen >= self.external_episodes {
            self.real_seen
        } else {
            self.external_episodes
        }
    }

    /// The episodes credited beyond those really marked seen.
    pub fn extra_external_episodes(&self) -> (r: i64)
        requires
            self.external_episodes - self.real_seen <= i64::MAX,
        ensures
            r == larger(self.external_episodes - self.real_seen, 0),
    {
        if self.external_episodes > self.real_seen {
            self.external_episodes - self.real_seen
        } else {
            0
        }
    }

    /// The minutes of the episodes credited beyond those really marked seen.
    pub fn extra_external_minutes(&self) -> (r: i64)
        requires
            self.external_minutes - self.real_minutes <= i64::MAX,
        ensures
            r == if self.external_episodes > self.real_seen {
                larger(self.external_minutes - self.real_minutes, 0)
            } else {
                0
            },
    {
        if self.external_episodes > self.real_seen && self.external_minutes > self.real_minutes {
            self.external_minutes - self.real_minutes
        } else {
            0
        }
    }
}

/// No episode is counted twice: what is credited beyond the marks and the marks
/// add up to the larger of the two counts.
pub proof fn law_no_double_count(r: FranchiseRollup)
    ensures
        r.real_seen + larger(r.external_episodes - r.real_seen, 0) == larger(
            r.real_seen as int,
            r.external_episodes as int,
        ),
{
}

} // verus!
