//! Which series on different sites are the same show.

use vstd::prelude::*;
use crate::db::SeriesRow;
use crate::matching::{normalize_title, normalized};
use crate::text::{append_chars, chars_of, int_text, lemma_int_text_injective, text_of, write_int};

verus! {

/// The key of a show: its catalog id where that is known, its normalized title
/// otherwise.
pub open spec fn canon(anilist_id: Option<i64>, title: Seq<char>) -> Seq<char> {
    match anilist_id {
        Some(id) => "al:"@ + int_text(id as int),
        None => "t:"@ + normalized(title),
    }
}

/// The key of the show that a series is.
pub open spec fn canon_of(s: SeriesRow) -> Seq<char> {
    canon(s.anilist_id, s.title@)
}

/// Whether two series are the same show: they have the same catalog id, or both
/// have none and their titles normalize to the same text.
pub open spec fn same_show(a: SeriesRow, b: SeriesRow) -> bool {
    match a.anilist_id {
        Some(id) => b.anilist_id == Some(id),
        None => b.anilist_id is None && normalized(b.title@) == normalized(a.title@),
    }
}

/// Two series have the same key exactly when they are the same show.
pub proof fn law_canon_identifies(a: SeriesRow, b: SeriesRow)
    ensures
        canon_of(a) == canon_of(b) <==> same_show(a, b),
{
    reveal_strlit("al:");
    reveal_strlit("t:");
    let x = canon_of(a);
    let y = canon_of(b);
    if x == y {
        assert(x[0] == y[0]);
        match (a.anilist_id, b.anilist_id) {
            (Some(i), Some(j)) => {
                assert(int_text(i as int) =~= x.skip(3));
                assert(int_text(j as int) =~= y.skip(3));
                lemma_int_text_injective(i as int, j as int);
            },
            (None, None) => {
                assert(normalized(a.title@) =~= x.skip(2));
                assert(normalized(b.title@) =~= y.skip(2));
            },
            (Some(i), None) => {
                assert(x[0] == 'a' && y[0] == 't');
            },
            (None, Some(j)) => {
                assert(x[0] == 't' && y[0] == 'a');
            },
        }
    }
}

/// To be the same show is an equivalence.
pub proof fn law_same_show_equivalence(a: SeriesRow, b: SeriesRow, c: SeriesRow)
    ensures
        same_show(a, a),
        same_show(a, b) ==> same_show(b, a),
        same_show(a, b) && same_show(b, c) ==> same_show(a, c),
{
}

/// A prefix followed by characters.
fn prefixed(prefix: &str, rest: &Vec<char>) -> (r: String)
    ensures
        r@ == prefix@ + rest@,
{
    let mut out = chars_of(prefix);
    append_chars(&mut out, rest);
    text_of(&out)
}

/// The key of a catalog id.
pub fn catalog_key(id: i64) -> (r: String)
    ensures
        r@ == "al:"@ + int_text(id as int),
{
    prefixed("al:", &write_int(id))
}

/// The key of a title in the given form.
pub fn title_key(form: &str) -> (r: String)
    ensures
        r@ == "t:"@ + form@,
{
    prefixed("t:", &chars_of(form))
}

/// The key of a show: its catalog id where that is known, its normalized title
/// otherwise.
pub fn canon_key(anilist_id: Option<i64>, title: &str) -> (r: String)
    ensures
        r@ == canon(anilist_id, title@),
{
    match anilist_id {
        Some(id) => catalog_key(id),
        None => title_key(normalize_title(title).as_str()),
    }
}

} // verus!
