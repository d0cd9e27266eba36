//! The catalog: what a filter lets through, in what order it is shown, and what is
//! offered out of it.

use vstd::prelude::*;
use crate::catalog_index::{
    linkable, no_better, row_entries, share_long_word, title_entries, CatalogTitleRow, TitleEntry,
};
use crate::db::catalog::{
    anime_of, animes_of, browsed, by_genre_name, by_popularity, dates_noted, decided, entry_carries,
    genre_of_entry, genres_of_entry, law_popularity_orders, lists_dates, more_popular, page_of,
    premieres, stores, titles_of, CatalogFilter,
};
use crate::db::discover::{
    batch, drawn, eligible, engaged, offered, open_to, places_up_to, survivors,
};
use crate::db::{opt_text, CatalogGenreRow, CatalogRow, Db, SeriesRow};
use crate::laws::lists::lemma_filter_member;
use crate::laws::texts::law_occurs_between;
use crate::matching::{match_score, normalized};
use crate::models::{CatalogAnime, GenreAffinity};
use crate::recommend::FormatAffinity;
use crate::rows::{
    law_sorted_is_in_order, law_sorted_is_permutation, lemma_sorted_contains, orders, sorted,
};
use crate::swipe::{law_shuffled_is_permutation, shuffled};
use crate::text::{
    folded, lemma_precedes_total, lemma_precedes_transitive, precedes, trimmed, words, WordKind,
};

verus! {

/// Whether a filter asks for nothing.
pub open spec fn asks_nothing(f: CatalogFilter) -> bool {
    &&& f.search is None
    &&& f.genres@.len() == 0
    &&& f.format is None
    &&& f.min_score is None
    &&& f.episodes is None
    &&& f.studio is None
}

/// A filter lets through what every one of its parts lets through.
pub proof fn law_filter_parts(f: CatalogFilter, none: CatalogFilter, db: Db, c: CatalogRow)
    requires
        asks_nothing(none),
    ensures
        f.admits(db, c) <==> {
            &&& (CatalogFilter { search: f.search, ..none }).admits(db, c)
            &&& (CatalogFilter { genres: f.genres, ..none }).admits(db, c)
            &&& (CatalogFilter { format: f.format, ..none }).admits(db, c)
            &&& (CatalogFilter { min_score: f.min_score, ..none }).admits(db, c)
            &&& (CatalogFilter { episodes: f.episodes, ..none }).admits(db, c)
            &&& (CatalogFilter { studio: f.studio, ..none }).admits(db, c)
        },
        none.admits(db, c),
{
}

/// A search finds the titles that hold the text, without regard to case and to
/// white space around it.
pub proof fn law_search(none: CatalogFilter, db: Db, c: CatalogRow, text: String)
    requires
        asks_nothing(none),
        trimmed(text@).len() > 0,
    ensures
        (CatalogFilter { search: Some(text), ..none }).admits(db, c) <==> exists|
            a: Seq<char>,
            b: Seq<char>,
        | folded(c.title@) == #[trigger] (a + folded(trimmed(text@)) + b),
{
    let part = folded(trimmed(text@));
    let s = folded(c.title@);
    law_occurs_between(s, part, s, s);
    if exists|a: Seq<char>, b: Seq<char>| s == #[trigger] (a + part + b) {
        let (a, b) = choose|a: Seq<char>, b: Seq<char>| s == #[trigger] (a + part + b);
        law_occurs_between(a, part, b, s);
    }
}

/// The other parts of a filter: a format and a studio are met by the same one, a
/// least score by a score that is known and no lower, genres by an entry that has
/// every one of them. Text of white space asks for nothing.
pub proof fn law_filter_by_field(
    none: CatalogFilter,
    db: Db,
    c: CatalogRow,
    text: String,
    score: i64,
    genres: Vec<String>,
)
    requires
        asks_nothing(none),
    ensures
        trimmed(text@).len() > 0 ==> ((CatalogFilter { format: Some(text), ..none }).admits(db, c)
            <==> (c.format matches Some(f) && f@ == trimmed(text@))),
        trimmed(text@).len() > 0 ==> ((CatalogFilter { studio: Some(text), ..none }).admits(db, c)
            <==> (c.studio matches Some(f) && f@ == trimmed(text@))),
        trimmed(text@).len() == 0 ==> (CatalogFilter {
            format: Some(text),
            studio: Some(text),
            search: Some(text),
            episodes: Some(text),
            ..none
        }).admits(db, c),
        (CatalogFilter { min_score: Some(score), ..none }).admits(db, c) <==> (
        c.average_score matches Some(s) && score <= s),
        (CatalogFilter { genres, ..none }).admits(db, c) <==> forall|k: int|
            0 <= k < genres@.len() && trimmed((#[trigger] genres@[k])@).len() > 0 ==> entry_carries(
                db.catalog_genres@,
                c.id,
                trimmed(genres@[k]@),
            ),
{
}

/// What is browsed: exactly the entries that the filter lets through, from the most
/// popular down; those of unknown popularity are last.
pub proof fn law_browsed(db: Db, f: CatalogFilter, c: CatalogRow)
    ensures
        browsed(db, f).contains(c) <==> db.catalog@.contains(c) && f.admits(db, c),
        forall|i: int, j: int|
            0 <= i < j < browsed(db, f).len() ==> match (
                (#[trigger] browsed(db, f)[i]).popularity,
                (#[trigger] browsed(db, f)[j]).popularity,
            ) {
                (Some(x), Some(y)) => x >= y,
                (None, Some(_)) => false,
                (_, None) => true,
            },
{
    let hit = f.condition(db);
    let rows = db.catalog@.filter(hit);
    lemma_filter_member(db.catalog@, hit, c);
    lemma_sorted_contains(rows, by_popularity(), c);
    law_popularity_orders();
    law_sorted_is_in_order(rows, by_popularity());
    law_sorted_is_permutation(rows, by_popularity());
    let list = browsed(db, f);
    assert forall|i: int, j: int| 0 <= i < j < list.len() implies match (
        (#[trigger] list[i]).popularity,
        (#[trigger] list[j]).popularity,
    ) {
        (Some(x), Some(y)) => x >= y,
        (None, Some(_)) => false,
        (_, None) => true,
    } by {
        assert(!by_popularity()(list[j], list[i]));
    }
}

/// Entries of one popularity are in the order of their ids.
pub proof fn law_popularity_ties(a: CatalogRow, b: CatalogRow)
    ensures
        a.popularity == b.popularity && a.id < b.id ==> more_popular(a, b) && !more_popular(b, a),
        a.popularity is Some && b.popularity is None ==> more_popular(a, b) && !more_popular(b, a),
{
}

/// A page holds what follows the pages before it; the first page is also what comes
/// for a page below it.
pub proof fn law_page<T>(s: Seq<T>, page: i64, per_page: i64, i: int)
    requires
        per_page > 0,
    ensures
        page_of(s, page, per_page).len() <= per_page,
        page <= 1 ==> page_of(s, page, per_page) == page_of(s, 1, per_page),
        page >= 1 && 0 <= i < per_page && (page - 1) * per_page + i < s.len() ==> i < page_of(
            s,
            page,
            per_page,
        ).len() && page_of(s, page, per_page)[i] == s[(page - 1) * per_page + i],
        page >= 1 && (page - 1) * per_page >= s.len() ==> page_of(s, page, per_page).len() == 0,
{
    if page >= 1 {
        assert((page - 1) * per_page >= 0) by (nonlinear_arith)
            requires
                page >= 1,
                per_page > 0,
        ;
    }
    assert(0 * per_page == 0) by (nonlinear_arith);
    if page == 1 {
        assert((page - 1) * per_page == 0) by (nonlinear_arith)
            requires
                page == 1,
        ;
    }
}

/// What is read of an entry is what was stored of it.
pub proof fn law_stored_entry_is_read(
    c: CatalogRow,
    a: CatalogAnime,
    b: CatalogAnime,
    db: Db,
    n: i64,
)
    requires
        stores(c, a, n),
        anime_of(b, db, c),
    ensures
        b == (CatalogAnime { genres: b.genres, ..a }),
        b.genres@ == genres_of_entry(db.catalog_genres@, a.id),
{
}

/// The genres of an entry, in order: those, and no others.
pub proof fn law_genres_of_an_entry(genres: Seq<CatalogGenreRow>, id: i64, name: String)
    ensures
        genres_of_entry(genres, id).contains(name) <==> exists|k: int|
            0 <= k < genres.len() && (#[trigger] genres[k]).anilist_id == id && genres[k].genre
                == name,
        forall|i: int, j: int|
            0 <= i < j < genres_of_entry(genres, id).len() ==> !precedes(
                (#[trigger] genres_of_entry(genres, id)[j])@,
                (#[trigger] genres_of_entry(genres, id)[i])@,
            ),
{
    let own = genres.filter(genre_of_entry(id));
    let list = sorted(own, by_genre_name());
    let names = genres_of_entry(genres, id);
    assert(orders(by_genre_name())) by {
        assert forall|a: CatalogGenreRow, b: CatalogGenreRow| #[trigger]
            by_genre_name()(a, b) implies !by_genre_name()(b, a) by {
            lemma_precedes_total(a.genre@, b.genre@);
        }
        assert forall|a: CatalogGenreRow, b: CatalogGenreRow, c: CatalogGenreRow|
            !(#[trigger] by_genre_name()(b, a)) && !(#[trigger] by_genre_name()(
                c,
                b,
            )) implies !by_genre_name()(c, a) by {
            lemma_precedes_total(a.genre@, b.genre@);
            lemma_precedes_total(b.genre@, c.genre@);
            lemma_precedes_total(a.genre@, c.genre@);
            if precedes(a.genre@, b.genre@) && precedes(b.genre@, c.genre@) {
                lemma_precedes_transitive(a.genre@, b.genre@, c.genre@);
            }
        }
    }
    law_sorted_is_permutation(own, by_genre_name());
    law_sorted_is_in_order(own, by_genre_name());
    assert forall|i: int, j: int| 0 <= i < j < names.len() implies !precedes(
        (#[trigger] names[j])@,
        (#[trigger] names[i])@,
    ) by {
        assert(!by_genre_name()(list[j], list[i]));
    }
    if names.contains(name) {
        let p = choose|p: int| 0 <= p < names.len() && names[p] == name;
        lemma_sorted_contains(own, by_genre_name(), list[p]);
        assert(list.contains(list[p]));
        lemma_filter_member(genres, genre_of_entry(id), list[p]);
        let k = choose|k: int| 0 <= k < genres.len() && genres[k] == list[p];
        assert(genres[k].genre == name);
    }
    if exists|k: int|
        0 <= k < genres.len() && (#[trigger] genres[k]).anilist_id == id && genres[k].genre
            == name {
        let k = choose|k: int|
            0 <= k < genres.len() && (#[trigger] genres[k]).anilist_id == id && genres[k].genre
                == name;
        lemma_filter_member(genres, genre_of_entry(id), genres[k]);
        assert(genres.contains(genres[k]));
        lemma_sorted_contains(own, by_genre_name(), genres[k]);
        let p = choose|p: int| 0 <= p < list.len() && list[p] == genres[k];
        assert(names[p] == name);
    }
}

/// The titles of an entry: its main one, and the romaji and the English one where
/// it has them.
pub proof fn law_titles_of_an_entry(c: CatalogRow, t: Seq<char>)
    ensures
        titles_of(c).contains(t) <==> t == c.title@ || opt_text(c.title_romaji) == Some(t)
            || opt_text(c.title_english) == Some(t),
        titles_of(c)[0] == c.title@,
        titles_of(c).len() <= 3,
{
    let all = titles_of(c);
    assert(all[0] == c.title@);
    if c.title_romaji is Some {
        assert(all[1] == c.title_romaji->0@);
        if c.title_english is Some {
            assert(all[2] == c.title_english->0@);
        }
    } else if c.title_english is Some {
        assert(all[1] == c.title_english->0@);
    }
}

/// Whether one of an entry's titles is a text once normalized.
pub open spec fn has_title(c: CatalogRow, t: Seq<char>) -> bool {
    exists|i: int| 0 <= i < titles_of(c).len() && normalized(#[trigger] titles_of(c)[i]) == t
}

/// The date of a title is that of the first entry with a date that has the title;
/// a title has a date exactly where there is one.
pub proof fn law_premieres(catalog: Seq<CatalogRow>, n: int, t: Seq<char>)
    requires
        0 <= n <= catalog.len(),
    ensures
        premieres(catalog, n).dom().contains(t) <==> exists|k: int|
            0 <= k < n && (#[trigger] catalog[k]).start_date is Some && has_title(catalog[k], t),
        premieres(catalog, n).dom().contains(t) ==> exists|k: int|
            0 <= k < n && (#[trigger] catalog[k]).start_date == Some(premieres(catalog, n)[t])
                && has_title(catalog[k], t) && forall|j: int|
                0 <= j < k && (#[trigger] catalog[j]).start_date is Some ==> !has_title(
                    catalog[j],
                    t,
                ),
    decreases n,
{
    if n > 0 {
        law_premieres(catalog, n - 1, t);
        let before = premieres(catalog, n - 1);
        let c = catalog[n - 1];
        if c.start_date is Some {
            lemma_noted(before, titles_of(c), c.start_date->0, t);
        }
    }
}

proof fn lemma_noted(dates: Map<Seq<char>, i64>, titles: Seq<Seq<char>>, date: i64, t: Seq<char>)
    ensures
        ({
            let after = dates_noted(dates, titles, date);
            let had = exists|i: int|
                0 <= i < titles.len() && normalized(#[trigger] titles[i]) == t;
            &&& after.dom().contains(t) <==> dates.dom().contains(t) || had
            &&& dates.dom().contains(t) ==> after[t] == dates[t]
            &&& !dates.dom().contains(t) && had ==> after[t] == date
        }),
    decreases titles.len(),
{
    if titles.len() > 0 {
        let init = titles.drop_last();
        lemma_noted(dates, init, date, t);
        let n = titles.len() - 1;
        assert forall|i: int| 0 <= i < init.len() implies #[trigger] init[i] == titles[i] by {}
        if exists|i: int| 0 <= i < titles.len() && normalized(#[trigger] titles[i]) == t {
            let i = choose|i: int| 0 <= i < titles.len() && normalized(#[trigger] titles[i]) == t;
            if i < n {
                assert(normalized(init[i]) == t);
            }
        }
        if exists|i: int| 0 <= i < init.len() && normalized(#[trigger] init[i]) == t {
            let i = choose|i: int| 0 <= i < init.len() && normalized(#[trigger] init[i]) == t;
            assert(normalized(titles[i]) == t);
        }
        if normalized(titles.last()) == t {
            assert(normalized(titles[n]) == t);
        }
    }
}

/// What a series has been decided on: it is followed, was watched elsewhere, or is
/// tagged as wanted or as discarded.
pub proof fn law_decided(s: SeriesRow)
    ensures
        s.followed || s.watched_externally ==> decided()(s),
        s.backlog_status matches Some(t) && (t@ == "want"@ || t@ == "discarded"@) ==> decided()(s),
        decided()(s) && !s.followed && !s.watched_externally ==> (s.backlog_status matches Some(t)
            && (t@ == "want"@ || t@ == "discarded"@)),
{
}

/// What can be offered for a genre: an entry that has the genre, of a format that is
/// watched as a show and not banned, with a popularity of at least five hundred,
/// that no series is linked to, and that is out where what is not is hidden.
pub proof fn law_eligible(
    db: Db,
    genre: Seq<char>,
    banned: Seq<String>,
    hide_upcoming: bool,
    c: CatalogRow,
)
    ensures
        eligible(db, genre, banned, hide_upcoming)(c) <==> {
            &&& exists|k: int|
                0 <= k < db.catalog_genres@.len() && (#[trigger] db.catalog_genres@[k]).anilist_id
                    == c.id && db.catalog_genres@[k].genre@ == genre
            &&& c.format matches Some(f) && seq!["TV"@, "MOVIE"@, "OVA"@, "ONA"@, "SPECIAL"@].contains(
                f@,
            ) && forall|k: int|
                0 <= k < banned.len() ==> folded((#[trigger] banned[k])@) != folded(f@)
            &&& c.popularity matches Some(p) && p >= 500
            &&& forall|k: int|
                0 <= k < db.series@.len() ==> (#[trigger] db.series@[k]).anilist_id != Some(c.id)
            &&& hide_upcoming ==> opt_text(c.status) != Some("NOT_YET_RELEASED"@)
        },
{
    let formats = seq!["TV"@, "MOVIE"@, "OVA"@, "ONA"@, "SPECIAL"@];
    assert(formats[0] == "TV"@ && formats[1] == "MOVIE"@ && formats[2] == "OVA"@ && formats[3]
        == "ONA"@ && formats[4] == "SPECIAL"@);
    if c.format is Some {
        let f = c.format->0@;
        if formats.contains(f) {
            let i = choose|i: int| 0 <= i < formats.len() && formats[i] == f;
            assert(i == 0 || i == 1 || i == 2 || i == 3 || i == 4);
        }
        assert(formats.contains(f) <==> offered(f));
    }
}

/// What is drawn at random is among the candidates, and none is drawn twice; up to a
/// hundred and fifty are drawn, and all of them where there are no more.
pub proof fn law_batch(candidates: Seq<CatalogRow>, seed: u64)
    requires
        candidates.len() <= usize::MAX,
    ensures
        batch(candidates, seed).len() == if candidates.len() > 150 { 150 } else { candidates.len() },
        forall|i: int|
            0 <= i < batch(candidates, seed).len() ==> candidates.contains(
                #[trigger] batch(candidates, seed)[i],
            ),
{
    let n = candidates.len();
    let order = shuffled(places_up_to(n), seed, n - 1);
    law_shuffled_is_permutation(places_up_to(n), seed, n - 1);
    let drawn = batch(candidates, seed);
    assert forall|i: int| 0 <= i < drawn.len() implies candidates.contains(#[trigger] drawn[i]) by {
        broadcast use vstd::seq_lib::group_to_multiset_ensures;

        let p = order[i];
        assert(order.contains(p));
        assert(order.to_multiset().count(p) > 0);
        assert(places_up_to(n).contains(p));
        let q = choose|q: int| 0 <= q < n && places_up_to(n)[q] == p;
        assert(drawn[i] == candidates[p as int]);
    }
}

/// What is left to be offered can be offered, and none of its titles is one that
/// was decided on.
pub proof fn law_survivors(
    db: Db,
    genre: Seq<char>,
    banned: Seq<String>,
    excluded: Set<Seq<char>>,
    hide_upcoming: bool,
    seed: u64,
    c: CatalogRow,
)
    requires
        db.catalog@.len() <= usize::MAX,
        survivors(db, genre, banned, excluded, hide_upcoming, seed).contains(c),
    ensures
        db.catalog@.contains(c),
        eligible(db, genre, banned, hide_upcoming)(c),
        forall|t: Seq<char>| #[trigger]
            titles_of(c).contains(t) ==> !excluded.contains(normalized(t)),
{
    let hit = eligible(db, genre, banned, hide_upcoming);
    let pool = db.catalog@.filter(hit);
    db.catalog@.lemma_filter_len(hit);
    let drawn = batch(pool, seed);
    lemma_filter_member(drawn, open_to(excluded), c);
    law_batch(pool, seed);
    let i = choose|i: int| 0 <= i < drawn.len() && drawn[i] == c;
    assert(pool.contains(drawn[i]));
    lemma_filter_member(db.catalog@, hit, c);
    assert forall|t: Seq<char>| #[trigger] titles_of(c).contains(t) implies !excluded.contains(
        normalized(t),
    ) by {
        let k = choose|k: int| 0 <= k < titles_of(c).len() && titles_of(c)[k] == t;
        assert(!engaged(c, excluded));
        assert(!excluded.contains(normalized(titles_of(c)[k])));
    }
}

/// The titles in the index: those of the rows that are something once normalized,
/// each with its row's id and popularity.
pub proof fn law_indexed_titles(rows: Seq<CatalogTitleRow>, e: TitleEntry)
    ensures
        row_entries(rows).contains(e) <==> exists|r: int, t: int|
            #![trigger rows[r].titles@[t]]
            0 <= r < rows.len() && 0 <= t < rows[r].titles@.len() && rows[r].id == e.id
                && rows[r].popularity == e.popularity && normalized(rows[r].titles@[t]@) == e.norm
                && e.norm.len() > 0,
    decreases rows.len(),
{
    if rows.len() > 0 {
        let init = rows.drop_last();
        let last = rows.last();
        let n = rows.len() - 1;
        law_indexed_titles(init, e);
        lemma_row_titles(last.titles@, last.id, last.popularity, e);
        let a = row_entries(init);
        let b = title_entries(last.titles@, last.id, last.popularity);
        assert(row_entries(rows) == a + b);
        if (a + b).contains(e) {
            let p = choose|p: int| 0 <= p < (a + b).len() && (a + b)[p] == e;
            if p < a.len() {
                assert(a[p] == e);
                let (r, t) = choose|r: int, t: int|
                    #![trigger init[r].titles@[t]]
                    0 <= r < init.len() && 0 <= t < init[r].titles@.len() && init[r].id == e.id
                        && init[r].popularity == e.popularity && normalized(init[r].titles@[t]@)
                        == e.norm && e.norm.len() > 0;
                assert(rows[r] == init[r]);
                assert(normalized(rows[r].titles@[t]@) == e.norm);
            } else {
                assert(b[p - a.len()] == e);
                let t = choose|t: int|
                    0 <= t < last.titles@.len() && normalized((#[trigger] last.titles@[t])@)
                        == e.norm;
                assert(normalized(rows[n].titles@[t]@) == e.norm);
            }
        }
        if exists|r: int, t: int|
            #![trigger rows[r].titles@[t]]
            0 <= r < rows.len() && 0 <= t < rows[r].titles@.len() && rows[r].id == e.id
                && rows[r].popularity == e.popularity && normalized(rows[r].titles@[t]@) == e.norm
                && e.norm.len() > 0 {
            let (r, t) = choose|r: int, t: int|
                #![trigger rows[r].titles@[t]]
                0 <= r < rows.len() && 0 <= t < rows[r].titles@.len() && rows[r].id == e.id
                    && rows[r].popularity == e.popularity && normalized(rows[r].titles@[t]@)
                    == e.norm && e.norm.len() > 0;
            if r < n {
                assert(init[r] == rows[r]);
                assert(normalized(init[r].titles@[t]@) == e.norm);
                let p = choose|p: int| 0 <= p < a.len() && a[p] == e;
                assert((a + b)[p] == e);
            } else {
                assert(normalized(last.titles@[t]@) == e.norm);
                let p = choose|p: int| 0 <= p < b.len() && b[p] == e;
                assert((a + b)[a.len() + p] == e);
            }
        }
    }
}

proof fn lemma_row_titles(titles: Seq<String>, id: i64, popularity: i64, e: TitleEntry)
    ensures
        title_entries(titles, id, popularity).contains(e) <==> e.id == id && e.popularity
            == popularity && e.norm.len() > 0 && exists|t: int|
            0 <= t < titles.len() && normalized((#[trigger] titles[t])@) == e.norm,
    decreases titles.len(),
{
    if titles.len() > 0 {
        let init = titles.drop_last();
        let n = titles.len() - 1;
        lemma_row_titles(init, id, popularity, e);
        let before = title_entries(init, id, popularity);
        let now = title_entries(titles, id, popularity);
        assert forall|t: int| 0 <= t < init.len() implies #[trigger] init[t] == titles[t] by {}
        if now.contains(e) {
            let p = choose|p: int| 0 <= p < now.len() && now[p] == e;
            if p < before.len() {
                assert(before[p] == e);
                let t = choose|t: int|
                    0 <= t < init.len() && normalized((#[trigger] init[t])@) == e.norm;
                assert(normalized(titles[t]@) == e.norm);
            } else {
                assert(normalized(titles[n]@) == e.norm);
            }
        }
        if e.id == id && e.popularity == popularity && e.norm.len() > 0 && exists|t: int|
            0 <= t < titles.len() && normalized((#[trigger] titles[t])@) == e.norm {
            let t = choose|t: int|
                0 <= t < titles.len() && normalized((#[trigger] titles[t])@) == e.norm;
            if t < n {
                assert(normalized(init[t]@) == e.norm);
                let p = choose|p: int| 0 <= p < before.len() && before[p] == e;
                assert(now[p] == e);
            } else {
                assert(now[now.len() - 1] == e);
            }
        }
    }
}

/// A title links to an entry where they share a word of at least four letters and
/// score at least eighty-four in a hundred; of two links the better score counts,
/// then the more popular entry.
pub proof fn law_links(query: Seq<char>, e: TitleEntry, s: nat, p: i64, t: nat, q: i64)
    ensures
        linkable(query, e) ==> 100 * match_score(normalized(query), e.norm) >= 84
            * crate::matching::SCORE_ONE,
        linkable(query, e) ==> exists|w: Seq<char>| #[trigger]
            words(normalized(query), WordKind::Visible).contains(w) && words(
                e.norm,
                WordKind::Visible,
            ).contains(w) && w.len() >= 4,
        100 * match_score(normalized(query), e.norm) >= 84 * crate::matching::SCORE_ONE && (exists|
            w: Seq<char>,
        | #[trigger]
            words(normalized(query), WordKind::Visible).contains(w) && words(
                e.norm,
                WordKind::Visible,
            ).contains(w) && w.len() >= 4) ==> linkable(query, e),
        s < t ==> no_better(s, p, t, q) && !no_better(t, q, s, p),
        s == t && p < q ==> no_better(s, p, t, q) && !no_better(t, q, s, p),
        s == t && p == q ==> no_better(s, p, t, q),
{
    let x = words(normalized(query), WordKind::Visible);
    let y = words(e.norm, WordKind::Visible);
    if linkable(query, e) {
        let (i, j) = choose|i: int, j: int|
            #![trigger x[i], y[j]]
            0 <= i < x.len() && 0 <= j < y.len() && x[i] == y[j] && x[i].len() >= 4;
        assert(x.contains(x[i]));
        assert(y.contains(y[j]));
    }
    if exists|w: Seq<char>| #[trigger] x.contains(w) && y.contains(w) && w.len() >= 4 {
        let w = choose|w: Seq<char>| #[trigger] x.contains(w) && y.contains(w) && w.len() >= 4;
        let i = choose|i: int| 0 <= i < x.len() && x[i] == w;
        let j = choose|j: int| 0 <= j < y.len() && y[j] == w;
        assert(x[i] == y[j]);
        assert(share_long_word(normalized(query), e.norm));
    }
}

/// Every title with a date is listed once, with its date.
pub proof fn law_dates_are_listed(
    list: Seq<(String, i64)>,
    dates: Map<Seq<char>, i64>,
    i: int,
    j: int,
)
    requires
        lists_dates(list, dates),
        0 <= i < list.len(),
        0 <= j < list.len(),
    ensures
        dates.dom().contains(list[i].0@) && dates[list[i].0@] == list[i].1,
        list[i].0@ == list[j].0@ ==> i == j,
        forall|t: Seq<char>| #[trigger]
            dates.dom().contains(t) ==> exists|k: int|
                0 <= k < list.len() && (#[trigger] list[k]).0@ == t,
{
}

/// What is offered is what is left, or nothing where nothing is; without a
/// recommendation it is the first of what is left.
pub proof fn law_offered_card(
    card: Option<CatalogAnime>,
    db: Db,
    genre: Seq<char>,
    banned: Seq<String>,
    excluded: Set<Seq<char>>,
    weights: Seq<GenreAffinity>,
    formats: Seq<FormatAffinity>,
    recommended: bool,
    hide_upcoming: bool,
    seed: u64,
    draw: u64,
)
    requires
        drawn(
            card,
            db,
            genre,
            banned,
            excluded,
            weights,
            formats,
            recommended,
            hide_upcoming,
            seed,
            draw,
        ),
    ensures
        card is None <==> survivors(db, genre, banned, excluded, hide_upcoming, seed).len() == 0,
        card matches Some(a) ==> exists|p: int|
            0 <= p < survivors(db, genre, banned, excluded, hide_upcoming, seed).len()
                && #[trigger] anime_of(
                a,
                db,
                survivors(db, genre, banned, excluded, hide_upcoming, seed)[p],
            ) && (!recommended ==> p == 0),
{
    let rows = survivors(db, genre, banned, excluded, hide_upcoming, seed);
    if card is Some {
        let a = card->0;
        if recommended {
            let p = choose|p: int| 0 <= p < rows.len() && #[trigger] anime_of(a, db, rows[p]);
            assert(anime_of(a, db, rows[p]));
        } else {
            assert(anime_of(a, db, rows[0]));
        }
    }
}

/// A list of entries shows each of its rows, in their order.
pub proof fn law_rows_are_shown(list: Seq<CatalogAnime>, db: Db, rows: Seq<CatalogRow>, i: int)
    requires
        animes_of(list, db, rows),
        0 <= i < rows.len(),
    ensures
        list.len() == rows.len(),
        list[i].id == rows[i].id && list[i].title == rows[i].title && list[i].popularity
            == rows[i].popularity && list[i].episodes == rows[i].episodes && list[i].average_score
            == rows[i].average_score,
        list[i].genres@ == genres_of_entry(db.catalog_genres@, rows[i].id),
{
    assert(anime_of(list[i], db, rows[i]));
}

} // verus!
