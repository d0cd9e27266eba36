//! The catalog as it was last synced: storing entries, browsing and filtering.

use vstd::prelude::*;
use crate::db::grouping::{catalog_of, entry_with_id};
use crate::db::{
    catalog_genres_keyed, catalog_keyed, copy_text, opt_text, text_is, CatalogGenreRow, CatalogRow,
    Db, DbError, SeriesRow,
};
use crate::listing::{
    ascending, ascending_nocase, drop_repeats, first_uses, lemma_first_uses, list_text,
    order_nocase,
};
use crate::matching::{normalize_title, normalized};
use crate::models::CatalogAnime;
use crate::rows::{
    count_where, first_where, key_views, law_sorted_is_permutation, lemma_filter_none,
    lemma_filter_pairwise, lemma_filter_step, lemma_first_where_at, lemma_first_where_none, orders,
    pairwise, sort_rows, sorted,
};
use crate::text::{
    chars_occur, chars_of, fold_chars, folded, occurs_in, precedes, same_text, text_of,
    text_precedes, trim_chars, trimmed,
};

verus! {

/// What the catalog is narrowed by. What is left out or blank narrows nothing.
#[derive(Debug, Clone, PartialEq)]
pub struct CatalogFilter {
    /// A text that the title holds, ASCII letters counting alike in either case.
    pub search: Option<String>,
    /// Genres that an entry carries, all of them.
    pub genres: Vec<String>,
    pub format: Option<String>,
    /// The lowest score.
    pub min_score: Option<i64>,
    /// A range of lengths: "1", "2-12", "13-26", "27+" or "unknown". Any other
    /// text narrows nothing.
    pub episodes: Option<String>,
    pub studio: Option<String>,
}

impl Default for CatalogFilter {
    /// The filter that narrows nothing.
    fn default() -> (r: Self)
        ensures
            r.search is None,
            r.genres@.len() == 0,
            r.format is None,
            r.min_score is None,
            r.episodes is None,
            r.studio is None,
    {
        CatalogFilter {
            search: None,
            genres: Vec::new(),
            format: None,
            min_score: None,
            episodes: None,
            studio: None,
        }
    }
}

/// What a field of a filter asks for: its text without surrounding white space,
/// unless that is empty.
pub open spec fn asked(t: Option<String>) -> Option<Seq<char>> {
    match t {
        Some(s) => if trimmed(s@).len() > 0 { Some(trimmed(s@)) } else { None },
        None => None,
    }
}

/// Whether a length is in a range of lengths.
pub open spec fn in_bucket(episodes: Option<i64>, bucket: Seq<char>) -> bool {
    if bucket == "1"@ {
        episodes == Some(1i64)
    } else if bucket == "2-12"@ {
        episodes matches Some(n) && 2 <= n <= 12
    } else if bucket == "13-26"@ {
        episodes matches Some(n) && 13 <= n <= 26
    } else if bucket == "27+"@ {
        episodes matches Some(n) && n >= 27
    } else if bucket == "unknown"@ {
        episodes is None
    } else {
        true
    }
}

/// Whether a catalog entry carries a genre.
pub open spec fn entry_carries(genres: Seq<CatalogGenreRow>, id: i64, genre: Seq<char>) -> bool {
    exists|k: int|
        0 <= k < genres.len() && (#[trigger] genres[k]).anilist_id == id && genres[k].genre@
            == genre
}

/// Whether a catalog entry carries every listed genre that is not blank.
pub open spec fn carries_all(db: Db, id: i64, wanted: Seq<String>) -> bool {
    forall|k: int|
        0 <= k < wanted.len() && trimmed((#[trigger] wanted[k])@).len() > 0 ==> entry_carries(
            db.catalog_genres@,
            id,
            trimmed(wanted[k]@),
        )
}

impl CatalogFilter {
    /// Whether an entry passes.
    pub open spec fn admits(self, db: Db, c: CatalogRow) -> bool {
        &&& asked(self.search) matches Some(t) ==> occurs_in(folded(t), folded(c.title@))
        &&& asked(self.format) matches Some(t) ==> opt_text(c.format) == Some(t)
        &&& asked(self.studio) matches Some(t) ==> opt_text(c.studio) == Some(t)
        &&& self.min_score matches Some(n) ==> (c.average_score matches Some(s) && s >= n)
        &&& asked(self.episodes) matches Some(b) ==> in_bucket(c.episodes, b)
        &&& carries_all(db, c.id, self.genres@)
    }

    /// The condition of passing.
    pub open spec fn condition(self, db: Db) -> spec_fn(CatalogRow) -> bool {
        |c: CatalogRow| self.admits(db, c)
    }
}

/// The filter that asks for nothing lets every entry pass.
pub proof fn law_empty_filter_admits_all(filter: CatalogFilter, db: Db, c: CatalogRow)
    requires
        filter.search is None,
        filter.genres@.len() == 0,
        filter.format is None,
        filter.min_score is None,
        filter.episodes is None,
        filter.studio is None,
    ensures
        filter.admits(db, c),
{
}

/// Whether an entry stands before another: the more popular first, those without
/// a popularity last, equal ones by id.
pub open spec fn more_popular(a: CatalogRow, b: CatalogRow) -> bool {
    match (a.popularity, b.popularity) {
        (Some(x), Some(y)) => x > y || x == y && a.id < b.id,
        (Some(_), None) => true,
        (None, Some(_)) => false,
        (None, None) => a.id < b.id,
    }
}

/// The order of entries by popularity.
pub open spec fn by_popularity() -> spec_fn(CatalogRow, CatalogRow) -> bool {
    |a: CatalogRow, b: CatalogRow| more_popular(a, b)
}

/// Popularity orders the entries, so that the sorted catalog is in order.
pub proof fn law_popularity_orders()
    ensures
        orders(by_popularity()),
{
}

/// The entries that pass a filter, the most popular first.
pub open spec fn browsed(db: Db, filter: CatalogFilter) -> Seq<CatalogRow> {
    sorted(db.catalog@.filter(filter.condition(db)), by_popularity())
}

/// Where a page starts.
pub open spec fn page_start(page: i64, per_page: i64) -> int {
    (if page > 1 { page - 1 } else { 0 }) * per_page
}

/// The smaller of two numbers.
pub open spec fn smaller(a: int, b: int) -> int {
    if a <= b { a } else { b }
}

/// The entries of a page. A negative number of entries per page means all of
/// them.
pub open spec fn page_of<T>(s: Seq<T>, page: i64, per_page: i64) -> Seq<T> {
    if per_page < 0 {
        s
    } else {
        let from = smaller(page_start(page, per_page), s.len() as int);
        s.subrange(from, smaller(page_start(page, per_page) + per_page, s.len() as int))
    }
}

/// The first `n` pages, one behind the other.
pub open spec fn first_pages<T>(s: Seq<T>, per_page: i64, n: int) -> Seq<T>
    decreases n,
{
    if n <= 0 {
        Seq::empty()
    } else {
        first_pages(s, per_page, n - 1) + page_of(s, n as i64, per_page)
    }
}

/// Paging through a list gives every entry once, in order: the first pages one
/// behind the other are the start of the list, and all of it once there are
/// enough of them.
pub proof fn law_pages_cover<T>(s: Seq<T>, per_page: i64, n: int)
    requires
        per_page > 0,
        0 <= n <= i64::MAX,
    ensures
        first_pages(s, per_page, n) == s.take(smaller(n * per_page, s.len() as int)),
        n * per_page >= s.len() ==> first_pages(s, per_page, n) == s,
    decreases n,
{
    assert(n * per_page >= 0) by (nonlinear_arith)
        requires
            n >= 0,
            per_page > 0,
    ;
    if n > 0 {
        law_pages_cover(s, per_page, n - 1);
        assert(n * per_page == (n - 1) * per_page + per_page) by (nonlinear_arith);
        assert((n - 1) * per_page >= 0) by (nonlinear_arith)
            requires
                n >= 1,
                per_page > 0,
        ;
        assert(page_start(n as i64, per_page) == (n - 1) * per_page);
        let len = s.len() as int;
        assert(s.take(smaller((n - 1) * per_page, len)) + page_of(s, n as i64, per_page)
            =~= s.take(smaller(n * per_page, len)));
    } else {
        assert(n * per_page == 0) by (nonlinear_arith)
            requires
                n == 0,
        ;
        assert(s.take(0) =~= Seq::empty());
    }
    assert(s.take(s.len() as int) =~= s);
}

/// The condition of being a genre of an entry.
pub open spec fn genre_of_entry(id: i64) -> spec_fn(CatalogGenreRow) -> bool {
    |g: CatalogGenreRow| g.anilist_id == id
}

/// The condition of being a genre of another entry.
pub open spec fn genre_of_other(id: i64) -> spec_fn(CatalogGenreRow) -> bool {
    |g: CatalogGenreRow| g.anilist_id != id
}

/// The order of genres by name.
pub open spec fn by_genre_name() -> spec_fn(CatalogGenreRow, CatalogGenreRow) -> bool {
    |a: CatalogGenreRow, b: CatalogGenreRow| precedes(a.genre@, b.genre@)
}

/// The genres of an entry in alphabetical order.
pub open spec fn genres_of_entry(genres: Seq<CatalogGenreRow>, id: i64) -> Seq<String> {
    sorted(genres.filter(genre_of_entry(id)), by_genre_name()).map_values(
        |g: CatalogGenreRow| g.genre,
    )
}

/// Whether an entry is shown as it is stored, with its genres.
pub open spec fn anime_of(a: CatalogAnime, db: Db, c: CatalogRow) -> bool {
    &&& a.id == c.id
    &&& a.title == c.title
    &&& a.title_romaji == c.title_romaji
    &&& a.title_english == c.title_english
    &&& a.cover_url == c.cover_url
    &&& a.format == c.format
    &&& a.genres@ == genres_of_entry(db.catalog_genres@, c.id)
    &&& a.episodes == c.episodes
    &&& a.average_score == c.average_score
    &&& a.popularity == c.popularity
    &&& a.url == c.url
    &&& a.status == c.status
    &&& a.duration == c.duration
    &&& a.studio == c.studio
    &&& a.start_date == c.start_date
}

/// Whether entries are shown as they are stored.
pub open spec fn animes_of(list: Seq<CatalogAnime>, db: Db, rows: Seq<CatalogRow>) -> bool {
    &&& list.len() == rows.len()
    &&& forall|i: int| 0 <= i < list.len() ==> #[trigger] anime_of(list[i], db, rows[i])
}

/// Whether a row stores an entry.
pub open spec fn stores(c: CatalogRow, a: CatalogAnime, sort_order: i64) -> bool {
    &&& c.id == a.id
    &&& c.title == a.title
    &&& c.title_romaji == a.title_romaji
    &&& c.title_english == a.title_english
    &&& c.cover_url == a.cover_url
    &&& c.format == a.format
    &&& c.episodes == a.episodes
    &&& c.average_score == a.average_score
    &&& c.popularity == a.popularity
    &&& c.url == a.url
    &&& c.sort_order == sort_order
    &&& c.status == a.status
    &&& c.duration == a.duration
    &&& c.studio == a.studio
    &&& c.start_date == a.start_date
}

/// Whether the second catalog is the first with an entry stored: in the place of
/// the one with its id, or behind all others.
pub open spec fn entry_stored(
    before: Seq<CatalogRow>,
    after: Seq<CatalogRow>,
    a: CatalogAnime,
    sort_order: i64,
) -> bool {
    if exists|k: int| 0 <= k < before.len() && (#[trigger] before[k]).id == a.id {
        &&& after.len() == before.len()
        &&& forall|k: int|
            0 <= k < before.len() ==> if before[k].id == a.id {
                stores(#[trigger] after[k], a, sort_order)
            } else {
                after[k] == before[k]
            }
    } else {
        &&& after.len() == before.len() + 1
        &&& after.drop_last() == before
        &&& stores(after.last(), a, sort_order)
    }
}

/// Whether the second table of genres is the first with those of an entry
/// replaced.
pub open spec fn genres_stored(
    before: Seq<CatalogGenreRow>,
    after: Seq<CatalogGenreRow>,
    id: i64,
    genres: Seq<Seq<char>>,
) -> bool {
    let kept = before.filter(genre_of_other(id));
    let new = first_uses(genres);
    &&& after.len() == kept.len() + new.len()
    &&& after.take(kept.len() as int) == kept
    &&& forall|i: int|
        0 <= i < new.len() ==> (#[trigger] after[kept.len() + i]).anilist_id == id
            && after[kept.len() + i].genre@ == new[i]
}

impl CatalogRow {
    /// A copy of the entry.
    pub fn copy(&self) -> (r: CatalogRow)
        ensures
            r == *self,
    {
        CatalogRow {
            id: self.id,
            title: self.title.clone(),
            title_romaji: copy_text(&self.title_romaji),
            title_english: copy_text(&self.title_english),
            cover_url: copy_text(&self.cover_url),
            format: copy_text(&self.format),
            episodes: self.episodes,
            average_score: self.average_score,
            popularity: self.popularity,
            url: self.url.clone(),
            sort_order: self.sort_order,
            status: copy_text(&self.status),
            duration: self.duration,
            studio: copy_text(&self.studio),
            start_date: self.start_date,
        }
    }
}

impl CatalogGenreRow {
    /// A copy of the row.
    pub fn copy(&self) -> (r: CatalogGenreRow)
        ensures
            r == *self,
    {
        CatalogGenreRow { anilist_id: self.anilist_id, genre: self.genre.clone() }
    }
}

fn genre_name_before(a: &CatalogGenreRow, b: &CatalogGenreRow) -> (r: bool)
    ensures
        r == by_genre_name()(*a, *b),
{
    text_precedes(&chars_of(a.genre.as_str()), &chars_of(b.genre.as_str()))
}

fn popular_before(a: &CatalogRow, b: &CatalogRow) -> (r: bool)
    ensures
        r == by_popularity()(*a, *b),
{
    match (a.popularity, b.popularity) {
        (Some(x), Some(y)) => x > y || (x == y && a.id < b.id),
        (Some(_), None) => true,
        (None, Some(_)) => false,
        (None, None) => a.id < b.id,
    }
}

/// What a field of a filter asks for.
fn asked_text(t: &Option<String>) -> (r: Option<String>)
    ensures
        opt_text(r) == asked(*t),
{
    match t {
        Some(s) => {
            let chars = trim_chars(&chars_of(s.as_str()));
            if chars.len() > 0 {
                Some(text_of(&chars))
            } else {
                None
            }
        },
        None => None,
    }
}

/// Whether a length is in a range of lengths.
fn bucket_holds(episodes: Option<i64>, bucket: &str) -> (r: bool)
    ensures
        r == in_bucket(episodes, bucket@),
{
    if same_text(bucket, "1") {
        match episodes {
            Some(n) => n == 1,
            None => false,
        }
    } else if same_text(bucket, "2-12") {
        match episodes {
            Some(n) => 2 <= n && n <= 12,
            None => false,
        }
    } else if same_text(bucket, "13-26") {
        match episodes {
            Some(n) => 13 <= n && n <= 26,
            None => false,
        }
    } else if same_text(bucket, "27+") {
        match episodes {
            Some(n) => n >= 27,
            None => false,
        }
    } else if same_text(bucket, "unknown") {
        episodes.is_none()
    } else {
        true
    }
}

impl Db {
    /// The titles of a catalog entry: the main one, the romanized and the English
    /// one.
    pub fn get_catalog_titles(&self, anilist_id: i64) -> (r: Result<
        Option<(String, Option<String>, Option<String>)>,
        DbError,
    >)
        ensures
            r == Ok::<Option<(String, Option<String>, Option<String>)>, DbError>(
                match first_where(self.catalog@, entry_with_id(anilist_id)) {
                    Some(c) => Some((c.title, c.title_romaji, c.title_english)),
                    None => None,
                },
            ),
    {
        match self.find_catalog(anilist_id) {
            Some(i) => {
                let c = &self.catalog[i];
                Ok(
                    Some(
                        (c.title.clone(), copy_text(&c.title_romaji), copy_text(&c.title_english)),
                    ),
                )
            },
            None => Ok(None),
        }
    }

    /// Whether a catalog entry carries a genre.
    pub fn entry_has_genre(&self, id: i64, genre: &str) -> (r: bool)
        ensures
            r == entry_carries(self.catalog_genres@, id, genre@),
    {
        let mut i: usize = 0;
        while i < self.catalog_genres.len()
            invariant
                i <= self.catalog_genres@.len(),
                forall|k: int|
                    0 <= k < i ==> (#[trigger] self.catalog_genres@[k]).anilist_id != id
                        || self.catalog_genres@[k].genre@ != genre@,
            decreases self.catalog_genres@.len() - i,
        {
            let g = &self.catalog_genres[i];
            if g.anilist_id == id && same_text(g.genre.as_str(), genre) {
                assert(self.catalog_genres@[i as int].genre@ == genre@);
                return true;
            }
            i += 1;
        }
        false
    }

    /// Whether an entry carries every listed genre that is not blank.
    fn has_all_genres(&self, id: i64, wanted: &Vec<String>) -> (r: bool)
        ensures
            r == carries_all(*self, id, wanted@),
    {
        let mut i: usize = 0;
        while i < wanted.len()
            invariant
                i <= wanted@.len(),
                forall|k: int|
                    0 <= k < i && trimmed((#[trigger] wanted@[k])@).len() > 0 ==> entry_carries(
                        self.catalog_genres@,
                        id,
                        trimmed(wanted@[k]@),
                    ),
            decreases wanted@.len() - i,
        {
            let chars = trim_chars(&chars_of(wanted[i].as_str()));
            if chars.len() > 0 && !self.entry_has_genre(id, text_of(&chars).as_str()) {
                assert(trimmed(wanted@[i as int]@).len() > 0);
                return false;
            }
            i += 1;
        }
        true
    }

    /// Whether an entry passes a filter.
    fn passes(&self, filter: &CatalogFilter, c: &CatalogRow) -> (r: bool)
        ensures
            r == filter.admits(*self, *c),
    {
        if let Some(t) = asked_text(&filter.search) {
            let part = fold_chars(&chars_of(t.as_str()));
            if !chars_occur(&part, &fold_chars(&chars_of(c.title.as_str()))) {
                return false;
            }
        }
        if let Some(t) = asked_text(&filter.format) {
            if !text_is(&c.format, t.as_str()) {
                return false;
            }
        }
        if let Some(t) = asked_text(&filter.studio) {
            if !text_is(&c.studio, t.as_str()) {
                return false;
            }
        }
        if let Some(n) = filter.min_score {
            match c.average_score {
                Some(s) => {
                    if s < n {
                        return false;
                    }
                },
                None => {
                    return false;
                },
            }
        }
        if let Some(b) = asked_text(&filter.episodes) {
            if !bucket_holds(c.episodes, b.as_str()) {
                return false;
            }
        }
        self.has_all_genres(c.id, &filter.genres)
    }

    /// The entries that pass a filter, in the order of the catalog.
    fn passing(&self, filter: &CatalogFilter) -> (r: Vec<CatalogRow>)
        ensures
            r@ == self.catalog@.filter(filter.condition(*self)),
    {
        let ghost hit = filter.condition(*self);
        let mut out: Vec<CatalogRow> = Vec::new();
        let mut i: usize = 0;
        proof {
            lemma_filter_none(self.catalog@, hit);
        }
        while i < self.catalog.len()
            invariant
                i <= self.catalog@.len(),
                hit == filter.condition(*self),
                out@ == self.catalog@.take(i as int).filter(hit),
            decreases self.catalog@.len() - i,
        {
            proof {
                lemma_filter_step(self.catalog@, hit, i as int);
            }
            if self.passes(filter, &self.catalog[i]) {
                out.push(self.catalog[i].copy());
            }
            i += 1;
        }
        proof {
            lemma_filter_none(self.catalog@, hit);
        }
        out
    }

    /// How many entries pass a filter.
    pub fn catalog_count_filtered(&self, filter: &CatalogFilter) -> (r: Result<i64, DbError>)
        requires
            self.catalog@.len() <= i64::MAX,
        ensures
            r is Ok,
            r->Ok_0 == count_where(self.catalog@, filter.condition(*self)),
            r->Ok_0 == browsed(*self, *filter).len(),
    {
        let rows = self.passing(filter);
        proof {
            self.catalog@.lemma_filter_len(filter.condition(*self));
            law_sorted_is_permutation(rows@, by_popularity());
        }
        Ok(rows.len() as i64)
    }

    /// How many entries the catalog has.
    pub fn catalog_count(&self) -> (r: Result<i64, DbError>)
        requires
            self.catalog@.len() <= i64::MAX,
        ensures
            r is Ok,
            r->Ok_0 == self.catalog@.len(),
    {
        let filter = CatalogFilter::default();
        proof {
            lemma_all_pass(self.catalog@, filter.condition(*self));
        }
        self.catalog_count_filtered(&filter)
    }

    /// The genres of a catalog entry in alphabetical order.
    pub fn list_catalog_genres(&self, anilist_id: i64) -> (r: Result<Vec<String>, DbError>)
        ensures
            r is Ok,
            r->Ok_0@ == genres_of_entry(self.catalog_genres@, anilist_id),
    {
        let ghost hit = genre_of_entry(anilist_id);
        let mut rows: Vec<CatalogGenreRow> = Vec::new();
        let mut i: usize = 0;
        proof {
            lemma_filter_none(self.catalog_genres@, hit);
        }
        while i < self.catalog_genres.len()
            invariant
                i <= self.catalog_genres@.len(),
                hit == genre_of_entry(anilist_id),
                rows@ == self.catalog_genres@.take(i as int).filter(hit),
            decreases self.catalog_genres@.len() - i,
        {
            proof {
                lemma_filter_step(self.catalog_genres@, hit, i as int);
            }
            if self.catalog_genres[i].anilist_id == anilist_id {
                rows.push(self.catalog_genres[i].copy());
            }
            i += 1;
        }
        proof {
            lemma_filter_none(self.catalog_genres@, hit);
        }
        let list = sort_rows(rows, genre_name_before, Ghost(by_genre_name()));
        let mut out: Vec<String> = Vec::new();
        let mut j: usize = 0;
        while j < list.len()
            invariant
                j <= list@.len(),
                out@ == list@.take(j as int).map_values(|g: CatalogGenreRow| g.genre),
            decreases list@.len() - j,
        {
            out.push(list[j].genre.clone());
            j += 1;
            assert(list@.take(j as int) =~= list@.take(j - 1).push(list@[j - 1]));
            assert(out@ =~= list@.take(j as int).map_values(|g: CatalogGenreRow| g.genre));
        }
        assert(list@.take(j as int) =~= list@);
        Ok(out)
    }

    /// A catalog entry as it is shown, with its genres.
    pub fn to_anime(&self, c: &CatalogRow) -> (r: CatalogAnime)
        ensures
            anime_of(r, *self, *c),
    {
        let genres = match self.list_catalog_genres(c.id) {
            Ok(g) => g,
            Err(_) => Vec::new(),
        };
        CatalogAnime {
            id: c.id,
            title: c.title.clone(),
            title_romaji: copy_text(&c.title_romaji),
            title_english: copy_text(&c.title_english),
            cover_url: copy_text(&c.cover_url),
            format: copy_text(&c.format),
            genres,
            episodes: c.episodes,
            average_score: c.average_score,
            popularity: c.popularity,
            url: c.url.clone(),
            status: copy_text(&c.status),
            duration: c.duration,
            studio: copy_text(&c.studio),
            start_date: c.start_date,
        }
    }

    /// A page of the entries that pass a filter, the most popular first.
    pub fn list_catalog_filtered(&self, page: i64, per_page: i64, filter: &CatalogFilter) -> (r:
        Result<Vec<CatalogAnime>, DbError>)
        requires
            i64::MIN <= page_start(page, per_page) <= i64::MAX,
        ensures
            r is Ok,
            animes_of(r->Ok_0@, *self, page_of(browsed(*self, *filter), page, per_page)),
    {
        let rows = sort_rows(self.passing(filter), popular_before, Ghost(by_popularity()));
        let len: usize = rows.len();
        let mut from: usize = 0;
        let mut to: usize = len;
        if per_page >= 0 {
            let back: i64 = if page > 1 {
                page - 1
            } else {
                0
            };
            assert(back * per_page == page_start(page, per_page));
            assert(back * per_page >= 0) by (nonlinear_arith)
                requires
                    back >= 0,
                    per_page >= 0,
            ;
            let start: u64 = (back * per_page) as u64;
            if start < len as u64 {
                from = start as usize;
                if (per_page as u64) < (len - from) as u64 {
                    to = from + per_page as usize;
                }
            } else {
                from = len;
            }
        }
        let ghost want = page_of(rows@, page, per_page);
        assert(want =~= rows@.subrange(from as int, to as int));
        let mut out: Vec<CatalogAnime> = Vec::new();
        let mut i: usize = from;
        while i < to
            invariant
                from <= i <= to <= rows@.len(),
                want == rows@.subrange(from as int, to as int),
                out@.len() == i - from,
                forall|k: int| 0 <= k < out@.len() ==> #[trigger] anime_of(out@[k], *self, want[k]),
            decreases to - i,
        {
            assert(want[i - from] == rows@[i as int]);
            out.push(self.to_anime(&rows[i]));
            i += 1;
        }
        Ok(out)
    }

    /// A page of the catalog, the most popular entries first.
    pub fn list_catalog(&self, page: i64, per_page: i64) -> (r: Result<Vec<CatalogAnime>, DbError>)
        requires
            i64::MIN <= page_start(page, per_page) <= i64::MAX,
        ensures
            r is Ok,
            animes_of(
                r->Ok_0@,
                *self,
                page_of(sorted(self.catalog@, by_popularity()), page, per_page),
            ),
    {
        let filter = CatalogFilter::default();
        proof {
            lemma_all_pass(self.catalog@, filter.condition(*self));
        }
        self.list_catalog_filtered(page, per_page, &filter)
    }

    /// Whether any entry has a status, that is, whether the catalog was synced
    /// since statuses are kept.
    pub fn has_synced_catalog_status(&self) -> (r: Result<bool, DbError>)
        ensures
            r == Ok::<bool, DbError>(
                exists|k: int|
                    0 <= k < self.catalog@.len() && (#[trigger] self.catalog@[k]).status is Some,
            ),
    {
        let mut i: usize = 0;
        while i < self.catalog.len()
            invariant
                i <= self.catalog@.len(),
                forall|k: int| 0 <= k < i ==> (#[trigger] self.catalog@[k]).status is None,
            decreases self.catalog@.len() - i,
        {
            if self.catalog[i].status.is_some() {
                assert(self.catalog@[i as int].status is Some);
                return Ok(true);
            }
            i += 1;
        }
        Ok(false)
    }
}

/// A condition that everything satisfies selects everything.
proof fn lemma_all_pass(rows: Seq<CatalogRow>, hit: spec_fn(CatalogRow) -> bool)
    requires
        forall|c: CatalogRow| #[trigger] hit(c),
    ensures
        rows.filter(hit) == rows,
    decreases rows.len(),
{
    if rows.len() > 0 {
        let init = rows.drop_last();
        lemma_all_pass(init, hit);
        assert(rows =~= init.push(rows.last()));
        init.lemma_filter_push(rows.last(), hit);
        assert(hit(rows.last()));
    } else {
        lemma_filter_none(rows, hit);
        assert(rows =~= rows.take(0));
    }
}

/// Whether two databases differ in the catalog at most.
pub open spec fn only_catalog(a: Db, b: Db) -> bool {
    b == (Db { catalog: b.catalog, catalog_genres: b.catalog_genres, ..a })
}

/// Whether two genre rows differ in their entry or their genre.
pub open spec fn of_different_marks() -> spec_fn(CatalogGenreRow, CatalogGenreRow) -> bool {
    |a: CatalogGenreRow, b: CatalogGenreRow|
        a.anilist_id != b.anilist_id || a.genre@ != b.genre@
}

/// The row that stores an entry.
fn row_for(anime: &CatalogAnime, sort_order: i64) -> (r: CatalogRow)
    ensures
        stores(r, *anime, sort_order),
{
    CatalogRow {
        id: anime.id,
        title: anime.title.clone(),
        title_romaji: copy_text(&anime.title_romaji),
        title_english: copy_text(&anime.title_english),
        cover_url: copy_text(&anime.cover_url),
        format: copy_text(&anime.format),
        episodes: anime.episodes,
        average_score: anime.average_score,
        popularity: anime.popularity,
        url: anime.url.clone(),
        sort_order,
        status: copy_text(&anime.status),
        duration: anime.duration,
        studio: copy_text(&anime.studio),
        start_date: anime.start_date,
    }
}

impl Db {
    /// Stores an entry under its id, in the place of the one that had it, and
    /// replaces its genres.
    pub fn upsert_catalog_anime(&mut self, anime: &CatalogAnime, sort_order: i64) -> (r: Result<
        (),
        DbError,
    >)
        requires
            old(self).well_formed(),
        ensures
            r is Ok,
            final(self).well_formed(),
            only_catalog(*old(self), *final(self)),
            entry_stored(old(self).catalog@, final(self).catalog@, *anime, sort_order),
            genres_stored(
                old(self).catalog_genres@,
                final(self).catalog_genres@,
                anime.id,
                key_views(anime.genres@),
            ),
    {
        let ghost rows = self.catalog@;
        let row = row_for(anime, sort_order);
        match self.find_catalog(anime.id) {
            Some(i) => {
                self.catalog.set(i, row);
                proof {
                    assert(rows[i as int].id == anime.id);
                    assert forall|a: int, b: int| 0 <= a < b < rows.len() implies
                        #[trigger] self.catalog@[a].id != #[trigger] self.catalog@[b].id by {
                        assert(rows[a].id != rows[b].id);
                    }
                    assert forall|k: int| 0 <= k < rows.len() implies if rows[k].id == anime.id {
                        stores(#[trigger] self.catalog@[k], *anime, sort_order)
                    } else {
                        self.catalog@[k] == rows[k]
                    } by {
                        if k < i {
                            assert(rows[k].id != rows[i as int].id);
                        } else if k > i {
                            assert(rows[i as int].id != rows[k].id);
                        }
                    }
                }
            },
            None => {
                self.catalog.push(row);
                assert(self.catalog@.drop_last() =~= rows);
            },
        }
        self.store_genres(anime.id, &anime.genres);
        Ok(())
    }

    /// Replaces the genres of a catalog entry.
    fn store_genres(&mut self, id: i64, genres: &Vec<String>)
        requires
            catalog_genres_keyed(old(self).catalog_genres@),
        ensures
            *final(self) == (Db { catalog_genres: final(self).catalog_genres, ..*old(self) }),
            catalog_genres_keyed(final(self).catalog_genres@),
            genres_stored(
                old(self).catalog_genres@,
                final(self).catalog_genres@,
                id,
                key_views(genres@),
            ),
    {
        let ghost hit = genre_of_other(id);
        let ghost rows = self.catalog_genres@;
        let mut kept: Vec<CatalogGenreRow> = Vec::new();
        let mut i: usize = 0;
        proof {
            lemma_filter_none(rows, hit);
        }
        while i < self.catalog_genres.len()
            invariant
                i <= rows.len(),
                *self == *old(self),
                rows == self.catalog_genres@,
                hit == genre_of_other(id),
                kept@ == rows.take(i as int).filter(hit),
                forall|k: int| 0 <= k < kept@.len() ==> (#[trigger] kept@[k]).anilist_id != id,
            decreases rows.len() - i,
        {
            proof {
                lemma_filter_step(rows, hit, i as int);
            }
            if self.catalog_genres[i].anilist_id != id {
                kept.push(self.catalog_genres[i].copy());
            }
            i += 1;
        }
        proof {
            lemma_filter_none(rows, hit);
            assert(pairwise(rows, of_different_marks()));
            lemma_filter_pairwise(rows, hit, |g: CatalogGenreRow| true, of_different_marks());
            lemma_first_uses(key_views(genres@));
        }
        let new = drop_repeats(genres.as_slice());
        let ghost n = kept@.len();
        let ghost had = kept@;
        let mut j: usize = 0;
        while j < new.len()
            invariant
                j <= new@.len(),
                n == had.len(),
                *self == *old(self),
                kept@.len() == n + j,
                kept@.take(n as int) == had,
                forall|k: int|
                    0 <= k < j ==> (#[trigger] kept@[n + k]).anilist_id == id && kept@[n + k].genre@
                        == key_views(new@)[k],
            decreases new@.len() - j,
        {
            let ghost mid = kept@;
            kept.push(CatalogGenreRow { anilist_id: id, genre: new[j].clone() });
            proof {
                assert(kept@.take(n as int) =~= mid.take(n as int));
                assert forall|k: int| 0 <= k < j + 1 implies (#[trigger] kept@[n + k]).anilist_id
                    == id && kept@[n + k].genre@ == key_views(new@)[k] by {
                    if k < j {
                        assert(kept@[n + k] == mid[n + k]);
                    }
                }
            }
            j += 1;
        }
        proof {
            let names = first_uses(key_views(genres@));
            assert forall|a: int, b: int| 0 <= a < b < kept@.len() implies #[trigger] kept@[a].anilist_id
                != #[trigger] kept@[b].anilist_id || kept@[a].genre@ != kept@[b].genre@ by {
                if b < n {
                    assert(kept@[a] == kept@.take(n as int)[a]);
                    assert(kept@[b] == kept@.take(n as int)[b]);
                    assert(of_different_marks()(had[a], had[b]));
                } else if a < n {
                    assert(kept@[a] == kept@.take(n as int)[a]);
                    assert(kept@[n + (b - n)].anilist_id == id);
                    assert(had[a].anilist_id != id);
                } else {
                    assert(kept@[n + (a - n)].genre@ == names[a - n]);
                    assert(kept@[n + (b - n)].genre@ == names[b - n]);
                }
            }
        }
        self.catalog_genres = kept;
    }

    /// The genres of the catalog, in alphabetical order.
    pub fn distinct_catalog_genres(&self) -> (r: Result<Vec<String>, DbError>)
        ensures
            r is Ok,
            ascending_nocase(key_views(r->Ok_0@)),
            forall|t: Seq<char>| #[trigger]
                key_views(r->Ok_0@).contains(t) <==> exists|k: int|
                    0 <= k < self.catalog_genres@.len() && (
                    #[trigger] self.catalog_genres@[k]).genre@ == t,
    {
        let mut out: Vec<String> = Vec::new();
        let mut i: usize = 0;
        while i < self.catalog_genres.len()
            invariant
                i <= self.catalog_genres@.len(),
                ascending(key_views(out@)),
                forall|t: Seq<char>| #[trigger]
                    key_views(out@).contains(t) <==> exists|k: int|
                        0 <= k < i && (#[trigger] self.catalog_genres@[k]).genre@ == t,
            decreases self.catalog_genres@.len() - i,
        {
            let ghost had = key_views(out@);
            list_text(&mut out, self.catalog_genres[i].genre.as_str());
            i += 1;
            proof {
                assert forall|t: Seq<char>| #[trigger]
                    key_views(out@).contains(t) <==> exists|k: int|
                        0 <= k < i && (#[trigger] self.catalog_genres@[k]).genre@ == t by {
                    if had.contains(t) {
                        let k = choose|k: int|
                            0 <= k < i - 1 && (#[trigger] self.catalog_genres@[k]).genre@ == t;
                        assert(self.catalog_genres@[k].genre@ == t);
                    }
                    if t == self.catalog_genres@[i - 1].genre@ {
                        assert(self.catalog_genres@[i - 1].genre@ == t);
                    }
                }
            }
        }
        Ok(order_nocase(out))
    }

    /// The formats of the catalog, in alphabetical order.
    pub fn distinct_catalog_formats(&self) -> (r: Result<Vec<String>, DbError>)
        ensures
            r is Ok,
            ascending_nocase(key_views(r->Ok_0@)),
            forall|t: Seq<char>| #[trigger]
                key_views(r->Ok_0@).contains(t) <==> exists|k: int|
                    0 <= k < self.catalog@.len() && opt_text((#[trigger] self.catalog@[k]).format)
                        == Some(t),
    {
        let mut out: Vec<String> = Vec::new();
        let mut i: usize = 0;
        while i < self.catalog.len()
            invariant
                i <= self.catalog@.len(),
                ascending(key_views(out@)),
                forall|t: Seq<char>| #[trigger]
                    key_views(out@).contains(t) <==> exists|k: int|
                        0 <= k < i && opt_text((#[trigger] self.catalog@[k]).format) == Some(t),
            decreases self.catalog@.len() - i,
        {
            let ghost had = key_views(out@);
            if let Some(f) = &self.catalog[i].format {
                list_text(&mut out, f.as_str());
            }
            i += 1;
            proof {
                assert forall|t: Seq<char>| #[trigger]
                    key_views(out@).contains(t) <==> exists|k: int|
                        0 <= k < i && opt_text((#[trigger] self.catalog@[k]).format) == Some(t) by {
                    if had.contains(t) {
                        let k = choose|k: int|
                            0 <= k < i - 1 && opt_text((#[trigger] self.catalog@[k]).format)
                                == Some(t);
                        assert(opt_text(self.catalog@[k].format) == Some(t));
                    }
                    if opt_text(self.catalog@[i - 1].format) == Some(t) {
                        assert(key_views(out@).contains(t));
                    }
                }
            }
        }
        Ok(order_nocase(out))
    }

    /// The studios of the catalog, in alphabetical order.
    pub fn distinct_catalog_studios(&self) -> (r: Result<Vec<String>, DbError>)
        ensures
            r is Ok,
            ascending_nocase(key_views(r->Ok_0@)),
            forall|t: Seq<char>| #[trigger]
                key_views(r->Ok_0@).contains(t) <==> exists|k: int|
                    0 <= k < self.catalog@.len() && opt_text((#[trigger] self.catalog@[k]).studio)
                        == Some(t),
    {
        let mut out: Vec<String> = Vec::new();
        let mut i: usize = 0;
        while i < self.catalog.len()
            invariant
                i <= self.catalog@.len(),
                ascending(key_views(out@)),
                forall|t: Seq<char>| #[trigger]
                    key_views(out@).contains(t) <==> exists|k: int|
                        0 <= k < i && opt_text((#[trigger] self.catalog@[k]).studio) == Some(t),
            decreases self.catalog@.len() - i,
        {
            let ghost had = key_views(out@);
            if let Some(f) = &self.catalog[i].studio {
                list_text(&mut out, f.as_str());
            }
            i += 1;
            proof {
                assert forall|t: Seq<char>| #[trigger]
                    key_views(out@).contains(t) <==> exists|k: int|
                        0 <= k < i && opt_text((#[trigger] self.catalog@[k]).studio) == Some(t) by {
                    if had.contains(t) {
                        let k = choose|k: int|
                            0 <= k < i - 1 && opt_text((#[trigger] self.catalog@[k]).studio)
                                == Some(t);
                        assert(opt_text(self.catalog@[k].studio) == Some(t));
                    }
                    if opt_text(self.catalog@[i - 1].studio) == Some(t) {
                        assert(key_views(out@).contains(t));
                    }
                }
            }
        }
        Ok(order_nocase(out))
    }
}

/// The titles of an entry: the main one, the romanized and the English one,
/// those that it has.
pub open spec fn titles_of(c: CatalogRow) -> Seq<Seq<char>> {
    let main = seq![c.title@];
    let romaji = match c.title_romaji {
        Some(t) => seq![t@],
        None => Seq::empty(),
    };
    let english = match c.title_english {
        Some(t) => seq![t@],
        None => Seq::empty(),
    };
    main + romaji + english
}

/// A date put down for a title, unless that has one.
pub open spec fn date_noted(dates: Map<Seq<char>, i64>, title: Seq<char>, date: i64) -> Map<
    Seq<char>,
    i64,
> {
    if dates.dom().contains(normalized(title)) {
        dates
    } else {
        dates.insert(normalized(title), date)
    }
}

/// A date put down for several titles, one after the other.
pub open spec fn dates_noted(dates: Map<Seq<char>, i64>, titles: Seq<Seq<char>>, date: i64) -> Map<
    Seq<char>,
    i64,
>
    decreases titles.len(),
{
    if titles.len() == 0 {
        dates
    } else {
        date_noted(dates_noted(dates, titles.drop_last(), date), titles.last(), date)
    }
}

/// The premiere dates by normalized title of the first `n` entries; of several
/// entries with a title, the first counts.
pub open spec fn premieres(catalog: Seq<CatalogRow>, n: int) -> Map<Seq<char>, i64>
    decreases n,
{
    if n <= 0 {
        Map::empty()
    } else {
        let before = premieres(catalog, n - 1);
        match catalog[n - 1].start_date {
            Some(d) => dates_noted(before, titles_of(catalog[n - 1]), d),
            None => before,
        }
    }
}

/// Whether a list holds the dates of a map, every title once.
pub open spec fn lists_dates(list: Seq<(String, i64)>, dates: Map<Seq<char>, i64>) -> bool {
    &&& forall|i: int, j: int|
        0 <= i < j < list.len() ==> (#[trigger] list[i]).0@ != (#[trigger] list[j]).0@
    &&& forall|i: int|
        0 <= i < list.len() ==> dates.dom().contains((#[trigger] list[i]).0@)
            && dates[list[i].0@] == list[i].1
    &&& forall|t: Seq<char>| #[trigger]
        dates.dom().contains(t) ==> exists|i: int| 0 <= i < list.len() && (#[trigger] list[i]).0@ == t
}

/// Puts a date down for a title, unless that has one.
fn note_date(
    list: &mut Vec<(String, i64)>,
    title: &str,
    date: i64,
    Ghost(dates): Ghost<Map<Seq<char>, i64>>,
)
    requires
        lists_dates(old(list)@, dates),
    ensures
        lists_dates(final(list)@, date_noted(dates, title@, date)),
{
    let key = normalize_title(title);
    let ghost had = list@;
    let mut i: usize = 0;
    while i < list.len()
        invariant
            i <= list@.len(),
            list@ == had,
            key@ == normalized(title@),
            lists_dates(had, dates),
            forall|k: int| 0 <= k < i ==> (#[trigger] had[k]).0@ != key@,
        decreases list@.len() - i,
    {
        if same_text(list[i].0.as_str(), key.as_str()) {
            assert(dates.dom().contains(had[i as int].0@));
            return ;
        }
        i += 1;
    }
    let ghost now = date_noted(dates, title@, date);
    let ghost text = key@;
    list.push((key, date));
    proof {
        assert(!dates.dom().contains(text));
        assert forall|k: int| 0 <= k < list@.len() implies now.dom().contains(
            (#[trigger] list@[k]).0@,
        ) && now[list@[k].0@] == list@[k].1 by {
            if k < had.len() {
                assert(list@[k] == had[k]);
            }
        }
        assert forall|t: Seq<char>| #[trigger] now.dom().contains(t) implies exists|k: int|
            0 <= k < list@.len() && (#[trigger] list@[k]).0@ == t by {
            if t == text {
                assert(list@[had.len() as int].0@ == t);
            } else {
                assert(dates.dom().contains(t));
                let k = choose|k: int| 0 <= k < had.len() && (#[trigger] had[k]).0@ == t;
                assert(list@[k].0@ == t);
            }
        }
    }
}

impl Db {
    /// The premiere dates of the catalog by normalized title, every title once;
    /// of several entries with a title, the first counts.
    pub fn catalog_start_dates_by_normalized_title(&self) -> (r: Result<
        Vec<(String, i64)>,
        DbError,
    >)
        ensures
            r is Ok,
            lists_dates(r->Ok_0@, premieres(self.catalog@, self.catalog@.len() as int)),
    {
        let mut list: Vec<(String, i64)> = Vec::new();
        let mut i: usize = 0;
        while i < self.catalog.len()
            invariant
                i <= self.catalog@.len(),
                lists_dates(list@, premieres(self.catalog@, i as int)),
            decreases self.catalog@.len() - i,
        {
            let c = &self.catalog[i];
            if let Some(d) = c.start_date {
                let ghost dates = premieres(self.catalog@, i as int);
                let ghost mut noted: Seq<Seq<char>> = Seq::empty();
                proof {
                    noted = seq![c.title@];
                    assert(noted.drop_last() =~= Seq::empty());
                    assert(dates_noted(dates, noted.drop_last(), d) == dates);
                }
                note_date(&mut list, c.title.as_str(), d, Ghost(dates));
                assert(lists_dates(list@, dates_noted(dates, noted, d)));
                if let Some(t) = &c.title_romaji {
                    let ghost before = noted;
                    note_date(&mut list, t.as_str(), d, Ghost(dates_noted(dates, noted, d)));
                    proof {
                        noted = before.push(t@);
                        assert(noted.drop_last() =~= before);
                    }
                }
                assert(lists_dates(list@, dates_noted(dates, noted, d)));
                if let Some(t) = &c.title_english {
                    let ghost before = noted;
                    note_date(&mut list, t.as_str(), d, Ghost(dates_noted(dates, noted, d)));
                    proof {
                        noted = before.push(t@);
                        assert(noted.drop_last() =~= before);
                    }
                }
                assert(noted =~= titles_of(*c));
            }
            i += 1;
        }
        Ok(list)
    }
}

/// What was stored is found again under its id, and every other entry is left as
/// it was.
pub proof fn law_entry_read_back(
    before: Seq<CatalogRow>,
    after: Seq<CatalogRow>,
    a: CatalogAnime,
    sort_order: i64,
    other: i64,
)
    requires
        catalog_keyed(before),
        entry_stored(before, after, a, sort_order),
        other != a.id,
    ensures
        catalog_of(after, Some(a.id)) matches Some(c) && stores(c, a, sort_order),
        catalog_of(after, Some(other)) == catalog_of(before, Some(other)),
{
    let mine = entry_with_id(a.id);
    let theirs = entry_with_id(other);
    if exists|k: int| 0 <= k < before.len() && (#[trigger] before[k]).id == a.id {
        let k = choose|k: int| 0 <= k < before.len() && (#[trigger] before[k]).id == a.id;
        assert(stores(after[k], a, sort_order));
        assert forall|j: int| 0 <= j < k implies !mine(#[trigger] after[j]) by {
            assert(before[j].id != before[k].id);
        }
        lemma_first_where_at(after, mine, k);
        lemma_same_first(before, after, theirs);
    } else {
        let n = before.len() as int;
        assert(after[n] == after.last());
        assert forall|j: int| 0 <= j < n implies #[trigger] after[j] == before[j] by {
            assert(after.drop_last()[j] == after[j]);
        }
        assert forall|j: int| 0 <= j < n implies !mine(#[trigger] after[j]) by {
            assert(before[j].id != a.id);
        }
        lemma_first_where_at(after, mine, n);
        if exists|j: int| 0 <= j < n && theirs(#[trigger] before[j]) {
            lemma_first_found(before, theirs);
            let j = choose|j: int|
                0 <= j < n && theirs(#[trigger] before[j]) && first_where(before, theirs) == Some(
                    before[j],
                ) && forall|i: int| 0 <= i < j ==> !theirs(#[trigger] before[i]);
            assert(theirs(after[j]));
            assert forall|i: int| 0 <= i < j implies !theirs(#[trigger] after[i]) by {
                assert(!theirs(before[i]));
            }
            lemma_first_where_at(after, theirs, j);
        } else {
            lemma_first_where_none(before, theirs);
            assert forall|j: int| 0 <= j < after.len() implies !theirs(#[trigger] after[j]) by {
                if j < n {
                    assert(!theirs(before[j]));
                }
            }
            lemma_first_where_none(after, theirs);
        }
    }
}

/// Where some row satisfies a condition, the first that does is found.
proof fn lemma_first_found(rows: Seq<CatalogRow>, hit: spec_fn(CatalogRow) -> bool)
    requires
        exists|j: int| 0 <= j < rows.len() && hit(#[trigger] rows[j]),
    ensures
        exists|j: int|
            0 <= j < rows.len() && hit(#[trigger] rows[j]) && first_where(rows, hit) == Some(
                rows[j],
            ) && forall|i: int| 0 <= i < j ==> !hit(#[trigger] rows[i]),
    decreases rows.len(),
{
    let j = choose|j: int| 0 <= j < rows.len() && hit(#[trigger] rows[j]);
    lemma_least(rows, hit, j);
    let m = choose|m: int|
        0 <= m < rows.len() && hit(#[trigger] rows[m]) && forall|i: int|
            0 <= i < m ==> !hit(#[trigger] rows[i]);
    lemma_first_where_at(rows, hit, m);
}

proof fn lemma_least(rows: Seq<CatalogRow>, hit: spec_fn(CatalogRow) -> bool, j: int)
    requires
        0 <= j < rows.len(),
        hit(rows[j]),
    ensures
        exists|m: int|
            0 <= m < rows.len() && hit(#[trigger] rows[m]) && forall|i: int|
                0 <= i < m ==> !hit(#[trigger] rows[i]),
    decreases j,
{
    if exists|i: int| 0 <= i < j && hit(#[trigger] rows[i]) {
        let i = choose|i: int| 0 <= i < j && hit(#[trigger] rows[i]);
        lemma_least(rows, hit, i);
    }
}

/// A condition that no changed row satisfies finds the same row.
proof fn lemma_same_first(
    before: Seq<CatalogRow>,
    after: Seq<CatalogRow>,
    hit: spec_fn(CatalogRow) -> bool,
)
    requires
        before.len() == after.len(),
        forall|k: int|
            0 <= k < before.len() ==> #[trigger] after[k] == before[k] || !hit(before[k]) && !hit(
                after[k],
            ),
    ensures
        first_where(after, hit) == first_where(before, hit),
    decreases before.len(),
{
    if exists|j: int| 0 <= j < before.len() && hit(#[trigger] before[j]) {
        lemma_first_found(before, hit);
        let j = choose|j: int|
            0 <= j < before.len() && hit(#[trigger] before[j]) && first_where(before, hit) == Some(
                before[j],
            ) && forall|i: int| 0 <= i < j ==> !hit(#[trigger] before[i]);
        assert(after[j] == before[j]);
        assert forall|i: int| 0 <= i < j implies !hit(#[trigger] after[i]) by {
            assert(!hit(before[i]));
        }
        lemma_first_where_at(after, hit, j);
    } else {
        lemma_first_where_none(before, hit);
        assert forall|j: int| 0 <= j < after.len() implies !hit(#[trigger] after[j]) by {
            assert(!hit(before[j]));
        }
        lemma_first_where_none(after, hit);
    }
}

/// Storing an entry gives it exactly the listed genres, and leaves those of
/// every other entry as they were.
pub proof fn law_genres_read_back(
    before: Seq<CatalogGenreRow>,
    after: Seq<CatalogGenreRow>,
    id: i64,
    genres: Seq<Seq<char>>,
    other: i64,
    genre: Seq<char>,
)
    requires
        genres_stored(before, after, id, genres),
        other != id,
    ensures
        entry_carries(after, id, genre) <==> genres.contains(genre),
        entry_carries(after, other, genre) <==> entry_carries(before, other, genre),
{
    let hit = genre_of_other(id);
    let kept = before.filter(hit);
    let new = first_uses(genres);
    let n = kept.len() as int;
    lemma_first_uses(genres);
    lemma_filter_pairwise(
        before,
        hit,
        |g: CatalogGenreRow| true,
        |a: CatalogGenreRow, b: CatalogGenreRow| true,
    );
    assert forall|k: int| 0 <= k < n implies #[trigger] after[k] == kept[k] by {
        assert(after.take(n)[k] == after[k]);
    }
    assert forall|k: int| n <= k < after.len() implies (#[trigger] after[k]).anilist_id == id
        && after[k].genre@ == new[k - n] by {
        assert(after[n + (k - n)].anilist_id == id);
    }
    if entry_carries(after, id, genre) {
        let k = choose|k: int|
            0 <= k < after.len() && (#[trigger] after[k]).anilist_id == id && after[k].genre@
                == genre;
        if k < n {
            assert(hit(kept[k]));
        }
        assert(new[k - n] == genre);
        assert(new.contains(genre));
    }
    if genres.contains(genre) {
        assert(new.contains(genre));
        let i = choose|i: int| 0 <= i < new.len() && new[i] == genre;
        assert(after[n + i].genre@ == genre);
    }
    if entry_carries(after, other, genre) {
        let k = choose|k: int|
            0 <= k < after.len() && (#[trigger] after[k]).anilist_id == other && after[k].genre@
                == genre;
        assert(before.contains(kept[k]));
        let m = choose|m: int| 0 <= m < before.len() && before[m] == kept[k];
        assert(before[m].anilist_id == other);
    }
    if entry_carries(before, other, genre) {
        let m = choose|m: int|
            0 <= m < before.len() && (#[trigger] before[m]).anilist_id == other && before[m].genre@
                == genre;
        before.lemma_filter_contains(hit, m);
        let k = choose|k: int| 0 <= k < kept.len() && kept[k] == before[m];
        assert(after[k].anilist_id == other);
    }
}

/// The condition of having been decided on: followed, watched elsewhere, wanted
/// or passed over.
pub open spec fn decided() -> spec_fn(SeriesRow) -> bool {
    |s: SeriesRow|
        s.followed || s.watched_externally || opt_text(s.backlog_status) == Some("want"@)
            || opt_text(s.backlog_status) == Some("discarded"@)
}

impl Db {
    /// The titles of the series that have been decided on, on whatever site.
    pub fn engaged_series_titles(&self) -> (r: Result<Vec<String>, DbError>)
        ensures
            r is Ok,
            r->Ok_0@ == self.series@.filter(decided()).map_values(|s: SeriesRow| s.title),
    {
        let ghost rows = self.series@;
        let ghost get = |s: SeriesRow| s.title;
        let mut out: Vec<String> = Vec::new();
        let mut i: usize = 0;
        proof {
            lemma_filter_none(rows, decided());
            assert(out@ =~= rows.take(0).filter(decided()).map_values(get));
        }
        while i < self.series.len()
            invariant
                i <= rows.len(),
                rows == self.series@,
                get == (|s: SeriesRow| s.title),
                out@ == rows.take(i as int).filter(decided()).map_values(get),
            decreases rows.len() - i,
        {
            let ghost before = rows.take(i as int).filter(decided());
            proof {
                lemma_filter_step(rows, decided(), i as int);
            }
            let s = &self.series[i];
            if s.followed || s.watched_externally || text_is(&s.backlog_status, "want") || text_is(
                &s.backlog_status,
                "discarded",
            ) {
                out.push(s.title.clone());
                assert(before.push(*s).map_values(get) =~= before.map_values(get).push(s.title));
            }
            i += 1;
        }
        proof {
            lemma_filter_none(rows, decided());
        }
        Ok(out)
    }
}

} // verus!
