//! The tables that the tracker keeps, and what can be asked of them.
//!
//! A table is the list of its rows in the order of their ids. Queries and
//! changes are methods of [`Db`]; whoever opens a database file loads the rows
//! and stores them again.

pub mod activity;
pub mod airing;
pub mod catalog;
pub mod discover;
pub mod episodes;
pub mod followed;
pub mod franchise;
pub mod grouping;
pub mod identity;
pub mod keys;
pub mod library;
pub mod library_list;
pub mod numbers;
pub mod parents;
pub mod rollups;
pub mod series;
pub mod series_lists;
pub mod settings;
pub mod sources;
pub mod stats;
pub mod totals;

use vstd::prelude::*;
use crate::models::{Episode, Series};
use crate::rows::lemma_filter_pairwise;

verus! {

/// Why a request was not carried out.
#[derive(Debug, Clone, Copy, PartialEq, Eq, Structural)]
pub enum DbError {
    /// The row that was asked for does not exist.
    NoSuchRow,
    /// The change would give two rows the same key.
    Conflict,
    /// No number is left for a new row or for the place of an upsert.
    Full,
}

/// A site under one of its addresses.
#[derive(Debug, Clone, PartialEq)]
pub struct SourceRow {
    pub id: i64,
    pub name: String,
    pub base_url: String,
    pub site_id: String,
    /// The place of the row's last upsert in the order of all upserts.
    pub upserted: i64,
}

/// A series on one site.
#[derive(Debug, Clone, PartialEq)]
pub struct SeriesRow {
    pub id: i64,
    pub source_id: i64,
    pub slug: String,
    pub title: String,
    pub url: String,
    pub cover_url: Option<String>,
    pub is_airing: bool,
    pub followed: bool,
    pub next_episode_at: Option<i64>,
    pub site_episode_count: Option<i64>,
    pub backlog_status: Option<String>,
    pub kind: Option<String>,
    pub anilist_id: Option<i64>,
    pub watched_externally: bool,
    /// The highest episode seen on another site, until it has been applied here.
    pub carried_seen_number: Option<i64>,
    /// Unix time at which the series' episodes were last fetched.
    pub last_checked_at: Option<i64>,
}

/// A genre of a series.
#[derive(Debug, Clone, PartialEq)]
pub struct SeriesGenreRow {
    pub series_id: i64,
    pub genre: String,
}

/// An episode of a series.
#[derive(Debug, Clone, PartialEq)]
pub struct EpisodeRow {
    pub id: i64,
    pub series_id: i64,
    pub number: String,
    pub title: Option<String>,
    pub url: String,
    pub released_at: Option<String>,
    pub seen: bool,
    /// When the row was stored.
    pub added_at: String,
    /// When the episode was marked seen.
    pub seen_at: Option<String>,
}

/// An entry of the catalog.
#[derive(Debug, Clone, PartialEq)]
pub struct CatalogRow {
    pub id: i64,
    pub title: String,
    pub title_romaji: Option<String>,
    pub title_english: Option<String>,
    pub cover_url: Option<String>,
    pub format: Option<String>,
    pub episodes: Option<i64>,
    pub average_score: Option<i64>,
    pub popularity: Option<i64>,
    pub url: String,
    pub sort_order: i64,
    pub status: Option<String>,
    pub duration: Option<i64>,
    pub studio: Option<String>,
    pub start_date: Option<i64>,
}

/// A genre of a catalog entry.
#[derive(Debug, Clone, PartialEq)]
pub struct CatalogGenreRow {
    pub anilist_id: i64,
    pub genre: String,
}

/// A show of the library, whatever sites it is on. Its key is the catalog id
/// where that is known and the normalized title otherwise; progress is the
/// highest episode number marked seen.
#[derive(Debug, Clone, PartialEq)]
pub struct LibraryEntry {
    pub id: i64,
    pub canon_key: String,
    pub anilist_id: Option<i64>,
    pub display_title: String,
    pub followed: bool,
    pub backlog_status: Option<String>,
    pub watched_externally: bool,
    pub seen_watermark: i64,
}

/// A setting.
#[derive(Debug, Clone, PartialEq)]
pub struct SettingRow {
    pub key: String,
    pub value: String,
}

/// All tables.
#[derive(Debug, Clone, PartialEq)]
pub struct Db {
    pub sources: Vec<SourceRow>,
    pub series: Vec<SeriesRow>,
    pub series_genres: Vec<SeriesGenreRow>,
    pub episodes: Vec<EpisodeRow>,
    pub catalog: Vec<CatalogRow>,
    pub catalog_genres: Vec<CatalogGenreRow>,
    pub library: Vec<LibraryEntry>,
    pub settings: Vec<SettingRow>,
}

/// Whether series stand in the order of their ids, which start at one, and no two of one site have
/// the same slug.
pub open spec fn series_keyed(s: Seq<SeriesRow>) -> bool {
    &&& forall|i: int| 0 <= i < s.len() ==> (#[trigger] s[i]).id >= 1
    &&& forall|i: int, j: int| 0 <= i < j < s.len() ==> #[trigger] s[i].id < #[trigger] s[j].id
    &&& forall|i: int, j: int|
        0 <= i < j < s.len() ==> #[trigger] s[i].source_id != #[trigger] s[j].source_id
            || s[i].slug@ != s[j].slug@
}

/// Whether episodes stand in the order of their ids, which start at one, and no two of one series
/// have the same address.
pub open spec fn episodes_keyed(e: Seq<EpisodeRow>) -> bool {
    &&& forall|i: int| 0 <= i < e.len() ==> (#[trigger] e[i]).id >= 1
    &&& forall|i: int, j: int| 0 <= i < j < e.len() ==> #[trigger] e[i].id < #[trigger] e[j].id
    &&& forall|i: int, j: int|
        0 <= i < j < e.len() ==> #[trigger] e[i].series_id != #[trigger] e[j].series_id
            || e[i].url@ != e[j].url@
}

/// Whether sources stand in the order of their ids, which start at one, and no two have the same
/// address or were upserted at the same place.
pub open spec fn sources_keyed(s: Seq<SourceRow>) -> bool {
    &&& forall|i: int| 0 <= i < s.len() ==> (#[trigger] s[i]).id >= 1
    &&& forall|i: int, j: int| 0 <= i < j < s.len() ==> #[trigger] s[i].id < #[trigger] s[j].id
    &&& forall|i: int, j: int|
        0 <= i < j < s.len() ==> #[trigger] s[i].base_url@ != #[trigger] s[j].base_url@
    &&& forall|i: int, j: int|
        0 <= i < j < s.len() ==> #[trigger] s[i].upserted != #[trigger] s[j].upserted
}

/// Whether no series carries a genre twice.
pub open spec fn genres_keyed(g: Seq<SeriesGenreRow>) -> bool {
    forall|i: int, j: int|
        0 <= i < j < g.len() ==> #[trigger] g[i].series_id != #[trigger] g[j].series_id
            || g[i].genre@ != g[j].genre@
}

/// Whether no two catalog entries have the same id.
pub open spec fn catalog_keyed(c: Seq<CatalogRow>) -> bool {
    forall|i: int, j: int| 0 <= i < j < c.len() ==> #[trigger] c[i].id != #[trigger] c[j].id
}

/// Whether no catalog entry carries a genre twice.
pub open spec fn catalog_genres_keyed(g: Seq<CatalogGenreRow>) -> bool {
    forall|i: int, j: int|
        0 <= i < j < g.len() ==> #[trigger] g[i].anilist_id != #[trigger] g[j].anilist_id
            || g[i].genre@ != g[j].genre@
}

/// Whether no two library entries have the same key.
pub open spec fn library_keyed(l: Seq<LibraryEntry>) -> bool {
    forall|i: int, j: int|
        0 <= i < j < l.len() ==> #[trigger] l[i].canon_key@ != #[trigger] l[j].canon_key@
}

/// Whether no two settings have the same key.
pub open spec fn settings_keyed(s: Seq<SettingRow>) -> bool {
    forall|i: int, j: int| 0 <= i < j < s.len() ==> #[trigger] s[i].key@ != #[trigger] s[j].key@
}

impl Db {
    /// Whether every table keeps its keys.
    pub open spec fn well_formed(self) -> bool {
        &&& sources_keyed(self.sources@)
        &&& series_keyed(self.series@)
        &&& genres_keyed(self.series_genres@)
        &&& episodes_keyed(self.episodes@)
        &&& catalog_keyed(self.catalog@)
        &&& catalog_genres_keyed(self.catalog_genres@)
        &&& library_keyed(self.library@)
        &&& settings_keyed(self.settings@)
    }

    /// An empty database.
    pub fn new() -> (r: Self)
        ensures
            r.well_formed(),
            r.sources@.len() == 0,
            r.series@.len() == 0,
            r.series_genres@.len() == 0,
            r.episodes@.len() == 0,
            r.catalog@.len() == 0,
            r.catalog_genres@.len() == 0,
            r.library@.len() == 0,
            r.settings@.len() == 0,
    {
        Db {
            sources: Vec::new(),
            series: Vec::new(),
            series_genres: Vec::new(),
            episodes: Vec::new(),
            catalog: Vec::new(),
            catalog_genres: Vec::new(),
            library: Vec::new(),
            settings: Vec::new(),
        }
    }
}

/// Whether two databases differ in the table of series at most.
pub open spec fn only_series(a: Db, b: Db) -> bool {
    b == (Db { series: b.series, ..a })
}

/// Whether two databases differ in the table of episodes at most.
pub open spec fn only_episodes(a: Db, b: Db) -> bool {
    b == (Db { episodes: b.episodes, ..a })
}

/// Whether two databases differ in the table of series' genres at most.
pub open spec fn only_series_genres(a: Db, b: Db) -> bool {
    b == (Db { series_genres: b.series_genres, ..a })
}

/// Whether two databases differ in the table of settings at most.
pub open spec fn only_settings(a: Db, b: Db) -> bool {
    b == (Db { settings: b.settings, ..a })
}

/// Whether two databases differ in the table of sources at most.
pub open spec fn only_sources(a: Db, b: Db) -> bool {
    b == (Db { sources: b.sources, ..a })
}

/// Whether two databases differ in the library table at most.
pub open spec fn only_library(a: Db, b: Db) -> bool {
    b == (Db { library: b.library, ..a })
}

/// What an optional text spells.
pub open spec fn opt_text(t: Option<String>) -> Option<Seq<char>> {
    match t {
        Some(s) => Some(s@),
        None => None,
    }
}

/// What an optional text spells.
pub open spec fn opt_str(t: Option<&str>) -> Option<Seq<char>> {
    match t {
        Some(s) => Some(s@),
        None => None,
    }
}

/// A copy of an optional text.
pub fn copy_text(t: &Option<String>) -> (r: Option<String>)
    ensures
        r == *t,
{
    match t {
        Some(s) => Some(s.clone()),
        None => None,
    }
}

/// An optional text of its own.
pub fn own_text(t: Option<&str>) -> (r: Option<String>)
    ensures
        opt_text(r) == opt_str(t),
{
    match t {
        Some(s) => Some(s.to_owned()),
        None => None,
    }
}

/// Whether an optional text spells the given one.
pub fn text_is(t: &Option<String>, text: &str) -> (r: bool)
    ensures
        r == (opt_text(*t) == Some(text@)),
{
    match t {
        Some(s) => crate::text::same_text(s.as_str(), text),
        None => false,
    }
}

impl SeriesRow {
    /// What is shown of a series.
    pub open spec fn shown(self) -> Series {
        Series {
            id: self.id,
            slug: self.slug,
            title: self.title,
            url: self.url,
            cover_url: self.cover_url,
            is_airing: self.is_airing,
            followed: self.followed,
            next_episode_at: self.next_episode_at,
            site_episode_count: self.site_episode_count,
        }
    }

    /// What is shown of a series.
    pub fn to_series(&self) -> (r: Series)
        ensures
            r == self.shown(),
    {
        Series {
            id: self.id,
            slug: self.slug.clone(),
            title: self.title.clone(),
            url: self.url.clone(),
            cover_url: copy_text(&self.cover_url),
            is_airing: self.is_airing,
            followed: self.followed,
            next_episode_at: self.next_episode_at,
            site_episode_count: self.site_episode_count,
        }
    }
}

impl EpisodeRow {
    /// What is shown of an episode.
    pub open spec fn shown(self) -> Episode {
        Episode {
            id: self.id,
            series_id: self.series_id,
            number: self.number,
            title: self.title,
            url: self.url,
            released_at: self.released_at,
            seen: self.seen,
        }
    }

    /// A copy of the row.
    pub fn copy(&self) -> (r: EpisodeRow)
        ensures
            r == *self,
    {
        EpisodeRow {
            id: self.id,
            series_id: self.series_id,
            number: self.number.clone(),
            title: copy_text(&self.title),
            url: self.url.clone(),
            released_at: copy_text(&self.released_at),
            seen: self.seen,
            added_at: self.added_at.clone(),
            seen_at: copy_text(&self.seen_at),
        }
    }

    /// What is shown of an episode.
    pub fn to_episode(&self) -> (r: Episode)
        ensures
            r == self.shown(),
    {
        Episode {
            id: self.id,
            series_id: self.series_id,
            number: self.number.clone(),
            title: copy_text(&self.title),
            url: self.url.clone(),
            released_at: copy_text(&self.released_at),
            seen: self.seen,
        }
    }
}

/// Ids in order, starting at one, are at least as large as their places.
pub proof fn lemma_ids_count(ids: Seq<i64>, i: int)
    requires
        forall|k: int| 0 <= k < ids.len() ==> #[trigger] ids[k] >= 1,
        forall|j: int, k: int| 0 <= j < k < ids.len() ==> #[trigger] ids[j] < #[trigger] ids[k],
        0 <= i < ids.len(),
    ensures
        ids[i] >= i + 1,
    decreases i,
{
    if i > 0 {
        lemma_ids_count(ids, i - 1);
    }
}

/// There are no more series than ids.
pub proof fn lemma_series_count(s: Seq<SeriesRow>)
    requires
        series_keyed(s),
    ensures
        s.len() <= i64::MAX,
{
    let ids = s.map_values(|r: SeriesRow| r.id);
    if s.len() > 0 {
        lemma_ids_count(ids, s.len() - 1);
    }
}

/// There are no more episodes than ids.
pub proof fn lemma_episode_count(e: Seq<EpisodeRow>)
    requires
        episodes_keyed(e),
    ensures
        e.len() <= i64::MAX,
{
    let ids = e.map_values(|r: EpisodeRow| r.id);
    if e.len() > 0 {
        lemma_ids_count(ids, e.len() - 1);
    }
}

/// Selected series keep their keys.
pub proof fn lemma_series_filtered(s: Seq<SeriesRow>, hit: spec_fn(SeriesRow) -> bool)
    requires
        series_keyed(s),
    ensures
        series_keyed(s.filter(hit)),
{
    let each = |r: SeriesRow| r.id >= 1;
    let rel = |a: SeriesRow, b: SeriesRow|
        a.id < b.id && (a.source_id != b.source_id || a.slug@ != b.slug@);
    lemma_filter_pairwise(s, hit, each, rel);
    let f = s.filter(hit);
    assert forall|i: int, j: int| 0 <= i < j < f.len() implies rel(
        #[trigger] f[i],
        #[trigger] f[j],
    ) by {}
    assert forall|i: int, j: int| 0 <= i < j < f.len() implies #[trigger] f[i].id
        < #[trigger] f[j].id by {
        assert(rel(f[i], f[j]));
    }
    assert forall|i: int, j: int| 0 <= i < j < f.len() implies #[trigger] f[i].source_id
        != #[trigger] f[j].source_id || f[i].slug@ != f[j].slug@ by {
        assert(rel(f[i], f[j]));
    }
    assert forall|i: int| 0 <= i < f.len() implies (#[trigger] f[i]).id >= 1 by {
        assert(each(f[i]));
    }
}

/// Selected episodes keep their keys.
pub proof fn lemma_episodes_filtered(e: Seq<EpisodeRow>, hit: spec_fn(EpisodeRow) -> bool)
    requires
        episodes_keyed(e),
    ensures
        episodes_keyed(e.filter(hit)),
{
    let each = |r: EpisodeRow| r.id >= 1;
    let rel = |a: EpisodeRow, b: EpisodeRow|
        a.id < b.id && (a.series_id != b.series_id || a.url@ != b.url@);
    lemma_filter_pairwise(e, hit, each, rel);
    let f = e.filter(hit);
    assert forall|i: int, j: int| 0 <= i < j < f.len() implies #[trigger] f[i].id
        < #[trigger] f[j].id by {
        assert(rel(f[i], f[j]));
    }
    assert forall|i: int, j: int| 0 <= i < j < f.len() implies #[trigger] f[i].series_id
        != #[trigger] f[j].series_id || f[i].url@ != f[j].url@ by {
        assert(rel(f[i], f[j]));
    }
    assert forall|i: int| 0 <= i < f.len() implies (#[trigger] f[i]).id >= 1 by {
        assert(each(f[i]));
    }
}

/// Selected genres keep their keys.
pub proof fn lemma_genres_filtered(g: Seq<SeriesGenreRow>, hit: spec_fn(SeriesGenreRow) -> bool)
    requires
        genres_keyed(g),
    ensures
        genres_keyed(g.filter(hit)),
{
    let each = |r: SeriesGenreRow| true;
    let rel = |a: SeriesGenreRow, b: SeriesGenreRow|
        a.series_id != b.series_id || a.genre@ != b.genre@;
    lemma_filter_pairwise(g, hit, each, rel);
    let f = g.filter(hit);
    assert forall|i: int, j: int| 0 <= i < j < f.len() implies #[trigger] f[i].series_id
        != #[trigger] f[j].series_id || f[i].genre@ != f[j].genre@ by {
        assert(rel(f[i], f[j]));
    }
}

} // verus!
