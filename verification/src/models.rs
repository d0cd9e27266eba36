//! What the tracker hands out: series, episodes, cards and statistics.

use vstd::prelude::*;

verus! {

/// One series on one site.
#[derive(Debug, Clone, PartialEq)]
pub struct Series {
    pub id: i64,
    pub slug: String,
    pub title: String,
    pub url: String,
    pub cover_url: Option<String>,
    pub is_airing: bool,
    pub followed: bool,
    /// Unix time of the next episode's release, as last seen on the airing list.
    pub next_episode_at: Option<i64>,
    /// The site's own count of the series' episodes.
    pub site_episode_count: Option<i64>,
}

/// One airing series and the Unix time at which its first episode came out, if
/// that is known.
#[derive(Debug, Clone, PartialEq)]
pub struct AiringItem {
    pub series: Series,
    pub first_episode_at: Option<i64>,
}

/// The lowest-numbered unseen episode of a series.
#[derive(Debug, Clone, PartialEq)]
pub struct NextEpisode {
    pub number: String,
    pub title: Option<String>,
    pub url: String,
}

/// A show of the library with its progress.
#[derive(Debug, Clone, PartialEq)]
pub struct LibraryItem {
    pub series: Series,
    pub total_episodes: i64,
    pub seen_episodes: i64,
    /// When the most recently stored episode was stored.
    pub last_added: Option<String>,
    /// The episode to go on with; none when every episode is seen.
    pub next_episode: Option<NextEpisode>,
    /// When an episode was last marked seen.
    pub last_watched_at: Option<String>,
    pub watched_externally: bool,
    pub kind: Option<String>,
    /// The series' genres in alphabetical order.
    pub genres: Vec<String>,
    /// Known only for shows that are linked to the catalog.
    pub studio: Option<String>,
}

/// One episode of a series.
#[derive(Debug, Clone, PartialEq)]
pub struct Episode {
    pub id: i64,
    pub series_id: i64,
    pub number: String,
    pub title: Option<String>,
    pub url: String,
    pub released_at: Option<String>,
    pub seen: bool,
}

/// A finished show on a site's genre page, as the swipe deck offers it.
#[derive(Debug, Clone, PartialEq)]
pub struct FinishedCard {
    pub title: String,
    pub url: String,
    pub poster_url: Option<String>,
    pub kind: String,
    /// The genre page on which the card was found, where one was picked.
    pub matched_genre: Option<String>,
}

/// What a series' own page tells of it.
#[derive(Debug, Clone, PartialEq)]
pub struct SeriesDetail {
    pub genres: Vec<String>,
    pub kind: Option<String>,
    pub synopsis: Option<String>,
}

/// Watch counts over all sites; a show that is on several sites counts once.
#[derive(Debug, Clone, Copy, PartialEq, Eq, Structural)]
pub struct WatchSummary {
    pub followed_series: i64,
    /// Franchises with any evidence of having been watched.
    pub distinct_anime: i64,
    pub episodes_watched: i64,
    pub episodes_total: i64,
    /// Episodes credited on top of those really marked seen.
    pub episodes_watched_external: i64,
    pub airing_followed: i64,
    /// Followed shows with an unseen episode.
    pub pending_to_watch: i64,
    /// Shows tagged as wanted.
    pub backlog_want: i64,
}

/// How many followed shows carry a genre.
#[derive(Debug, Clone, PartialEq)]
pub struct GenreStat {
    pub genre: String,
    pub count: i64,
}

/// How many followed shows are of a kind.
#[derive(Debug, Clone, PartialEq)]
pub struct TypeStat {
    pub kind: String,
    pub count: i64,
}

/// A genre and how much it is liked, in half points.
#[derive(Debug, Clone, PartialEq)]
pub struct GenreAffinity {
    pub genre: String,
    pub half_points: i64,
}

/// A followed show as a node of the relationship graph.
#[derive(Debug, Clone, PartialEq)]
pub struct SeriesGraphNode {
    pub id: i64,
    pub title: String,
    pub cover_url: Option<String>,
    pub genres: Vec<String>,
    pub kind: Option<String>,
}

/// How many episodes were marked seen on a day.
#[derive(Debug, Clone, PartialEq)]
pub struct DayCount {
    pub day: String,
    pub count: i64,
}

/// How many episodes of a franchise were watched.
#[derive(Debug, Clone, PartialEq)]
pub struct TitleCount {
    pub title: String,
    pub count: i64,
}

/// A followed show that has gone quiet.
#[derive(Debug, Clone, PartialEq)]
pub struct DustyEntry {
    pub title: String,
    pub last_seen_at: String,
}

/// The day with the most episodes marked seen.
#[derive(Debug, Clone, PartialEq)]
pub struct BingeRecord {
    pub day: Option<String>,
    pub count: i64,
}

/// How many episodes were marked seen in an hour of the day.
#[derive(Debug, Clone, Copy, PartialEq, Eq, Structural)]
pub struct HourCount {
    pub hour: i64,
    pub count: i64,
}

/// A mean as its total and the number of things that it is taken over; the mean
/// of nothing is zero.
#[derive(Debug, Clone, Copy, PartialEq, Eq, Structural)]
pub struct Mean {
    pub total: i64,
    pub count: i64,
}

/// Watch metrics for the statistics page.
#[derive(Debug, Clone, PartialEq)]
pub struct WatchInsights {
    pub estimated_minutes_tracked: i64,
    pub estimated_minutes_external: i64,
    /// Franchises marked as watched elsewhere whose length is known.
    pub external_titles_estimated: i64,
    /// Franchises marked as watched elsewhere.
    pub external_titles_total: i64,
    pub avg_episodes_per_series: Mean,
    pub followed_airing: i64,
    pub followed_finished: i64,
    pub discarded: i64,
    pub want: i64,
    pub watched_externally: i64,
    /// The franchises with the most watched episodes, at most eight.
    pub top_series: Vec<TitleCount>,
    /// The last thirty days, quiet ones among them.
    pub marks_by_day: Vec<DayCount>,
    /// The first day with a mark.
    pub marks_tracked_since: Option<String>,
}

/// Every day of a year with its number of marks.
#[derive(Debug, Clone, PartialEq)]
pub struct YearlyActivity {
    pub year: i32,
    pub days: Vec<DayCount>,
}

/// The state of the cloud backup.
#[derive(Debug, Clone, PartialEq)]
pub struct BackupStatus {
    pub configured: bool,
    pub connected: bool,
    pub last_at: Option<String>,
    pub size_bytes: Option<i64>,
}

/// The outcome of bringing the library onto the active site.
#[derive(Debug, Clone, Copy, PartialEq, Eq, Structural)]
pub struct LibraryImportResult {
    pub total: usize,
    pub linked: usize,
    pub skipped: usize,
}

/// How far bringing the library onto the active site has come.
#[derive(Debug, Clone, PartialEq)]
pub struct LibraryImportProgress {
    pub done: usize,
    pub total: usize,
    pub title: String,
}

/// One entry of the catalog.
#[derive(Debug, Clone, PartialEq)]
pub struct CatalogAnime {
    pub id: i64,
    pub title: String,
    pub title_romaji: Option<String>,
    pub title_english: Option<String>,
    pub cover_url: Option<String>,
    pub format: Option<String>,
    pub genres: Vec<String>,
    pub episodes: Option<i64>,
    pub average_score: Option<i64>,
    pub popularity: Option<i64>,
    pub url: String,
    pub status: Option<String>,
    pub duration: Option<i64>,
    pub studio: Option<String>,
    pub start_date: Option<i64>,
}

} // verus!
