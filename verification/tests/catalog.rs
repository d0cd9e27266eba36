use anime_on_track::db::catalog::CatalogFilter;
use anime_on_track::db::Db;
use anime_on_track::matching::normalize_title;
use anime_on_track::models::{CatalogAnime, GenreAffinity, Series};
use anime_on_track::swipe::fresh_draws;
use anime_on_track::text_set::TextSet;
use std::collections::{HashMap, HashSet};

fn catalog_anime(id: i64, title: &str, genres: &[&str]) -> CatalogAnime {
    catalog_anime_with_popularity(id, title, genres, None)
}

fn catalog_anime_with_popularity(
    id: i64,
    title: &str,
    genres: &[&str],
    popularity: Option<i64>,
) -> CatalogAnime {
    CatalogAnime {
        id,
        title: title.into(),
        title_romaji: None,
        title_english: None,
        cover_url: Some(format!("https://cdn/{id}.jpg")),
        format: Some("TV".into()),
        genres: genres.iter().map(|g| g.to_string()).collect(),
        episodes: Some(12),
        average_score: Some(80),
        popularity,
        url: format!("https://anilist.co/anime/{id}"),
        status: None,
        duration: None,
        studio: None,
        start_date: None,
    }
}

fn catalog_anime_full(
    id: i64,
    title: &str,
    genres: &[&str],
    format: &str,
    episodes: Option<i64>,
    average_score: Option<i64>,
) -> CatalogAnime {
    CatalogAnime {
        id,
        title: title.into(),
        title_romaji: None,
        title_english: None,
        cover_url: None,
        format: Some(format.into()),
        genres: genres.iter().map(|g| g.to_string()).collect(),
        episodes,
        average_score,
        popularity: Some(100 - id),
        url: format!("https://anilist.co/anime/{id}"),
        status: None,
        duration: None,
        studio: None,
        start_date: None,
    }
}

fn seed_filter_catalog(db: &mut Db) {
    db.upsert_catalog_anime(
        &catalog_anime_full(1, "Monster", &["Drama", "Mystery"], "TV", Some(74), Some(90)),
        0,
    )
    .unwrap();
    db.upsert_catalog_anime(
        &catalog_anime_full(2, "Monster Girl", &["Comedy"], "TV", Some(12), Some(65)),
        1,
    )
    .unwrap();
    db.upsert_catalog_anime(
        &catalog_anime_full(3, "Fullmetal Alchemist", &["Drama", "Action"], "TV", Some(64), Some(88)),
        2,
    )
    .unwrap();
    db.upsert_catalog_anime(
        &catalog_anime_full(4, "OnlyOne", &["Drama"], "MOVIE", Some(1), Some(70)),
        3,
    )
    .unwrap();
    db.upsert_catalog_anime(
        &catalog_anime_full(5, "ShortRun", &["Action"], "OVA", Some(6), Some(55)),
        4,
    )
    .unwrap();
    db.upsert_catalog_anime(
        &catalog_anime_full(6, "MidRun", &["Action"], "TV", Some(24), Some(72)),
        5,
    )
    .unwrap();
    db.upsert_catalog_anime(
        &catalog_anime_full(7, "LongRun", &["Action"], "TV", Some(500), Some(60)),
        6,
    )
    .unwrap();
    db.upsert_catalog_anime(
        &catalog_anime_full(8, "Unknown Length", &["Drama", "Action"], "TV", None, Some(50)),
        7,
    )
    .unwrap();
}

fn engaged(db: &Db) -> TextSet {
    let mut set = TextSet::new();
    for t in db.engaged_series_titles().unwrap() {
        set.insert(normalize_title(&t));
    }
    set
}

#[test]
fn catalog_upsert_and_list_orders_by_popularity_desc() {
    let mut db = Db::new();
    db.upsert_catalog_anime(&catalog_anime_with_popularity(3, "LowPop", &["Drama"], Some(10)), 0).unwrap();
    db.upsert_catalog_anime(&catalog_anime_with_popularity(1, "HighPop", &["Action", "Fantasy"], Some(9000)), 1).unwrap();
    db.upsert_catalog_anime(&catalog_anime_with_popularity(2, "MidPop", &[], Some(500)), 2).unwrap();

    assert_eq!(db.catalog_count().unwrap(), 3);

    let page = db.list_catalog(1, 10).unwrap();
    assert_eq!(
        page.iter().map(|a| a.title.as_str()).collect::<Vec<_>>(),
        vec!["HighPop", "MidPop", "LowPop"]
    );
    assert_eq!(page[0].genres, vec!["Action".to_string(), "Fantasy".to_string()]);
}

#[test]
fn catalog_list_puts_null_popularity_last_and_tie_breaks_by_id() {
    let mut db = Db::new();
    db.upsert_catalog_anime(&catalog_anime_with_popularity(5, "NoPopB", &[], None), 0).unwrap();
    db.upsert_catalog_anime(&catalog_anime_with_popularity(2, "NoPopA", &[], None), 1).unwrap();
    db.upsert_catalog_anime(&catalog_anime_with_popularity(1, "HasPop", &[], Some(50)), 2).unwrap();

    let page = db.list_catalog(1, 10).unwrap();
    assert_eq!(
        page.iter().map(|a| a.title.as_str()).collect::<Vec<_>>(),
        vec!["HasPop", "NoPopA", "NoPopB"]
    );
}

#[test]
fn catalog_upsert_is_idempotent_and_refreshes_genres() {
    let mut db = Db::new();
    db.upsert_catalog_anime(&catalog_anime(1, "First", &["Action"]), 0).unwrap();
    db.upsert_catalog_anime(&catalog_anime(1, "First (updated)", &["Comedy"]), 0).unwrap();

    assert_eq!(db.catalog_count().unwrap(), 1);
    let page = db.list_catalog(1, 10).unwrap();
    assert_eq!(page.len(), 1);
    assert_eq!(page[0].title, "First (updated)");
    assert_eq!(page[0].genres, vec!["Comedy".to_string()]);
}

#[test]
fn catalog_pagination_offsets_correctly() {
    let mut db = Db::new();
    for i in 0..5 {
        db.upsert_catalog_anime(&catalog_anime(i, &format!("Anime {i}"), &[]), i).unwrap();
    }
    let page1 = db.list_catalog(1, 2).unwrap();
    let page2 = db.list_catalog(2, 2).unwrap();
    assert_eq!(page1.iter().map(|a| a.id).collect::<Vec<_>>(), vec![0, 1]);
    assert_eq!(page2.iter().map(|a| a.id).collect::<Vec<_>>(), vec![2, 3]);
}

#[test]
fn has_synced_catalog_status_false_when_empty_or_all_null_true_once_one_row_has_status() {
    let mut db = Db::new();
    assert_eq!(db.has_synced_catalog_status().unwrap(), false);

    db.upsert_catalog_anime(&catalog_anime_with_popularity(1, "Unsynced", &["Drama"], Some(1000)), 0).unwrap();
    assert_eq!(db.has_synced_catalog_status().unwrap(), false, "a NULL-status row alone must not count as synced");

    let mut synced = catalog_anime_with_popularity(2, "Synced", &["Drama"], Some(1000));
    synced.status = Some("RELEASING".into());
    db.upsert_catalog_anime(&synced, 1).unwrap();
    assert_eq!(db.has_synced_catalog_status().unwrap(), true);
}

#[test]
fn random_catalog_anime_in_genre_none_when_empty_some_when_populated() {
    let mut draws = fresh_draws();
    let mut db = Db::new();
    assert!(db.random_catalog_anime_in_genre("Drama", &[], &TextSet::new(), &[], &[], true, false, &mut draws).unwrap().is_none());
    db.upsert_catalog_anime(
        &catalog_anime_with_popularity(1, "Only", &["Drama"], Some(1000)),
        0,
    )
    .unwrap();
    let picked = db.random_catalog_anime_in_genre("Drama", &[], &TextSet::new(), &[], &[], true, false, &mut draws).unwrap().unwrap();
    assert_eq!(picked.id, 1);
    assert_eq!(picked.genres, vec!["Drama".to_string()]);
}

#[test]
fn random_catalog_anime_in_genre_only_matches_requested_genre() {
    let mut draws = fresh_draws();
    let mut db = Db::new();
    db.upsert_catalog_anime(&catalog_anime_with_popularity(1, "Dramatic", &["Drama"], Some(1000)), 0).unwrap();
    db.upsert_catalog_anime(&catalog_anime_with_popularity(2, "Actiony", &["Action"], Some(1000)), 1).unwrap();
    let picked = db.random_catalog_anime_in_genre("Action", &[], &TextSet::new(), &[], &[], true, false, &mut draws).unwrap().unwrap();
    assert_eq!(picked.title, "Actiony");
}

#[test]
fn random_catalog_anime_in_genre_excludes_low_popularity_and_wrong_format() {
    let mut draws = fresh_draws();
    let mut db = Db::new();
    db.upsert_catalog_anime(&catalog_anime_with_popularity(1, "TooObscure", &["Drama"], Some(50)), 0).unwrap();
    let mut music = catalog_anime_with_popularity(2, "MusicVideo", &["Drama"], Some(9000));
    music.format = Some("MUSIC".into());
    db.upsert_catalog_anime(&music, 1).unwrap();
    db.upsert_catalog_anime(&catalog_anime_with_popularity(3, "Qualifies", &["Drama"], Some(1000)), 2).unwrap();

    let picked = db.random_catalog_anime_in_genre("Drama", &[], &TextSet::new(), &[], &[], true, false, &mut draws).unwrap().unwrap();
    assert_eq!(picked.title, "Qualifies");
}

#[test]
fn random_catalog_anime_in_genre_excludes_not_yet_released_when_hide_upcoming_true() {
    let mut draws = fresh_draws();
    let mut db = Db::new();
    let mut upcoming = catalog_anime_with_popularity(1, "Upcoming", &["Drama"], Some(1000));
    upcoming.status = Some("NOT_YET_RELEASED".into());
    db.upsert_catalog_anime(&upcoming, 0).unwrap();
    db.upsert_catalog_anime(&catalog_anime_with_popularity(2, "OutNow", &["Drama"], Some(1000)), 1).unwrap();

    let picked = db
        .random_catalog_anime_in_genre("Drama", &[], &TextSet::new(), &[], &[], true, true, &mut draws)
        .unwrap()
        .unwrap();
    assert_eq!(picked.title, "OutNow");
}

#[test]
fn random_catalog_anime_in_genre_includes_null_status_when_hide_upcoming_true() {
    let mut draws = fresh_draws();
    let mut db = Db::new();
    db.upsert_catalog_anime(&catalog_anime_with_popularity(1, "UnsyncedStatus", &["Drama"], Some(1000)), 0).unwrap();

    let picked = db
        .random_catalog_anime_in_genre("Drama", &[], &TextSet::new(), &[], &[], true, true, &mut draws)
        .unwrap()
        .unwrap();
    assert_eq!(picked.title, "UnsyncedStatus");
}

#[test]
fn random_catalog_anime_in_genre_includes_upcoming_when_hide_upcoming_false() {
    let mut draws = fresh_draws();
    let mut db = Db::new();
    let mut upcoming = catalog_anime_with_popularity(1, "Upcoming", &["Drama"], Some(1000));
    upcoming.status = Some("NOT_YET_RELEASED".into());
    db.upsert_catalog_anime(&upcoming, 0).unwrap();

    let picked = db
        .random_catalog_anime_in_genre("Drama", &[], &TextSet::new(), &[], &[], true, false, &mut draws)
        .unwrap()
        .unwrap();
    assert_eq!(picked.title, "Upcoming");
}

#[test]
fn random_catalog_anime_in_genre_excludes_already_decided_titles() {
    let mut draws = fresh_draws();
    let mut db = Db::new();
    let src = db.upsert_source("AnimeYT", "b", "animeytx").unwrap();
    db.upsert_catalog_anime(&catalog_anime_with_popularity(1, "Decided", &["Drama"], Some(1000)), 0).unwrap();
    db.upsert_catalog_anime(&catalog_anime_with_popularity(2, "Undecided", &["Drama"], Some(1000)), 1).unwrap();

    let series = Series {
        id: 0, slug: "anilist-1".into(), title: "Decided".into(),
        url: "https://anilist.co/anime/1".into(), cover_url: None,
        is_airing: false, followed: false, next_episode_at: None, site_episode_count: None,
    };
    let sid = db.upsert_series(src, &series).unwrap();
    db.set_anilist_id(sid, 1).unwrap();
    db.set_backlog_status(sid, Some("discarded")).unwrap();

    for _ in 0..10 {
        let picked = db.random_catalog_anime_in_genre("Drama", &[], &TextSet::new(), &[], &[], true, false, &mut draws).unwrap().unwrap();
        assert_eq!(picked.title, "Undecided");
    }
}

#[test]
fn random_catalog_anime_in_genre_returns_none_when_all_decided() {
    let mut draws = fresh_draws();
    let mut db = Db::new();
    let src = db.upsert_source("AnimeYT", "b", "animeytx").unwrap();
    db.upsert_catalog_anime(&catalog_anime_with_popularity(1, "OnlyOne", &["Drama"], Some(1000)), 0).unwrap();
    let series = Series {
        id: 0, slug: "anilist-1".into(), title: "OnlyOne".into(),
        url: "https://anilist.co/anime/1".into(), cover_url: None,
        is_airing: false, followed: false, next_episode_at: None, site_episode_count: None,
    };
    let sid = db.upsert_series(src, &series).unwrap();
    db.set_anilist_id(sid, 1).unwrap();
    db.set_backlog_status(sid, Some("want")).unwrap();

    assert!(db.random_catalog_anime_in_genre("Drama", &[], &TextSet::new(), &[], &[], true, false, &mut draws).unwrap().is_none());
}

#[test]
fn random_catalog_anime_in_genre_excludes_a_banned_format() {
    let mut draws = fresh_draws();
    let mut db = Db::new();
    let mut movie = catalog_anime_with_popularity(1, "AMovie", &["Drama"], Some(1000));
    movie.format = Some("MOVIE".into());
    db.upsert_catalog_anime(&movie, 0).unwrap();
    let mut tv = catalog_anime_with_popularity(2, "ATVShow", &["Drama"], Some(1000));
    tv.format = Some("TV".into());
    db.upsert_catalog_anime(&tv, 1).unwrap();

    for _ in 0..10 {
        let picked = db
            .random_catalog_anime_in_genre("Drama", &["MOVIE".to_string()], &TextSet::new(), &[], &[], true, false, &mut draws)
            .unwrap()
            .unwrap();
        assert_eq!(picked.title, "ATVShow");
    }
}

#[test]
fn random_catalog_anime_in_genre_none_when_every_format_banned() {
    let mut draws = fresh_draws();
    let mut db = Db::new();
    let mut tv = catalog_anime_with_popularity(1, "ATVShow", &["Drama"], Some(1000));
    tv.format = Some("TV".into());
    db.upsert_catalog_anime(&tv, 0).unwrap();

    let all_banned: Vec<String> =
        ["TV", "MOVIE", "OVA", "ONA", "SPECIAL"].iter().map(|s| s.to_string()).collect();
    assert!(db
        .random_catalog_anime_in_genre("Drama", &all_banned, &TextSet::new(), &[], &[], true, false, &mut draws)
        .unwrap()
        .is_none());
}

#[test]
fn random_catalog_anime_in_genre_excludes_engaged_normalized_title() {
    let mut draws = fresh_draws();
    let mut db = Db::new();
    let src = db.upsert_source("AnimeYT", "b", "animeytx").unwrap();
    db.upsert_catalog_anime(&catalog_anime_with_popularity(1, "Overlord IV", &["Fantasy"], Some(1000)), 0)
        .unwrap();
    db.upsert_catalog_anime(&catalog_anime_with_popularity(2, "Some Other Show", &["Fantasy"], Some(1000)), 1)
        .unwrap();

    let followed = Series {
        id: 0,
        slug: "overlord-iv".into(),
        title: "Overlord IV".into(),
        url: "https://example.com/tv/overlord-iv".into(),
        cover_url: None,
        is_airing: false,
        followed: true,
        next_episode_at: None,
        site_episode_count: None,
    };
    let sid = db.upsert_series(src, &followed).unwrap();
    db.set_followed(sid, true).unwrap();

    let excluded = engaged(&db);
    assert!(excluded.contains(&normalize_title("Overlord IV")));

    for _ in 0..10 {
        let picked = db.random_catalog_anime_in_genre("Fantasy", &[], &excluded, &[], &[], true, false, &mut draws).unwrap().unwrap();
        assert_eq!(picked.title, "Some Other Show");
    }
}

#[test]
fn random_catalog_anime_in_genre_returns_none_when_only_candidate_is_engaged_by_title() {
    let mut draws = fresh_draws();
    let mut db = Db::new();
    let src = db.upsert_source("AnimeYT", "b", "animeytx").unwrap();
    db.upsert_catalog_anime(&catalog_anime_with_popularity(1, "Overlord IV", &["Fantasy"], Some(1000)), 0)
        .unwrap();
    let followed = Series {
        id: 0,
        slug: "overlord-iv".into(),
        title: "Overlord IV".into(),
        url: "https://example.com/tv/overlord-iv".into(),
        cover_url: None,
        is_airing: false,
        followed: true,
        next_episode_at: None,
        site_episode_count: None,
    };
    let sid = db.upsert_series(src, &followed).unwrap();
    db.set_followed(sid, true).unwrap();

    let excluded = engaged(&db);
    assert!(db.random_catalog_anime_in_genre("Fantasy", &[], &excluded, &[], &[], true, false, &mut draws).unwrap().is_none());
}

#[test]
fn random_catalog_anime_in_genre_end_to_end_biases_toward_secondary_genre_affinity() {
    let mut draws = fresh_draws();
    let mut db = Db::new();
    db.upsert_catalog_anime(
        &catalog_anime_with_popularity(1, "TasteMatch", &["Drama", "Fantasy"], Some(1000)),
        0,
    )
    .unwrap();
    db.upsert_catalog_anime(&catalog_anime_with_popularity(2, "NoMatch", &["Drama"], Some(1000)), 1).unwrap();

    let genre_affinity = vec![GenreAffinity { genre: "Fantasy".to_string(), half_points: 20 }];
    let format_affinity = vec![];

    let mut taste_match_wins = 0;
    for _ in 0..30 {
        let picked = db
            .random_catalog_anime_in_genre(
                "Drama",
                &[],
                &TextSet::new(),
                &genre_affinity,
                &format_affinity,
                true,
                false,
                &mut draws,
            )
            .unwrap()
            .unwrap();
        if picked.title == "TasteMatch" {
            taste_match_wins += 1;
        }
    }
    assert!(
        taste_match_wins >= 25,
        "expected the secondary-genre-matching candidate to dominate the weighted pick, won {taste_match_wins}/30"
    );
}

#[test]
fn random_catalog_anime_in_genre_recommended_false_ignores_affinity_bias() {
    let mut draws = fresh_draws();
    let mut db = Db::new();
    db.upsert_catalog_anime(
        &catalog_anime_with_popularity(1, "TasteMatch", &["Drama", "Fantasy"], Some(1000)),
        0,
    )
    .unwrap();
    db.upsert_catalog_anime(&catalog_anime_with_popularity(2, "NoMatch", &["Drama"], Some(1000)), 1).unwrap();

    let genre_affinity = vec![GenreAffinity { genre: "Fantasy".to_string(), half_points: 20 }];
    let format_affinity = vec![];

    let mut taste_match_wins = 0;
    for _ in 0..30 {
        let picked = db
            .random_catalog_anime_in_genre(
                "Drama",
                &[],
                &TextSet::new(),
                &genre_affinity,
                &format_affinity,
                false,
                false,
                &mut draws,
            )
            .unwrap()
            .unwrap();
        if picked.title == "TasteMatch" {
            taste_match_wins += 1;
        }
    }
    assert!(
        (5..=25).contains(&taste_match_wins),
        "expected roughly even split ignoring affinity, got {taste_match_wins}/30 for TasteMatch"
    );
}

#[test]
fn random_catalog_anime_in_genre_recommended_false_still_excludes_engaged_titles() {
    let mut draws = fresh_draws();
    let mut db = Db::new();
    let src = db.upsert_source("AnimeYT", "b", "animeytx").unwrap();
    db.upsert_catalog_anime(&catalog_anime_with_popularity(1, "Overlord IV", &["Fantasy"], Some(1000)), 0)
        .unwrap();
    db.upsert_catalog_anime(&catalog_anime_with_popularity(2, "Some Other Show", &["Fantasy"], Some(1000)), 1)
        .unwrap();

    let followed = Series {
        id: 0,
        slug: "overlord-iv".into(),
        title: "Overlord IV".into(),
        url: "https://example.com/tv/overlord-iv".into(),
        cover_url: None,
        is_airing: false,
        followed: true,
        next_episode_at: None,
        site_episode_count: None,
    };
    let sid = db.upsert_series(src, &followed).unwrap();
    db.set_followed(sid, true).unwrap();

    let excluded = engaged(&db);

    for _ in 0..10 {
        let picked = db
            .random_catalog_anime_in_genre(
                "Fantasy",
                &[],
                &excluded,
                &[],
                &[],
                false,
                false,
                &mut draws,
            )
            .unwrap()
            .unwrap();
        assert_eq!(picked.title, "Some Other Show");
    }
}

#[test]
fn list_catalog_filtered_with_default_filter_matches_list_catalog() {
    let mut db = Db::new();
    seed_filter_catalog(&mut db);

    let default_filter = db.list_catalog_filtered(1, 100, &CatalogFilter::default()).unwrap();
    let plain = db.list_catalog(1, 100).unwrap();
    assert_eq!(
        default_filter.iter().map(|a| a.id).collect::<Vec<_>>(),
        plain.iter().map(|a| a.id).collect::<Vec<_>>()
    );
    assert_eq!(
        db.catalog_count_filtered(&CatalogFilter::default()).unwrap(),
        db.catalog_count().unwrap()
    );
}

#[test]
fn list_catalog_filtered_search_is_case_insensitive_substring() {
    let mut db = Db::new();
    seed_filter_catalog(&mut db);

    let filter = CatalogFilter { search: Some("mONSteR".into()), ..Default::default() };
    let rows = db.list_catalog_filtered(1, 100, &filter).unwrap();
    assert_eq!(
        rows.iter().map(|a| a.title.as_str()).collect::<Vec<_>>(),
        vec!["Monster", "Monster Girl"]
    );
    assert_eq!(db.catalog_count_filtered(&filter).unwrap(), 2);
}

#[test]
fn list_catalog_filtered_multi_genre_uses_and_semantics() {
    let mut db = Db::new();
    seed_filter_catalog(&mut db);

    let filter = CatalogFilter {
        genres: vec!["Drama".into(), "Action".into()],
        ..Default::default()
    };
    let rows = db.list_catalog_filtered(1, 100, &filter).unwrap();
    let titles: Vec<&str> = rows.iter().map(|a| a.title.as_str()).collect();
    assert_eq!(titles, vec!["Fullmetal Alchemist", "Unknown Length"]);
    assert_eq!(db.catalog_count_filtered(&filter).unwrap(), 2);
}

#[test]
fn list_catalog_filtered_format_exact_match() {
    let mut db = Db::new();
    seed_filter_catalog(&mut db);

    let filter = CatalogFilter { format: Some("MOVIE".into()), ..Default::default() };
    let rows = db.list_catalog_filtered(1, 100, &filter).unwrap();
    assert_eq!(rows.iter().map(|a| a.title.as_str()).collect::<Vec<_>>(), vec!["OnlyOne"]);
}

#[test]
fn list_catalog_filtered_studio_exact_match() {
    let mut db = Db::new();
    let mut a = catalog_anime_with_popularity(1, "MadeByA", &["Drama"], Some(1000));
    a.studio = Some("Studio A".into());
    db.upsert_catalog_anime(&a, 0).unwrap();
    let mut b = catalog_anime_with_popularity(2, "MadeByB", &["Drama"], Some(1000));
    b.studio = Some("Studio B".into());
    db.upsert_catalog_anime(&b, 1).unwrap();
    db.upsert_catalog_anime(&catalog_anime_with_popularity(3, "NoStudio", &["Drama"], Some(1000)), 2).unwrap();

    let filter = CatalogFilter { studio: Some("Studio A".into()), ..Default::default() };
    let rows = db.list_catalog_filtered(1, 100, &filter).unwrap();
    assert_eq!(rows.iter().map(|a| a.title.as_str()).collect::<Vec<_>>(), vec!["MadeByA"]);
    assert_eq!(db.catalog_count_filtered(&filter).unwrap(), 1);
}

#[test]
fn distinct_catalog_studios_returns_alphabetical_non_null() {
    let mut db = Db::new();
    let mut a = catalog_anime_with_popularity(1, "First", &[], Some(1000));
    a.studio = Some("Zeta Studio".into());
    db.upsert_catalog_anime(&a, 0).unwrap();
    let mut b = catalog_anime_with_popularity(2, "Second", &[], Some(1000));
    b.studio = Some("Alpha Studio".into());
    db.upsert_catalog_anime(&b, 1).unwrap();
    db.upsert_catalog_anime(&catalog_anime_with_popularity(3, "Third", &[], Some(1000)), 2).unwrap();

    let studios = db.distinct_catalog_studios().unwrap();
    assert_eq!(studios, vec!["Alpha Studio".to_string(), "Zeta Studio".to_string()]);
}

#[test]
fn list_catalog_filtered_min_score_is_inclusive_floor() {
    let mut db = Db::new();
    seed_filter_catalog(&mut db);

    let filter = CatalogFilter { min_score: Some(70), ..Default::default() };
    let rows = db.list_catalog_filtered(1, 100, &filter).unwrap();
    let mut titles: Vec<&str> = rows.iter().map(|a| a.title.as_str()).collect();
    titles.sort();
    assert_eq!(titles, vec!["Fullmetal Alchemist", "MidRun", "Monster", "OnlyOne"]);
}

#[test]
fn list_catalog_filtered_episode_bucket_boundaries() {
    let mut db = Db::new();
    seed_filter_catalog(&mut db);

    let bucket = |b: &str| {
        let filter = CatalogFilter { episodes: Some(b.into()), ..Default::default() };
        let mut titles: Vec<String> = db
            .list_catalog_filtered(1, 100, &filter)
            .unwrap()
            .iter()
            .map(|a| a.title.clone())
            .collect();
        titles.sort();
        titles
    };

    assert_eq!(bucket("1"), vec!["OnlyOne".to_string()]);
    assert_eq!(bucket("2-12"), vec!["Monster Girl".to_string(), "ShortRun".to_string()]);
    assert_eq!(bucket("13-26"), vec!["MidRun".to_string()]);
    assert_eq!(bucket("27+"), vec!["Fullmetal Alchemist".to_string(), "LongRun".to_string(), "Monster".to_string()]);
    assert_eq!(bucket("unknown"), vec!["Unknown Length".to_string()]);
}

#[test]
fn list_catalog_filtered_combines_all_filters() {
    let mut db = Db::new();
    seed_filter_catalog(&mut db);

    let filter = CatalogFilter {
        search: Some("run".into()),
        genres: vec!["Action".into()],
        format: Some("TV".into()),
        min_score: Some(60),
        episodes: Some("13-26".into()),
        ..Default::default()
    };
    let rows = db.list_catalog_filtered(1, 100, &filter).unwrap();
    assert_eq!(rows.iter().map(|a| a.title.as_str()).collect::<Vec<_>>(), vec!["MidRun"]);
    assert_eq!(db.catalog_count_filtered(&filter).unwrap(), 1);
}

#[test]
fn catalog_count_filtered_agrees_with_paginated_totals() {
    let mut db = Db::new();
    seed_filter_catalog(&mut db);

    let filter = CatalogFilter { genres: vec!["Action".into()], ..Default::default() };
    let total = db.catalog_count_filtered(&filter).unwrap();

    let mut seen = HashSet::new();
    let mut page = 1;
    loop {
        let rows = db.list_catalog_filtered(page, 2, &filter).unwrap();
        if rows.is_empty() {
            break;
        }
        for r in &rows {
            seen.insert(r.id);
        }
        page += 1;
    }
    assert_eq!(seen.len() as i64, total);
}

#[test]
fn get_catalog_titles_reads_all_three_title_fields() {
    let mut db = Db::new();
    let anime = CatalogAnime {
        id: 42,
        title: "Attack on Titan".into(),
        title_romaji: Some("Shingeki no Kyojin".into()),
        title_english: Some("Attack on Titan".into()),
        cover_url: None,
        format: Some("TV".into()),
        genres: vec!["Action".into()],
        episodes: Some(25),
        average_score: Some(90),
        popularity: Some(1000),
        url: "https://anilist.co/anime/42".into(),
        status: None,
        duration: None,
        studio: None,
        start_date: None,
    };
    db.upsert_catalog_anime(&anime, 0).unwrap();

    let (title, romaji, english) = db.get_catalog_titles(42).unwrap().unwrap();
    assert_eq!(title, "Attack on Titan");
    assert_eq!(romaji.as_deref(), Some("Shingeki no Kyojin"));
    assert_eq!(english.as_deref(), Some("Attack on Titan"));
}

#[test]
fn upsert_catalog_anime_round_trips_duration() {
    let mut db = Db::new();

    let with_duration = CatalogAnime {
        id: 43,
        title: "Timed Show".into(),
        title_romaji: None,
        title_english: None,
        cover_url: None,
        format: Some("TV".into()),
        genres: vec![],
        episodes: Some(12),
        average_score: None,
        popularity: None,
        url: "https://anilist.co/anime/43".into(),
        status: None,
        duration: Some(23),
        studio: None,
        start_date: None,
    };
    db.upsert_catalog_anime(&with_duration, 0).unwrap();

    let without_duration = CatalogAnime {
        id: 44,
        title: "Undated Show".into(),
        title_romaji: None,
        title_english: None,
        cover_url: None,
        format: Some("TV".into()),
        genres: vec![],
        episodes: Some(12),
        average_score: None,
        popularity: None,
        url: "https://anilist.co/anime/44".into(),
        status: None,
        duration: None,
        studio: None,
        start_date: None,
    };
    db.upsert_catalog_anime(&without_duration, 1).unwrap();

    let page = db.list_catalog(1, 10).unwrap();
    let read_with = page.iter().find(|a| a.id == 43).unwrap();
    assert_eq!(read_with.duration, Some(23), "real synced duration must round-trip");
    let read_without = page.iter().find(|a| a.id == 44).unwrap();
    assert_eq!(read_without.duration, None, "unset duration must read back as None, not 0");
}

#[test]
fn upsert_catalog_anime_round_trips_studio() {
    let mut db = Db::new();

    let with_studio = CatalogAnime {
        id: 45,
        title: "Studio Show".into(),
        title_romaji: None,
        title_english: None,
        cover_url: None,
        format: Some("TV".into()),
        genres: vec![],
        episodes: Some(12),
        average_score: None,
        popularity: None,
        url: "https://anilist.co/anime/45".into(),
        status: None,
        duration: None,
        studio: Some("Studio Ghibli".into()),
        start_date: None,
    };
    db.upsert_catalog_anime(&with_studio, 0).unwrap();

    let without_studio = CatalogAnime {
        id: 46,
        title: "No Studio Show".into(),
        title_romaji: None,
        title_english: None,
        cover_url: None,
        format: Some("TV".into()),
        genres: vec![],
        episodes: Some(12),
        average_score: None,
        popularity: None,
        url: "https://anilist.co/anime/46".into(),
        status: None,
        duration: None,
        studio: None,
        start_date: None,
    };
    db.upsert_catalog_anime(&without_studio, 1).unwrap();

    let page = db.list_catalog(1, 10).unwrap();
    let read_with = page.iter().find(|a| a.id == 45).unwrap();
    assert_eq!(read_with.studio.as_deref(), Some("Studio Ghibli"), "real synced studio must round-trip");
    let read_without = page.iter().find(|a| a.id == 46).unwrap();
    assert_eq!(read_without.studio, None, "unset studio must read back as None, not empty string");
}

#[test]
fn upsert_catalog_anime_round_trips_start_date() {
    let mut db = Db::new();

    let with_date = CatalogAnime {
        id: 47,
        title: "Dated Show".into(),
        title_romaji: None,
        title_english: None,
        cover_url: None,
        format: Some("TV".into()),
        genres: vec![],
        episodes: Some(12),
        average_score: None,
        popularity: None,
        url: "https://anilist.co/anime/47".into(),
        status: None,
        duration: None,
        studio: None,
        start_date: Some(1_776_211_200),
    };
    db.upsert_catalog_anime(&with_date, 0).unwrap();

    let without_date = CatalogAnime {
        id: 48,
        title: "Undated Show".into(),
        title_romaji: None,
        title_english: None,
        cover_url: None,
        format: Some("TV".into()),
        genres: vec![],
        episodes: Some(12),
        average_score: None,
        popularity: None,
        url: "https://anilist.co/anime/48".into(),
        status: None,
        duration: None,
        studio: None,
        start_date: None,
    };
    db.upsert_catalog_anime(&without_date, 1).unwrap();

    let page = db.list_catalog(1, 10).unwrap();
    let read_with = page.iter().find(|a| a.id == 47).unwrap();
    assert_eq!(read_with.start_date, Some(1_776_211_200), "real synced start_date must round-trip");
    let read_without = page.iter().find(|a| a.id == 48).unwrap();
    assert_eq!(read_without.start_date, None, "unset start_date must read back as None, not 0");
}

#[test]
fn catalog_start_dates_by_normalized_title_covers_all_title_variants_and_skips_null() {
    let mut db = Db::new();

    db.upsert_catalog_anime(
        &CatalogAnime {
            id: 50, title: "Attack on Titan".into(), title_romaji: Some("Shingeki no Kyojin".into()),
            title_english: Some("Attack on Titan".into()), cover_url: None, format: Some("TV".into()),
            genres: vec![], episodes: Some(25), average_score: None, popularity: None,
            url: "https://anilist.co/anime/50".into(), status: None, duration: None, studio: None,
            start_date: Some(1_776_211_200),
        },
        0,
    ).unwrap();

    db.upsert_catalog_anime(
        &CatalogAnime {
            id: 51, title: "Unsynced Show".into(), title_romaji: None, title_english: None,
            cover_url: None, format: Some("TV".into()), genres: vec![], episodes: None,
            average_score: None, popularity: None, url: "https://anilist.co/anime/51".into(),
            status: None, duration: None, studio: None, start_date: None,
        },
        1,
    ).unwrap();

    let map: HashMap<String, i64> =
        db.catalog_start_dates_by_normalized_title().unwrap().into_iter().collect();
    assert_eq!(map.get(&normalize_title("Attack on Titan")), Some(&1_776_211_200));
    assert_eq!(map.get(&normalize_title("Shingeki no Kyojin")), Some(&1_776_211_200));
    assert_eq!(map.get(&normalize_title("Unsynced Show")), None);
    assert_eq!(map.len(), 2, "one entry per distinct title/romaji/english variant with a real start_date");
}
