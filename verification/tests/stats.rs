use anime_on_track::calendar::CivilDate;
use anime_on_track::db::franchise::{
    franchise_base_title, franchise_display_title, franchise_key, franchise_parent_key,
    minutes_per_episode,
};
use anime_on_track::db::Db;
use anime_on_track::models::{CatalogAnime, Episode, Series, TitleCount, WatchInsights};
use chrono::Datelike;
use std::collections::{HashMap, HashSet};

const NOW: &str = "2026-08-01 12:00:00";

fn mk_airing(slug: &str, title: &str, next_episode_at: Option<i64>) -> Series {
    Series {
        id: 0,
        slug: slug.into(),
        title: title.into(),
        url: format!("https://site/tv/{slug}/"),
        cover_url: None,
        is_airing: true,
        followed: false,
        next_episode_at,
        site_episode_count: None,
    }
}

fn insert_eps_seen_up_to(db: &mut Db, series_id: i64, total: i64, seen_up_to: i64) {
    for i in 1..=total {
        db.insert_episode(
            &Episode {
                id: 0,
                series_id,
                number: i.to_string(),
                title: None,
                url: format!("https://site/{series_id}-{i}"),
                released_at: None,
                seen: false,
            },
            NOW,
        )
        .unwrap();
    }
    if seen_up_to >= 1 {
        db.set_seen_cascade(series_id, &seen_up_to.to_string(), true, NOW).unwrap();
    }
}

fn seen_days(db: &Db) -> Vec<String> {
    db.seen_stamps().iter().map(|s| s[..10].to_string()).collect()
}

fn insights_of(db: &Db) -> WatchInsights {
    let today = CivilDate { year: 2026, month: 8, day: 1 };
    db.get_watch_insights(&seen_days(db), today).unwrap()
}

fn mean(insights: &WatchInsights) -> f64 {
    let m = insights.avg_episodes_per_series;
    if m.count == 0 {
        0.0
    } else {
        m.total as f64 / m.count as f64
    }
}

fn affinity(db: &Db, source_id: i64) -> HashMap<String, f64> {
    db.get_genre_affinity(source_id)
        .unwrap()
        .into_iter()
        .map(|a| (a.genre, a.half_points as f64 / 2.0))
        .collect()
}

fn stamp(db: &mut Db, episode_id: i64, seen_at: &str) {
    for e in db.episodes.iter_mut() {
        if e.id == episode_id {
            e.seen_at = Some(seen_at.to_string());
        }
    }
}

fn catalog_anime(id: i64, title: &str, genres: &[&str]) -> CatalogAnime {
    catalog_anime_with_popularity(id, title, genres, None)
}

fn catalog_anime_with_popularity(
    id: i64,
    title: &str,
    genres: &[&str],
    popularity: Option<i64>,
) -> CatalogAnime {
    CatalogAnime {
        id,
        title: title.into(),
        title_romaji: None,
        title_english: None,
        cover_url: Some(format!("https://cdn/{id}.jpg")),
        format: Some("TV".into()),
        genres: genres.iter().map(|g| g.to_string()).collect(),
        episodes: Some(12),
        average_score: Some(80),
        popularity,
        url: format!("https://anilist.co/anime/{id}"),
        status: None,
        duration: None,
        studio: None,
        start_date: None,
    }
}

#[test]
fn franchise_display_title_strips_season_markers_keeping_case() {
    assert_eq!(franchise_display_title("Kimetsu no Yaiba Temporada 2"), "Kimetsu no Yaiba");
    assert_eq!(franchise_display_title("Overlord IV"), "Overlord");
    assert_eq!(franchise_display_title("86 Eighty-Six Part 2"), "86 Eighty-Six");
    assert_eq!(franchise_display_title("Shingeki no Kyojin: The Final Season"), "Shingeki no Kyojin:");
    assert_eq!(franchise_display_title("Bleach"), "Bleach");
}

#[test]
fn franchise_display_title_keeps_a_colon_qualifier() {
    assert_eq!(franchise_display_title("One Piece: Arco de Elbaph"), "One Piece: Arco de Elbaph");
    assert_eq!(franchise_display_title("Re:Zero kara Hajimeru Isekai Seikatsu"), "Re:Zero kara Hajimeru Isekai Seikatsu");
}

#[test]
fn franchise_display_title_never_returns_empty() {
    assert_eq!(franchise_display_title("Temporada 2"), "Temporada 2");
    assert_eq!(franchise_display_title(": only a subtitle"), ": only a subtitle");
}

#[test]
fn franchise_base_title_drops_the_colon_qualifier_for_catalog_lookup() {
    assert_eq!(franchise_base_title("One Piece: Arco de Elbaph"), "One Piece");
    assert_eq!(franchise_base_title("One Piece: Live Action (2023) Temporada 2"), "One Piece");
    assert_eq!(franchise_base_title("Fate/stay night: Unlimited Blade Works"), "Fate/stay night");
    assert_eq!(franchise_base_title("Bleach"), "Bleach");
}

#[test]
fn franchise_key_does_not_merge_shows_that_merely_share_a_colon_head() {
    let re_titles = [
        "Re:Zero kara Hajimeru Isekai Seikatsu",
        "Re:CREATORS",
        "Re:Monster",
        "Re: Hamatora",
        "Re:Stage! Dream Days",
    ];
    let keys: HashSet<String> = re_titles.iter().map(|t| franchise_key(t)).collect();
    assert_eq!(keys.len(), re_titles.len(), "each Re: show keeps its own key: {keys:?}");
    assert!(!keys.contains("re"), "nothing collapses to the bare colon head");
    assert_ne!(franchise_key("Code:Breaker"), franchise_key("Code: Realize ~Guardian of Rebirth~"));
}

#[test]
fn franchise_key_keeps_a_title_that_merely_ends_in_a_digit_distinct() {
    assert_ne!(franchise_key("Steins;Gate"), franchise_key("Steins;Gate 0"));
    assert_eq!(franchise_key("Kimetsu no Yaiba Temporada 2"), franchise_key("Kimetsu no Yaiba"));
    assert_eq!(franchise_key("Overlord IV"), franchise_key("Overlord"));
}

const MULTIBYTE_TITLES: &[(&str, &str)] = &[
    ("Long Sword Ⅱ", "sword"),
    ("The Morose Mononokean Ⅱ", "mononokean"),
    ("Zhu Dick: Guguai Dao Da Maoxian Ⅰ", "maoxian"),
    ("Galaxy Angel Ａ", "angel"),
    ("Kuusou Episodeⁿ", "kuusou"),
    ("Tom Thumb 00⅐", "thumb"),
];

#[test]
fn multibyte_titles_do_not_panic_in_franchise_key() {
    for (title, core) in MULTIBYTE_TITLES {
        let key = franchise_key(title);
        assert!(
            key.contains(core),
            "expected {core:?} to survive in {title:?} -> {key:?}"
        );
    }
}

#[test]
fn multibyte_titles_do_not_panic_in_franchise_display_title() {
    for (title, core) in MULTIBYTE_TITLES {
        let display = franchise_display_title(title);
        assert!(
            display.to_lowercase().contains(core),
            "expected {core:?} to survive in {title:?} -> {display:?}"
        );
        assert!(
            display.chars().any(|c| c.is_uppercase()),
            "display title lost its casing: {title:?} -> {display:?}"
        );
    }
}

#[test]
fn franchise_parent_key_only_offers_a_parent_for_a_real_qualifier() {
    assert_eq!(franchise_parent_key("One Piece: Arco de Elbaph").as_deref(), Some("one piece"));
    assert_eq!(franchise_parent_key("Bleach"), None);
    assert_eq!(franchise_parent_key(": subtitle only"), None);
    assert_eq!(franchise_parent_key("Overlord: Temporada 2"), None);
}

#[test]
fn arc_rows_only_merge_when_the_base_show_is_in_the_users_own_data() {
    let mut db = Db::new();
    let src = db.upsert_source("A", "a", "animeytx").unwrap();

    for (slug, title) in [
        ("op", "One Piece"),
        ("op-elbaph", "One Piece: Arco de Elbaph"),
        ("rezero", "Re:Zero kara Hajimeru Isekai Seikatsu"),
    ] {
        let id = db.upsert_series(src, &mk_airing(slug, title, None)).unwrap();
        db.set_kind(id, "TV").unwrap();
        db.insert_episode(&Episode {
            id: 0, series_id: id, number: "1".into(), title: None,
            url: format!("https://site/anime/{slug}-capitulo-1/"),
            released_at: None, seen: false,
        }, NOW).unwrap();
        db.set_seen_cascade(id, "1", true, NOW).unwrap();
    }

    let insights = insights_of(&db);
    let titles: HashSet<&str> = insights.top_series.iter().map(|t| t.title.as_str()).collect();
    assert_eq!(insights.top_series.len(), 2, "One Piece merged, Re:Zero did not: {titles:?}");
    assert!(titles.contains("One Piece"));
    assert!(titles.contains("Re:Zero kara Hajimeru Isekai Seikatsu"));
    let one_piece = insights.top_series.iter().find(|t| t.title == "One Piece").unwrap();
    assert_eq!(one_piece.count, 2, "the arc's episode folded into the base show");
}

#[test]
fn top_series_reports_the_franchise_name_and_the_whole_franchise_count() {
    let mut db = Db::new();
    let src = db.upsert_source("A", "a", "animeytx").unwrap();

    let arc = db.upsert_series(src, &mk_airing("op-elbaph", "One Piece: Arco de Elbaph", None)).unwrap();
    db.set_followed(arc, true).unwrap();
    db.set_kind(arc, "TV").unwrap();
    for n in 1..=20 {
        db.insert_episode(&Episode {
            id: 0, series_id: arc, number: n.to_string(), title: None,
            url: format!("https://site/anime/op-elbaph-capitulo-{n}/"),
            released_at: None, seen: false,
        }, NOW).unwrap();
    }
    db.set_seen_cascade(arc, "20", true, NOW).unwrap();

    let season2 = db.upsert_series(src, &mk_airing("op-t2", "One Piece Temporada 2", None)).unwrap();
    db.set_kind(season2, "TV").unwrap();
    for n in 1..=5 {
        db.insert_episode(&Episode {
            id: 0, series_id: season2, number: n.to_string(), title: None,
            url: format!("https://site/anime/op-t2-capitulo-{n}/"),
            released_at: None, seen: false,
        }, NOW).unwrap();
    }
    db.set_seen_cascade(season2, "5", true, NOW).unwrap();

    db.upsert_catalog_anime(
        &CatalogAnime {
            id: 21, title: "ONE PIECE".into(), title_romaji: None, title_english: None,
            cover_url: None, format: Some("TV".into()), genres: vec![],
            episodes: Some(1140), average_score: None, popularity: None,
            url: "https://anilist.co/anime/21".into(), status: None, duration: Some(24),
            studio: None, start_date: None,
        },
        0,
    ).unwrap();
    let whole = db.upsert_series(src, &mk_airing("one-piece", "ONE PIECE", None)).unwrap();
    db.set_watched_externally(whole, true).unwrap();
    db.set_anilist_id(whole, 21).unwrap();

    let insights = insights_of(&db);
    let top = insights.top_series.first().expect("one franchise expected");
    assert_eq!(top.title, "One Piece", "labelled with the franchise, not the arc");
    assert_eq!(top.count, 1140, "credited with the whole show, not one arc's 20 episodes");
    assert_eq!(insights.top_series.len(), 1, "all three rows are one franchise");
}

#[test]
fn franchise_external_estimate_never_double_counts_real_marks() {
    let mut db = Db::new();
    let src = db.upsert_source("A", "a", "animeytx").unwrap();

    db.upsert_catalog_anime(
        &CatalogAnime {
            id: 21, title: "ONE PIECE".into(), title_romaji: None, title_english: None,
            cover_url: None, format: Some("TV".into()), genres: vec![],
            episodes: Some(100), average_score: None, popularity: None,
            url: "https://anilist.co/anime/21".into(), status: None, duration: Some(24),
            studio: None, start_date: None,
        },
        0,
    ).unwrap();

    let arc = db.upsert_series(src, &mk_airing("op-arc", "One Piece: Arco", None)).unwrap();
    db.set_kind(arc, "TV").unwrap();
    for n in 1..=30 {
        db.insert_episode(&Episode {
            id: 0, series_id: arc, number: n.to_string(), title: None,
            url: format!("https://site/anime/op-arc-capitulo-{n}/"),
            released_at: None, seen: false,
        }, NOW).unwrap();
    }
    db.set_seen_cascade(arc, "30", true, NOW).unwrap();

    let whole = db.upsert_series(src, &mk_airing("one-piece", "One Piece", None)).unwrap();
    db.set_watched_externally(whole, true).unwrap();
    db.set_anilist_id(whole, 21).unwrap();

    let summary = db.get_watch_summary().unwrap();
    assert_eq!(summary.episodes_watched, 30, "real marks stay exactly as marked");
    assert_eq!(
        summary.episodes_watched_external, 70,
        "only the 100-30 remainder is credited on top, so the two add up to 100 not 130"
    );

    let insights = insights_of(&db);
    assert_eq!(insights.estimated_minutes_tracked, 30 * 24);
    assert_eq!(insights.estimated_minutes_external, 70 * 24, "remainder minutes only");
    assert_eq!(insights.external_titles_estimated, 1);
    assert_eq!(insights.external_titles_total, 1, "counted per franchise, not per row");
}

#[test]
fn franchise_key_keeps_distinct_shows_distinct_and_never_empty() {
    assert_ne!(franchise_key("Naruto"), franchise_key("Bleach"));
    assert!(!franchise_key("Season 2").is_empty());
    assert!(!franchise_key("IV").is_empty());
}

#[test]
fn get_watch_summary_counts_distinct_animes_collapsing_seasons() {
    let mut db = Db::new();
    let src = db.upsert_source("A", "a", "animeytx").unwrap();

    for (slug, title) in [
        ("slime1", "Tensei shitara Slime Datta Ken"),
        ("slime2", "Tensei shitara Slime Datta Ken Temporada 2"),
        ("slime3", "Tensei shitara Slime Datta Ken Temporada 3"),
    ] {
        let id = db.upsert_series(src, &mk_airing(slug, title, None)).unwrap();
        db.set_followed(id, true).unwrap();
        insert_eps_seen_up_to(&mut db, id, 1, 1);
    }
    let n = db.upsert_series(src, &mk_airing("naruto", "Naruto", None)).unwrap();
    db.set_followed(n, true).unwrap();
    insert_eps_seen_up_to(&mut db, n, 1, 1);
    let w = db.upsert_series(src, &mk_airing("frieren", "Frieren", None)).unwrap();
    db.set_watched_externally(w, true).unwrap();

    let summary = db.get_watch_summary().unwrap();
    assert_eq!(summary.followed_series, 4, "4 followed rows");
    assert_eq!(summary.distinct_anime, 3, "Slime(x3 seasons)=1, Naruto=1, Frieren=1");
}

#[test]
fn get_watch_summary_computes_airing_followed_and_pending_to_watch() {
    let mut db = Db::new();
    let src = db.upsert_source("A", "a", "animeytx").unwrap();

    let mut airing = mk_airing("airing1", "Airing Show", None);
    airing.is_airing = true;
    let airing_id = db.upsert_series(src, &airing).unwrap();
    db.set_followed(airing_id, true).unwrap();
    db.insert_episode(&Episode {
        id: 0,
        series_id: airing_id,
        number: "1".into(),
        title: None,
        url: "https://site/anime/airing1-capitulo-1/".into(),
        released_at: None,
        seen: false,
    }, NOW)
    .unwrap();

    let mut finished = mk_airing("finished1", "Finished Show", None);
    finished.is_airing = false;
    let finished_id = db.upsert_series(src, &finished).unwrap();
    db.set_followed(finished_id, true).unwrap();
    db.insert_episode(&Episode {
        id: 0,
        series_id: finished_id,
        number: "1".into(),
        title: None,
        url: "https://site/anime/finished1-capitulo-1/".into(),
        released_at: None,
        seen: true,
    }, NOW)
    .unwrap();

    let want = mk_airing("want1", "Want Show", None);
    let want_id = db.upsert_series(src, &want).unwrap();
    db.set_backlog_status(want_id, Some("want")).unwrap();

    let summary = db.get_watch_summary().unwrap();
    assert_eq!(summary.airing_followed, 1, "only the airing+followed row counts");
    assert_eq!(summary.pending_to_watch, 1, "only the followed row with an unseen episode counts");
    assert_eq!(summary.backlog_want, 1, "only the want-only row counts");
}

#[test]
fn minutes_per_episode_maps_each_format_branch() {
    assert_eq!(minutes_per_episode(Some("MOVIE")), 100);
    assert_eq!(minutes_per_episode(Some("movie")), 100, "case-insensitive");
    assert_eq!(minutes_per_episode(Some("Pelicula")), 100);
    assert_eq!(minutes_per_episode(Some("Película")), 100, "accented site vocabulary");
    assert_eq!(minutes_per_episode(Some("MUSIC")), 5);
    assert_eq!(minutes_per_episode(Some("TV_SHORT")), 8);
    assert_eq!(minutes_per_episode(Some("OVA")), 26);
    assert_eq!(minutes_per_episode(Some("SPECIAL")), 26);
    assert_eq!(minutes_per_episode(Some("TV")), 24);
    assert_eq!(minutes_per_episode(Some("ONA")), 24);
}

#[test]
fn minutes_per_episode_defaults_to_24_for_real_site_noise_and_none() {
    for noisy in ["4K", "Blu-Ray", "Resubido", "Sin Censura", "Yaoi"] {
        assert_eq!(minutes_per_episode(Some(noisy)), 24, "noisy kind: {noisy}");
    }
    assert_eq!(minutes_per_episode(None), 24, "no kind at all");
}

#[test]
fn get_watch_insights_estimates_minutes_from_seeded_db() {
    let mut db = Db::new();
    let src = db.upsert_source("A", "a", "animeytx").unwrap();

    let mut airing = mk_airing("airing1", "Airing Show", None);
    airing.is_airing = true;
    let airing_id = db.upsert_series(src, &airing).unwrap();
    db.set_followed(airing_id, true).unwrap();
    db.set_kind(airing_id, "TV").unwrap();
    for n in 1..=4 {
        db.insert_episode(&Episode {
            id: 0, series_id: airing_id, number: n.to_string(), title: None,
            url: format!("https://site/anime/airing1-capitulo-{n}/"),
            released_at: None, seen: false,
        }, NOW).unwrap();
    }
    db.set_seen_cascade(airing_id, "3", true, NOW).unwrap();

    let mut finished = mk_airing("finished1", "Finished Show", None);
    finished.is_airing = false;
    let finished_id = db.upsert_series(src, &finished).unwrap();
    db.set_followed(finished_id, true).unwrap();
    db.set_kind(finished_id, "MOVIE").unwrap();
    for n in 1..=2 {
        db.insert_episode(&Episode {
            id: 0, series_id: finished_id, number: n.to_string(), title: None,
            url: format!("https://site/anime/finished1-capitulo-{n}/"),
            released_at: None, seen: true,
        }, NOW).unwrap();
    }

    let want_id = db.upsert_series(src, &mk_airing("want1", "Want Show", None)).unwrap();
    db.set_backlog_status(want_id, Some("want")).unwrap();

    let disc_id = db.upsert_series(src, &mk_airing("disc1", "Discarded Show", None)).unwrap();
    db.set_backlog_status(disc_id, Some("discarded")).unwrap();

    db.upsert_catalog_anime(
        &CatalogAnime {
            id: 100, title: "External Show".into(), title_romaji: None, title_english: None,
            cover_url: None, format: Some("TV".into()), genres: vec![],
            episodes: Some(12), average_score: None, popularity: None,
            url: "https://anilist.co/anime/100".into(), status: None, duration: None,
            studio: None, start_date: None,
        },
        0,
    ).unwrap();
    let ext_id = db.upsert_series(src, &mk_airing("ext1", "External Show", None)).unwrap();
    db.set_watched_externally(ext_id, true).unwrap();
    db.set_anilist_id(ext_id, 100).unwrap();

    let ext2_id = db.upsert_series(src, &mk_airing("ext2", "Unlinked External", None)).unwrap();
    db.set_watched_externally(ext2_id, true).unwrap();

    let insights = insights_of(&db);

    assert_eq!(insights.estimated_minutes_tracked, 272, "3*24 (TV) + 2*100 (MOVIE)");
    assert_eq!(insights.estimated_minutes_external, 288, "12 eps * 24 min (TV)");
    assert_eq!(insights.external_titles_estimated, 1, "only the linked row counted");
    assert_eq!(insights.external_titles_total, 2, "both watched-externally rows");
    assert_eq!(mean(&insights), 3.0, "(4 + 2) / 2 followed series");
    assert_eq!(insights.followed_airing, 1);
    assert_eq!(insights.followed_finished, 1);
    assert_eq!(insights.want, 1);
    assert_eq!(insights.discarded, 1);
    assert_eq!(insights.watched_externally, 2);
    assert_eq!(
        insights.top_series,
        vec![
            TitleCount { title: "External Show".into(), count: 12 },
            TitleCount { title: "Airing Show".into(), count: 3 },
            TitleCount { title: "Finished Show".into(), count: 2 },
        ],
        "ordered by credited episodes descending; a 'Ya lo vi' title is credited \
         with its catalog episode count, which is the only evidence it has"
    );
    assert_eq!(insights.marks_by_day.len(), 30, "always a contiguous 30-day window");
    assert_eq!(insights.marks_by_day.last().unwrap().count, 3, "today holds the cascade-marked episodes");
    assert_eq!(
        insights.marks_by_day.iter().map(|d| d.count).sum::<i64>(), 3,
        "every other day is an explicit zero, not a missing entry"
    );
    assert!(insights.marks_tracked_since.is_some());
}

#[test]
fn get_watch_insights_matches_design_doc_acceptance_example() {
    let mut db = Db::new();
    let src = db.upsert_source("A", "a", "animeytx").unwrap();

    let sid = db.upsert_series(src, &mk_airing("s1", "S1", None)).unwrap();
    db.set_followed(sid, true).unwrap();
    db.set_kind(sid, "TV").unwrap();
    for n in 1..=3 {
        db.insert_episode(&Episode {
            id: 0, series_id: sid, number: n.to_string(), title: None,
            url: format!("https://site/anime/s1-capitulo-{n}/"),
            released_at: None, seen: true,
        }, NOW).unwrap();
    }

    db.upsert_catalog_anime(
        &CatalogAnime {
            id: 200, title: "S2".into(), title_romaji: None, title_english: None,
            cover_url: None, format: Some("TV".into()), genres: vec![],
            episodes: Some(12), average_score: None, popularity: None,
            url: "https://anilist.co/anime/200".into(), status: None, duration: None,
            studio: None, start_date: None,
        },
        0,
    ).unwrap();
    let ext_id = db.upsert_series(src, &mk_airing("s2", "S2", None)).unwrap();
    db.set_watched_externally(ext_id, true).unwrap();
    db.set_anilist_id(ext_id, 200).unwrap();

    let insights = insights_of(&db);
    assert_eq!(insights.estimated_minutes_tracked, 72);
    assert_eq!(insights.estimated_minutes_external, 288);
}

#[test]
fn get_watch_insights_uses_real_duration_when_synced() {
    let mut db = Db::new();
    let src = db.upsert_source("A", "a", "animeytx").unwrap();

    db.upsert_catalog_anime(
        &CatalogAnime {
            id: 201, title: "S3".into(), title_romaji: None, title_english: None,
            cover_url: None, format: Some("TV".into()), genres: vec![],
            episodes: Some(12), average_score: None, popularity: None,
            url: "https://anilist.co/anime/201".into(), status: None, duration: Some(23),
            studio: None, start_date: None,
        },
        0,
    ).unwrap();
    let ext_id = db.upsert_series(src, &mk_airing("s3", "S3", None)).unwrap();
    db.set_watched_externally(ext_id, true).unwrap();
    db.set_anilist_id(ext_id, 201).unwrap();

    let insights = insights_of(&db);
    assert_eq!(insights.estimated_minutes_external, 276, "23 min/ep * 12 eps beats the 24 min/ep TV estimate");
}

#[test]
fn get_watch_insights_falls_back_to_estimate_when_duration_is_null() {
    let mut db = Db::new();
    let src = db.upsert_source("A", "a", "animeytx").unwrap();

    db.upsert_catalog_anime(
        &CatalogAnime {
            id: 202, title: "S4".into(), title_romaji: None, title_english: None,
            cover_url: None, format: Some("TV".into()), genres: vec![],
            episodes: Some(12), average_score: None, popularity: None,
            url: "https://anilist.co/anime/202".into(), status: None, duration: None,
            studio: None, start_date: None,
        },
        0,
    ).unwrap();
    let ext_id = db.upsert_series(src, &mk_airing("s4", "S4", None)).unwrap();
    db.set_watched_externally(ext_id, true).unwrap();
    db.set_anilist_id(ext_id, 202).unwrap();

    let insights = insights_of(&db);
    assert_eq!(insights.estimated_minutes_external, 288, "falls back to 24 min/ep (TV) estimate, unchanged");
}

#[test]
fn get_watch_insights_empty_db_has_no_divide_by_zero_and_empty_collections() {
    let mut db = Db::new();
    let insights = insights_of(&db);
    assert_eq!(insights.estimated_minutes_tracked, 0);
    assert_eq!(insights.estimated_minutes_external, 0);
    assert_eq!(insights.external_titles_estimated, 0);
    assert_eq!(insights.external_titles_total, 0);
    assert_eq!(mean(&insights), 0.0);
    assert!(insights.top_series.is_empty());
    assert_eq!(insights.marks_by_day.len(), 30);
    assert!(insights.marks_by_day.iter().all(|d| d.count == 0));
    assert_eq!(insights.marks_tracked_since, None);
}

#[test]
fn top_series_sums_watched_episodes_across_a_franchises_split_arc_rows() {
    let mut db = Db::new();
    let src = db.upsert_source("A", "a", "animeytx").unwrap();

    let arcs = [
        ("op1", "One Piece", 500),
        ("op2", "One Piece: Wano", 400),
        ("op3", "One Piece: Arco de Elbaph", 114),
    ];
    for (slug, title, seen_count) in arcs {
        let id = db.upsert_series(src, &mk_airing(slug, title, None)).unwrap();
        db.set_followed(id, true).unwrap();
        insert_eps_seen_up_to(&mut db, id, seen_count, seen_count);
    }
    let n = db.upsert_series(src, &mk_airing("naruto", "Naruto", None)).unwrap();
    db.set_followed(n, true).unwrap();
    insert_eps_seen_up_to(&mut db, n, 50, 50);

    let insights = insights_of(&db);
    let one_piece = insights.top_series.iter().find(|t| t.title == "One Piece").expect("collapsed One Piece entry");
    assert_eq!(one_piece.count, 1014, "500 + 400 + 114 summed across all arc rows");
    assert!(
        !insights.top_series.iter().any(|t| t.title.contains("Wano") || t.title.contains("Elbaph")),
        "arc-specific rows must not surface as separate top-series entries: {:?}",
        insights.top_series
    );
    let naruto = insights.top_series.iter().find(|t| t.title == "Naruto").expect("Naruto entry");
    assert_eq!(naruto.count, 50);
}

#[test]
fn get_genre_affinity_weighs_followed_want_discarded_correctly() {
    let mut db = Db::new();
    let src = db.upsert_source("AnimeYT", "b", "animeytx").unwrap();

    let followed = Series {
        id: 0, slug: "f".into(), title: "F".into(),
        url: "u1".into(), cover_url: None, is_airing: false, followed: true, next_episode_at: None, site_episode_count: None,
    };
    let sid_f = db.upsert_series(src, &followed).unwrap();
    db.set_followed(sid_f, true).unwrap();
    db.insert_series_genres(sid_f, &["Seinen".to_string(), "Shared".to_string()]).unwrap();

    let want = Series {
        id: 0, slug: "w".into(), title: "W".into(),
        url: "u2".into(), cover_url: None, is_airing: false, followed: false, next_episode_at: None, site_episode_count: None,
    };
    let sid_w = db.upsert_series(src, &want).unwrap();
    db.set_backlog_status(sid_w, Some("want")).unwrap();
    db.insert_series_genres(sid_w, &["Romance".to_string(), "Shared".to_string()]).unwrap();

    let discarded = Series {
        id: 0, slug: "d".into(), title: "D".into(),
        url: "u3".into(), cover_url: None, is_airing: false, followed: false, next_episode_at: None, site_episode_count: None,
    };
    let sid_d = db.upsert_series(src, &discarded).unwrap();
    db.set_backlog_status(sid_d, Some("discarded")).unwrap();
    db.insert_series_genres(sid_d, &["Horror".to_string()]).unwrap();

    let scores = affinity(&db, src);
    assert_eq!(scores.get("Seinen"), Some(&2.0));
    assert_eq!(scores.get("Romance"), Some(&1.0));
    assert_eq!(scores.get("Horror"), Some(&-1.5));
    assert_eq!(scores.get("Shared"), Some(&3.0));
    assert_eq!(scores.get("Unseen"), None);
}

#[test]
fn get_stats_graph_data_returns_genres_kind_and_cover_for_followed_series() {
    let mut db = Db::new();
    let src = db.upsert_source("AnimeYT", "b", "animeytx").unwrap();

    let full = Series {
        id: 0, slug: "full".into(), title: "Full".into(),
        url: "u1".into(), cover_url: Some("data:image/png;base64,x".into()),
        is_airing: false, followed: true, next_episode_at: None, site_episode_count: None,
    };
    let sid_full = db.upsert_series(src, &full).unwrap();
    db.set_followed(sid_full, true).unwrap();
    db.insert_series_genres(sid_full, &["Seinen".to_string(), "Drama".to_string()]).unwrap();
    db.set_kind(sid_full, "TV").unwrap();

    let bare = Series {
        id: 0, slug: "bare".into(), title: "Bare".into(),
        url: "u2".into(), cover_url: None, is_airing: false, followed: true, next_episode_at: None, site_episode_count: None,
    };
    let sid_bare = db.upsert_series(src, &bare).unwrap();
    db.set_followed(sid_bare, true).unwrap();

    let other = Series {
        id: 0, slug: "other".into(), title: "Other".into(),
        url: "u3".into(), cover_url: None, is_airing: false, followed: false, next_episode_at: None, site_episode_count: None,
    };
    db.upsert_series(src, &other).unwrap();

    let rows = db.get_stats_graph_data().unwrap();
    assert_eq!(rows.len(), 2);

    let full_row = rows.iter().find(|r| r.id == sid_full).unwrap();
    assert_eq!(full_row.genres, vec!["Drama".to_string(), "Seinen".to_string()]);
    assert_eq!(full_row.kind.as_deref(), Some("TV"));
    assert_eq!(full_row.cover_url.as_deref(), Some("data:image/png;base64,x"));

    let bare_row = rows.iter().find(|r| r.id == sid_bare).unwrap();
    assert!(bare_row.genres.is_empty());
    assert_eq!(bare_row.kind, None);
    assert_eq!(bare_row.cover_url, None);
}

#[test]
fn get_genre_affinity_folds_spanish_and_english_genre_into_one_canonical_key() {
    let mut db = Db::new();
    let src = db.upsert_source("AnimeYT", "b", "animeytx").unwrap();

    let followed = Series {
        id: 0, slug: "f".into(), title: "F".into(),
        url: "u1".into(), cover_url: None, is_airing: false, followed: true, next_episode_at: None, site_episode_count: None,
    };
    let sid_f = db.upsert_series(src, &followed).unwrap();
    db.set_followed(sid_f, true).unwrap();
    db.insert_series_genres(sid_f, &["Acción".to_string(), "Isekai".to_string()]).unwrap();

    let want = Series {
        id: 0, slug: "w".into(), title: "W".into(),
        url: "u2".into(), cover_url: None, is_airing: false, followed: false, next_episode_at: None, site_episode_count: None,
    };
    let sid_w = db.upsert_series(src, &want).unwrap();
    db.set_backlog_status(sid_w, Some("want")).unwrap();
    db.insert_series_genres(sid_w, &["Action".to_string()]).unwrap();

    let scores = affinity(&db, src);
    assert_eq!(scores.get("Action"), Some(&3.0));
    assert_eq!(scores.get("Acción"), None);
    assert_eq!(scores.get("Isekai"), Some(&2.0));
}

#[test]
fn get_watch_summary_aggregates_and_dedups_a_show_followed_on_two_sites() {
    let mut db = Db::new();
    let a = db.upsert_source("AnimeYT", "a", "animeytx").unwrap();
    let b = db.upsert_source("TioAnime", "b", "tioanime").unwrap();

    let shared_a = db.upsert_series(a, &mk_airing("shared", "Shared Show", None)).unwrap();
    db.set_followed(shared_a, true).unwrap();
    insert_eps_seen_up_to(&mut db, shared_a, 3, 3);
    let shared_b = db.upsert_series(b, &mk_airing("shared", "Shared Show", None)).unwrap();
    db.set_followed(shared_b, true).unwrap();
    insert_eps_seen_up_to(&mut db, shared_b, 2, 2);

    let want_only = db.upsert_series(b, &mk_airing("wantonly", "Only On B", None)).unwrap();
    db.set_backlog_status(want_only, Some("want")).unwrap();

    let summary = db.get_watch_summary().unwrap();
    assert_eq!(summary.followed_series, 1, "the shared show counts once, not twice");
    assert_eq!(summary.episodes_watched, 5, "real marks sum across both sites' rows");
    assert_eq!(summary.backlog_want, 1, "site-B-only want show is not hidden by site A's scope");
    assert_eq!(summary.distinct_anime, 1);
}

#[test]
fn get_watch_insights_funnel_dedups_a_show_followed_and_airing_on_two_sites() {
    let mut db = Db::new();
    let a = db.upsert_source("AnimeYT", "a", "animeytx").unwrap();
    let b = db.upsert_source("TioAnime", "b", "tioanime").unwrap();

    let mut airing_a = mk_airing("dup", "Dup Show", None);
    airing_a.is_airing = true;
    let sid_a = db.upsert_series(a, &airing_a).unwrap();
    db.set_followed(sid_a, true).unwrap();
    let mut airing_b = mk_airing("dup", "Dup Show", None);
    airing_b.is_airing = true;
    let sid_b = db.upsert_series(b, &airing_b).unwrap();
    db.set_followed(sid_b, true).unwrap();

    let discarded_b = db.upsert_series(b, &mk_airing("disc", "Discarded On B", None)).unwrap();
    db.set_backlog_status(discarded_b, Some("discarded")).unwrap();

    let insights = insights_of(&db);
    assert_eq!(insights.followed_airing, 1, "followed+airing on both sites is still one show");
    assert_eq!(insights.discarded, 1, "a site-B-only discard is not lost");
}

#[test]
fn get_genre_and_type_stats_dedup_a_cross_site_show_and_union_its_genres() {
    let mut db = Db::new();
    let a = db.upsert_source("AnimeYT", "a", "animeytx").unwrap();
    let b = db.upsert_source("TioAnime", "b", "tioanime").unwrap();

    let sid_a = db.upsert_series(a, &mk_airing("dup", "Dup Show", None)).unwrap();
    db.set_followed(sid_a, true).unwrap();
    db.set_kind(sid_a, "TV").unwrap();
    db.insert_series_genres(sid_a, &["Seinen".to_string()]).unwrap();
    let sid_b = db.upsert_series(b, &mk_airing("dup", "Dup Show", None)).unwrap();
    db.set_followed(sid_b, true).unwrap();
    db.insert_series_genres(sid_b, &["Drama".to_string()]).unwrap();

    let genre_stats = db.get_genre_stats().unwrap();
    let genres: HashSet<&str> = genre_stats.iter().map(|g| g.genre.as_str()).collect();
    assert_eq!(genres, HashSet::from(["Seinen", "Drama"]), "genres from both sites' rows are unioned");
    assert!(
        genre_stats.iter().all(|g| g.count == 1),
        "one canonical show contributes 1 to each genre it carries, not 2: {genre_stats:?}"
    );

    let type_stats = db.get_type_stats().unwrap();
    assert_eq!(type_stats.len(), 1);
    assert_eq!(type_stats[0].kind, "TV");
    assert_eq!(type_stats[0].count, 1, "the one canonical show, not one per site row");
}

#[test]
fn signature_changes_when_episode_marked_seen() {
    let mut db = Db::new();
    let src = db.upsert_source("AnimeYT", "b", "animeytx").unwrap();
    let series = db.upsert_series(src, &mk_airing("x", "X", None)).unwrap();
    db.insert_episode(&Episode {
        id: 0, series_id: series, number: "1".into(), title: None,
        url: "https://site/x-1".into(), released_at: None, seen: false,
    }, NOW).unwrap();
    let before = db.signature_counts().unwrap();
    db.set_seen_cascade(series, "1", true, NOW).unwrap();
    let after = db.signature_counts().unwrap();
    assert_ne!(before, after);
}

#[test]
fn get_yearly_activity_returns_full_year_zero_filled() {
    let mut db = Db::new();
    let src = db.upsert_source("A", "a", "animeytx").unwrap();
    let series = db.upsert_series(src, &mk_airing("x", "X", None)).unwrap();

    let eps = [
        ("1", "2025-01-15 12:00:00"),
        ("2", "2025-01-15 12:00:00"),
        ("3", "2025-06-20 12:00:00"),
        ("4", "2024-12-31 12:00:00"),
    ];
    for (num, seen_at) in eps {
        let ep = db.insert_episode(&Episode {
            id: 0, series_id: series, number: num.into(), title: None,
            url: format!("https://site/x-{num}/"), released_at: None, seen: true,
        }, NOW).unwrap();
        stamp(&mut db, ep, seen_at);
    }

    let activity = db.get_yearly_activity(&seen_days(&db), 2025).unwrap();
    assert_eq!(activity.year, 2025);
    assert_eq!(activity.days.len(), 365, "non-leap year has 365 days");

    let jan15 = activity.days.iter().find(|d| d.day == "2025-01-15").unwrap();
    assert_eq!(jan15.count, 2);

    let jun20 = activity.days.iter().find(|d| d.day == "2025-06-20").unwrap();
    assert_eq!(jun20.count, 1);

    let dec31_2024 = activity.days.iter().find(|d| d.day == "2024-12-31");
    assert!(dec31_2024.is_none() || dec31_2024.unwrap().count == 0);

    let nonzero = activity.days.iter().filter(|d| d.count > 0).count();
    assert_eq!(nonzero, 2, "only Jan 15 and Jun 20 have marks");
}

#[test]
fn get_activity_years_includes_current_year_even_when_empty() {
    let mut db = Db::new();
    let src = db.upsert_source("A", "a", "animeytx").unwrap();

    let this_year = chrono::Local::now().date_naive().year();
    let years = db.get_activity_years(&seen_days(&db), this_year).unwrap();
    assert!(years.contains(&this_year), "current year present even with no data: {years:?}");
    assert!(years.iter().all(|&y| y <= this_year), "no future years: {years:?}");
    assert!(years.windows(2).all(|w| w[0] > w[1]), "descending order: {years:?}");

    let series = db.upsert_series(src, &mk_airing("x", "X", None)).unwrap();
    let ep = db.insert_episode(&Episode {
        id: 0, series_id: series, number: "1".into(), title: None,
        url: "https://site/x-1/".into(), released_at: None, seen: true,
    }, NOW).unwrap();
    let past_year = this_year - 1;
    stamp(&mut db, ep, &format!("{past_year}-07-15 12:00:00"));

    let years = db.get_activity_years(&seen_days(&db), this_year).unwrap();
    assert!(years.contains(&this_year), "current year still present: {years:?}");
    assert!(years.contains(&past_year), "past year with data present: {years:?}");
    assert!(years[0] == this_year, "current year first (descending): {years:?}");
}
