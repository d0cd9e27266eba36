use anime_on_track::calendar::CivilDate;
use anime_on_track::db::series::SeriesForLink;
use anime_on_track::db::Db;
use anime_on_track::models::{CatalogAnime, Episode, Series, WatchInsights};

const NOW: &str = "2026-08-01 12:00:00";

fn mk_airing(slug: &str, title: &str, next_episode_at: Option<i64>) -> Series {
    Series {
        id: 0,
        slug: slug.into(),
        title: title.into(),
        url: format!("https://site/tv/{slug}/"),
        cover_url: None,
        is_airing: true,
        followed: false,
        next_episode_at,
        site_episode_count: None,
    }
}

fn insert_eps_seen_up_to(db: &mut Db, series_id: i64, total: i64, seen_up_to: i64) {
    for i in 1..=total {
        db.insert_episode(
            &Episode {
                id: 0,
                series_id,
                number: i.to_string(),
                title: None,
                url: format!("https://site/{series_id}-{i}"),
                released_at: None,
                seen: false,
            },
            NOW,
        )
        .unwrap();
    }
    if seen_up_to >= 1 {
        db.set_seen_cascade(series_id, &seen_up_to.to_string(), true, NOW).unwrap();
    }
}

fn catalog_anime(id: i64, title: &str, genres: &[&str]) -> CatalogAnime {
    catalog_anime_with_popularity(id, title, genres, None)
}

fn catalog_anime_with_popularity(
    id: i64,
    title: &str,
    genres: &[&str],
    popularity: Option<i64>,
) -> CatalogAnime {
    CatalogAnime {
        id,
        title: title.into(),
        title_romaji: None,
        title_english: None,
        cover_url: Some(format!("https://cdn/{id}.jpg")),
        format: Some("TV".into()),
        genres: genres.iter().map(|g| g.to_string()).collect(),
        episodes: Some(12),
        average_score: Some(80),
        popularity,
        url: format!("https://anilist.co/anime/{id}"),
        status: None,
        duration: None,
        studio: None,
        start_date: None,
    }
}

fn insights_of(db: &Db) -> WatchInsights {
    let days = db.seen_stamps().iter().map(|s| s[..10].to_string()).collect();
    db.get_watch_insights(&days, CivilDate { year: 2026, month: 8, day: 1 }).unwrap()
}

#[test]
fn upsert_series_writes_and_updates_scan_owned_airing_metadata() {
    let mut db = Db::new();
    let src = db.upsert_source("AnimeYT", "b", "animeytx").unwrap();
    let mut s = mk_airing("x", "X", Some(1_783_350_140));
    s.site_episode_count = Some(2);
    let sid = db.upsert_series(src, &s).unwrap();
    let got = db.list_airing(src).unwrap().into_iter().find(|r| r.id == sid).unwrap();
    assert_eq!(got.next_episode_at, Some(1_783_350_140));
    assert_eq!(got.site_episode_count, Some(2));

    let mut s2 = mk_airing("x", "X", Some(1_783_954_940));
    s2.site_episode_count = Some(3);
    db.upsert_series(src, &s2).unwrap();
    let got = db.list_airing(src).unwrap().into_iter().find(|r| r.id == sid).unwrap();
    assert_eq!(got.next_episode_at, Some(1_783_954_940));
    assert_eq!(got.site_episode_count, Some(3));
}

#[test]
fn upsert_series_slug_change_updates_existing_row_and_keeps_seen_history() {
    let mut db = Db::new();
    let src = db.upsert_source("AnimeYT", "b", "animeytx").unwrap();
    let sid = db.upsert_series(src, &mk_airing("youjo-senki-2", "Youjo Senki II", None)).unwrap();
    insert_eps_seen_up_to(&mut db, sid, 5, 5);

    let sid2 = db.upsert_series(src, &mk_airing("youjo-senki-ii", "Youjo Senki II", None)).unwrap();

    assert_eq!(sid, sid2, "slug drift on the same source/title must reuse the existing series id");
    let eps = db.list_series_episodes(sid).unwrap();
    assert_eq!(eps.len(), 5, "seen episodes must still be reachable under the same series id");
    assert!(eps.iter().all(|e| e.seen), "seen state must survive the slug change");
}

#[test]
fn upsert_series_different_title_creates_new_row() {
    let mut db = Db::new();
    let src = db.upsert_source("AnimeYT", "b", "animeytx").unwrap();
    let sid = db.upsert_series(src, &mk_airing("one-piece", "One Piece", None)).unwrap();
    let sid2 = db.upsert_series(src, &mk_airing("naruto", "Naruto", None)).unwrap();
    assert_ne!(sid, sid2, "genuinely different series must not be merged");
}

#[test]
fn carry_follow_only_touches_unfollowed_rows() {
    let mut db = Db::new();
    let src = db.upsert_source("A", "a", "animeytx").unwrap();

    let sid = db.upsert_series(src, &mk_airing("s", "S", None)).unwrap();
    assert!(db.carry_follow(sid, 4).unwrap(), "unfollowed row carries");
    assert_eq!(db.take_carried_seen_number(sid).unwrap(), Some(4));
    assert_eq!(db.take_carried_seen_number(sid).unwrap(), None);

    let sid2 = db.upsert_series(src, &mk_airing("t", "T", None)).unwrap();
    db.set_followed(sid2, true).unwrap();
    assert!(!db.carry_follow(sid2, 9).unwrap(), "followed row is left untouched");
    assert_eq!(db.take_carried_seen_number(sid2).unwrap(), None);
}

#[test]
fn carried_watermark_marks_episodes_seen_via_cascade() {
    let mut db = Db::new();
    let src = db.upsert_source("B", "b", "tioanime").unwrap();
    let sid = db.upsert_series(src, &mk_airing("x", "X", None)).unwrap();

    db.carry_follow(sid, 3).unwrap();
    insert_eps_seen_up_to(&mut db, sid, 6, 0);

    let n = db.take_carried_seen_number(sid).unwrap().expect("watermark present");
    db.set_seen_cascade(sid, &n.to_string(), true, NOW).unwrap();

    let eps = db.list_series_episodes(sid).unwrap();
    let seen: Vec<&str> = eps.iter().filter(|e| e.seen).map(|e| e.number.as_str()).collect();
    assert_eq!(seen, vec!["1", "2", "3"], "episodes 1..=3 seen, 4..=6 unseen");
    assert_eq!(db.take_carried_seen_number(sid).unwrap(), None);
}

#[test]
fn unfollowed_watched_externally_series_with_real_seen_episodes_credits_the_remainder() {
    let mut db = Db::new();
    let src = db.upsert_source("A", "a", "animeytx").unwrap();

    db.upsert_catalog_anime(
        &CatalogAnime {
            id: 300, title: "Ext".into(), title_romaji: None, title_english: None,
            cover_url: None, format: Some("TV".into()), genres: vec![],
            episodes: Some(12), average_score: None, popularity: None,
            url: "https://anilist.co/anime/300".into(), status: None, duration: None,
            studio: None, start_date: None,
        },
        0,
    ).unwrap();
    let sid = db.upsert_series(src, &mk_airing("ext1", "Ext", None)).unwrap();
    db.set_watched_externally(sid, true).unwrap();
    db.set_anilist_id(sid, 300).unwrap();
    db.set_kind(sid, "TV").unwrap();
    for n in 1..=3 {
        db.insert_episode(&Episode {
            id: 0, series_id: sid, number: n.to_string(), title: None,
            url: format!("https://site/anime/ext1-capitulo-{n}/"),
            released_at: None, seen: true,
        }, NOW).unwrap();
    }

    let summary = db.get_watch_summary().unwrap();
    assert_eq!(summary.episodes_watched, 3, "the 3 real seen episodes count, even though the series isn't followed");
    assert_eq!(summary.episodes_watched_external, 9, "12 catalog episodes minus the 3 already marked");
    assert_eq!(
        summary.episodes_watched + summary.episodes_watched_external, 12,
        "the two figures add up to the catalog total, never past it"
    );

    let insights = insights_of(&db);
    assert_eq!(insights.estimated_minutes_tracked, 72, "3 seen eps * 24 min (TV), tracked minutes aren't followed-only anymore");
    assert_eq!(insights.estimated_minutes_external, 9 * 24, "remainder minutes only");
}

#[test]
fn watched_externally_series_without_episodes_counts_via_catalog_estimate() {
    let mut db = Db::new();
    let src = db.upsert_source("A", "a", "animeytx").unwrap();

    db.upsert_catalog_anime(
        &CatalogAnime {
            id: 301, title: "Ext2".into(), title_romaji: None, title_english: None,
            cover_url: None, format: Some("TV".into()), genres: vec![],
            episodes: Some(12), average_score: None, popularity: None,
            url: "https://anilist.co/anime/301".into(), status: None, duration: None,
            studio: None, start_date: None,
        },
        0,
    ).unwrap();
    let sid = db.upsert_series(src, &mk_airing("ext2", "Ext2", None)).unwrap();
    db.set_watched_externally(sid, true).unwrap();
    db.set_anilist_id(sid, 301).unwrap();

    let summary = db.get_watch_summary().unwrap();
    assert_eq!(summary.episodes_watched, 0, "no real episodes for this series");
    assert_eq!(summary.episodes_watched_external, 12, "falls back to the catalog's episode count");

    let insights = insights_of(&db);
    assert_eq!(insights.estimated_minutes_external, 12 * 24, "12 catalog eps * minutes_per_episode(TV)");
}

#[test]
fn followed_series_with_no_seen_episodes_excluded_from_distinct_anime() {
    let mut db = Db::new();
    let src = db.upsert_source("A", "a", "animeytx").unwrap();

    let unseen_id = db.upsert_series(src, &mk_airing("unseen1", "Unseen Show", None)).unwrap();
    db.set_followed(unseen_id, true).unwrap();
    db.insert_episode(&Episode {
        id: 0, series_id: unseen_id, number: "1".into(), title: None,
        url: "https://site/anime/unseen1-capitulo-1/".into(),
        released_at: None, seen: false,
    }, NOW).unwrap();

    let ext_id = db.upsert_series(src, &mk_airing("ext3", "Ext3", None)).unwrap();
    db.set_watched_externally(ext_id, true).unwrap();

    let summary = db.get_watch_summary().unwrap();
    assert_eq!(summary.distinct_anime, 1, "only the watched-externally show counts; the unwatched followed show is excluded");
}

#[test]
fn followed_and_watched_externally_series_with_seen_episodes_counts_each_episode_once() {
    let mut db = Db::new();
    let src = db.upsert_source("A", "a", "animeytx").unwrap();

    db.upsert_catalog_anime(
        &CatalogAnime {
            id: 302, title: "Both".into(), title_romaji: None, title_english: None,
            cover_url: None, format: Some("TV".into()), genres: vec![],
            episodes: Some(12), average_score: None, popularity: None,
            url: "https://anilist.co/anime/302".into(), status: None, duration: None,
            studio: None, start_date: None,
        },
        0,
    ).unwrap();
    let sid = db.upsert_series(src, &mk_airing("both1", "Both", None)).unwrap();
    db.set_followed(sid, true).unwrap();
    db.set_watched_externally(sid, true).unwrap();
    db.set_anilist_id(sid, 302).unwrap();
    db.set_kind(sid, "TV").unwrap();
    for n in 1..=3 {
        db.insert_episode(&Episode {
            id: 0, series_id: sid, number: n.to_string(), title: None,
            url: format!("https://site/anime/both1-capitulo-{n}/"),
            released_at: None, seen: true,
        }, NOW).unwrap();
    }

    let insights = insights_of(&db);
    assert_eq!(insights.estimated_minutes_tracked, 72, "3 seen eps * 24 min (TV)");
    assert_eq!(insights.estimated_minutes_external, 9 * 24, "the other 9 catalog eps, counted once");

    let summary = db.get_watch_summary().unwrap();
    assert_eq!(summary.episodes_watched, 3);
    assert_eq!(summary.episodes_watched_external, 9);
    assert_eq!(
        (summary.episodes_watched + summary.episodes_watched_external) * 24,
        insights.estimated_minutes_tracked + insights.estimated_minutes_external
    );
}

#[test]
fn series_genres_insert_is_idempotent_and_lists_sorted() {
    let mut db = Db::new();
    let src = db.upsert_source("AnimeYT", "b", "animeytx").unwrap();
    let s = Series {
        id: 0, slug: "x".into(), title: "X".into(),
        url: "u".into(), cover_url: None, is_airing: false, followed: false, next_episode_at: None, site_episode_count: None,
    };
    let sid = db.upsert_series(src, &s).unwrap();

    db.insert_series_genres(sid, &["Seinen".to_string(), "Drama".to_string()]).unwrap();
    db.insert_series_genres(sid, &["Drama".to_string()]).unwrap();

    let genres = db.list_series_genres(sid).unwrap();
    assert_eq!(genres, vec!["Drama".to_string(), "Seinen".to_string()]);
}

#[test]
fn backlog_status_and_kind_round_trip() {
    let mut db = Db::new();
    let src = db.upsert_source("AnimeYT", "b", "animeytx").unwrap();
    let s = Series {
        id: 0, slug: "x".into(), title: "X".into(),
        url: "u".into(), cover_url: None, is_airing: false, followed: false, next_episode_at: None, site_episode_count: None,
    };
    let sid = db.upsert_series(src, &s).unwrap();

    assert_eq!(db.get_backlog_status(sid).unwrap(), None);
    db.set_backlog_status(sid, Some("want")).unwrap();
    assert_eq!(db.get_backlog_status(sid).unwrap(), Some("want".to_string()));
    db.set_kind(sid, "TV").unwrap();

    db.set_followed(sid, true).unwrap();
    db.set_backlog_status(sid, None).unwrap();
    assert_eq!(db.get_backlog_status(sid).unwrap(), None);
    assert!(db.list_followed(src).unwrap().iter().any(|f| f.id == sid));
}

#[test]
fn list_backlog_filters_by_status() {
    let mut db = Db::new();
    let src = db.upsert_source("AnimeYT", "b", "animeytx").unwrap();
    let want = Series {
        id: 0, slug: "want".into(), title: "Want".into(),
        url: "u1".into(), cover_url: None, is_airing: false, followed: false, next_episode_at: None, site_episode_count: None,
    };
    let sid_want = db.upsert_series(src, &want).unwrap();
    db.set_backlog_status(sid_want, Some("want")).unwrap();

    let discarded = Series {
        id: 0, slug: "disc".into(), title: "Disc".into(),
        url: "u2".into(), cover_url: None, is_airing: false, followed: false, next_episode_at: None, site_episode_count: None,
    };
    let sid_disc = db.upsert_series(src, &discarded).unwrap();
    db.set_backlog_status(sid_disc, Some("discarded")).unwrap();

    let wants = db.list_backlog(src, "want").unwrap();
    assert_eq!(wants.len(), 1);
    assert_eq!(wants[0].id, sid_want);

    let discards = db.list_backlog(src, "discarded").unwrap();
    assert_eq!(discards.len(), 1);
    assert_eq!(discards[0].id, sid_disc);
}

#[test]
fn list_watched_externally_filters_by_flag() {
    let mut db = Db::new();
    let src = db.upsert_source("AnimeYT", "b", "animeytx").unwrap();

    let watched = Series {
        id: 0, slug: "watched".into(), title: "Watched".into(),
        url: "u1".into(), cover_url: None, is_airing: false, followed: false, next_episode_at: None, site_episode_count: None,
    };
    let sid_watched = db.upsert_series(src, &watched).unwrap();
    db.set_watched_externally(sid_watched, true).unwrap();

    let other = Series {
        id: 0, slug: "other".into(), title: "Other".into(),
        url: "u2".into(), cover_url: None, is_airing: false, followed: false, next_episode_at: None, site_episode_count: None,
    };
    let sid_other = db.upsert_series(src, &other).unwrap();
    db.set_backlog_status(sid_other, Some("want")).unwrap();

    let watched_rows = db.list_watched_externally(src).unwrap();
    assert_eq!(watched_rows.len(), 1);
    assert_eq!(watched_rows[0].id, sid_watched);
}

#[test]
fn list_library_includes_watched_externally_rows_with_no_episodes() {
    let mut db = Db::new();
    let src = db.upsert_source("AnimeYT", "b", "animeytx").unwrap();

    let followed = Series {
        id: 0, slug: "followed".into(), title: "Followed".into(),
        url: "u1".into(), cover_url: None, is_airing: true, followed: false, next_episode_at: None, site_episode_count: None,
    };
    let sid_followed = db.upsert_series(src, &followed).unwrap();
    db.set_followed(sid_followed, true).unwrap();
    db.insert_episode(&Episode {
        id: 0, series_id: sid_followed, number: "1".into(), title: None,
        url: "ep1".into(), released_at: None, seen: true,
    }, NOW).unwrap();

    let watched = Series {
        id: 0, slug: "watched".into(), title: "Watched".into(),
        url: "u2".into(), cover_url: None, is_airing: false, followed: false, next_episode_at: None, site_episode_count: None,
    };
    let sid_watched = db.upsert_series(src, &watched).unwrap();
    db.set_watched_externally(sid_watched, true).unwrap();

    let items = db.list_library(src).unwrap();
    assert_eq!(items.len(), 2, "both the followed and the watched-externally-only rows must be returned");

    let watched_item = items.iter().find(|it| it.series.id == sid_watched)
        .expect("watched_externally=1, followed=0 row must be present in list_library");
    assert!(watched_item.watched_externally);
    assert_eq!(watched_item.total_episodes, 0);

    let followed_item = items.iter().find(|it| it.series.id == sid_followed).unwrap();
    assert!(!followed_item.watched_externally);
    assert_eq!(followed_item.total_episodes, 1);
}

#[test]
fn list_library_returns_kind_and_genres_via_one_bulk_query() {
    let mut db = Db::new();
    let src = db.upsert_source("AnimeYT", "b", "animeytx").unwrap();

    let s1 = Series {
        id: 0, slug: "s1".into(), title: "S1".into(),
        url: "u1".into(), cover_url: None, is_airing: false, followed: false, next_episode_at: None, site_episode_count: None,
    };
    let sid1 = db.upsert_series(src, &s1).unwrap();
    db.set_followed(sid1, true).unwrap();
    db.set_kind(sid1, "TV").unwrap();
    db.insert_series_genres(sid1, &["Accion".to_string(), "Comedia".to_string()]).unwrap();

    let s2 = Series {
        id: 0, slug: "s2".into(), title: "S2".into(),
        url: "u2".into(), cover_url: None, is_airing: false, followed: false, next_episode_at: None, site_episode_count: None,
    };
    let sid2 = db.upsert_series(src, &s2).unwrap();
    db.set_followed(sid2, true).unwrap();

    let items = db.list_library(src).unwrap();
    let item1 = items.iter().find(|it| it.series.id == sid1).unwrap();
    assert_eq!(item1.kind.as_deref(), Some("TV"));
    assert_eq!(item1.genres, vec!["Accion".to_string(), "Comedia".to_string()]);

    let item2 = items.iter().find(|it| it.series.id == sid2).unwrap();
    assert_eq!(item2.kind, None);
    assert!(item2.genres.is_empty());
}

#[test]
fn list_library_returns_studio_only_for_linked_series() {
    let mut db = Db::new();
    let src = db.upsert_source("AnimeYT", "b", "animeytx").unwrap();

    let mut linked_anime = catalog_anime_with_popularity(500, "Linked", &["Drama"], Some(1000));
    linked_anime.studio = Some("Studio Ghibli".into());
    db.upsert_catalog_anime(&linked_anime, 0).unwrap();
    let linked = Series {
        id: 0, slug: "linked".into(), title: "Linked".into(),
        url: "u1".into(), cover_url: None, is_airing: false, followed: false, next_episode_at: None, site_episode_count: None,
    };
    let sid_linked = db.upsert_series(src, &linked).unwrap();
    db.set_followed(sid_linked, true).unwrap();
    db.set_anilist_id(sid_linked, 500).unwrap();

    let unlinked = Series {
        id: 0, slug: "unlinked".into(), title: "Unlinked".into(),
        url: "u2".into(), cover_url: None, is_airing: false, followed: false, next_episode_at: None, site_episode_count: None,
    };
    let sid_unlinked = db.upsert_series(src, &unlinked).unwrap();
    db.set_followed(sid_unlinked, true).unwrap();

    let items = db.list_library(src).unwrap();
    let linked_item = items.iter().find(|it| it.series.id == sid_linked).unwrap();
    assert_eq!(linked_item.studio.as_deref(), Some("Studio Ghibli"));

    let unlinked_item = items.iter().find(|it| it.series.id == sid_unlinked).unwrap();
    assert_eq!(unlinked_item.studio, None);
}

#[test]
fn delete_series_cascades_episodes_and_genres() {
    let mut db = Db::new();
    let src = db.upsert_source("AnimeYT", "b", "animeytx").unwrap();
    let s = Series {
        id: 0, slug: "x".into(), title: "X".into(),
        url: "u".into(), cover_url: None, is_airing: false, followed: true, next_episode_at: None, site_episode_count: None,
    };
    let sid = db.upsert_series(src, &s).unwrap();
    db.insert_series_genres(sid, &["Seinen".to_string()]).unwrap();
    db.insert_episode(&Episode {
        id: 0, series_id: sid, number: "1".into(), title: None,
        url: "e1".into(), released_at: None, seen: false,
    }, NOW).unwrap();

    db.delete_series(sid).unwrap();

    assert!(db.list_followed(src).unwrap().iter().all(|f| f.id != sid));
    assert!(db.list_series_genres(sid).unwrap().is_empty());
    assert!(db.list_series_episodes(sid).unwrap().is_empty());
}

#[test]
fn get_series_for_link_reads_link_relevant_fields() {
    let mut db = Db::new();
    let src = db.upsert_source("AnimeYT", "b", "animeytx").unwrap();
    let s = Series {
        id: 0, slug: "anilist-42".into(), title: "X".into(),
        url: "https://anilist.co/anime/42".into(), cover_url: None, is_airing: false, followed: false, next_episode_at: None, site_episode_count: None,
    };
    let sid = db.upsert_series(src, &s).unwrap();
    db.set_anilist_id(sid, 42).unwrap();
    db.set_backlog_status(sid, Some("want")).unwrap();

    let info = db.get_series_for_link(sid).unwrap().unwrap();
    assert_eq!(info.id, sid);
    assert_eq!(info.source_id, src);
    assert_eq!(info.slug, "anilist-42");
    assert_eq!(info.anilist_id, Some(42));
    assert_eq!(info.backlog_status.as_deref(), Some("want"));
    assert!(!info.followed);
    assert!(!info.watched_externally);
}

#[test]
fn get_series_for_link_none_for_missing_row() {
    let mut db = Db::new();
    assert!(db.get_series_for_link(999).unwrap().is_none());
}

#[test]
fn already_linked_to_site_covers_both_null_anilist_id_and_relinked_slug() {
    let plain_site_row = SeriesForLink {
        id: 1, source_id: 1, slug: "baki-dou".into(), anilist_id: None,
        followed: true, backlog_status: None, watched_externally: false,
    };
    assert!(plain_site_row.already_linked_to_site());

    let unlinked_catalog_row = SeriesForLink {
        id: 2, source_id: 1, slug: "anilist-42".into(), anilist_id: Some(42),
        followed: false, backlog_status: Some("want".into()), watched_externally: false,
    };
    assert!(!unlinked_catalog_row.already_linked_to_site());

    let already_relinked_row = SeriesForLink {
        id: 3, source_id: 1, slug: "baki-dou".into(), anilist_id: Some(42),
        followed: false, backlog_status: None, watched_externally: true,
    };
    assert!(already_relinked_row.already_linked_to_site());
}

#[test]
fn find_series_id_by_slug_excludes_given_id_and_scopes_by_source() {
    let mut db = Db::new();
    let src = db.upsert_source("AnimeYT", "b", "animeytx").unwrap();
    let real = Series {
        id: 0, slug: "baki-dou".into(), title: "Baki-dou".into(),
        url: "u1".into(), cover_url: None, is_airing: true, followed: false, next_episode_at: None, site_episode_count: None,
    };
    let real_id = db.upsert_series(src, &real).unwrap();
    let synthetic = Series {
        id: 0, slug: "anilist-7".into(), title: "Baki-dou".into(),
        url: "https://anilist.co/anime/7".into(), cover_url: None, is_airing: false, followed: false, next_episode_at: None, site_episode_count: None,
    };
    let synthetic_id = db.upsert_series(src, &synthetic).unwrap();

    assert_eq!(
        db.find_series_id_by_slug(src, "baki-dou", synthetic_id).unwrap(),
        Some(real_id)
    );
    assert_eq!(db.find_series_id_by_slug(src, "no-such-slug", synthetic_id).unwrap(), None);
}

#[test]
fn merge_series_into_transfers_flags_and_deletes_synthetic() {
    let mut db = Db::new();
    let src = db.upsert_source("AnimeYT", "b", "animeytx").unwrap();
    let existing = Series {
        id: 0, slug: "baki-dou".into(), title: "Baki-dou".into(),
        url: "https://site/tv/baki-dou/".into(), cover_url: None, is_airing: true, followed: false, next_episode_at: None, site_episode_count: None,
    };
    let existing_id = db.upsert_series(src, &existing).unwrap();

    let synthetic = Series {
        id: 0, slug: "anilist-7".into(), title: "Baki-dou".into(),
        url: "https://anilist.co/anime/7".into(), cover_url: None, is_airing: false, followed: false, next_episode_at: None, site_episode_count: None,
    };
    let synthetic_id = db.upsert_series(src, &synthetic).unwrap();
    db.set_anilist_id(synthetic_id, 7).unwrap();
    db.set_followed(synthetic_id, true).unwrap();
    db.set_backlog_status(synthetic_id, Some("want")).unwrap();

    db.merge_series_into(existing_id, synthetic_id).unwrap();

    assert!(db.get_series_for_link(synthetic_id).unwrap().is_none());
    let merged = db.get_series_for_link(existing_id).unwrap().unwrap();
    assert!(merged.followed);
    assert_eq!(merged.backlog_status.as_deref(), Some("want"));
    assert_eq!(merged.slug, "baki-dou");
}

#[test]
fn merge_series_into_keeps_existing_backlog_status_when_it_already_has_one() {
    let mut db = Db::new();
    let src = db.upsert_source("AnimeYT", "b", "animeytx").unwrap();
    let existing = Series {
        id: 0, slug: "baki-dou".into(), title: "Baki-dou".into(),
        url: "https://site/tv/baki-dou/".into(), cover_url: None, is_airing: true, followed: false, next_episode_at: None, site_episode_count: None,
    };
    let existing_id = db.upsert_series(src, &existing).unwrap();
    db.set_backlog_status(existing_id, Some("discarded")).unwrap();

    let synthetic = Series {
        id: 0, slug: "anilist-7".into(), title: "Baki-dou".into(),
        url: "https://anilist.co/anime/7".into(), cover_url: None, is_airing: false, followed: false, next_episode_at: None, site_episode_count: None,
    };
    let synthetic_id = db.upsert_series(src, &synthetic).unwrap();
    db.set_backlog_status(synthetic_id, Some("want")).unwrap();

    db.merge_series_into(existing_id, synthetic_id).unwrap();

    let merged = db.get_series_for_link(existing_id).unwrap().unwrap();
    assert_eq!(merged.backlog_status.as_deref(), Some("discarded"));
}

#[test]
fn relink_series_updates_slug_url_cover_and_kind_in_place() {
    let mut db = Db::new();
    let src = db.upsert_source("AnimeYT", "b", "animeytx").unwrap();
    let synthetic = Series {
        id: 0, slug: "anilist-7".into(), title: "Baki-dou".into(),
        url: "https://anilist.co/anime/7".into(), cover_url: Some("https://anilist-cdn/7.jpg".into()),
        is_airing: false, followed: true, next_episode_at: None, site_episode_count: None,
    };
    let sid = db.upsert_series(src, &synthetic).unwrap();
    db.set_anilist_id(sid, 7).unwrap();
    db.set_followed(sid, true).unwrap();

    db.relink_series(sid, "baki-dou", "https://site/tv/baki-dou/", Some("https://site/cover.jpg"), "TV").unwrap();

    let url = db.get_series_url(sid).unwrap().unwrap();
    assert_eq!(url, "https://site/tv/baki-dou/");
    let info = db.get_series_for_link(sid).unwrap().unwrap();
    assert_eq!(info.slug, "baki-dou");
    assert!(info.followed);
    assert_eq!(info.anilist_id, Some(7));
}

#[test]
fn replace_series_genres_drops_old_genres_instead_of_accumulating() {
    let mut db = Db::new();
    let src = db.upsert_source("AnimeYT", "b", "animeytx").unwrap();
    let s = Series {
        id: 0, slug: "x".into(), title: "X".into(),
        url: "u".into(), cover_url: None, is_airing: false, followed: false, next_episode_at: None, site_episode_count: None,
    };
    let sid = db.upsert_series(src, &s).unwrap();
    db.insert_series_genres(sid, &["Action".to_string(), "Isekai".to_string()]).unwrap();

    db.replace_series_genres(sid, &["Drama".to_string()]).unwrap();

    assert_eq!(db.list_series_genres(sid).unwrap(), vec!["Drama".to_string()]);
}

#[test]
fn series_needs_genre_backfill_reflects_series_genres_rows() {
    let mut db = Db::new();
    let src = db.upsert_source("AnimeYT", "b", "animeytx").unwrap();
    let s = Series {
        id: 0, slug: "x".into(), title: "X".into(),
        url: "u".into(), cover_url: None, is_airing: false, followed: true, next_episode_at: None, site_episode_count: None,
    };
    let sid = db.upsert_series(src, &s).unwrap();

    assert!(db.series_needs_genre_backfill(sid).unwrap());
    db.insert_series_genres(sid, &["Seinen".to_string()]).unwrap();
    assert!(!db.series_needs_genre_backfill(sid).unwrap());
}

#[test]
fn engaged_series_titles_covers_followed_want_discarded_and_watched_externally() {
    let mut db = Db::new();
    let src = db.upsert_source("AnimeYT", "b", "animeytx").unwrap();

    let make = |slug: &str, title: &str| Series {
        id: 0,
        slug: slug.into(),
        title: title.into(),
        url: format!("https://example.com/tv/{slug}"),
        cover_url: None,
        is_airing: false,
        followed: false,
        next_episode_at: None,
        site_episode_count: None,
    };

    let sid_followed = db.upsert_series(src, &make("followed-show", "Followed Show")).unwrap();
    db.set_followed(sid_followed, true).unwrap();

    let sid_want = db.upsert_series(src, &make("want-show", "Want Show")).unwrap();
    db.set_backlog_status(sid_want, Some("want")).unwrap();

    let sid_discarded = db.upsert_series(src, &make("discarded-show", "Discarded Show")).unwrap();
    db.set_backlog_status(sid_discarded, Some("discarded")).unwrap();

    let sid_watched = db.upsert_series(src, &make("watched-show", "Watched Show")).unwrap();
    db.set_watched_externally(sid_watched, true).unwrap();

    db.upsert_series(src, &make("untouched-show", "Untouched Show")).unwrap();

    let titles: std::collections::HashSet<String> = db.engaged_series_titles().unwrap().into_iter().collect();
    assert!(titles.contains("Followed Show"));
    assert!(titles.contains("Want Show"));
    assert!(titles.contains("Discarded Show"));
    assert!(titles.contains("Watched Show"));
    assert!(!titles.contains("Untouched Show"));
}

#[test]
fn engaged_series_titles_covers_engagement_on_any_site_not_just_one() {
    let mut db = Db::new();
    let a = db.upsert_source("AnimeYT", "a", "animeytx").unwrap();
    let b = db.upsert_source("TioAnime", "b", "tioanime").unwrap();

    let make = |slug: &str, title: &str| Series {
        id: 0, slug: slug.into(), title: title.into(),
        url: format!("https://example.com/tv/{slug}"),
        cover_url: None, is_airing: false, followed: false,
        next_episode_at: None, site_episode_count: None,
    };

    let sid = db.upsert_series(b, &make("overlord-iv", "Overlord IV")).unwrap();
    db.set_followed(sid, true).unwrap();
    db.upsert_series(a, &make("other", "Other Show")).unwrap();

    let titles: std::collections::HashSet<String> = db.engaged_series_titles().unwrap().into_iter().collect();
    assert!(titles.contains("Overlord IV"), "engagement on a non-active site must still be visible");
    assert!(!titles.contains("Other Show"));
}

#[test]
fn followed_series_without_episodes_finds_only_never_fetched_followed_rows() {
    let mut db = Db::new();
    let src = db.upsert_source("AnimeYT", "a", "animeytx").unwrap();
    let make = |slug: &str, title: &str| Series {
        id: 0, slug: slug.into(), title: title.into(),
        url: format!("https://example.com/tv/{slug}"),
        cover_url: None, is_airing: true, followed: false,
        next_episode_at: None, site_episode_count: None,
    };

    let empty = db.upsert_series(src, &make("empty", "Empty Show")).unwrap();
    db.set_followed(empty, true).unwrap();

    let has_eps = db.upsert_series(src, &make("has-eps", "Has Episodes")).unwrap();
    db.set_followed(has_eps, true).unwrap();
    db.insert_episode(&Episode {
        id: 0, series_id: has_eps, number: "1".into(), title: None,
        url: "https://example.com/has-eps-1".into(), released_at: None, seen: false,
    }, NOW).unwrap();

    db.upsert_series(src, &make("not-followed", "Not Followed")).unwrap();

    let needing = db.followed_series_without_episodes(src).unwrap();
    let titles: Vec<&str> = needing.iter().map(|s| s.title.as_str()).collect();
    assert_eq!(titles, vec!["Empty Show"]);
}

#[test]
fn get_series_for_history_returns_none_for_a_deleted_row() {
    let mut db = Db::new();
    assert!(db.get_series_for_history(999).unwrap().is_none());
}

#[test]
fn get_series_for_history_includes_the_rows_url() {
    let mut db = Db::new();
    let src = db.upsert_source("AnimeYT", "b", "animeytx").unwrap();
    let s = Series {
        id: 0, slug: "anilist-7".into(), title: "T".into(),
        url: "https://anilist.co/anime/7/t".into(), cover_url: None,
        is_airing: false, followed: false, next_episode_at: None, site_episode_count: None,
    };
    let sid = db.upsert_series(src, &s).unwrap();
    let row = db.get_series_for_history(sid).unwrap().unwrap();
    assert_eq!(row.url, "https://anilist.co/anime/7/t");
}

#[test]
fn anilist_id_and_watched_externally_round_trip() {
    let mut db = Db::new();
    let src = db.upsert_source("AnimeYT", "b", "animeytx").unwrap();
    let s = Series {
        id: 0, slug: "anilist-42".into(), title: "X".into(),
        url: "u".into(), cover_url: None, is_airing: false, followed: false, next_episode_at: None, site_episode_count: None,
    };
    let sid = db.upsert_series(src, &s).unwrap();

    db.set_anilist_id(sid, 42).unwrap();
    db.set_watched_externally(sid, true).unwrap();

    let row = db.series.iter().find(|s| s.id == sid).unwrap();
    assert_eq!(row.anilist_id, Some(42));
    assert!(row.watched_externally);
}
