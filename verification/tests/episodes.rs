use anime_on_track::db::Db;
use anime_on_track::models::{Episode, Series};
use std::collections::HashMap;

const NOW: &str = "2026-08-01 12:00:00";

fn mk_airing(slug: &str, title: &str, next_episode_at: Option<i64>) -> Series {
    Series {
        id: 0,
        slug: slug.into(),
        title: title.into(),
        url: format!("https://site/tv/{slug}/"),
        cover_url: None,
        is_airing: true,
        followed: false,
        next_episode_at,
        site_episode_count: None,
    }
}

fn insert_eps_seen_up_to(db: &mut Db, series_id: i64, total: i64, seen_up_to: i64) {
    for i in 1..=total {
        db.insert_episode(
            &Episode {
                id: 0,
                series_id,
                number: i.to_string(),
                title: None,
                url: format!("https://site/{series_id}-{i}"),
                released_at: None,
                seen: false,
            },
            NOW,
        )
        .unwrap();
    }
    if seen_up_to >= 1 {
        db.set_seen_cascade(series_id, &seen_up_to.to_string(), true, NOW).unwrap();
    }
}

fn seen_at(db: &Db, id: i64) -> Option<String> {
    db.episodes.iter().find(|e| e.id == id).unwrap().seen_at.clone()
}

#[test]
fn episode_count_counts_only_this_series() {
    let mut db = Db::new();
    let src = db.upsert_source("AnimeYT", "b", "animeytx").unwrap();
    let sid_a = db.upsert_series(src, &mk_airing("a", "A", None)).unwrap();
    let sid_b = db.upsert_series(src, &mk_airing("b", "B", None)).unwrap();
    for i in 1..=3 {
        db.insert_episode(&Episode {
            id: 0, series_id: sid_a, number: i.to_string(), title: None,
            url: format!("https://site/a-{i}"), released_at: None, seen: false,
        }, NOW).unwrap();
    }
    assert_eq!(db.episode_count(sid_a).unwrap(), 3);
    assert_eq!(db.episode_count(sid_b).unwrap(), 0);
}

#[test]
fn max_episode_number_ignores_recap_and_version_rows() {
    let mut db = Db::new();
    let src = db.upsert_source("AnimeYT", "b", "animeytx").unwrap();

    let sid_a = db.upsert_series(src, &mk_airing("a", "A", None)).unwrap();
    db.insert_episode(&Episode {
        id: 0, series_id: sid_a, number: "0 | Recap".to_string(), title: None,
        url: "https://site/a-recap".to_string(), released_at: None, seen: false,
    }, NOW).unwrap();
    for i in 1..=12 {
        db.insert_episode(&Episode {
            id: 0, series_id: sid_a, number: i.to_string(), title: None,
            url: format!("https://site/a-{i}"), released_at: None, seen: false,
        }, NOW).unwrap();
    }
    assert_eq!(db.episode_count(sid_a).unwrap(), 13, "sanity: row count is 13");
    assert_eq!(db.max_episode_number(sid_a).unwrap(), 12);

    let sid_b = db.upsert_series(src, &mk_airing("b", "B", None)).unwrap();
    db.insert_episode(&Episode {
        id: 0, series_id: sid_b, number: "1 | v2".to_string(), title: None,
        url: "https://site/b-1".to_string(), released_at: None, seen: false,
    }, NOW).unwrap();
    db.insert_episode(&Episode {
        id: 0, series_id: sid_b, number: "2 | v1".to_string(), title: None,
        url: "https://site/b-2".to_string(), released_at: None, seen: false,
    }, NOW).unwrap();
    assert_eq!(db.max_episode_number(sid_b).unwrap(), 2);

    let sid_c = db.upsert_series(src, &mk_airing("c", "C", None)).unwrap();
    assert_eq!(db.max_episode_number(sid_c).unwrap(), 0);
}

#[test]
fn first_episode_dates_picks_lowest_numbered_episode_out_of_order() {
    let mut db = Db::new();
    let src = db.upsert_source("AnimeYT", "b", "animeytx").unwrap();
    let sid = db.upsert_series(src, &mk_airing("a", "A", None)).unwrap();

    db.insert_episode(&Episode {
        id: 0, series_id: sid, number: "3".into(), title: None,
        url: "https://site/a-3".into(), released_at: Some("agosto 1, 2026".into()), seen: false,
    }, NOW).unwrap();
    db.insert_episode(&Episode {
        id: 0, series_id: sid, number: "1".into(), title: None,
        url: "https://site/a-1".into(), released_at: Some("junio 29, 2026".into()), seen: false,
    }, NOW).unwrap();
    db.insert_episode(&Episode {
        id: 0, series_id: sid, number: "2".into(), title: None,
        url: "https://site/a-2".into(), released_at: Some("julio 15, 2026".into()), seen: false,
    }, NOW).unwrap();

    let dates: HashMap<i64, String> = db.first_episode_dates(src).unwrap().into_iter().collect();
    assert_eq!(dates.get(&sid), Some(&"junio 29, 2026".to_string()));
}

#[test]
fn first_episode_dates_omits_series_with_null_released_at() {
    let mut db = Db::new();
    let src = db.upsert_source("AnimeYT", "b", "animeytx").unwrap();
    let sid = db.upsert_series(src, &mk_airing("a", "A", None)).unwrap();
    db.insert_episode(&Episode {
        id: 0, series_id: sid, number: "1".into(), title: None,
        url: "https://site/a-1".into(), released_at: None, seen: false,
    }, NOW).unwrap();

    let dates: HashMap<i64, String> = db.first_episode_dates(src).unwrap().into_iter().collect();
    assert!(!dates.contains_key(&sid));
}

#[test]
fn first_episode_dates_omits_non_airing_and_other_source_series() {
    let mut db = Db::new();
    let src = db.upsert_source("AnimeYT", "b", "animeytx").unwrap();
    let other_src = db.upsert_source("Other", "c", "othersite").unwrap();

    let mut not_airing = mk_airing("na", "NotAiring", None);
    not_airing.is_airing = false;
    let sid_not_airing = db.upsert_series(src, &not_airing).unwrap();
    db.insert_episode(&Episode {
        id: 0, series_id: sid_not_airing, number: "1".into(), title: None,
        url: "https://site/na-1".into(), released_at: Some("mayo 1, 2026".into()), seen: false,
    }, NOW).unwrap();

    let sid_other = db.upsert_series(other_src, &mk_airing("o", "Other", None)).unwrap();
    db.insert_episode(&Episode {
        id: 0, series_id: sid_other, number: "1".into(), title: None,
        url: "https://other/o-1".into(), released_at: Some("mayo 1, 2026".into()), seen: false,
    }, NOW).unwrap();

    let dates: HashMap<i64, String> = db.first_episode_dates(src).unwrap().into_iter().collect();
    assert!(!dates.contains_key(&sid_not_airing));
    assert!(!dates.contains_key(&sid_other));
}

#[test]
fn first_episode_dates_includes_unfollowed_series_with_episodes() {
    let mut db = Db::new();
    let src = db.upsert_source("AnimeYT", "b", "animeytx").unwrap();

    let sid = db.upsert_series(src, &mk_airing("unfollowed", "Unfollowed", None)).unwrap();
    assert!(
        !db.series.iter().find(|s| s.id == sid).unwrap().followed,
        "series must be unfollowed by default"
    );

    db.insert_episode(&Episode {
        id: 0, series_id: sid, number: "1".into(), title: None,
        url: "https://site/unfollowed-1".into(), released_at: Some("julio 15, 2026".into()), seen: false,
    }, NOW).unwrap();

    let dates: HashMap<i64, String> = db.first_episode_dates(src).unwrap().into_iter().collect();
    assert_eq!(
        dates.get(&sid),
        Some(&"julio 15, 2026".to_string()),
        "unfollowed series with episodes must be included"
    );
}

#[test]
fn seen_cascade_handles_non_integer_episode_numbers() {
    let mut db = Db::new();
    let src = db.upsert_source("AnimeYT", "https://wwv.animeytx.net", "animeytx").unwrap();
    let s = Series {
        id: 0, slug: "x".into(), title: "X".into(),
        url: "u".into(), cover_url: None, is_airing: true, followed: false, next_episode_at: None, site_episode_count: None,
    };
    let sid = db.upsert_series(src, &s).unwrap();

    let mk = |n: &str, url: &str| Episode {
        id: 0, series_id: sid, number: n.into(), title: None,
        url: url.into(), released_at: None, seen: false,
    };
    db.insert_episode(&mk("1x01", "https://site/e1"), NOW).unwrap();
    db.insert_episode(&mk("1x02", "https://site/e2"), NOW).unwrap();
    db.insert_episode(&mk("1x03", "https://site/e3"), NOW).unwrap();

    db.set_seen_cascade(sid, "1x02", true, NOW).unwrap();
    let eps = db.list_series_episodes(sid).unwrap();
    assert!(eps.iter().find(|e| e.number == "1x01").unwrap().seen);
    assert!(eps.iter().find(|e| e.number == "1x02").unwrap().seen);
    assert!(!eps.iter().find(|e| e.number == "1x03").unwrap().seen);

    db.set_seen_cascade(sid, "1x02", false, NOW).unwrap();
    let eps = db.list_series_episodes(sid).unwrap();
    assert!(eps.iter().find(|e| e.number == "1x01").unwrap().seen);
    assert!(!eps.iter().find(|e| e.number == "1x02").unwrap().seen);
    assert!(!eps.iter().find(|e| e.number == "1x03").unwrap().seen);
}

#[test]
fn set_seen_cascade_stamps_and_clears_seen_at() {
    let mut db = Db::new();
    let src = db.upsert_source("AnimeYT", "https://wwv.animeytx.net", "animeytx").unwrap();
    let s = Series {
        id: 0, slug: "x".into(), title: "X".into(),
        url: "u".into(), cover_url: None, is_airing: true, followed: false, next_episode_at: None, site_episode_count: None,
    };
    let sid = db.upsert_series(src, &s).unwrap();
    let mk = |n: &str, url: &str| Episode {
        id: 0, series_id: sid, number: n.into(), title: None,
        url: url.into(), released_at: None, seen: false,
    };
    let e1 = db.insert_episode(&mk("1", "https://site/e1"), NOW).unwrap();
    let e2 = db.insert_episode(&mk("2", "https://site/e2"), NOW).unwrap();


    assert!(seen_at(&db, e1).is_none());
    assert!(seen_at(&db, e2).is_none());

    db.set_seen_cascade(sid, "2", true, NOW).unwrap();
    assert!(seen_at(&db, e1).is_some());
    assert!(seen_at(&db, e2).is_some());

    db.set_seen_cascade(sid, "2", false, NOW).unwrap();
    assert!(seen_at(&db, e1).is_some(), "e1 stays seen, keeps its seen_at");
    assert!(seen_at(&db, e2).is_none(), "e2 un-marked, seen_at cleared");
}

#[test]
fn set_seen_stamps_and_clears_seen_at() {
    let mut db = Db::new();
    let src = db.upsert_source("AnimeYT", "https://wwv.animeytx.net", "animeytx").unwrap();
    let s = Series {
        id: 0, slug: "x".into(), title: "X".into(),
        url: "u".into(), cover_url: None, is_airing: true, followed: false, next_episode_at: None, site_episode_count: None,
    };
    let sid = db.upsert_series(src, &s).unwrap();
    let e1 = db
        .insert_episode(&Episode {
            id: 0, series_id: sid, number: "1".into(), title: None,
            url: "https://site/e1".into(), released_at: None, seen: false,
        }, NOW)
        .unwrap();

    db.set_seen(e1, true, NOW).unwrap();
    assert!(seen_at(&db, e1).is_some());

    db.set_seen(e1, false, NOW).unwrap();
    assert!(seen_at(&db, e1).is_none());
}

#[test]
fn library_next_episode_agrees_with_series_detail_ordering() {
    let mut db = Db::new();
    let src = db.upsert_source("AnimeYT", "https://wwv.animeytx.net", "animeytx").unwrap();
    let s = Series {
        id: 0, slug: "x".into(), title: "X".into(),
        url: "u".into(), cover_url: None, is_airing: true, followed: true, next_episode_at: None, site_episode_count: None,
    };
    let sid = db.upsert_series(src, &s).unwrap();
    db.set_followed(sid, true).unwrap();
    let mk = |n: &str, url: &str| Episode {
        id: 0, series_id: sid, number: n.into(), title: None,
        url: url.into(), released_at: None, seen: false,
    };
    db.insert_episode(&mk("10", "https://site/e10"), NOW).unwrap();
    db.insert_episode(&mk("9", "https://site/e9"), NOW).unwrap();
    db.insert_episode(&mk("10.5", "https://site/e10.5"), NOW).unwrap();

    let detail_order = db.list_series_episodes(sid).unwrap();
    let first_unseen_in_detail_order = detail_order.iter().find(|e| !e.seen).unwrap();

    let items = db.list_library(src).unwrap();
    let item = items.iter().find(|it| it.series.id == sid).unwrap();
    let next = item.next_episode.as_ref().expect("has an unseen episode");
    assert_eq!(next.number, first_unseen_in_detail_order.number);
    assert_eq!(next.number, "9", "lowest by SeriesDetail's own ordering, not string sort");

    db.set_seen_cascade(sid, "9", true, NOW).unwrap();
    let items = db.list_library(src).unwrap();
    let item = items.iter().find(|it| it.series.id == sid).unwrap();
    assert_eq!(item.next_episode.as_ref().unwrap().number, "10");
}

#[test]
fn library_next_episode_none_when_fully_seen() {
    let mut db = Db::new();
    let src = db.upsert_source("AnimeYT", "https://wwv.animeytx.net", "animeytx").unwrap();
    let s = Series {
        id: 0, slug: "x".into(), title: "X".into(),
        url: "u".into(), cover_url: None, is_airing: true, followed: true, next_episode_at: None, site_episode_count: None,
    };
    let sid = db.upsert_series(src, &s).unwrap();
    db.set_followed(sid, true).unwrap();
    db.insert_episode(&Episode {
        id: 0, series_id: sid, number: "1".into(), title: None,
        url: "https://site/e1".into(), released_at: None, seen: false,
    }, NOW)
    .unwrap();
    db.set_seen_cascade(sid, "1", true, NOW).unwrap();

    let items = db.list_library(src).unwrap();
    let item = items.iter().find(|it| it.series.id == sid).unwrap();
    assert!(item.next_episode.is_none());
    assert_eq!(item.total_episodes, 1);
    assert_eq!(item.seen_episodes, 1);
}

#[test]
fn library_next_episode_none_and_no_panic_with_zero_episodes() {
    let mut db = Db::new();
    let src = db.upsert_source("AnimeYT", "https://wwv.animeytx.net", "animeytx").unwrap();
    let s = Series {
        id: 0, slug: "x".into(), title: "X".into(),
        url: "u".into(), cover_url: None, is_airing: true, followed: true, next_episode_at: None, site_episode_count: None,
    };
    let sid = db.upsert_series(src, &s).unwrap();
    db.set_followed(sid, true).unwrap();

    let items = db.list_library(src).unwrap();
    assert_eq!(items.len(), 1);
    assert!(items[0].next_episode.is_none());
    assert_eq!(items[0].total_episodes, 0);
    assert_eq!(items[0].seen_episodes, 0);
}

#[test]
fn insert_episode_dedups_and_marks_seen() {
    let mut db = Db::new();
    let src = db.upsert_source("AnimeYT", "https://wwv.animeytx.net", "animeytx").unwrap();
    let s = Series {
        id: 0, slug: "x".into(), title: "X".into(),
        url: "u".into(), cover_url: None, is_airing: true, followed: false, next_episode_at: None, site_episode_count: None,
    };
    let sid = db.upsert_series(src, &s).unwrap();
    db.set_followed(sid, true).unwrap();

    let ep = Episode {
        id: 0, series_id: sid, number: "1".into(), title: None,
        url: "https://site/ep1".into(), released_at: None, seen: false,
    };
    let eid = db.insert_episode(&ep, NOW).unwrap();
    let eid_dup = db.insert_episode(&ep, NOW).unwrap();
    assert_eq!(eid, eid_dup);

    assert_eq!(db.pending_count(src).unwrap(), 1);
    db.set_seen(eid, true, NOW).unwrap();
    assert_eq!(db.pending_count(src).unwrap(), 0);
}

#[test]
fn existing_episode_numbers_and_refresh_meta() {
    let mut db = Db::new();
    let src = db.upsert_source("AnimeYT", "b", "animeytx").unwrap();
    let s = Series {
        id: 0, slug: "x".into(), title: "X".into(),
        url: "u".into(), cover_url: None, is_airing: true, followed: true, next_episode_at: None, site_episode_count: None,
    };
    let sid = db.upsert_series(src, &s).unwrap();
    db.insert_episode(&Episode {
        id: 0, series_id: sid, number: "1".into(), title: None,
        url: "https://wwv.animeytx.net/anime/x-capitulo-1/".into(), released_at: None, seen: true,
    }, NOW).unwrap();

    let nums = db.existing_episode_numbers(sid).unwrap();
    assert!(nums.contains("1"));
    assert_eq!(nums.len(), 1);

    db.refresh_episode_meta(sid, "1", "https://animeyt.cc/999/anime/x-capitulo-1/", None, None).unwrap();
    let rows: Vec<Episode> = db
        .list_series_episodes(sid)
        .unwrap()
        .into_iter()
        .filter(|e| e.number == "1")
        .collect();
    let url = rows[0].url.as_str();
    let seen = rows[0].seen as i64;
    assert_eq!(url, "https://animeyt.cc/999/anime/x-capitulo-1/");
    assert_eq!(seen, 1, "refreshing the link must not clear seen");
    let n = rows.len();
    assert_eq!(n, 1);
}

#[test]
fn mark_all_episodes_seen_marks_every_episode_via_cascade() {
    let mut db = Db::new();
    let src = db.upsert_source("AnimeYT", "b", "animeytx").unwrap();
    let s = Series {
        id: 0, slug: "x".into(), title: "X".into(),
        url: "u".into(), cover_url: None, is_airing: false, followed: false, next_episode_at: None, site_episode_count: None,
    };
    let sid = db.upsert_series(src, &s).unwrap();

    for n in 1..=3 {
        db.insert_episode(&Episode {
            id: 0, series_id: sid, number: n.to_string(), title: None,
            url: format!("e{n}"), released_at: None, seen: false,
        }, NOW).unwrap();
    }

    db.mark_all_episodes_seen(sid, NOW).unwrap();

    let eps = db.list_series_episodes(sid).unwrap();
    assert_eq!(eps.len(), 3);
    assert!(eps.iter().all(|e| e.seen), "every episode must be marked seen");
}

#[test]
fn mark_all_episodes_seen_is_a_no_op_on_a_series_with_no_episodes() {
    let mut db = Db::new();
    let src = db.upsert_source("AnimeYT", "b", "animeytx").unwrap();
    let s = Series {
        id: 0, slug: "x".into(), title: "X".into(),
        url: "u".into(), cover_url: None, is_airing: false, followed: false, next_episode_at: None, site_episode_count: None,
    };
    let sid = db.upsert_series(src, &s).unwrap();
    db.mark_all_episodes_seen(sid, NOW).unwrap();
    assert!(db.list_series_episodes(sid).unwrap().is_empty());
}

#[test]
fn known_series_urls_reflects_any_decided_row() {
    let mut db = Db::new();
    let src = db.upsert_source("AnimeYT", "b", "animeytx").unwrap();
    let s = Series {
        id: 0, slug: "x".into(), title: "X".into(),
        url: "https://site/tv/x/".into(), cover_url: None, is_airing: false, followed: false, next_episode_at: None, site_episode_count: None,
    };
    let sid = db.upsert_series(src, &s).unwrap();
    db.set_backlog_status(sid, Some("discarded")).unwrap();

    let known = db.known_series_urls(src).unwrap();
    assert!(known.contains("https://site/tv/x/"));
    assert_eq!(known.len(), 1);
}
