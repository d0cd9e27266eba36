use anime_on_track::db::airing::PendingSort;
use anime_on_track::db::Db;
use anime_on_track::models::{CatalogAnime, Episode, Series};

const NOW: &str = "2026-08-01 12:00:00";

fn mk_airing(slug: &str, title: &str, next_episode_at: Option<i64>) -> Series {
    Series {
        id: 0,
        slug: slug.into(),
        title: title.into(),
        url: format!("https://site/tv/{slug}/"),
        cover_url: None,
        is_airing: true,
        followed: false,
        next_episode_at,
        site_episode_count: None,
    }
}

fn insert_eps_seen_up_to(db: &mut Db, series_id: i64, total: i64, seen_up_to: i64) {
    for i in 1..=total {
        db.insert_episode(
            &Episode {
                id: 0,
                series_id,
                number: i.to_string(),
                title: None,
                url: format!("https://site/{series_id}-{i}"),
                released_at: None,
                seen: false,
            },
            NOW,
        )
        .unwrap();
    }
    if seen_up_to >= 1 {
        db.set_seen_cascade(series_id, &seen_up_to.to_string(), true, NOW).unwrap();
    }
}

fn catalog_anime(id: i64, title: &str, genres: &[&str]) -> CatalogAnime {
    catalog_anime_with_popularity(id, title, genres, None)
}

fn catalog_anime_with_popularity(
    id: i64,
    title: &str,
    genres: &[&str],
    popularity: Option<i64>,
) -> CatalogAnime {
    CatalogAnime {
        id,
        title: title.into(),
        title_romaji: None,
        title_english: None,
        cover_url: Some(format!("https://cdn/{id}.jpg")),
        format: Some("TV".into()),
        genres: genres.iter().map(|g| g.to_string()).collect(),
        episodes: Some(12),
        average_score: Some(80),
        popularity,
        url: format!("https://anilist.co/anime/{id}"),
        status: None,
        duration: None,
        studio: None,
        start_date: None,
    }
}

#[test]
fn list_airing_orders_newest_first_nulls_last_title_tiebreak() {
    let mut db = Db::new();
    let src = db.upsert_source("AnimeYT", "b", "animeytx").unwrap();
    db.upsert_series(src, &mk_airing("older", "Older", Some(1_000_000))).unwrap();
    db.upsert_series(src, &mk_airing("newer", "Newer", Some(2_000_000))).unwrap();
    db.upsert_series(src, &mk_airing("nodate", "NoDate", None)).unwrap();
    db.upsert_series(src, &mk_airing("tie-b", "Tie B", Some(1_000_000))).unwrap();

    let titles: Vec<String> = db.list_airing(src).unwrap().into_iter().map(|s| s.title).collect();
    assert_eq!(titles, vec!["Newer", "Older", "Tie B", "NoDate"]);
}

#[test]
fn pending_count_and_list_pending_are_scoped_per_source() {
    let mut db = Db::new();
    let src_a = db.upsert_source("AnimeYT", "https://a.example", "animeytx").unwrap();
    let src_b = db.upsert_source("TioAnime", "https://b.example", "tioanime").unwrap();

    let mk = |slug: &str| Series {
        id: 0, slug: slug.into(), title: slug.into(), url: format!("u-{slug}"),
        cover_url: None, is_airing: true, followed: false, next_episode_at: None, site_episode_count: None,
    };
    let sid_a = db.upsert_series(src_a, &mk("a")).unwrap();
    db.set_followed(sid_a, true).unwrap();
    let sid_b = db.upsert_series(src_b, &mk("b")).unwrap();
    db.set_followed(sid_b, true).unwrap();

    db.insert_episode(&Episode {
        id: 0, series_id: sid_a, number: "1".into(), title: None,
        url: "https://a.example/ep1".into(), released_at: None, seen: false,
    }, NOW)
    .unwrap();
    db.insert_episode(&Episode {
        id: 0, series_id: sid_b, number: "1".into(), title: None,
        url: "https://b.example/ep1".into(), released_at: None, seen: false,
    }, NOW)
    .unwrap();
    db.insert_episode(&Episode {
        id: 0, series_id: sid_b, number: "2".into(), title: None,
        url: "https://b.example/ep2".into(), released_at: None, seen: false,
    }, NOW)
    .unwrap();

    assert_eq!(db.pending_count(src_a).unwrap(), 1);
    assert_eq!(db.pending_count(src_b).unwrap(), 2);
    assert_eq!(db.list_pending(src_a, PendingSort::RemainingAsc).unwrap().len(), 1);
    assert_eq!(db.list_pending(src_b, PendingSort::RemainingAsc).unwrap().len(), 2);
    assert!(db
        .list_pending(src_a, PendingSort::RemainingAsc)
        .unwrap()
        .iter()
        .all(|(s, _)| s.id == sid_a));
}

#[test]
fn list_pending_orders_groups_by_remaining_count() {
    let mut db = Db::new();
    let src = db.upsert_source("AnimeYT", "https://a.example", "animeytx").unwrap();
    let mk = |slug: &str| Series {
        id: 0, slug: slug.into(), title: slug.into(), url: format!("u-{slug}"),
        cover_url: None, is_airing: true, followed: false, next_episode_at: None, site_episode_count: None,
    };
    let few = db.upsert_series(src, &mk("few")).unwrap();
    db.set_followed(few, true).unwrap();
    let many = db.upsert_series(src, &mk("many")).unwrap();
    db.set_followed(many, true).unwrap();
    db.insert_episode(&Episode {
        id: 0, series_id: few, number: "1".into(), title: None,
        url: "few/1".into(), released_at: None, seen: false,
    }, NOW).unwrap();
    for n in 1..=3 {
        db.insert_episode(&Episode {
            id: 0, series_id: many, number: n.to_string(), title: None,
            url: format!("many/{n}"), released_at: None, seen: false,
        }, NOW).unwrap();
    }

    let asc = db.list_pending(src, PendingSort::RemainingAsc).unwrap();
    assert_eq!(asc.first().unwrap().0.id, few);
    assert_eq!(asc.last().unwrap().0.id, many);
    let desc = db.list_pending(src, PendingSort::RemainingDesc).unwrap();
    assert_eq!(desc.first().unwrap().0.id, many);
    assert_eq!(desc.last().unwrap().0.id, few);
    let ids: Vec<i64> = asc.iter().map(|(s, _)| s.id).collect();
    assert_eq!(ids, vec![few, many, many, many]);
}

#[test]
fn list_airing_is_a_canonical_union_deduped_across_sites() {
    let mut db = Db::new();
    let a = db.upsert_source("AnimeYT", "https://a", "animeytx").unwrap();
    let b = db.upsert_source("TioAnime", "https://b", "tioanime").unwrap();
    let mk = |slug: &str, title: &str| Series {
        id: 0, slug: slug.into(), title: title.into(), url: format!("u-{slug}"),
        cover_url: None, is_airing: true, followed: false, next_episode_at: None, site_episode_count: None,
    };
    db.upsert_catalog_anime(&catalog_anime(21, "One Piece", &["Action"]), 0).unwrap();
    db.upsert_catalog_anime(&catalog_anime(99, "AnimeYT Only", &["Action"]), 0).unwrap();
    let one_a = db.upsert_series(a, &mk("op-a", "ONE PIECE")).unwrap();
    db.set_anilist_id(one_a, 21).unwrap();
    let one_b = db.upsert_series(b, &mk("op-b", "one piece latino")).unwrap();
    db.set_anilist_id(one_b, 21).unwrap();
    let solo = db.upsert_series(a, &mk("solo", "AnimeYT Only")).unwrap();
    db.set_anilist_id(solo, 99).unwrap();

    let from_a = db.list_airing(a).unwrap();
    let from_b = db.list_airing(b).unwrap();
    assert_eq!(from_a.len(), 2, "deduped: One Piece appears once, not twice");
    let titles_a: Vec<&str> = from_a.iter().map(|s| s.title.as_str()).collect();
    let titles_b: Vec<&str> = from_b.iter().map(|s| s.title.as_str()).collect();
    assert_eq!(titles_a, titles_b, "same airing set on either active site");
    let op_from_b = from_b.iter().find(|s| s.title.eq_ignore_ascii_case("one piece")).unwrap();
    assert_eq!(op_from_b.id, one_b, "active-site member is the representative");
}

#[test]
fn list_airing_uses_the_freshest_next_episode_at_across_merged_members() {
    let mut db = Db::new();
    let a = db.upsert_source("AnimeYT", "https://a", "animeytx").unwrap();
    let b = db.upsert_source("TioAnime", "https://b", "tioanime").unwrap();
    let mk = |slug: &str, title: &str, next: Option<i64>| Series {
        id: 0, slug: slug.into(), title: title.into(), url: format!("u-{slug}"),
        cover_url: None, is_airing: true, followed: false, next_episode_at: next, site_episode_count: None,
    };
    let one_a = db.upsert_series(a, &mk("op-a", "One Piece", None)).unwrap();
    db.set_anilist_id(one_a, 21).unwrap();
    let one_b = db.upsert_series(b, &mk("op-b", "One Piece", Some(1_800_000_000))).unwrap();
    db.set_anilist_id(one_b, 21).unwrap();

    let airing = db.list_airing(a).unwrap();
    assert_eq!(airing.len(), 1);
    let entry = &airing[0];
    assert_eq!(entry.id, one_a, "active-site member is still the representative for id/url");
    assert_eq!(
        entry.next_episode_at,
        Some(1_800_000_000),
        "but the sort-relevant timestamp is the freshest across the whole group"
    );
}

#[test]
fn list_airing_dedups_unlinked_season_variants_across_sites() {
    let mut db = Db::new();
    let a = db.upsert_source("AnimeYT", "https://a", "animeytx").unwrap();
    let b = db.upsert_source("TioAnime", "https://b", "tioanime").unwrap();
    let mk = |slug: &str, title: &str| Series {
        id: 0, slug: slug.into(), title: title.into(), url: format!("u-{slug}"),
        cover_url: None, is_airing: true, followed: false, next_episode_at: None, site_episode_count: None,
    };
    db.upsert_series(a, &mk("hm-a", "Hell Mode: Yarikomizuki no Gamer Temporada 2")).unwrap();
    db.upsert_series(b, &mk("hm-b", "Hell Mode: Yarikomizuki no Gamer 2nd Season")).unwrap();
    let airing = db.list_airing(a).unwrap();
    assert_eq!(airing.len(), 1, "unlinked season variants dedup to one entry");
}

#[test]
fn list_airing_marks_followed_when_any_site_follows_it() {
    let mut db = Db::new();
    let a = db.upsert_source("AnimeYT", "https://a", "animeytx").unwrap();
    let b = db.upsert_source("TioAnime", "https://b", "tioanime").unwrap();
    let mk = |slug: &str, title: &str| Series {
        id: 0, slug: slug.into(), title: title.into(), url: format!("u-{slug}"),
        cover_url: None, is_airing: true, followed: false, next_episode_at: None, site_episode_count: None,
    };
    let one_a = db.upsert_series(a, &mk("op-a", "ONE PIECE")).unwrap();
    db.set_anilist_id(one_a, 21).unwrap();
    let one_b = db.upsert_series(b, &mk("op-b", "One Piece")).unwrap();
    db.set_anilist_id(one_b, 21).unwrap();
    db.set_followed(one_a, true).unwrap();

    let op = db.list_airing(b).unwrap().into_iter().find(|s| s.title.eq_ignore_ascii_case("one piece")).unwrap();
    assert!(op.followed, "followed on any site => followed in the canonical list");
}

#[test]
fn set_followed_canonical_follows_the_show_on_every_site() {
    let mut db = Db::new();
    let a = db.upsert_source("AnimeYT", "https://a", "animeytx").unwrap();
    let b = db.upsert_source("TioAnime", "https://b", "tioanime").unwrap();
    let mk = |slug: &str, title: &str| Series {
        id: 0, slug: slug.into(), title: title.into(), url: format!("u-{slug}"),
        cover_url: None, is_airing: true, followed: false, next_episode_at: None, site_episode_count: None,
    };
    let one_a = db.upsert_series(a, &mk("op-a", "ONE PIECE")).unwrap();
    db.set_anilist_id(one_a, 21).unwrap();
    let one_b = db.upsert_series(b, &mk("op-b", "One Piece")).unwrap();
    db.set_anilist_id(one_b, 21).unwrap();

    let changed = db.set_followed_canonical(one_b, true).unwrap();
    assert_eq!(changed, 2);
    assert!(db.list_followed(a).unwrap().iter().any(|s| s.id == one_a));
    assert!(db.list_followed(b).unwrap().iter().any(|s| s.id == one_b));

    let x1 = db.upsert_series(a, &mk("x1", "Some  Show")).unwrap();
    let x2 = db.upsert_series(b, &mk("x2", "some show")).unwrap();
    assert_eq!(db.set_followed_canonical(x1, true).unwrap(), 2);
    assert!(db.list_followed(b).unwrap().iter().any(|s| s.id == x2));
}
