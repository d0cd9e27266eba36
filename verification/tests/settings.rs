use anime_on_track::db::Db;
use anime_on_track::models::Series;

fn mk_airing(slug: &str, title: &str, next_episode_at: Option<i64>) -> Series {
    Series {
        id: 0,
        slug: slug.into(),
        title: title.into(),
        url: format!("https://site/tv/{slug}/"),
        cover_url: None,
        is_airing: true,
        followed: false,
        next_episode_at,
        site_episode_count: None,
    }
}

#[test]
fn last_checked_age_none_until_set_then_small() {
    let mut db = Db::new();
    let src = db.upsert_source("AnimeYT", "b", "animeytx").unwrap();
    let sid = db.upsert_series(src, &mk_airing("a", "A", None)).unwrap();
    assert_eq!(db.last_checked_age_secs(sid, 1_785_585_603).unwrap(), None);
    db.set_last_checked_at(sid, 1_785_585_600).unwrap();
    let age = db.last_checked_age_secs(sid, 1_785_585_603).unwrap().expect("age after set");
    assert!((0..60).contains(&age), "freshly-set age should be ~0s, got {age}");
}

#[test]
fn banned_genres_and_formats_round_trip_through_settings() {
    let mut db = Db::new();
    assert_eq!(db.get_banned_genres().unwrap(), Vec::<String>::new());
    assert_eq!(db.get_banned_formats().unwrap(), Vec::<String>::new());

    db.set_banned_genres(&["Horror".to_string(), "Mecha".to_string()]).unwrap();
    db.set_banned_formats(&["OVA".to_string()]).unwrap();

    assert_eq!(db.get_banned_genres().unwrap(), vec!["Horror".to_string(), "Mecha".to_string()]);
    assert_eq!(db.get_banned_formats().unwrap(), vec!["OVA".to_string()]);
}

#[test]
fn hide_upcoming_releases_defaults_false_and_round_trips_through_settings() {
    let mut db = Db::new();
    assert!(!db.get_hide_upcoming_releases().unwrap());

    db.set_hide_upcoming_releases(true).unwrap();
    assert!(db.get_hide_upcoming_releases().unwrap());

    db.set_hide_upcoming_releases(false).unwrap();
    assert!(!db.get_hide_upcoming_releases().unwrap());
}
