use anime_on_track::db::Db;
use anime_on_track::models::Series;

#[test]
fn upsert_source_and_series_then_follow() {
    let mut db = Db::new();
    let src = db.upsert_source("AnimeYT", "https://wwv.animeytx.net", "animeytx").unwrap();

    let s = Series {
        id: 0,
        slug: "baki-dou".into(),
        title: "Baki-dou".into(),
        url: "https://wwv.animeytx.net/tv/baki-dou/".into(),
        cover_url: None,
        is_airing: true,
        followed: false, next_episode_at: None, site_episode_count: None,
    };
    let sid = db.upsert_series(src, &s).unwrap();
    let s2 = Series { title: "Baki-dou 2".into(), ..s.clone() };
    let sid2 = db.upsert_series(src, &s2).unwrap();
    assert_eq!(sid, sid2);

    db.set_followed(sid, true).unwrap();
    let airing = db.list_airing(src).unwrap();
    assert_eq!(airing.len(), 1);
    assert!(airing[0].followed);
    assert_eq!(airing[0].title, "Baki-dou 2");
}

#[test]
fn get_source_id_for_site_returns_none_when_never_scanned() {
    let mut db = Db::new();
    assert_eq!(db.get_source_id_for_site("tioanime").unwrap(), None);
}

#[test]
fn get_source_id_for_site_finds_the_tagged_row_and_ignores_other_sites() {
    let mut db = Db::new();
    let animeytx_id = db.upsert_source("AnimeYT", "https://a.example", "animeytx").unwrap();
    let tioanime_id = db.upsert_source("TioAnime", "https://b.example", "tioanime").unwrap();
    assert_eq!(db.get_source_id_for_site("animeytx").unwrap(), Some(animeytx_id));
    assert_eq!(db.get_source_id_for_site("tioanime").unwrap(), Some(tioanime_id));
    assert_ne!(animeytx_id, tioanime_id);
}
