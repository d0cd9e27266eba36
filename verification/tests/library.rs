use anime_on_track::db::airing::PendingSort;
use anime_on_track::db::Db;
use anime_on_track::models::{Episode, Series};

const NOW: &str = "2026-08-01 12:00:00";

fn mk_airing(slug: &str, title: &str, next_episode_at: Option<i64>) -> Series {
    Series {
        id: 0,
        slug: slug.into(),
        title: title.into(),
        url: format!("https://site/tv/{slug}/"),
        cover_url: None,
        is_airing: true,
        followed: false,
        next_episode_at,
        site_episode_count: None,
    }
}

fn seed_followed(db: &mut Db, src: i64, slug: &str, title: &str, anilist_id: Option<i64>, seen_up_to: i64, total: i64) -> i64 {
    let sid = db.upsert_series(src, &mk_airing(slug, title, None)).unwrap();
    db.set_followed(sid, true).unwrap();
    if let Some(a) = anilist_id {
        db.set_anilist_id(sid, a).unwrap();
    }
    for n in 1..=total {
        db.insert_episode(&Episode {
            id: 0, series_id: sid, number: n.to_string(), title: None,
            url: format!("https://site/{slug}-{n}"), released_at: None, seen: false,
        }, NOW).unwrap();
    }
    if seen_up_to > 0 {
        db.set_seen_cascade(sid, &seen_up_to.to_string(), true, NOW).unwrap();
    }
    sid
}

#[test]
fn same_show_on_two_sites_is_one_library_entry_with_max_watermark() {
    let mut db = Db::new();
    let a = db.upsert_source("AnimeYT", "a", "animeytx").unwrap();
    let b = db.upsert_source("TioAnime", "b", "tioanime").unwrap();
    seed_followed(&mut db, a, "op", "One Piece", Some(21), 5, 10);
    seed_followed(&mut db, b, "one-piece", "ONE PIECE", Some(21), 8, 10);
    db.sync_library_from_series().unwrap();

    let lib = db.list_library_entries().unwrap();
    assert_eq!(lib.len(), 1, "one canonical entry across both sites");
    assert_eq!(lib[0].anilist_id, Some(21));
    assert!(lib[0].followed);
    assert_eq!(lib[0].seen_watermark, 8, "max progress across sites");
}

#[test]
fn no_anilist_id_groups_by_normalized_title() {
    let mut db = Db::new();
    let a = db.upsert_source("AnimeYT", "a", "animeytx").unwrap();
    let b = db.upsert_source("TioAnime", "b", "tioanime").unwrap();
    seed_followed(&mut db, a, "x", "Some Show", None, 3, 5);
    seed_followed(&mut db, b, "x2", "some  show", None, 1, 5);
    db.sync_library_from_series().unwrap();
    let lib = db.list_library_entries().unwrap();
    assert_eq!(lib.len(), 1, "grouped by normalized title");
    assert_eq!(lib[0].seen_watermark, 3);
}

#[test]
fn distinct_shows_stay_distinct_and_untouched_rows_excluded() {
    let mut db = Db::new();
    let a = db.upsert_source("AnimeYT", "a", "animeytx").unwrap();
    seed_followed(&mut db, a, "naruto", "Naruto", Some(20), 2, 5);
    seed_followed(&mut db, a, "bleach", "Bleach", Some(269), 0, 5);
    db.upsert_series(a, &mk_airing("filler", "Random Airing", None)).unwrap();
    db.sync_library_from_series().unwrap();
    let lib = db.list_library_entries().unwrap();
    assert_eq!(lib.len(), 2);
    assert!(lib.iter().all(|e| e.display_title == "Naruto" || e.display_title == "Bleach"));
}

#[test]
fn rebuild_is_idempotent() {
    let mut db = Db::new();
    let a = db.upsert_source("AnimeYT", "a", "animeytx").unwrap();
    seed_followed(&mut db, a, "op", "One Piece", Some(21), 5, 10);
    db.sync_library_from_series().unwrap();
    db.sync_library_from_series().unwrap();
    assert_eq!(db.list_library_entries().unwrap().len(), 1, "no duplication on re-sync");
}

#[test]
fn missing_on_site_lists_followed_entries_absent_from_that_site() {
    let mut db = Db::new();
    let a = db.upsert_source("AnimeYT", "a", "animeytx").unwrap();
    let b = db.upsert_source("TioAnime", "b", "tioanime").unwrap();
    seed_followed(&mut db, a, "op", "One Piece", Some(21), 5, 10);
    seed_followed(&mut db, a, "frieren", "Frieren", Some(154587), 3, 12);
    db.upsert_series(b, &mk_airing("one-piece", "One Piece", None)).unwrap();
    let bop = db.get_source_id_for_site("tioanime").unwrap().unwrap();
    let _ = bop;
    let op_b = db.series.iter().find(|s| s.source_id == b && s.slug == "one-piece").unwrap().id;
    db.set_anilist_id(op_b, 21).unwrap();
    db.sync_library_from_series().unwrap();

    let missing = db.library_entries_missing_on_site(b).unwrap();
    assert_eq!(missing.len(), 1, "only Frieren is missing on TioAnime");
    assert_eq!(missing[0].display_title, "Frieren");
    assert_eq!(missing[0].seen_watermark, 3);
}

#[test]
fn reconcile_flags_completed_twin_and_clears_it_from_pending() {
    let mut db = Db::new();
    let a = db.upsert_source("AnimeYT", "a", "animeytx").unwrap();
    let b = db.upsert_source("TioAnime", "b", "tioanime").unwrap();
    let ya = db.upsert_series(a, &mk_airing("op", "Some Finished Show", None)).unwrap();
    db.set_anilist_id(ya, 555).unwrap();
    db.set_watched_externally(ya, true).unwrap();
    let yb = seed_followed(&mut db, b, "sfs", "Some Finished Show", Some(555), 0, 5);
    db.series.iter_mut().find(|s| s.id == yb).unwrap().is_airing = false;
    assert_eq!(db.list_pending(b, PendingSort::RemainingAsc).unwrap().len(), 5, "starts flooded");

    let fixed = db.reconcile_completion_across_sites(NOW).unwrap();
    assert_eq!(fixed, 1);
    let eps = db.list_series_episodes(yb).unwrap();
    assert!(eps.iter().all(|e| !e.seen), "episodes NOT mutated (no data loss)");
    assert!(db.list_pending(b, PendingSort::RemainingAsc).unwrap().is_empty(), "no longer pending");
    assert_eq!(db.reconcile_completion_across_sites(NOW).unwrap(), 0);
}

#[test]
fn reconcile_never_completes_an_airing_show_being_caught_up() {
    let mut db = Db::new();
    let a = db.upsert_source("AnimeYT", "a", "animeytx").unwrap();
    let b = db.upsert_source("TioAnime", "b", "tioanime").unwrap();
    let base = db.upsert_series(a, &mk_airing("op", "One Piece", None)).unwrap();
    db.set_anilist_id(base, 21).unwrap();
    db.set_watched_externally(base, true).unwrap();
    let ob = seed_followed(&mut db, b, "one-piece", "ONE PIECE", Some(21), 3, 5);

    assert_eq!(db.reconcile_completion_across_sites(NOW).unwrap(), 0, "airing row not reconciled");
    let seen = db.list_series_episodes(ob).unwrap().iter().filter(|e| e.seen).count();
    assert_eq!(seen, 3, "real progress preserved, 2 still pending");
    assert_eq!(db.list_pending(b, PendingSort::RemainingAsc).unwrap().len(), 2);
}

#[test]
fn reconcile_marks_airing_zero_progress_twin_caught_up() {
    let mut db = Db::new();
    let a = db.upsert_source("AnimeYT", "a", "animeytx").unwrap();
    let b = db.upsert_source("TioAnime", "b", "tioanime").unwrap();
    let base = db.upsert_series(a, &mk_airing("tanya", "Saga of Tanya S2", None)).unwrap();
    db.set_anilist_id(base, 135865).unwrap();
    db.set_watched_externally(base, true).unwrap();
    let ob = seed_followed(&mut db, b, "youjo-senki-ii", "Youjo Senki II", Some(135865), 0, 3);

    assert_eq!(db.reconcile_completion_across_sites(NOW).unwrap(), 1);
    let eps = db.list_series_episodes(ob).unwrap();
    assert!(eps.iter().all(|e| e.seen), "aired episodes marked caught-up");
    let airing = db.list_airing(b).unwrap();
    assert!(airing.iter().any(|s| s.id == ob), "still in the airing grid");
    assert!(db.list_pending(b, PendingSort::RemainingAsc).unwrap().is_empty());
}

#[test]
fn reconcile_leaves_unrelated_shows_untouched() {
    let mut db = Db::new();
    let a = db.upsert_source("AnimeYT", "a", "animeytx").unwrap();
    let sid = seed_followed(&mut db, a, "op", "One Piece", Some(21), 3, 10);
    assert_eq!(db.reconcile_completion_across_sites(NOW).unwrap(), 0);
    let eps = db.list_series_episodes(sid).unwrap();
    assert_eq!(eps.iter().filter(|e| e.seen).count(), 3, "watermark untouched");
}

#[test]
fn follow_clears_backlog_tag_across_sites() {
    let mut db = Db::new();
    let a = db.upsert_source("AnimeYT", "a", "animeytx").unwrap();
    let b = db.upsert_source("TioAnime", "b", "tioanime").unwrap();
    seed_followed(&mut db, a, "op", "One Piece", Some(21), 3, 10);
    let bsid = db.upsert_series(b, &mk_airing("one-piece", "One Piece", None)).unwrap();
    db.set_anilist_id(bsid, 21).unwrap();
    db.set_backlog_status(bsid, Some("want")).unwrap();
    db.sync_library_from_series().unwrap();
    let lib = db.list_library_entries().unwrap();
    assert_eq!(lib.len(), 1);
    assert!(lib[0].followed);
    assert_eq!(lib[0].backlog_status, None, "a follow outranks a 'want' tag");
}
