use anime_on_track::calendar::{all_days, recent_days, CivilDate};
use anime_on_track::catalog_index::{CatalogIndex, CatalogTitleRow};
use anime_on_track::db::airing::PendingSort;
use anime_on_track::db::catalog::CatalogFilter;
use anime_on_track::db::franchise::{franchise_key, prefer_display_title, FranchiseRollup};
use anime_on_track::db::identity::canon_key;
use anime_on_track::db::settings::{read_list, write_list};
use anime_on_track::db::Db;
use anime_on_track::diff::new_episodes;
use anime_on_track::genres::{canonical_genre, strip_accents};
use anime_on_track::html_cache::{HtmlCache, HTML_CACHE_MAX_ENTRIES, HTML_CACHE_TTL};
use anime_on_track::listing::{list_text, order_nocase, tally};
use anime_on_track::matching::{
    best_match, distinct_extension, franchise_base, levenshtein, normalize_title, score,
    TitleCandidate, MATCH_THRESHOLD, SCORE_ONE, SEASON_BONUS,
};
use anime_on_track::models::{CatalogAnime, Episode, Series};
use anime_on_track::natural::Natural;
use anime_on_track::recommend::{dampen_genre_weight, pick_place, W_QUALITY};
use anime_on_track::rows::group_rows;
use anime_on_track::scraper_engine::{
    begin_cover, begin_scrape, continue_cover, continue_scrape, CoverAction, CoverFailure,
    CoverStage, PollAction, Polling, ScrapeAction, ScrapeFailure, ScrapeStage, ScriptOutcome,
    COVER_POLLS, MAX_INTERVAL, MAX_WAIT, MIN_INTERVAL,
};
use anime_on_track::swipe::{index_for, pick_index, shuffle, weighted_index_for, Draws};

const NOW: &str = "2026-08-01 12:00:00";
const LATER: &str = "2026-08-02 12:00:00";

fn series(slug: &str, title: &str) -> Series {
    Series {
        id: 0,
        slug: slug.into(),
        title: title.into(),
        url: format!("https://site/tv/{slug}/"),
        cover_url: None,
        is_airing: true,
        followed: false,
        next_episode_at: None,
        site_episode_count: None,
    }
}

fn episode(series_id: i64, number: &str) -> Episode {
    Episode {
        id: 0,
        series_id,
        number: number.into(),
        title: None,
        url: format!("https://site/{series_id}-{number}/"),
        released_at: None,
        seen: false,
    }
}

fn anime(id: i64, title: &str, popularity: Option<i64>) -> CatalogAnime {
    CatalogAnime {
        id,
        title: title.into(),
        title_romaji: None,
        title_english: None,
        cover_url: None,
        format: Some("TV".into()),
        genres: vec!["Drama".into()],
        episodes: Some(12),
        average_score: Some(80),
        popularity,
        url: format!("https://anilist.co/anime/{id}"),
        status: None,
        duration: None,
        studio: None,
        start_date: None,
    }
}

fn chars(s: &str) -> Vec<char> {
    s.chars().collect()
}

fn seen(db: &Db, id: i64) -> Vec<bool> {
    db.list_series_episodes(id).unwrap().iter().map(|e| e.seen).collect()
}

fn show_with_episodes(db: &mut Db, count: usize) -> i64 {
    let src = db.upsert_source("A", "a", "animeytx").unwrap();
    let id = db.upsert_series(src, &series("s", "S")).unwrap();
    for n in 1..=count {
        db.insert_episode(&episode(id, &n.to_string()), NOW).unwrap();
    }
    id
}

#[test]
fn edit_distance_is_a_distance() {
    let (a, b) = (chars("kitten"), chars("sitting"));
    assert_eq!(levenshtein(&a, &b), 3);
    assert_eq!(levenshtein(&b, &a), 3);
    assert_eq!(levenshtein(&a, &a), 0);
    assert_eq!(levenshtein(&chars(""), &b), 7);
    let c = chars("sitten");
    assert_eq!((levenshtein(&a, &c), levenshtein(&c, &b)), (1, 2));
}

#[test]
fn noise_does_not_count() {
    let plain = normalize_title("Acción 7");
    assert_eq!(plain, "accion 7");
    for noise in [" Sub Español", " Latino", " Castellano", " HD", " Online"] {
        assert_eq!(normalize_title(&format!("Acción 7{noise}")), plain);
    }
    assert_eq!(normalize_title(&plain), plain);
}

#[test]
fn spelling_of_tags_does_not_count() {
    for raw in ["Acción", "ACCIóN", " accion ", "Accion", "\taction"] {
        assert_eq!(canonical_genre(raw), Some("Action"));
    }
    assert_eq!(canonical_genre("Slice of Life"), Some("Slice of Life"));
    assert_eq!(canonical_genre("Isekai"), None);
}

#[test]
fn scores_are_symmetric_and_bounded() {
    for (a, b) in [("one piece", "one punch man"), ("overlord", "overlord iv"), ("a b", "b a")] {
        assert_eq!(score(a, b), score(b, a));
        assert!(score(a, b) <= SCORE_ONE);
    }
    assert_eq!(score("one piece", "one piece"), SCORE_ONE);
    assert!(score("overlord", "overlord iv") >= SEASON_BONUS);
    assert!(score("steins gate", "steins gate 0") < MATCH_THRESHOLD);
    assert!(distinct_extension("steins gate", "steins gate 0"));
}

#[test]
fn best_match_keeps_the_first_of_equal_candidates() {
    let candidates = vec![
        TitleCandidate { title: "Naruto", url: "u1" },
        TitleCandidate { title: "naruto", url: "u2" },
    ];
    let m = best_match(&["Naruto"], &candidates).unwrap();
    assert_eq!(m.index, 0);
    assert_eq!(m.score, SCORE_ONE);
}

#[test]
fn stripping_a_title_twice_changes_nothing() {
    let once = franchise_base(&chars("spy x family season 2"));
    assert_eq!(once.iter().collect::<String>(), "spy x family");
    assert_eq!(franchise_base(&once), once);
    let norm = normalize_title("Bleach Sub Español HD");
    assert_eq!(normalize_title(&norm), norm);
    assert_eq!(strip_accents("Acción"), "Accion");
    assert_eq!(strip_accents(&strip_accents("Acción")), "Accion");
}

#[test]
fn catalog_index_prefers_popularity_then_the_lower_id_in_any_order() {
    let row = |id, popularity| CatalogTitleRow { id, titles: vec!["X".to_string()], popularity };
    let forward = CatalogIndex::build(&[row(3, 10), row(2, 10), row(9, 4)]);
    let backward = CatalogIndex::build(&[row(9, 4), row(2, 10), row(3, 10)]);
    assert_eq!(forward.lookup(&["x"]), backward.lookup(&["x"]));
    assert_eq!(forward.lookup(&["x"]), Some(2));
}

#[test]
fn calendar_counts_every_day_of_a_year() {
    let leap = all_days(2024);
    assert_eq!(leap.len(), 366);
    assert_eq!(leap[0], "2024-01-01");
    assert_eq!(leap[59], "2024-02-29");
    assert_eq!(leap[365], "2024-12-31");
    let plain = all_days(2025);
    assert_eq!(plain.len(), 365);
    assert_eq!(plain[59], "2025-03-01");
    assert_eq!(all_days(1900).len(), 365);
    assert_eq!(all_days(2000).len(), 366);
}

#[test]
fn recent_days_cross_month_and_year() {
    let days = recent_days(CivilDate { year: 2024, month: 3, day: 1 }, 3);
    assert_eq!(days, vec!["2024-02-28", "2024-02-29", "2024-03-01"]);
    let days = recent_days(CivilDate { year: 2026, month: 1, day: 2 }, 30);
    assert_eq!(days.len(), 30);
    assert_eq!(days[0], "2025-12-04");
    assert_eq!(days[29], "2026-01-02");
}

#[test]
fn watching_stays_gap_free_and_is_undone() {
    let mut db = Db::new();
    let id = show_with_episodes(&mut db, 5);
    db.set_seen_cascade(id, "3", true, NOW).unwrap();
    assert_eq!(seen(&db, id), vec![true, true, true, false, false]);
    db.set_seen_cascade(id, "3", true, LATER).unwrap();
    assert_eq!(seen(&db, id), vec![true, true, true, false, false]);
    db.set_seen_cascade(id, "3", false, LATER).unwrap();
    assert_eq!(seen(&db, id), vec![true, true, false, false, false]);
    db.set_seen_cascade(id, "5", true, LATER).unwrap();
    assert_eq!(seen(&db, id), vec![true; 5]);
}

#[test]
fn classifications_are_reversible() {
    let mut db = Db::new();
    let id = show_with_episodes(&mut db, 1);
    let before = db.series.clone();
    db.set_followed(id, true).unwrap();
    assert_ne!(db.series, before);
    db.set_followed(id, false).unwrap();
    assert_eq!(db.series, before);
    db.set_watched_externally(id, true).unwrap();
    assert_ne!(db.series, before);
    db.set_watched_externally(id, false).unwrap();
    assert_eq!(db.series, before);
    db.set_backlog_status(id, Some("want")).unwrap();
    assert_ne!(db.series, before);
    db.set_backlog_status(id, None).unwrap();
    assert_eq!(db.series, before);
    db.set_backlog_status(id, Some("want")).unwrap();
    let wanted = db.series.clone();
    db.set_backlog_status(id, Some("discarded")).unwrap();
    assert_ne!(db.series, wanted);
    db.set_backlog_status(id, Some("want")).unwrap();
    assert_eq!(db.series, wanted);
}

#[test]
fn carried_number_is_taken_once() {
    let mut db = Db::new();
    let id = show_with_episodes(&mut db, 1);
    assert!(db.carry_follow(id, 7).unwrap());
    assert!(!db.carry_follow(id, 9).unwrap());
    assert_eq!(db.take_carried_seen_number(id).unwrap(), Some(7));
    assert_eq!(db.take_carried_seen_number(id).unwrap(), None);
}

#[test]
fn keys_identify_shows() {
    assert_eq!(canon_key(Some(21), "One Piece"), "al:21");
    assert_eq!(canon_key(None, "ONE  PIECE!"), "t:one piece");
    assert_eq!(canon_key(Some(21), "x"), canon_key(Some(21), "y"));
    assert_ne!(canon_key(Some(2), "x"), canon_key(Some(21), "x"));
    assert_eq!(canon_key(Some(-5), "x"), "al:-5");
}

#[test]
fn library_is_the_same_from_every_site() {
    let mut db = Db::new();
    let a = db.upsert_source("A", "a", "animeytx").unwrap();
    let b = db.upsert_source("B", "b", "tioanime").unwrap();
    let on_a = db.upsert_series(a, &series("x", "Show")).unwrap();
    let on_b = db.upsert_series(b, &series("x", "Show")).unwrap();
    db.set_followed(on_a, true).unwrap();
    db.set_followed(on_b, true).unwrap();
    db.insert_episode(&episode(on_a, "1"), NOW).unwrap();
    db.set_seen_cascade(on_a, "1", true, NOW).unwrap();
    let from_a = db.list_library(a).unwrap();
    let from_b = db.list_library(b).unwrap();
    assert_eq!((from_a.len(), from_b.len()), (1, 1));
    assert_eq!(from_a[0].series.id, on_a);
    assert_eq!(from_b[0].series.id, on_b);
    assert_eq!(from_a[0].seen_episodes, from_b[0].seen_episodes);
    assert_eq!(from_a[0].total_episodes, 1);
}

#[test]
fn carrying_watched_shows_across_settles() {
    let mut db = Db::new();
    let a = db.upsert_source("A", "a", "animeytx").unwrap();
    let b = db.upsert_source("B", "b", "tioanime").unwrap();
    let on_a = db.upsert_series(a, &series("x", "Show")).unwrap();
    let mut finished = series("x", "Show");
    finished.is_airing = false;
    let on_b = db.upsert_series(b, &finished).unwrap();
    db.set_watched_externally(on_a, true).unwrap();
    db.set_followed(on_b, true).unwrap();
    db.insert_episode(&episode(on_b, "1"), NOW).unwrap();
    assert_eq!(db.reconcile_completion_across_sites(NOW).unwrap(), 1);
    let settled = db.series.clone();
    assert_eq!(db.reconcile_completion_across_sites(LATER).unwrap(), 0);
    assert_eq!(db.series, settled);
}

#[test]
fn rebuilt_library_is_the_same() {
    let mut db = Db::new();
    let id = show_with_episodes(&mut db, 3);
    db.set_followed(id, true).unwrap();
    db.set_seen_cascade(id, "2", true, NOW).unwrap();
    db.sync_library_from_series().unwrap();
    let first = db.list_library_entries().unwrap();
    db.sync_library_from_series().unwrap();
    assert_eq!(db.list_library_entries().unwrap(), first);
    assert_eq!(first[0].seen_watermark, 2);
}

#[test]
fn franchises_have_a_key_and_one_shown_title() {
    assert_eq!(franchise_key("Season 2"), "season 2");
    assert_eq!(franchise_key("!!!"), "!!!");
    assert!(prefer_display_title("Naruto", "Naruto Shippuden"));
    assert!(!prefer_display_title("Naruto Shippuden", "Naruto"));
    assert!(prefer_display_title("One Piece", "ONE PIECE"));
    assert!(!prefer_display_title("ONE PIECE", "One Piece"));
    assert!(!prefer_display_title("Bleach", "Bleach"));
}

#[test]
fn marks_and_credit_add_up_to_the_larger_count() {
    let rollup = |real_seen, external_episodes| FranchiseRollup {
        display_title: "X".into(),
        real_seen,
        real_minutes: real_seen * 24,
        external_episodes,
        external_minutes: external_episodes * 24,
    };
    let r = rollup(30, 100);
    assert_eq!((r.episodes(), r.extra_external_episodes(), r.extra_external_minutes()), (100, 70, 1680));
    assert_eq!(r.real_seen + r.extra_external_episodes(), r.episodes());
    let r = rollup(120, 100);
    assert_eq!((r.episodes(), r.extra_external_episodes(), r.extra_external_minutes()), (120, 0, 0));
}

#[test]
fn summary_counts_every_episode_once() {
    let mut db = Db::new();
    let marked = show_with_episodes(&mut db, 4);
    db.set_seen_cascade(marked, "2", true, NOW).unwrap();
    let mut entry = anime(7, "Credited", None);
    entry.episodes = Some(12);
    db.upsert_catalog_anime(&entry, 0).unwrap();
    let src = db.series[0].source_id;
    let credited = db.upsert_series(src, &series("credited", "Credited")).unwrap();
    db.set_watched_externally(credited, true).unwrap();
    db.set_anilist_id(credited, 7).unwrap();
    for n in 1..=3 {
        let number = format!("{n}");
        let row = Episode { url: format!("credited-{n}"), ..episode(credited, &number) };
        db.insert_episode(&row, NOW).unwrap();
    }
    db.set_seen_cascade(credited, "3", true, NOW).unwrap();
    let summary = db.get_watch_summary().unwrap();
    let rollups = db.franchise_rollups().unwrap();
    let larger: i64 = rollups.iter().map(|r| r.episodes()).sum();
    assert_eq!((summary.episodes_watched, summary.episodes_watched_external), (5, 9));
    assert_eq!(summary.episodes_watched + summary.episodes_watched_external, larger);
}

#[test]
fn summary_and_insights_agree() {
    let mut db = Db::new();
    let id = show_with_episodes(&mut db, 4);
    db.set_followed(id, true).unwrap();
    db.set_seen_cascade(id, "2", true, NOW).unwrap();
    let summary = db.get_watch_summary().unwrap();
    let days = vec!["2026-08-01".to_string(); 2];
    let insights =
        db.get_watch_insights(&days, CivilDate { year: 2026, month: 8, day: 1 }).unwrap();
    assert_eq!(summary.airing_followed, insights.followed_airing);
    assert_eq!(summary.backlog_want, insights.want);
    assert_eq!(summary.episodes_watched, 2);
    assert_eq!(summary.episodes_total, 4);
    assert_eq!(insights.estimated_minutes_tracked, 48);
    assert_eq!(db.get_watch_summary().unwrap(), summary);
    assert_eq!(insights.marks_by_day[29].count, 2);
    assert_eq!(insights.marks_tracked_since.as_deref(), Some("2026-08-01"));
}

#[test]
fn settings_and_lists_are_read_back() {
    let mut db = Db::new();
    assert_eq!(db.get_setting("k").unwrap(), None);
    db.set_setting("k", "v").unwrap();
    db.set_setting("k", "w").unwrap();
    assert_eq!(db.get_setting("k").unwrap().as_deref(), Some("w"));
    db.delete_setting("k").unwrap();
    assert_eq!(db.get_setting("k").unwrap(), None);
    let items = vec!["Horror".to_string(), "Slice of Life".to_string()];
    assert_eq!(write_list(&items), "Horror\nSlice of Life");
    assert_eq!(read_list(&write_list(&items)), items);
    assert_eq!(read_list("  a \r\n\n b"), vec!["a", "b"]);
}

#[test]
fn rescans_under_new_addresses_find_nothing() {
    let mut db = Db::new();
    let id = show_with_episodes(&mut db, 2);
    let known = db.existing_episode_numbers(id).unwrap();
    let mut moved = vec![episode(id, "1"), episode(id, "2")];
    for e in moved.iter_mut() {
        e.url = format!("https://other/{}", e.number);
    }
    assert!(new_episodes(&moved, &known).is_empty());
    moved.push(episode(id, "3"));
    assert_eq!(new_episodes(&moved, &known), vec![episode(id, "3")]);
}

#[test]
fn catalog_entries_are_read_back_and_paged() {
    let mut db = Db::new();
    for i in 1..=5 {
        db.upsert_catalog_anime(&anime(i, &format!("T{i}"), Some(i * 10)), i).unwrap();
    }
    let mut changed = anime(3, "Changed", None);
    changed.genres = vec!["Action".into(), "Action".into(), "Comedy".into()];
    db.upsert_catalog_anime(&changed, 9).unwrap();
    assert_eq!(db.get_catalog_titles(3).unwrap().unwrap().0, "Changed");
    assert_eq!(db.list_catalog_genres(3).unwrap(), vec!["Action", "Comedy"]);
    assert_eq!(db.list_catalog_genres(4).unwrap(), vec!["Drama"]);
    let ids = |page| -> Vec<i64> {
        db.list_catalog(page, 2).unwrap().iter().map(|a| a.id).collect()
    };
    assert_eq!((ids(1), ids(2), ids(3), ids(4)), (vec![5, 4], vec![2, 1], vec![3], vec![]));
    assert_eq!(ids(0), ids(1));
    assert_eq!(db.list_catalog(1, -1).unwrap().len(), 5);
    assert_eq!(db.catalog_count().unwrap(), 5);
    let all = db.list_catalog_filtered(1, 9, &CatalogFilter::default()).unwrap();
    assert_eq!(all.len(), 5);
}

#[test]
fn queue_is_ordered_by_what_is_left() {
    let mut db = Db::new();
    let src = db.upsert_source("A", "a", "animeytx").unwrap();
    for (slug, title, count) in [("a", "Alpha", 3), ("b", "Beta", 1)] {
        let id = db.upsert_series(src, &series(slug, title)).unwrap();
        db.set_followed(id, true).unwrap();
        for n in (1..=count).rev() {
            db.insert_episode(&episode(id, &n.to_string()), NOW).unwrap();
        }
    }
    let order = |sort| -> Vec<String> {
        let list = db.list_pending(src, sort).unwrap();
        list.iter().map(|(s, e)| format!("{}{}", s.title, e.number)).collect()
    };
    assert_eq!(order(PendingSort::RemainingAsc), vec!["Beta1", "Alpha1", "Alpha2", "Alpha3"]);
    assert_eq!(order(PendingSort::RemainingDesc), vec!["Alpha1", "Alpha2", "Alpha3", "Beta1"]);
    assert_eq!(db.pending_count(src).unwrap(), 4);
}

#[test]
fn groups_partition_their_rows() {
    let keys: Vec<String> = ["a", "b", "a", "c", "b"].iter().map(|s| s.to_string()).collect();
    assert_eq!(group_rows(&keys), vec![vec![0, 2], vec![1, 4], vec![3]]);
}

#[test]
fn lists_hold_every_text_once_in_order() {
    let mut list = Vec::new();
    for t in ["b", "a", "B", "b", "c"] {
        list_text(&mut list, t);
    }
    assert_eq!(list, vec!["B", "a", "b", "c"]);
    assert_eq!(order_nocase(list), vec!["a", "B", "b", "c"]);
    let labels = vec![
        vec!["x".to_string(), "y".to_string()],
        vec!["y".to_string()],
        vec!["z".to_string()],
    ];
    let counts: Vec<(String, i64)> =
        tally(&labels).into_iter().map(|t| (t.label, t.count)).collect();
    let want = vec![("y".to_string(), 2), ("x".to_string(), 1), ("z".to_string(), 1)];
    assert_eq!(counts, want);
}

#[test]
fn cached_pages_live_for_their_time_and_make_room() {
    let mut cache = HtmlCache::default();
    cache.put("u", "x".into(), 5);
    assert_eq!(cache.get("u", 5 + HTML_CACHE_TTL - 1).as_deref(), Some("x"));
    assert_eq!(cache.get("u", 1).as_deref(), Some("x"));
    assert_eq!(cache.get("u", 5 + HTML_CACHE_TTL), None);
    for i in 0..HTML_CACHE_MAX_ENTRIES {
        cache.put(&format!("u{i}"), "x".into(), 100 - i as u64);
    }
    cache.put("new", "y".into(), 200);
    assert_eq!(cache.len(), HTML_CACHE_MAX_ENTRIES);
    assert_eq!(cache.get(&format!("u{}", HTML_CACHE_MAX_ENTRIES - 1), 200), None);
    assert!(cache.get("u0", 200).is_some());
}

#[test]
fn draws_scale_to_every_place() {
    assert_eq!(index_for(0, 10), Some(0));
    assert_eq!(index_for(u64::MAX, 10), Some(9));
    assert_eq!(index_for(u64::MAX / 2 + 1, 10), Some(5));
    assert_eq!(index_for(7, 0), None);
    for place in 0..7u128 {
        let draw = ((place << 64) / 7 + 1) as u64;
        assert_eq!(index_for(draw, 7), Some(place as usize));
    }
}

#[test]
fn generator_gives_the_known_sequence() {
    let mut draws = Draws::new(0);
    assert_eq!(draws.next_u64(), 0xE220_A839_7B1D_CDAF);
    assert_eq!(draws.next_u64(), 0x6E78_9E6A_A1B9_65F4);
    assert_eq!(draws.next_u64(), 0x06C4_5D18_8009_454F);
}

#[test]
fn weighted_draws_fall_on_positive_weights() {
    let weights = vec![0, 3, -5, 1];
    assert_eq!(weighted_index_for(0, &weights), Some(1));
    assert_eq!(weighted_index_for(u64::MAX / 4 * 3 - 9, &weights), Some(1));
    assert_eq!(weighted_index_for(u64::MAX, &weights), Some(3));
    assert_eq!(weighted_index_for(u64::MAX, &vec![0, -1]), Some(1));
}

#[test]
fn shuffles_are_permutations() {
    let mut items: Vec<u32> = (0..50).collect();
    let mut draws = Draws::new(1);
    shuffle(&mut items, &mut draws);
    assert_ne!(items, (0..50).collect::<Vec<u32>>());
    items.sort();
    assert_eq!(items, (0..50).collect::<Vec<u32>>());
    let mut none: Vec<u32> = Vec::new();
    shuffle(&mut none, &mut draws);
    assert!(none.is_empty());
}

/// A number in decimal digits.
fn decimal(n: &Natural) -> String {
    let mut limbs = n.limbs.clone();
    let mut digits = Vec::new();
    while limbs.iter().any(|l| *l > 0) {
        let mut rest = 0u64;
        for limb in limbs.iter_mut().rev() {
            let part = (rest << 32) + u64::from(*limb);
            *limb = (part / 10) as u32;
            rest = part % 10;
        }
        digits.push(char::from(b'0' + rest as u8));
    }
    digits.iter().rev().collect()
}

#[test]
fn dampening_is_the_three_fifths_power() {
    let weight = |half_points| decimal(&dampen_genre_weight(half_points));
    assert_eq!(weight(1), "6597539553864471296870009856148200665167");
    assert_eq!(weight(2), "10000000000000000000000000000000000000000");
    assert_eq!(weight(64), "80000000000000000000000000000000000000000");
    assert_eq!(weight(1_000_000), "26265278044037672364551312664964795821156628");
    assert_eq!(weight(i64::MAX), "1578758997658004329870815290011459360739269541412554");
    assert_eq!(weight(i64::MIN), "");
    let lead = dampen_genre_weight(8).plus(&Natural::of(1)).times(&Natural::of(5));
    assert!(dampen_genre_weight(40).at_most(&lead));
    let mut hundredth = Natural::of(1);
    for _ in 0..38 {
        hundredth = hundredth.times(&Natural::of(10));
    }
    assert!(hundredth.times(&Natural::of(W_QUALITY)).at_most(&dampen_genre_weight(1)));
}

#[test]
fn picks_come_from_the_eight_best() {
    let scores: Vec<Natural> = (0..20).map(|i| Natural::of(i * 100)).collect();
    for k in 0..64u64 {
        let place = pick_place(&scores, k.wrapping_mul(0x0400_0000_0000_0000)).unwrap();
        assert!(place >= 12);
    }
    assert_eq!(pick_place(&vec![Natural::of(5)], 77), Some(0));
    assert_eq!(pick_place(&vec![], 77), None);
}

#[test]
fn draws_of_one_generator_never_repeat() {
    let mut draws = Draws::new(u64::MAX - 3);
    let numbers: std::collections::HashSet<u64> = (0..10_000).map(|_| draws.next_u64()).collect();
    assert_eq!(numbers.len(), 10_000);
}

#[test]
fn picks_draw_on_the_generator_they_are_given() {
    let mut draws = Draws::new(5);
    let mut same = Draws::new(5);
    for len in 1..50 {
        assert_eq!(pick_index(len, &mut draws), index_for(same.next_u64(), len));
    }
    assert_eq!(draws, same);
    assert_eq!(pick_index(0, &mut draws), None);
    assert_eq!(draws, same);
}

#[test]
fn punctuation_only_separates() {
    for title in ["Steins;Gate 0", "Steins Gate 0", "Steins-Gate_0", "\"Steins\" (Gate): 0!"] {
        assert_eq!(normalize_title(title), "steins gate 0");
    }
}

#[test]
fn pauses_grow_to_the_longest() {
    let mut p = Polling::new();
    let mut pauses = Vec::new();
    for _ in 0..7 {
        pauses.push(p.interval);
        p = p.not_ready();
    }
    let want = vec![
        MIN_INTERVAL,
        225_000_000,
        337_500_000,
        506_250_000,
        759_375_000,
        MAX_INTERVAL,
        MAX_INTERVAL,
    ];
    assert_eq!(pauses, want);
    assert_eq!(p.next(MAX_WAIT - 1), PollAction::Look(MAX_INTERVAL));
    assert_eq!(p.next(MAX_WAIT), PollAction::GiveUp);
}

fn answer(text: &str) -> ScriptOutcome {
    ScriptOutcome::Answer(text.to_string())
}

#[test]
fn pages_are_read_once_they_are_ready() {
    let (stage, action) = begin_scrape();
    assert_eq!(action, ScrapeAction::Probe(MIN_INTERVAL));
    let (stage, action) = continue_scrape(stage, answer("\"{\\\"ready\\\":false}\""), 1, false);
    assert_eq!(action, ScrapeAction::Probe(225_000_000));
    let (stage, action) = continue_scrape(stage, ScriptOutcome::Failed("x".into()), 2, false);
    assert_eq!(action, ScrapeAction::Probe(337_500_000));
    let (stage, action) = continue_scrape(stage, answer("\"{\\\"ready\\\":true}\""), 3, false);
    assert_eq!(action, ScrapeAction::ReadHtml);
    let (stage, action) = continue_scrape(stage, answer("\"<html>\""), 4, false);
    assert_eq!(stage, ScrapeStage::Finished);
    match action {
        ScrapeAction::Done(r) => assert_eq!((r.html.as_str(), r.extra), ("<html>", None)),
        other => panic!("{other:?}"),
    }
}

#[test]
fn scripted_pages_give_their_episodes() {
    let (stage, action) = continue_scrape(ScrapeStage::Extracting, answer("\"<a>\""), 4, true);
    assert_eq!(action, ScrapeAction::RunScript);
    match continue_scrape(stage, answer("\"[1]\""), 5, true).1 {
        ScrapeAction::Done(r) => assert_eq!((r.html.as_str(), r.extra.as_deref()), ("<a>", Some("[1]"))),
        other => panic!("{other:?}"),
    }
}

#[test]
fn scraping_fails_for_every_reason() {
    let fail = |stage, outcome, elapsed| continue_scrape(stage, outcome, elapsed, true).1;
    let verifying = || begin_scrape().0;
    assert_eq!(
        fail(verifying(), answer("not json"), MAX_WAIT),
        ScrapeAction::Fail(ScrapeFailure::NotReady)
    );
    assert_eq!(
        fail(ScrapeStage::Extracting, answer("7"), 0),
        ScrapeAction::Fail(ScrapeFailure::BadHtml)
    );
    assert_eq!(
        fail(ScrapeStage::Extracting, ScriptOutcome::Failed("why".into()), 0),
        ScrapeAction::Fail(ScrapeFailure::Script("why".into()))
    );
    assert_eq!(
        fail(ScrapeStage::Episodes("h".into()), answer("{}"), 0),
        ScrapeAction::Fail(ScrapeFailure::BadEpisodes)
    );
}

#[test]
fn covers_are_looked_at_so_often_and_read() {
    let (mut stage, mut action) = begin_cover();
    let mut probes = 0;
    while action == CoverAction::Probe(MIN_INTERVAL) {
        probes += 1;
        (stage, action) = continue_cover(stage, answer("false"));
    }
    assert_eq!(probes, COVER_POLLS);
    assert_eq!(action, CoverAction::Fail(CoverFailure::NotLoaded));
    let (stage, action) = continue_cover(CoverStage::Loading(3), answer("true"));
    assert_eq!(action, CoverAction::ReadImage);
    assert_eq!(
        continue_cover(stage, answer("\"data:image/jpeg;base64,AA\"")).1,
        CoverAction::Done("data:image/jpeg;base64,AA".into())
    );
    assert_eq!(continue_cover(stage, answer("null")).1, CoverAction::Fail(CoverFailure::BadImage));
    assert_eq!(
        continue_cover(stage, ScriptOutcome::Failed("x".into())).1,
        CoverAction::Fail(CoverFailure::Script("x".into()))
    );
}
