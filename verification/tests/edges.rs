use anime_on_track::calendar::CivilDate;
use anime_on_track::db::activity::{check_days, earliest_day};
use anime_on_track::db::catalog::CatalogFilter;
use anime_on_track::db::franchise::franchise_key;
use anime_on_track::db::numbers::{cast_integer, parse_ep_number};
use anime_on_track::db::{Db, DbError};
use anime_on_track::matching::{franchise_dedup_key, normalize_title};
use anime_on_track::models::{CatalogAnime, Episode, GenreAffinity, Series, TypeStat};
use anime_on_track::natural::Natural;
use anime_on_track::recommend::{
    dampen_genre_weight, format_affinity_from_type_stats, score_candidate, FormatAffinity,
};
use anime_on_track::scraper_engine::{
    answered_text, is_image_ready, is_page_ready, is_safe_external_url, is_safe_target, ParsedUrl,
    UrlHost,
};
use anime_on_track::startup::carries_over;
use anime_on_track::swipe::{fresh_draws, seeded, Draws};
use anime_on_track::text_set::TextSet;

const NOW: &str = "2026-08-01 12:00:00";

fn series(slug: &str, title: &str) -> Series {
    Series {
        id: 0,
        slug: slug.into(),
        title: title.into(),
        url: format!("https://site/tv/{slug}/"),
        cover_url: None,
        is_airing: true,
        followed: false,
        next_episode_at: None,
        site_episode_count: None,
    }
}

fn episode(series_id: i64, number: &str, url: &str) -> Episode {
    Episode {
        id: 0,
        series_id,
        number: number.into(),
        title: None,
        url: url.into(),
        released_at: None,
        seen: false,
    }
}

fn anime(id: i64, title: &str) -> CatalogAnime {
    CatalogAnime {
        id,
        title: title.into(),
        title_romaji: None,
        title_english: None,
        cover_url: None,
        format: Some("TV".into()),
        genres: vec!["Drama".into()],
        episodes: Some(12),
        average_score: Some(80),
        popularity: Some(1000),
        url: String::new(),
        status: None,
        duration: None,
        studio: None,
        start_date: None,
    }
}

#[test]
fn missing_rows_are_told() {
    let mut db = Db::new();
    assert_eq!(db.get_backlog_status(9), Err(DbError::NoSuchRow));
    assert_eq!(db.last_checked_age_secs(9, 0), Err(DbError::NoSuchRow));
    assert_eq!(db.take_carried_seen_number(9), Err(DbError::NoSuchRow));
    assert_eq!(db.set_followed_canonical(9, true), Err(DbError::NoSuchRow));
    assert_eq!(db.merge_series_into(8, 9), Err(DbError::NoSuchRow));
    assert_eq!(db.get_series_url(9), Ok(None));
    assert_eq!(db.set_followed(9, true), Ok(()));
}

#[test]
fn taken_keys_are_told_and_change_nothing() {
    let mut db = Db::new();
    let src = db.upsert_source("A", "a", "animeytx").unwrap();
    let a = db.upsert_series(src, &series("a", "Alpha")).unwrap();
    let b = db.upsert_series(src, &series("b", "Beta")).unwrap();
    let before = db.series.clone();
    assert_eq!(db.relink_series(a, "b", "u", None, "TV"), Err(DbError::Conflict));
    assert_eq!(db.series, before);
    assert_eq!(db.find_series_id_by_slug(src, "b", a), Ok(Some(b)));
    db.insert_episode(&episode(a, "1", "u1"), NOW).unwrap();
    db.insert_episode(&episode(a, "2", "u2"), NOW).unwrap();
    let before = db.episodes.clone();
    assert_eq!(db.refresh_episode_meta(a, "1", "u2", None, None), Err(DbError::Conflict));
    assert_eq!(db.episodes, before);
}

#[test]
fn no_id_is_left_after_the_last() {
    let mut db = Db::new();
    let src = db.upsert_source("A", "a", "animeytx").unwrap();
    let id = db.upsert_series(src, &series("a", "Alpha")).unwrap();
    db.insert_episode(&episode(id, "1", "u1"), NOW).unwrap();
    db.episodes[0].id = i64::MAX;
    assert_eq!(db.insert_episode(&episode(id, "2", "u2"), NOW), Err(DbError::Full));
    db.series[0].id = i64::MAX;
    assert_eq!(db.upsert_series(src, &series("b", "Beta")), Err(DbError::Full));
    db.sources[0].id = i64::MAX;
    assert_eq!(db.upsert_source("B", "b", "tioanime"), Err(DbError::Full));
}

fn at_most(a: &str, b: &str) -> bool {
    parse_ep_number(a).unwrap().at_most(&parse_ep_number(b).unwrap())
}

fn same_place(a: &str, b: &str) -> bool {
    at_most(a, b) && at_most(b, a)
}

fn behind(a: &str, b: &str) -> bool {
    at_most(a, b) && !at_most(b, a)
}

#[test]
fn episode_numbers_may_have_exponents() {
    assert!(same_place("1e3x5", "1000x5"));
    assert!(same_place("1.5E+1x2e-1", "15x0.2"));
    assert!(same_place("25e-1x.5e1", "2.5x5"));
    assert!(same_place("1ex5", "1"));
    assert!(same_place("1e3", "1"));
    assert!(same_place("0e99999999999999999999999999x5", "0x5"));
    assert!(same_place("1e-99999999999999999999999999x5", "0x5"));
    assert!(same_place("1e99999999999999999999999999x5", "1e999x5"));
}

#[test]
fn episode_numbers_may_be_infinite_or_none() {
    assert!(same_place("1xinf", "InfinityX1") && same_place("infx1", "1x+INF"));
    assert!(behind("1e300x1", "1xinf") && behind("1x-inf", "-1e300x0"));
    assert!(same_place("1e999x5", "infx0") && same_place("1e304x0", "infx0"));
    assert!(same_place("0x179769313486231590e291", "0x2e308"));
    assert!(behind("0x179769313486231580e291", "0xinf"));
    for number in ["1xnan", "NaNx1", "-nanx0", "infx-inf"] {
        assert!(!at_most(number, number) && !at_most("1", number) && !at_most(number, "1"));
    }
    assert!(same_place("1xinfinite", "1") && same_place("1xin", "1"));
    let mut db = Db::new();
    let src = db.upsert_source("A", "a", "animeytx").unwrap();
    let id = db.upsert_series(src, &series("a", "Alpha")).unwrap();
    for (n, number) in ["1", "1xnan", "1xinf"].iter().enumerate() {
        db.insert_episode(&episode(id, number, &format!("u{n}")), NOW).unwrap();
    }
    let seen = |db: &Db| db.episodes.iter().map(|e| e.seen).collect::<Vec<bool>>();
    db.set_seen_cascade(id, "1xinf", true, NOW).unwrap();
    assert_eq!(seen(&db), [true, false, true]);
    db.set_seen_cascade(id, "1xnan", false, NOW).unwrap();
    assert_eq!(seen(&db), [true, false, true]);
    db.mark_all_episodes_seen(id, NOW).unwrap();
    assert_eq!(seen(&db), [true, true, true]);
}

#[test]
fn episode_numbers_of_any_length_are_ordered() {
    assert!(behind("12.0000000001", "12.0000000002"));
    assert!(behind("12", "12.00000000000000000000000000000000000000001"));
    assert!(behind("99999999999999999999999999999999", "100000000000000000000000000000000"));
    assert!(behind("1e299x0", "1e300x0"));
    assert!(behind("0x1e-300", "0x2e-300"));
}

#[test]
fn natural_numbers_are_computed() {
    let mut a = Natural::of(1);
    let mut b = Natural::of(0);
    for _ in 0..40 {
        a = a.times_plus(10, 0);
        b = b.times_plus(10, 9);
    }
    assert!(b.at_most(&a) && !a.at_most(&b));
    let c = b.plus(&Natural::of(1));
    assert!(c.at_most(&a) && a.at_most(&c));
    let big = Natural::of(u32::MAX).times_plus(u32::MAX, u32::MAX);
    let n = u128::from(big.limbs[0]) + (u128::from(big.limbs[1]) << 32);
    assert_eq!(n, u128::from(u32::MAX) * u128::from(u32::MAX) + u128::from(u32::MAX));
}

#[test]
fn episode_numbers_are_read() {
    assert!(same_place("12", "0x12"));
    assert!(same_place("1x05", "100005"));
    assert!(same_place("1x05.50", "100005.5"));
    assert!(behind("12", "12.5") && behind("12.5", "13"));
    assert!(behind("1x99", "2x01"));
    assert!(behind("1x-1", "1x0") && behind("-1x0", "-1x0.5"));
    assert!(same_place("12.", "12") && same_place("12.5.7", "12.5"));
    assert!(parse_ep_number("Recap").is_none());
    assert!(parse_ep_number(".5").is_none());
    assert!(parse_ep_number("inf").is_none());
    assert_eq!(cast_integer("  13abc"), 13);
    assert_eq!(cast_integer("-4"), -4);
    assert_eq!(cast_integer("Recap"), 0);
}

#[test]
fn activity_is_counted_by_local_day() {
    let db = Db::new();
    let days: Vec<String> =
        ["2027-01-01", "2024-05-05", "2024-05-05"].iter().map(|s| s.to_string()).collect();
    assert!(check_days(&days));
    assert!(!check_days(&vec!["-1-01-01".to_string()]));
    assert_eq!(db.get_activity_years(&days, 2026).unwrap(), vec![2027, 2026, 2024]);
    let year = db.get_yearly_activity(&days, 2024).unwrap();
    assert_eq!(year.days.len(), 366);
    assert_eq!(year.days.iter().find(|d| d.day == "2024-05-05").unwrap().count, 2);
    assert_eq!(earliest_day(&days).as_deref(), Some("2024-05-05"));
    assert_eq!(earliest_day(&vec![]), None);
}

#[test]
fn fingerprint_tells_counts_and_last_mark() {
    let mut db = Db::new();
    assert_eq!(db.signature_counts().unwrap(), (0, 0, 0, None));
    let src = db.upsert_source("A", "a", "animeytx").unwrap();
    let id = db.upsert_series(src, &series("a", "Alpha")).unwrap();
    let ep = db.insert_episode(&episode(id, "1", "u1"), NOW).unwrap();
    db.set_seen(ep, true, NOW).unwrap();
    assert_eq!(db.signature_counts().unwrap(), (1, 1, ep, Some(NOW.to_string())));
}

#[test]
fn limits_of_sums_are_checked() {
    let mut db = Db::new();
    assert!(db.check_sums());
    let src = db.upsert_source("A", "a", "animeytx").unwrap();
    let id = db.upsert_series(src, &series("a", "Alpha")).unwrap();
    db.upsert_catalog_anime(&anime(1, "A"), 0).unwrap();
    db.set_anilist_id(id, 1).unwrap();
    db.catalog[0].episodes = Some(i64::MAX);
    db.catalog[0].duration = Some(i64::MIN);
    assert!(db.check_sums());
    db.set_watched_externally(id, true).unwrap();
    assert!(!db.check_sums());
    db.catalog[0].episodes = Some(-12);
    assert!(db.check_sums());
    let ep = db.insert_episode(&episode(id, "1", "u1"), NOW).unwrap();
    db.set_seen(ep, true, NOW).unwrap();
    assert!(!db.check_sums());
    db.catalog[0].duration = Some(-30);
    assert!(db.check_sums());
    let today = CivilDate { year: 2026, month: 8, day: 1 };
    let insights = db.get_watch_insights(&vec![], today).unwrap();
    assert_eq!(insights.estimated_minutes_tracked, -30);
}

#[test]
fn filters_ignore_blanks_and_wildcards() {
    let mut db = Db::new();
    db.upsert_catalog_anime(&anime(1, "100% Hero"), 0).unwrap();
    db.upsert_catalog_anime(&anime(2, "1000 Heroes"), 1).unwrap();
    let count = |filter: CatalogFilter| db.catalog_count_filtered(&filter).unwrap();
    assert_eq!(count(CatalogFilter { search: Some("   ".into()), ..Default::default() }), 2);
    assert_eq!(count(CatalogFilter { search: Some("100%".into()), ..Default::default() }), 1);
    assert_eq!(count(CatalogFilter { search: Some("hero".into()), ..Default::default() }), 2);
    assert_eq!(count(CatalogFilter { episodes: Some("odd".into()), ..Default::default() }), 2);
    let twice = vec!["Drama".to_string(), " Drama ".to_string(), "".to_string()];
    assert_eq!(count(CatalogFilter { genres: twice, ..Default::default() }), 2);
    assert_eq!(db.distinct_catalog_genres().unwrap(), vec!["Drama"]);
    assert_eq!(db.distinct_catalog_formats().unwrap(), vec!["TV"]);
}

#[test]
fn decided_shows_are_never_offered() {
    let mut db = Db::new();
    let mut entry = anime(1, "Attack on Titan");
    entry.title_romaji = Some("Shingeki no Kyojin".into());
    db.upsert_catalog_anime(&entry, 0).unwrap();
    let mut excluded = TextSet::new();
    excluded.insert(normalize_title("Shingeki no Kyojin"));
    let offer = |excluded: &TextSet, seed| {
        let mut draws = Draws::new(seed);
        db.random_catalog_anime_in_genre("Drama", &[], excluded, &[], &[], false, false, &mut draws)
            .unwrap()
    };
    assert!(offer(&excluded, 3).is_none());
    assert_eq!(offer(&TextSet::new(), 3).unwrap().id, 1);
    let banned = vec!["tv".to_string()];
    assert!(db.catalog_candidates("Drama", &banned, false).is_empty());
    assert_eq!(db.catalog_candidates("Drama", &[], false).len(), 1);
    assert!(db.catalog_candidates("Comedy", &[], false).is_empty());
}

#[test]
fn one_card_looks_at_a_bounded_batch() {
    let mut db = Db::new();
    for i in 0..200 {
        db.upsert_catalog_anime(&anime(i, &format!("T{i}")), i).unwrap();
    }
    let first = |seed| {
        let mut draws = Draws::new(seed);
        db.random_catalog_anime_in_genre("Drama", &[], &TextSet::new(), &[], &[], false, false, &mut draws)
            .unwrap()
            .unwrap()
            .id
    };
    assert_eq!(first(1), first(1));
    assert!((0..20).any(|seed| first(seed) != first(0)));
}

/// So many hundredths of a point, divided by another number and rounded down.
fn hundredths(n: u32, divisor: u64) -> Natural {
    let mut units = Natural::of(n);
    for _ in 0..38 {
        units = units.times_plus(10, 0);
    }
    units.over(divisor)
}

fn same_number(a: &Natural, b: &Natural) -> bool {
    a.at_most(b) && b.at_most(a)
}

#[test]
fn taste_scores_are_exact() {
    let stats = vec![
        TypeStat { kind: "TV".into(), count: 3 },
        TypeStat { kind: "MOVIE".into(), count: 1 },
    ];
    let formats = format_affinity_from_type_stats(&stats);
    let share = |format: &str, count| FormatAffinity { format: format.into(), count, most: 3 };
    assert_eq!(formats, vec![share("TV", 3), share("MOVIE", 1)]);
    let affinity = vec![GenreAffinity { genre: "Drama".into(), half_points: 2 }];
    let scores = |cand: &CatalogAnime, affinity: &[GenreAffinity], chosen: &str, want: Natural| {
        same_number(&score_candidate(cand, affinity, &formats, chosen), &want)
    };
    let mut cand = anime(1, "A");
    assert!(scores(&cand, &affinity, "Action", hundredths(100 + 60 + 20, 1)));
    assert!(scores(&cand, &affinity, "Drama", hundredths(60 + 20, 1)));
    cand.format = Some("MOVIE".into());
    cand.average_score = None;
    assert!(scores(&cand, &affinity, "Drama", hundredths(60, 3)));
    cand.format = None;
    assert!(scores(&cand, &[], "Action", hundredths(0, 1)));
    cand.average_score = Some(250);
    assert!(scores(&cand, &[], "Action", hundredths(25, 1)));
    cand.average_score = Some(-7);
    assert!(scores(&cand, &[], "Action", hundredths(0, 1)));
}

#[test]
fn small_differences_of_scores_count() {
    let share = |format: &str, count| FormatAffinity { format: format.into(), count, most: 100_001 };
    let formats = vec![share("TV", 1), share("MOVIE", 2)];
    let score = |format: &str| {
        let mut cand = anime(1, "A");
        cand.format = Some(format.into());
        score_candidate(&cand, &[], &formats, "Action")
    };
    assert!(score("TV").at_most(&score("MOVIE")) && !score("MOVIE").at_most(&score("TV")));
    let (many, more) = (dampen_genre_weight(i64::MAX - 1), dampen_genre_weight(i64::MAX));
    assert!(many.at_most(&more) && !more.at_most(&many));
}

#[test]
fn tables_are_checked_for_their_keys() {
    let mut db = Db::new();
    assert!(db.check());
    let src = db.upsert_source("A", "a", "animeytx").unwrap();
    db.upsert_source("B", "b", "tioanime").unwrap();
    let id = db.upsert_series(src, &series("a", "Alpha")).unwrap();
    db.upsert_series(src, &series("b", "Beta")).unwrap();
    db.insert_episode(&episode(id, "1", "u1"), NOW).unwrap();
    db.insert_episode(&episode(id, "2", "u2"), NOW).unwrap();
    db.upsert_catalog_anime(&anime(1, "A"), 0).unwrap();
    db.set_setting("k", "v").unwrap();
    db.insert_series_genres(id, &["Drama".to_string()]).unwrap();
    assert!(db.check());
    let broken = |change: &dyn Fn(&mut Db)| {
        let mut other = db.clone();
        change(&mut other);
        !other.check()
    };
    assert!(broken(&|d| d.sources[1].base_url = "a".into()));
    assert!(broken(&|d| d.sources[1].upserted = d.sources[0].upserted));
    assert!(broken(&|d| d.sources[0].id = 0));
    assert!(broken(&|d| d.series[1].slug = "a".into()));
    assert!(broken(&|d| d.series.reverse()));
    assert!(broken(&|d| d.episodes[1].url = "u1".into()));
    assert!(broken(&|d| d.series_genres.push(d.series_genres[0].clone())));
    assert!(broken(&|d| d.catalog.push(d.catalog[0].clone())));
    assert!(broken(&|d| d.catalog_genres.push(d.catalog_genres[0].clone())));
    assert!(broken(&|d| d.settings.push(d.settings[0].clone())));
    db.set_followed(id, true).unwrap();
    db.sync_library_from_series().unwrap();
    assert!(db.check());
    db.library.push(db.library[0].clone());
    assert!(!db.check());
}

#[test]
fn the_source_upserted_last_is_the_newest() {
    let mut db = Db::new();
    let a = db.upsert_source("S", "https://a", "s").unwrap();
    let b = db.upsert_source("S", "https://b", "s").unwrap();
    assert_eq!(db.get_source_id_for_site("s").unwrap(), Some(b));
    assert_eq!(db.upsert_source("S", "https://a", "s").unwrap(), a);
    assert_eq!(db.get_source_id_for_site("s").unwrap(), Some(a));
    assert_eq!(db.get_source_id_for_site("t").unwrap(), None);
    db.sources[0].upserted = i64::MAX;
    assert_eq!(db.upsert_source("S", "https://b", "s"), Err(DbError::Full));
}

#[test]
fn every_episode_is_marked_to_the_end() {
    let mut db = Db::new();
    let src = db.upsert_source("A", "a", "animeytx").unwrap();
    let id = db.upsert_series(src, &series("a", "Alpha")).unwrap();
    let other = db.upsert_series(src, &series("b", "Beta")).unwrap();
    for (n, number) in ["1", "OVA", "2", "Recap"].iter().enumerate() {
        db.insert_episode(&episode(id, number, &format!("u{n}")), NOW).unwrap();
    }
    db.insert_episode(&episode(other, "1", "v"), NOW).unwrap();
    db.mark_all_episodes_seen(id, NOW).unwrap();
    assert!(db.list_series_episodes(id).unwrap().iter().all(|e| e.seen));
    assert!(!db.list_series_episodes(other).unwrap()[0].seen);
}

#[test]
fn undecided_genres_are_not_scored() {
    let mut db = Db::new();
    let src = db.upsert_source("A", "a", "animeytx").unwrap();
    let a = db.upsert_series(src, &series("a", "Alpha")).unwrap();
    let b = db.upsert_series(src, &series("b", "Beta")).unwrap();
    db.insert_series_genres(a, &["Drama".to_string(), "Isekai".to_string()]).unwrap();
    db.insert_series_genres(b, &["Drama".to_string()]).unwrap();
    assert!(db.get_genre_affinity(src).unwrap().is_empty());
    db.set_backlog_status(b, Some("discarded")).unwrap();
    let want = vec![GenreAffinity { genre: "Drama".into(), half_points: -3 }];
    assert_eq!(db.get_genre_affinity(src).unwrap(), want);
}

#[test]
fn keys_are_empty_only_for_nothing() {
    assert_eq!(franchise_dedup_key("Season 2"), "season2");
    assert_eq!(franchise_dedup_key("The"), "the");
    assert_eq!(franchise_dedup_key("X"), "x");
    assert_eq!(franchise_dedup_key("!!!"), "");
    assert_eq!(franchise_dedup_key("Dai Dai Dai 2nd Season"), "daidaidai");
    assert_eq!(franchise_key("!!!"), "!!!");
    assert_eq!(franchise_key(" HD "), "HD");
    assert_eq!(franchise_key("  "), "?");
    assert_eq!(franchise_key("Season 2"), "season 2");
}

#[test]
fn a_large_pool_always_gives_a_card() {
    let mut db = Db::new();
    for i in 0..300 {
        db.upsert_catalog_anime(&anime(i, &format!("T{i}")), i).unwrap();
    }
    for recommended in [false, true] {
        let card = db.random_catalog_anime_in_genre(
            "Drama",
            &[],
            &TextSet::new(),
            &[],
            &[],
            recommended,
            false,
            &mut fresh_draws(),
        );
        assert!(card.unwrap().is_some());
    }
}

#[test]
fn addresses_of_numbers_are_told_apart() {
    let http = |host: Option<UrlHost>| ParsedUrl { scheme: "http".into(), host };
    assert!(is_safe_target(&http(Some(UrlHost::Ipv4([172, 32, 0, 1])))));
    assert!(!is_safe_target(&http(Some(UrlHost::Ipv4([172, 31, 0, 1])))));
    assert!(!is_safe_target(&http(Some(UrlHost::Ipv4([0, 0, 0, 0])))));
    assert!(is_safe_target(&http(Some(UrlHost::Ipv6([0x2001, 0, 0, 0, 0, 0, 0, 1])))));
    assert!(!is_safe_target(&http(Some(UrlHost::Ipv6([0, 0, 0, 0, 0, 0, 0, 0])))));
    assert!(!is_safe_target(&http(Some(UrlHost::Ipv6([0xfdff, 0, 0, 0, 0, 0, 0, 1])))));
    assert!(!is_safe_target(&http(Some(UrlHost::Ipv6([0xfebf, 0, 0, 0, 0, 0, 0, 1])))));
    assert!(is_safe_target(&http(Some(UrlHost::Ipv6([0xfec0, 0, 0, 0, 0, 0, 0, 1])))));
    assert!(!is_safe_target(&http(None)));
    assert!(is_safe_external_url("HTTPS://Example.com"));
    assert!(!is_safe_external_url("http://0x7f.1/"));
}

#[test]
fn answers_of_pages_are_decoded() {
    assert!(is_page_ready("\"{\\\"ready\\\":true,\\\"len\\\":9}\""));
    assert!(!is_page_ready("{\"ready\":true}"));
    assert!(!is_page_ready("\"{\\\"ready\\\":1}\""));
    assert!(is_image_ready("true"));
    assert!(is_image_ready(" \ttrue\r\n"));
    assert!(!is_image_ready("false") && !is_image_ready("True") && !is_image_ready("true true"));
    assert!(!is_image_ready("\"true\""));
    assert_eq!(answered_text("\"a\\u00e9\""), Some("aé".to_string()));
    assert_eq!(answered_text("a"), None);
}

#[test]
fn seeds_come_from_the_random_source_or_the_clock() {
    assert_eq!(seeded(Some(7), 99).count, 7);
    assert_eq!(seeded(None, 0).count, 0x9E37_79B9_7F4A_7C15);
    assert_eq!(seeded(None, 1).count, 0x9E37_79B9_7F4A_7C14);
}

#[test]
fn seeds_differ() {
    let seeds: Vec<u64> = (0..4).map(|_| fresh_draws().count).collect();
    assert!(seeds.iter().any(|s| *s != seeds[0]));
}

#[test]
fn older_data_is_carried_over_once() {
    assert!(carries_over(false, Some(true)));
    assert!(!carries_over(true, Some(true)));
    assert!(!carries_over(false, Some(false)));
    assert!(!carries_over(false, None));
    let mut db = Db::new();
    assert_eq!(db.active_site(), "animeytx");
    db.set_setting("active_site_id", "tioanime").unwrap();
    assert_eq!(db.active_site(), "tioanime");
}

#[test]
fn addresses_are_changed_and_told() {
    let mut db = Db::new();
    let src = db.upsert_source("A", "https://a", "animeytx").unwrap();
    let id = db.upsert_series(src, &series("a", "Alpha")).unwrap();
    assert_eq!(db.get_source_base_url(src).unwrap().as_deref(), Some("https://a"));
    assert_eq!(db.get_source_base_url(src + 1).unwrap(), None);
    db.update_series_url(id, "https://new/").unwrap();
    assert_eq!(db.get_series_url(id).unwrap().as_deref(), Some("https://new/"));
    let before = db.series.clone();
    db.update_series_url(id + 1, "https://none/").unwrap();
    assert_eq!(db.series, before);
}

#[test]
fn progress_on_other_sites_is_listed() {
    let mut db = Db::new();
    let a = db.upsert_source("A", "a", "animeytx").unwrap();
    let b = db.upsert_source("B", "b", "tioanime").unwrap();
    for (source, slug, title, seen) in [(a, "z", "Zeta", 2), (a, "b", "Beta", 0), (b, "c", "Ceta", 1)] {
        let id = db.upsert_series(source, &series(slug, title)).unwrap();
        db.set_followed(id, true).unwrap();
        for n in 1..=3 {
            let e = episode(id, &n.to_string(), &format!("{slug}{n}"));
            db.insert_episode(&e, NOW).unwrap();
        }
        if seen > 0 {
            db.set_seen_cascade(id, &seen.to_string(), true, NOW).unwrap();
        }
    }
    let want = vec![("Beta".to_string(), 0), ("Zeta".to_string(), 2)];
    assert_eq!(db.followed_titles_with_watermark(b).unwrap(), want);
}
