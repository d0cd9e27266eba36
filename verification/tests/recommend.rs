use anime_on_track::models::{CatalogAnime, GenreAffinity, TypeStat};
use anime_on_track::natural::Natural;
use anime_on_track::recommend::{
    dampen_genre_weight, format_affinity_from_type_stats, pick_recommended, score_candidate,
    FormatAffinity, RECOMMEND_TOP_K,
};
use anime_on_track::swipe::fresh_draws;
use std::collections::HashSet;

fn affinity(genre: &str, score: f64) -> GenreAffinity {
    GenreAffinity { genre: genre.to_string(), half_points: (score * 2.0) as i64 }
}

fn points(units: &Natural) -> f64 {
    units.limbs.iter().rev().fold(0.0, |v, limb| v * 4_294_967_296.0 + f64::from(*limb)) / 1e40
}

fn dampened(score: f64) -> f64 {
    points(&dampen_genre_weight((score * 2.0) as i64))
}

fn share(format: &str, count: i64, most: i64) -> FormatAffinity {
    FormatAffinity { format: format.to_string(), count, most }
}

fn anime(id: i64, title: &str, genres: &[&str], format: &str, average_score: Option<i64>) -> CatalogAnime {
    CatalogAnime {
        id,
        title: title.into(),
        title_romaji: None,
        title_english: None,
        cover_url: None,
        format: Some(format.into()),
        genres: genres.iter().map(|g| g.to_string()).collect(),
        episodes: Some(12),
        average_score,
        popularity: Some(1000),
        url: format!("https://anilist.co/anime/{id}"),
        status: None,
        duration: None,
        studio: None,
        start_date: None,
    }
}


#[test]
fn dampen_genre_weight_zeroes_non_positive_scores() {
    assert_eq!(dampened(0.0), 0.0);
    assert_eq!(dampened(-3.0), 0.0);
}

#[test]
fn dampen_genre_weight_compresses_but_preserves_order() {
    let small = dampened(4.0);
    let big = dampened(20.0);
    assert!(big > small);
    let raw_ratio = 20.0 / 4.0;
    let dampened_ratio = big / small;
    assert!(dampened_ratio < raw_ratio);
}

#[test]
fn dampened_share_never_monopolizes() {
    let raw = [50.0, 4.0, 4.0, 4.0];
    let raw_total: f64 = raw.iter().sum();
    let raw_share = raw[0] / raw_total;
    assert!(raw_share >= 0.7, "test setup should actually collapse under raw weights");

    let dampened: Vec<f64> = raw.iter().map(|w| dampened(*w)).collect();
    let dampened_total: f64 = dampened.iter().sum();
    let dampened_share = dampened[0] / dampened_total;
    assert!(
        dampened_share < 0.7,
        "dampened share {dampened_share} should drop below the collapse threshold (was {raw_share} raw)"
    );
    assert!(dampened_share > 1.0 / raw.len() as f64);
}

#[test]
fn format_affinity_normalizes_to_max_one() {
    let stats = vec![
        TypeStat { kind: "TV".into(), count: 10 },
        TypeStat { kind: "MOVIE".into(), count: 5 },
    ];
    let aff = format_affinity_from_type_stats(&stats);
    let share = |format: &str| {
        aff.iter().find(|a| a.format == format).map(|a| a.count as f64 / a.most as f64)
    };
    assert_eq!(share("TV"), Some(1.0));
    assert_eq!(share("MOVIE"), Some(0.5));
}

#[test]
fn format_affinity_empty_for_no_follows() {
    let aff = format_affinity_from_type_stats(&[]);
    assert!(aff.is_empty());
}

#[test]
fn taste_matching_genres_outscore_no_signal_genres() {
    let genre_affinity = vec![affinity("Fantasy", 4.0)];
    let format_affinity: Vec<FormatAffinity> = vec![];

    let loved = anime(1, "Loved", &["Action", "Fantasy"], "TV", Some(50));
    let cold = anime(2, "Cold", &["Action", "Slice of Life"], "TV", Some(50));

    let loved_score = points(&score_candidate(&loved, &genre_affinity, &format_affinity, "Action"));
    let cold_score = points(&score_candidate(&cold, &genre_affinity, &format_affinity, "Action"));
    assert!(loved_score > cold_score, "loved={loved_score} cold={cold_score}");
}

#[test]
fn chosen_genre_itself_does_not_count_toward_its_own_score() {
    let genre_affinity = vec![affinity("Action", 100.0)];
    let format_affinity: Vec<FormatAffinity> = vec![];
    let cand = anime(1, "OnlyAction", &["Action"], "TV", Some(0));
    assert_eq!(points(&score_candidate(&cand, &genre_affinity, &format_affinity, "Action")), 0.0);
}

#[test]
fn format_affinity_changes_ranking_between_equal_genre_candidates() {
    let genre_affinity: Vec<GenreAffinity> = vec![];
    let format_affinity = vec![share("TV", 10, 10), share("MOVIE", 1, 10)];

    let tv = anime(1, "TVShow", &["Action"], "TV", Some(50));
    let movie = anime(2, "MovieShow", &["Action"], "MOVIE", Some(50));

    let tv_score = points(&score_candidate(&tv, &genre_affinity, &format_affinity, "Action"));
    let movie_score = points(&score_candidate(&movie, &genre_affinity, &format_affinity, "Action"));
    assert!(tv_score > movie_score, "tv={tv_score} movie={movie_score}");
}

#[test]
fn quality_term_is_a_mild_tiebreak_not_a_dominant_signal() {
    let genre_affinity = vec![affinity("Fantasy", 4.0)];
    let format_affinity: Vec<FormatAffinity> = vec![];

    let tasteful_low_quality = anime(1, "TastefulButMediocre", &["Action", "Fantasy"], "TV", Some(1));
    let tasteless_perfect = anime(2, "PerfectButUnrelated", &["Action", "Horror"], "TV", Some(100));

    let a = points(&score_candidate(&tasteful_low_quality, &genre_affinity, &format_affinity, "Action"));
    let b = points(&score_candidate(&tasteless_perfect, &genre_affinity, &format_affinity, "Action"));
    assert!(a > b, "tasteful={a} tasteless={b}");
}

#[test]
fn pick_recommended_none_for_empty_survivors() {
    let mut draws = fresh_draws();
    let genre_affinity: Vec<GenreAffinity> = vec![];
    let format_affinity: Vec<FormatAffinity> = vec![];
    assert!(pick_recommended(vec![], &genre_affinity, &format_affinity, "Action", &mut draws).is_none());
}

#[test]
fn pick_recommended_never_returns_a_title_outside_survivors() {
    let mut draws = fresh_draws();
    let genre_affinity: Vec<GenreAffinity> = vec![];
    let format_affinity: Vec<FormatAffinity> = vec![];
    let allowed_titles: HashSet<&str> = ["A", "B", "C"].into_iter().collect();
    let survivors = vec![
        anime(1, "A", &["Action"], "TV", Some(10)),
        anime(2, "B", &["Action"], "TV", Some(90)),
        anime(3, "C", &["Action"], "TV", Some(50)),
    ];
    for _ in 0..30 {
        let picked = pick_recommended(survivors.clone(), &genre_affinity, &format_affinity, "Action", &mut draws).unwrap();
        assert!(allowed_titles.contains(picked.title.as_str()));
    }
}

#[test]
fn pick_recommended_cold_start_does_not_panic_and_returns_a_survivor() {
    let mut draws = fresh_draws();
    let genre_affinity: Vec<GenreAffinity> = vec![];
    let format_affinity: Vec<FormatAffinity> = vec![];
    let survivors = vec![
        anime(1, "A", &["Action"], "TV", None),
        anime(2, "B", &["Drama"], "MOVIE", None),
    ];
    for _ in 0..30 {
        let picked =
            pick_recommended(survivors.clone(), &genre_affinity, &format_affinity, "Action", &mut draws).unwrap();
        assert!(picked.title == "A" || picked.title == "B");
    }
}

#[test]
fn pick_recommended_caps_sampling_pool_to_top_k() {
    let mut draws = fresh_draws();
    let genre_affinity: Vec<GenreAffinity> = vec![];
    let format_affinity: Vec<FormatAffinity> = vec![];
    let n = RECOMMEND_TOP_K + 5;
    let survivors: Vec<CatalogAnime> = (0..n)
        .map(|i| anime(i as i64, &format!("T{i}"), &["Action"], "TV", Some((n - i) as i64)))
        .collect();
    let excluded_tail: HashSet<String> =
        (RECOMMEND_TOP_K..n).map(|i| format!("T{i}")).collect();
    for _ in 0..50 {
        let picked = pick_recommended(survivors.clone(), &genre_affinity, &format_affinity, "Action", &mut draws).unwrap();
        assert!(!excluded_tail.contains(&picked.title), "picked out-of-top-k title {}", picked.title);
    }
}
