use anime_on_track::catalog_index::{CatalogIndex, CatalogTitleRow};
use anime_on_track::matching::{
    best_match, distinct_extension, franchise_dedup_key, normalize_title, TitleCandidate, SCORE_ONE,
};

#[test]
fn normalize_title_is_public_and_pins_a_known_normalization() {
    assert_eq!(normalize_title("Overlord IV"), normalize_title("Overlord IV"));
    assert_eq!(normalize_title("Overlord IV"), "overlord iv");
}

#[test]
fn normalize_strips_accents_case_and_punctuation() {
    assert_eq!(normalize_title("Shingeki no Kyojin"), "shingeki no kyojin");
    assert_eq!(normalize_title("ATTACK ON TITAN"), "attack on titan");
    assert_eq!(normalize_title("Shingeki no Kyojin: The Final Season"), "shingeki no kyojin the final season");
    assert_eq!(normalize_title("Ataque a los Titanes"), "ataque a los titanes");
}

#[test]
fn normalize_strips_trailing_noise_tokens() {
    assert_eq!(normalize_title("Shingeki no Kyojin Sub Español"), "shingeki no kyojin");
    assert_eq!(normalize_title("Baki-dou Latino"), "baki dou");
    assert_eq!(normalize_title("One Piece HD"), "one piece");
    assert_eq!(normalize_title("Naruto Online"), "naruto");
    assert_eq!(normalize_title("Bleach Sub Español HD"), "bleach");
}

#[test]
fn normalize_does_not_strip_noise_words_that_are_not_trailing() {
    assert_eq!(normalize_title("High and Low"), "high and low");
}

#[test]
fn best_match_picks_the_exact_title_among_decoys() {
    let candidates = vec![
        TitleCandidate { title: "Shingeki no Kyojin Sub Español", url: "u1" },
        TitleCandidate { title: "Shingeki no Kyojin: The Final Season", url: "u2" },
        TitleCandidate { title: "Shingeki no Bahamut", url: "u3" },
    ];
    let result = best_match(&["Shingeki no Kyojin"], &candidates).expect("expected a match");
    assert_eq!(result.index, 0);
    assert_eq!(result.score, SCORE_ONE);
}

#[test]
fn best_match_returns_none_below_threshold() {
    let candidates = vec![
        TitleCandidate { title: "Monster Musume", url: "u1" },
        TitleCandidate { title: "Kaiju No. 8", url: "u2" },
    ];
    assert_eq!(best_match(&["Monster"], &candidates), None);
}

#[test]
fn best_match_falls_back_to_english_query_when_romaji_does_not_match() {
    let candidates = vec![
        TitleCandidate { title: "Attack on Titan", url: "u1" },
        TitleCandidate { title: "Totally Unrelated Show", url: "u2" },
    ];
    let result =
        best_match(&["Shingeki no Kyojin", "Attack on Titan"], &candidates).expect("expected a match");
    assert_eq!(result.index, 0);
    assert_eq!(result.score, SCORE_ONE);
}

#[test]
fn best_match_prefers_the_higher_scoring_candidate() {
    let candidates = vec![
        TitleCandidate { title: "Kaiju No. 8", url: "u1" },
        TitleCandidate { title: "Baki-dou Sub Español", url: "u2" },
    ];
    let result = best_match(&["Baki-dou"], &candidates).expect("expected a match");
    assert_eq!(result.index, 1);
}

#[test]
fn best_match_empty_candidates_is_none() {
    assert_eq!(best_match(&["Anything"], &[]), None);
}

fn catalog_row(id: i64, popularity: i64, titles: &[&str]) -> CatalogTitleRow {
    CatalogTitleRow {
        id,
        titles: titles.iter().map(|t| t.to_string()).collect(),
        popularity,
    }
}

#[test]
fn catalog_index_matches_any_stored_title_variant() {
    let rows = vec![catalog_row(16498, 700, &["Attack on Titan", "Shingeki no Kyojin"])];
    let index = CatalogIndex::build(&rows);
    assert_eq!(index.lookup(&["Shingeki no Kyojin"]), Some(16498));
    assert_eq!(index.lookup(&["ATTACK ON TITAN"]), Some(16498), "normalization is case-insensitive");
    assert_eq!(index.lookup(&["Attack on Titan Sub Español"]), Some(16498), "site noise suffix stripped");
}

#[test]
fn catalog_index_prefers_the_popular_row_when_titles_collide() {
    let rows = vec![
        catalog_row(999, 12, &["Hunter x Hunter"]),
        catalog_row(11061, 500_000, &["Hunter x Hunter"]),
    ];
    assert_eq!(CatalogIndex::build(&rows).lookup(&["Hunter x Hunter"]), Some(11061));
}

#[test]
fn catalog_index_collision_is_order_independent() {
    let a = catalog_row(999, 12, &["Hunter x Hunter"]);
    let b = catalog_row(11061, 500_000, &["Hunter x Hunter"]);
    let forward = CatalogIndex::build(&[
        catalog_row(a.id, a.popularity, &["Hunter x Hunter"]),
        catalog_row(b.id, b.popularity, &["Hunter x Hunter"]),
    ]);
    let reversed = CatalogIndex::build(&[b, a]);
    assert_eq!(forward.lookup(&["Hunter x Hunter"]), reversed.lookup(&["Hunter x Hunter"]));
}

#[test]
fn catalog_index_tries_candidates_most_specific_first() {
    let rows = vec![
        catalog_row(21, 600_000, &["ONE PIECE"]),
        catalog_row(459, 1000, &["One Piece Film: Red"]),
    ];
    let index = CatalogIndex::build(&rows);
    assert_eq!(index.lookup(&["One Piece Film: Red", "One Piece"]), Some(459));
    assert_eq!(index.lookup(&["One Piece: Arco de Elbaph", "One Piece"]), Some(21));
}

#[test]
fn catalog_index_reports_no_match_rather_than_a_guess() {
    let rows = vec![catalog_row(21, 600_000, &["ONE PIECE"])];
    let index = CatalogIndex::build(&rows);
    assert_eq!(index.lookup(&["Totally Different Show"]), None);
    assert_eq!(index.lookup(&["One Piece Film"]), None);
}

#[test]
fn fuzzy_lookup_links_cross_language_and_season_variants() {
    let rows = vec![
        catalog_row(209983, 5000, &["Hell Mode: Yarikomizuki no Gamer wa Hai Settei no Isekai de Musou suru"]),
        catalog_row(21, 900000, &["One Piece"]),
    ];
    let index = CatalogIndex::build(&rows);
    assert_eq!(
        index.fuzzy_lookup(&["Hell Mode: Yarikomizuki no Gamer wa Hai Settei no Isekai de Musou suru Temporada 2"]),
        Some(209983)
    );
    assert_eq!(index.fuzzy_lookup(&["Totally Unrelated Mecha Show"]), None);
}

#[test]
fn franchise_dedup_key_collapses_season_and_spacing_variants() {
    assert_eq!(
        franchise_dedup_key("Hell Mode: Yarikomizuki no Gamer 2nd Season"),
        franchise_dedup_key("Hell Mode: Yarikomizuki no Gamer Temporada 2"),
    );
    assert_eq!(
        franchise_dedup_key("Kimi no Koto ga Dai Dai Daisuki"),
        franchise_dedup_key("Kimi no Koto ga Daidaidaisuki"),
    );
    assert_ne!(franchise_dedup_key("Naruto"), franchise_dedup_key("Naruto Shippuden"));
}

#[test]
fn fuzzy_lookup_does_not_link_a_mere_word_overlap() {
    let rows = vec![catalog_row(21, 900000, &["One Piece"])];
    let index = CatalogIndex::build(&rows);
    assert_eq!(index.fuzzy_lookup(&["A Piece of Cake at the Bakery"]), None);
}

#[test]
fn catalog_index_ignores_titles_that_normalize_to_nothing() {
    let rows = vec![catalog_row(1, 0, &["", "   ", "!!!"])];
    let index = CatalogIndex::build(&rows);
    assert!(index.is_empty());
    assert_eq!(index.lookup(&[""]), None);
}

fn same_show(a: &str, b: &str) -> bool {
    best_match(&[a], &[TitleCandidate { title: b, url: "u" }]).is_some()
}

const SHOULD_MATCH: &[(&str, &str)] = &[
    ("Attack on Titan", "Attack on Titan Final Season"),
    ("Attack on Titan", "Attack on Titan The Final Season"),
    ("Shingeki no Kyojin", "Shingeki no Kyojin The Final Season"),
    ("Jujutsu Kaisen", "Jujutsu Kaisen 2nd Season"),
    ("Spy x Family", "Spy x Family Part 2"),
    ("Spy x Family", "Spy x Family Season 2"),
    ("Demon Slayer", "Demon Slayer Season 3"),
    ("Kimetsu no Yaiba", "Kimetsu no Yaiba Season 2"),
    ("The Rising of the Shield Hero", "The Rising of the Shield Hero Season 2"),
    ("Kaguya-sama: Love is War", "Kaguya-sama Love is War Season 3"),
    ("My Hero Academia", "My Hero Academia Season 6"),
    ("Black Clover", "Black Clover Season 4"),
    ("Fire Force", "Fire Force Season 2"),
    ("The Promised Neverland", "The Promised Neverland Season 2"),
    ("Dr. Stone", "Dr. Stone Season 3"),
    ("Made in Abyss", "Made in Abyss Season 2"),
    ("Re:Zero", "Re:Zero Season 2"),
    ("Vinland Saga", "Vinland Saga Season 2"),
    ("Tokyo Revengers", "Tokyo Revengers Season 2"),
    ("Chainsaw Man", "Chainsaw Man Part 2"),
    ("The Eminence in Shadow", "The Eminence in Shadow 2nd Season"),
    ("Classroom of the Elite", "Classroom of the Elite Season 3"),
    ("Dr. Stone", "Dr. Stone Final Season"),
    ("Bocchi the Rock", "Bocchi the Rock Season 2"),
    ("Overlord", "Overlord IV"),
    ("Mob Psycho 100", "Mob Psycho 100 II"),
    ("Saekano", "Saekano II"),
    ("Konosuba", "Konosuba III"),
    ("Golden Kamuy", "Golden Kamuy IV"),
    ("Chainsaw Man", "Chainsaw Man Cour 2"),
    ("Hunter x Hunter", "Hunter x Hunter (2011)"),
    ("Fruits Basket", "Fruits Basket (2019)"),
    ("Bleach", "Bleach 2004"),
    ("Fullmetal Alchemist: Brotherhood", "Fullmetal Alchemist Brotherhood"),
    ("Kaguya-sama wa Kokurasetai", "Kaguya sama wa Kokurasetai"),
    ("Kono Subarashii Sekai ni Shukufuku wo!", "Kono Subarashii Sekai ni Shukufuku wo"),
    ("That Time I Got Reincarnated as a Slime", "That Time I Got Reincarnated as a Slime"),
    ("JOJO'S BIZARRE ADVENTURE", "jojo's bizarre adventure"),
    ("One Piece", "One Piece Sub Español"),
    ("Naruto Shippuden", "Naruto Shippuden HD"),
    ("Boruto", "Boruto Latino"),
    ("Rurouni Kenshin", "Rurouni Kenshin Season 2"),
    ("Dragon Ball Super", "Dragon Ball Super Season 2"),
    ("One Punch Man", "One Punch Man Season 2"),
    ("Haikyuu", "Haikyuu Season 4"),
    ("Mushoku Tensei", "Mushoku Tensei Part 2"),
    ("Mushoku Tensei", "Mushoku Tensei Season 2"),
    ("Oshi no Ko", "Oshi no Ko 2nd Season"),
    ("Frieren Beyond Journey's End", "Frieren Beyond Journey's End Season 2"),
    ("The Apothecary Diaries", "The Apothecary Diaries Season 2"),
    ("Solo Leveling", "Solo Leveling Season 2"),
    ("Blue Lock", "Blue Lock Season 2"),
    ("Dandadan", "Dandadan Season 2"),
    ("Wind Breaker", "Wind Breaker Season 2"),
    ("Tower of God", "Tower of God Season 2"),
    ("Kaiju No. 8", "Kaiju No. 8 Season 2"),
    ("Delicious in Dungeon", "Delicious in Dungeon Season 2"),
    ("My Hero Academia", "My Hero Academia Final Season"),
    ("Jujutsu Kaisen", "Jujutsu Kaisen Season 2"),
    ("Attack on Titan", "Attack on Titan Season 2"),
];

const SHOULD_NOT_MATCH: &[(&str, &str)] = &[
    ("Steins;Gate", "Steins;Gate 0"),
    ("Digimon Adventure", "Digimon Adventure 02"),
    ("Ghost in the Shell", "Ghost in the Shell 2"),
    ("Psycho-Pass", "Psycho-Pass 2"),
    ("Initial D", "Initial D 2"),
    ("Fate/Zero", "Fate/stay night"),
    ("Fate/stay night", "Fate/Apocrypha"),
    ("Fate/Zero", "Fate/Grand Order"),
    ("Code Geass", "Code:Breaker"),
    ("Mobile Suit Gundam", "Mobile Suit Gundam Wing"),
    ("Gundam Seed", "Gundam Wing"),
    ("Persona 4", "Persona 5"),
    ("Digimon Adventure", "Digimon Tamers"),
    ("Digimon Adventure", "Digimon Frontier"),
    ("Precure", "Heartcatch Precure"),
    ("Attack on Titan", "Attack No. 1"),
    ("One Piece", "One Punch Man"),
    ("One Piece", "One Room"),
    ("Black Clover", "Black Lagoon"),
    ("Black Butler", "Black Clover"),
    ("Fire Force", "Fairy Tail"),
    ("Blue Lock", "Blue Exorcist"),
    ("Blue Period", "Blue Lock"),
    ("Dragon Ball", "Dragon Quest"),
    ("Sword Art Online", "Sword of the Stranger"),
    ("Tokyo Ghoul", "Tokyo Revengers"),
    ("Tokyo Ghoul", "Tokyo Mew Mew"),
    ("Monster", "Monster Musume"),
    ("Bakemonogatari", "Nisemonogatari"),
    ("Golden Kamuy", "Golden Boy"),
    ("Hell's Paradise", "Hell Girl"),
    ("The Seven Deadly Sins", "The Ancient Magus' Bride"),
    ("Naruto", "Bleach"),
    ("Death Note", "Code Geass"),
    ("Cowboy Bebop", "Samurai Champloo"),
    ("Spy x Family", "Sky Wizards Academy"),
    ("Chainsaw Man", "Chained Soldier"),
    ("Jujutsu Kaisen", "Jubei-chan"),
    ("Demon Slayer", "Demon King Daimao"),
    ("Made in Abyss", "Maid Sama"),
    ("High School DxD", "High School of the Dead"),
    ("Boku no Hero Academia", "Boku no Pico"),
    ("Gundam Seed", "Gundam Seed Destiny"),
];

#[test]
fn corpus_recall_same_show_variants_match() {
    let misses: Vec<_> = SHOULD_MATCH
        .iter()
        .filter(|(a, b)| !same_show(a, b))
        .collect();
    assert!(
        misses.is_empty(),
        "these same-show pairs failed to match (recall gap): {misses:#?}"
    );
}

#[test]
fn corpus_safety_distinct_works_do_not_match() {
    let false_merges: Vec<_> = SHOULD_NOT_MATCH
        .iter()
        .filter(|(a, b)| same_show(a, b))
        .collect();
    assert!(
        false_merges.is_empty(),
        "these DISTINCT works were wrongly merged (unsafe false positives): {false_merges:#?}"
    );
}

#[test]
fn corpus_is_large_and_symmetric() {
    assert!(
        SHOULD_MATCH.len() + SHOULD_NOT_MATCH.len() >= 100,
        "corpus shrank below 100 pairs"
    );
    for (a, b) in SHOULD_MATCH.iter().chain(SHOULD_NOT_MATCH) {
        assert_eq!(same_show(a, b), same_show(b, a), "asymmetric verdict for ({a:?}, {b:?})");
    }
}

const MULTIBYTE_TITLES: &[(&str, &str)] = &[
    ("Long Sword Ⅱ", "longsword"),
    ("The Morose Mononokean Ⅱ", "mononokean"),
    ("Zhu Dick: Guguai Dao Da Maoxian Ⅰ", "maoxian"),
    ("Galaxy Angel Ａ", "angel"),
    ("Kuusou Episodeⁿ", "kuusou"),
    ("Tom Thumb 00⅐", "thumb"),
];

#[test]
fn multibyte_titles_do_not_panic_in_franchise_dedup_key() {
    for (title, core) in MULTIBYTE_TITLES {
        let key = franchise_dedup_key(title);
        assert!(
            key.contains(core),
            "expected {core:?} to survive in {title:?} -> {key:?}"
        );
    }
}

#[test]
fn multibyte_titles_do_not_panic_in_normalize_title() {
    for (title, _) in MULTIBYTE_TITLES {
        let norm = normalize_title(title);
        assert!(!norm.is_empty(), "normalize_title reduced {title:?} to empty");
    }
}

#[test]
fn distinct_extension_guard_is_targeted() {
    assert!(distinct_extension("steins gate", "steins gate 0"));
    assert!(distinct_extension("digimon adventure", "digimon adventure 02"));
    assert!(distinct_extension("mobile suit gundam", "mobile suit gundam wing"));
    assert!(!distinct_extension("spy x family", "spy x family part 2"));
    assert!(!distinct_extension("spy x family", "spy x family season 2"));
    assert!(!distinct_extension("hunter x hunter", "hunter x hunter 2011"));
    assert!(!distinct_extension("overlord", "overlord iv"));
    assert!(!distinct_extension("attack on titan", "attack on titan final season"));
    assert!(!distinct_extension("fate zero", "fate stay night"));
}
