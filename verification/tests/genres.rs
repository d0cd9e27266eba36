use anime_on_track::genres::canonical_genre;

#[test]
fn maps_spanish_genres_onto_anilist_canon() {
    assert_eq!(canonical_genre("Acción"), Some("Action"));
    assert_eq!(canonical_genre("Fantasía"), Some("Fantasy"));
    assert_eq!(canonical_genre("Aventura"), Some("Adventure"));
    assert_eq!(canonical_genre("Comedia"), Some("Comedy"));
    assert_eq!(canonical_genre("Ciencia ficción"), Some("Sci-Fi"));
    assert_eq!(canonical_genre("Recuentos de la vida"), Some("Slice of Life"));
    assert_eq!(canonical_genre("Misterio"), Some("Mystery"));
    assert_eq!(canonical_genre("Terror"), Some("Horror"));
    assert_eq!(canonical_genre("Deportes"), Some("Sports"));
    assert_eq!(canonical_genre("Música"), Some("Music"));
    assert_eq!(canonical_genre("Psicológico"), Some("Psychological"));
}

#[test]
fn is_case_and_accent_insensitive() {
    assert_eq!(canonical_genre("ACCIÓN"), Some("Action"));
    assert_eq!(canonical_genre("accion"), Some("Action"));
    assert_eq!(canonical_genre("  Acción  "), Some("Action"));
}

#[test]
fn already_canonical_english_genres_pass_through() {
    for g in [
        "Drama", "Romance", "Supernatural", "Mecha", "Ecchi", "Horror", "Thriller", "Action",
        "Fantasy", "Adventure", "Comedy", "Mystery", "Sci-Fi", "Slice of Life", "Sports",
        "Music", "Psychological", "Hentai", "Mahou Shoujo",
    ] {
        assert_eq!(canonical_genre(g), Some(g), "expected {g} to pass through unchanged");
    }
}

#[test]
fn site_only_tags_with_no_anilist_equivalent_return_none() {
    assert_eq!(canonical_genre("Shounen"), None);
    assert_eq!(canonical_genre("Isekai"), None);
    assert_eq!(canonical_genre("Reencarnación"), None);
    assert_eq!(canonical_genre("Escolar"), None);
    assert_eq!(canonical_genre("Seinen"), None);
    assert_eq!(canonical_genre("Josei"), None);
}
