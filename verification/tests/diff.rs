use anime_on_track::diff::new_episodes;
use anime_on_track::models::Episode;
use anime_on_track::text_set::TextSet;

fn known(numbers: &[&str]) -> TextSet {
    let mut set = TextSet::new();
    for n in numbers {
        set.insert(n.to_string());
    }
    set
}

fn ep(number: &str, url: &str) -> Episode {
    Episode {
        id: 0, series_id: 1, number: number.into(), title: None,
        url: url.into(), released_at: None, seen: false,
    }
}

#[test]
fn returns_only_unknown_numbers() {
    let scraped = vec![ep("1", "u1"), ep("2", "u2"), ep("3", "u3")];
    let known = known(&["1", "2"]);
    let out = new_episodes(&scraped, &known);
    assert_eq!(out.len(), 1);
    assert_eq!(out[0].number, "3");
}

#[test]
fn empty_when_all_numbers_known() {
    let scraped = vec![ep("1", "u1")];
    let known = known(&["1"]);
    assert!(new_episodes(&scraped, &known).is_empty());
}

#[test]
fn all_new_when_nothing_known() {
    let scraped = vec![ep("1", "u1"), ep("2", "u2")];
    let known = TextSet::new();
    assert_eq!(new_episodes(&scraped, &known).len(), 2);
}

#[test]
fn domain_change_is_not_new_episodes() {
    let scraped = vec![
        ep("1", "https://animeyt.cc/999/anime/x-capitulo-1/"),
        ep("2", "https://animeyt.cc/998/anime/x-capitulo-2/"),
    ];
    let known = known(&["1", "2"]);
    assert!(
        new_episodes(&scraped, &known).is_empty(),
        "same numbers on a new domain must not count as new episodes"
    );
}
