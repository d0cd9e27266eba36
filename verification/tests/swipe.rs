use anime_on_track::models::FinishedCard;
use anime_on_track::swipe::{fresh_draws, pick_index, shuffle, undecided_cards, weighted_pick_index};
use anime_on_track::text_set::TextSet;
use std::collections::HashSet;

fn card(url: &str) -> FinishedCard {
    FinishedCard {
        title: url.into(),
        url: url.into(),
        poster_url: None,
        kind: "TV".into(),
        matched_genre: None,
    }
}

#[test]
fn undecided_cards_excludes_known_urls() {
    let cards = vec![card("a"), card("b"), card("c")];
    let mut known = TextSet::new();
    known.insert("a".to_string());
    let out = undecided_cards(cards, &known);
    assert_eq!(out.len(), 2);
    assert!(out.iter().all(|c| c.url != "a"));
}

#[test]
fn undecided_cards_empty_when_all_known() {
    let cards = vec![card("a")];
    let mut known = TextSet::new();
    known.insert("a".to_string());
    assert!(undecided_cards(cards, &known).is_empty());
}

#[test]
fn undecided_cards_all_kept_when_nothing_known() {
    let cards = vec![card("a"), card("b")];
    let known = TextSet::new();
    assert_eq!(undecided_cards(cards, &known).len(), 2);
}

#[test]
fn shuffle_preserves_all_elements() {
    let mut draws = fresh_draws();
    let mut items = vec![1, 2, 3, 4, 5];
    shuffle(&mut items, &mut draws);
    items.sort();
    assert_eq!(items, vec![1, 2, 3, 4, 5]);
}

#[test]
fn pick_index_is_in_bounds_and_none_for_empty() {
    let mut draws = fresh_draws();
    for _ in 0..20 {
        let i = pick_index(7, &mut draws).unwrap();
        assert!(i < 7);
    }
    assert_eq!(pick_index(0, &mut draws), None);
}

#[test]
fn weighted_pick_index_only_ever_picks_the_sole_positive_weight() {
    let mut draws = fresh_draws();
    for _ in 0..20 {
        assert_eq!(weighted_pick_index(&vec![0, 0, 5], &mut draws), Some(2));
    }
}

#[test]
fn weighted_pick_index_falls_back_to_uniform_when_all_non_positive() {
    let mut draws = fresh_draws();
    for _ in 0..20 {
        let i = weighted_pick_index(&vec![0, -1, 0], &mut draws).unwrap();
        assert!(i < 3);
    }
}

#[test]
fn weighted_pick_index_none_for_empty() {
    let mut draws = fresh_draws();
    assert_eq!(weighted_pick_index(&vec![], &mut draws), None);
}

#[test]
fn pick_index_is_not_degenerate_for_a_length_that_divides_100() {
    let mut draws = fresh_draws();
    for len in [2usize, 4, 5, 10, 20, 25, 50] {
        let seen: HashSet<usize> = (0..400).map(|_| pick_index(len, &mut draws).unwrap()).collect();
        assert!(seen.iter().all(|&i| i < len), "out of bounds for len={len}");
        assert!(
            seen.len() > 1,
            "pick_index({len}) returned only {:?} over 400 samples — the generator is degenerate",
            seen
        );
    }
}

#[test]
fn pick_index_reaches_every_index_of_a_ten_wide_pool() {
    let mut draws = fresh_draws();
    let seen: HashSet<usize> = (0..2000).map(|_| pick_index(10, &mut draws).unwrap()).collect();
    assert_eq!(seen.len(), 10, "expected all 10 indices over 2000 samples, got {:?}", seen);
}

#[test]
fn weighted_pick_index_spreads_across_weights_and_favors_the_heavier() {
    let mut draws = fresh_draws();
    let mut counts = [0usize; 2];
    for _ in 0..2000 {
        counts[weighted_pick_index(&vec![1, 9], &mut draws).unwrap()] += 1;
    }
    assert!(counts[0] > 0, "the light weight is never picked: {counts:?}");
    assert!(counts[1] > counts[0], "the heavy weight must dominate: {counts:?}");
}

#[test]
fn shuffle_actually_reorders_a_ten_element_slice() {
    let mut draws = fresh_draws();
    let original: Vec<usize> = (0..10).collect();
    let reordered = (0..20).any(|_| {
        let mut items = original.clone();
        shuffle(&mut items, &mut draws);
        items != original
    });
    assert!(reordered, "20 shuffles of 10 elements never changed the order");
}
