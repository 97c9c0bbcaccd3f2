use fuzzy_rank::item::{catalog_from_keys, Item, ItemData};
use fuzzy_rank::matcher::fuzzy_match;
use fuzzy_rank::pipeline::rank;

fn catalog_of(keys: &[&str]) -> Vec<Item> {
    catalog_from_keys(keys.iter().map(|k| k.to_string()).collect())
}

fn countries() -> Vec<Item> {
    catalog_of(&["Germany", "Ghana", "Guam"])
}

#[test]
fn catalog_from_keys_assigns_ids() {
    let catalog = countries();
    assert_eq!(catalog.len(), 3);
    for (i, item) in catalog.iter().enumerate() {
        assert_eq!(item.id, i);
        assert!(!item.selected);
        assert!(item.score.is_none());
        assert!(item.match_indices.is_none());
    }
    assert_eq!(catalog[0].data.key, "Germany");
    assert_eq!(catalog[1].data.key, "Ghana");
    assert_eq!(catalog[2].data.key, "Guam");
}

#[test]
fn item_new_is_unscored() {
    let item = Item::new(
        5,
        ItemData {
            key: "Fiji".to_string(),
        },
    );
    assert_eq!(item.id, 5);
    assert_eq!(item.data.key, "Fiji");
    assert!(!item.selected);
    assert!(item.score.is_none());
    assert!(item.match_indices.is_none());
}

#[test]
fn empty_query_yields_nothing() {
    let result = rank(&countries(), "", 10);
    assert!(result.is_empty());
}

#[test]
fn empty_catalog_yields_nothing() {
    let result = rank(&Vec::new(), "any", 10);
    assert!(result.is_empty());
}

#[test]
fn no_subsequence_yields_nothing() {
    let result = rank(&countries(), "xyz", 10);
    assert!(result.is_empty());
}

#[test]
fn single_capital_matches_all() {
    let result = rank(&countries(), "G", 10);
    assert_eq!(result.len(), 3);
    let mut ids: Vec<usize> = result.iter().map(|item| item.id).collect();
    ids.sort();
    assert_eq!(ids, vec![0, 1, 2]);
    for item in &result {
        assert!(item.score.is_some());
        assert_eq!(item.match_indices.as_deref(), Some(&[0][..]));
    }
}

#[test]
fn prefix_query_filters() {
    let result = rank(&countries(), "Ge", 10);
    assert_eq!(result.len(), 1);
    assert_eq!(result[0].id, 0);
    assert_eq!(result[0].data.key, "Germany");
    assert_eq!(result[0].match_indices.as_deref(), Some(&[0, 1][..]));
}

#[test]
fn rank_is_deterministic() {
    let catalog = countries();
    let first = rank(&catalog, "ga", 10);
    let second = rank(&catalog, "ga", 10);
    assert_eq!(first, second);
}

#[test]
fn truncation_is_a_prefix() {
    let catalog = catalog_of(&["alpha", "salad", "canal", "palace", "gala"]);
    let full = rank(&catalog, "al", 10);
    assert!(full.len() >= 3);
    let cut = rank(&catalog, "al", 2);
    assert_eq!(cut.len(), 2);
    assert_eq!(cut[..], full[..2]);
}

#[test]
fn equal_scores_keep_catalog_order() {
    let catalog = catalog_of(&["Ghana", "Ghana", "Ghana"]);
    let result = rank(&catalog, "gh", 10);
    assert_eq!(result.len(), 3);
    let scores: Vec<u32> = result.iter().map(|item| item.score.unwrap()).collect();
    assert_eq!(scores[0], scores[1]);
    assert_eq!(scores[1], scores[2]);
    let ids: Vec<usize> = result.iter().map(|item| item.id).collect();
    assert_eq!(ids, vec![0, 1, 2]);
}

#[test]
fn positions_spell_the_query() {
    let catalog = catalog_of(&["Bosnia and Herzegovina", "United Arab Emirates"]);
    let result = rank(&catalog, "nia", 10);
    assert!(!result.is_empty());
    for item in &result {
        let key: Vec<char> = item.data.key.chars().collect();
        let positions = item.match_indices.as_ref().unwrap();
        assert_eq!(positions.len(), 3);
        for window in positions.windows(2) {
            assert!(window[0] < window[1]);
        }
        for (p, q) in positions.iter().zip("nia".chars()) {
            assert!(*p < key.len());
            assert_eq!(key[*p].to_ascii_lowercase(), q);
        }
    }
}

#[test]
fn interleaved_subsequence_positions() {
    let result = fuzzy_match("axbycz", "abc");
    let (score, positions) = result.expect("abc is a subsequence of axbycz");
    assert!(score > 0);
    assert_eq!(positions, vec![0, 2, 4]);
}

#[test]
fn matcher_rejects_empty_pattern() {
    assert!(fuzzy_match("anything", "").is_none());
}

#[test]
fn matcher_rejects_non_subsequence() {
    assert!(fuzzy_match("abc", "abx").is_none());
    assert!(fuzzy_match("ab", "abc").is_none());
}

#[test]
fn compact_match_outscores_scattered_match() {
    let catalog = catalog_of(&["xxxab", "ab"]);
    let result = rank(&catalog, "ab", 10);
    assert_eq!(result.len(), 2);
    assert_eq!(result[0].id, 1);
    assert_eq!(result[1].id, 0);
    assert!(result[0].score.unwrap() > result[1].score.unwrap());
}

#[test]
fn lowercase_query_is_case_insensitive() {
    let result = rank(&countries(), "gu", 10);
    assert_eq!(result.len(), 1);
    assert_eq!(result[0].data.key, "Guam");
    assert_eq!(result[0].match_indices.as_deref(), Some(&[0, 1][..]));
}

#[test]
fn uppercase_in_query_turns_case_sensitive() {
    let result = rank(&countries(), "gU", 10);
    assert!(result.is_empty());
}

#[test]
fn positions_count_characters_not_bytes() {
    let catalog = catalog_of(&["日本語abc"]);
    let result = rank(&catalog, "abc", 10);
    assert_eq!(result.len(), 1);
    assert_eq!(result[0].match_indices.as_deref(), Some(&[3, 4, 5][..]));
}

#[test]
fn selected_flag_is_preserved() {
    let mut catalog = countries();
    catalog[2].selected = true;
    let result = rank(&catalog, "guam", 10);
    assert_eq!(result.len(), 1);
    assert_eq!(result[0].id, 2);
    assert!(result[0].selected);
}

#[test]
fn scoring_state_is_recomputed_not_kept() {
    let catalog = countries();
    let matched = rank(&catalog, "gha", 10);
    assert_eq!(matched.len(), 1);
    assert_eq!(matched[0].id, 1);
    let after = rank(&catalog, "xyz", 10);
    assert!(after.is_empty());
    for item in &catalog {
        assert!(item.score.is_none());
        assert!(item.match_indices.is_none());
    }
}
