use dictionary_lsp::fuzzy::FuzzyMatcher;
use dictionary_lsp::provider::{find_words_by_prefix_with_distance, SuggestionProvider};
use dictionary_lsp::trie::TrieIndex;

fn rows(words: &[(&str, i64)]) -> Option<Vec<Option<(String, i64)>>> {
    Some(words.iter().map(|(w, f)| Some((w.to_string(), *f))).collect())
}

fn strings(words: &[&str]) -> Vec<String> {
    words.iter().map(|w| w.to_string()).collect()
}

fn built_index() -> TrieIndex {
    let mut idx = TrieIndex::new();
    idx.initialize_global_trie(
        rows(&[
            ("program", 100),
            ("proud", 90),
            ("prove", 80),
            ("proxy", 70),
            ("prose", 60),
            ("probe", 50),
            ("progress", 40),
        ]),
        0,
    )
    .unwrap();
    idx
}

#[test]
fn empty_prefix_is_rejected() {
    let mut idx = built_index();
    let mut m = FuzzyMatcher::new();
    let mut p = SuggestionProvider::new();
    assert_eq!(p.find_words_by_prefix(&mut idx, &mut m, ""), None);
}

#[test]
fn trie_results_come_ranked_and_limited() {
    let mut idx = built_index();
    let mut m = FuzzyMatcher::new();
    let mut p = SuggestionProvider::new();
    let r = p.find_words_by_prefix(&mut idx, &mut m, "pro");
    assert_eq!(r, Some(strings(&["program", "proud", "prove", "proxy", "prose"])));
}

#[test]
fn extending_the_query_filters_the_cached_results() {
    let mut idx = built_index();
    let mut m = FuzzyMatcher::new();
    let mut p = SuggestionProvider::new();
    let first = p.find_words_by_prefix(&mut idx, &mut m, "pro").unwrap();
    assert_eq!(first, strings(&["program", "proud", "prove", "proxy", "prose"]));
    // the second query must be answered from the first one's results: a
    // fresh trie query for "prog" would also return "progress"
    let second = p.find_words_by_prefix(&mut idx, &mut m, "prog").unwrap();
    assert_eq!(second, strings(&["program"]));
}

#[test]
fn extension_cache_is_case_insensitive() {
    let mut idx = built_index();
    let mut m = FuzzyMatcher::new();
    let mut p = SuggestionProvider::new();
    let first = p.find_words_by_prefix(&mut idx, &mut m, "Pro").unwrap();
    assert_eq!(first, strings(&["program", "proud", "prove", "proxy", "prose"]));
    let second = p.find_words_by_prefix(&mut idx, &mut m, "PROG").unwrap();
    assert_eq!(second, strings(&["program"]));
}

#[test]
fn fruitless_query_clears_the_cache() {
    let mut idx = built_index();
    let mut m = FuzzyMatcher::new();
    let mut p = SuggestionProvider::new();
    p.find_words_by_prefix(&mut idx, &mut m, "pro").unwrap();
    // nothing anywhere near this: trie empty, no candidate is stored
    assert_eq!(p.find_words_by_prefix(&mut idx, &mut m, "kkkkkkkkkk"), None);
    // with the cache cleared, the next query consults the trie afresh
    let r = p.find_words_by_prefix(&mut idx, &mut m, "prog").unwrap();
    assert_eq!(r, strings(&["program", "progress"]));
}

#[test]
fn fallback_serves_near_misses_from_the_frequency_store() {
    let mut idx = TrieIndex::new();
    // one long stored word; the query below extends it by one character,
    // so the trie itself has nothing under the full query
    idx.initialize_global_trie(rows(&[("abcdefghijklmnopq", 7)]), 0).unwrap();
    let mut m = FuzzyMatcher::new();
    let mut p = SuggestionProvider::new();
    // deleting the query's last character is a distance-1 candidate that
    // ranks early enough to reach the frequency filter
    let r = p.find_words_by_prefix(&mut idx, &mut m, "abcdefghijklmnopqr");
    assert_eq!(r, Some(strings(&["abcdefghijklmnopq"])));
}

#[test]
fn uninitialized_index_without_candidates_degrades_to_none() {
    let mut idx = TrieIndex::new();
    let mut m = FuzzyMatcher::new();
    let mut p = SuggestionProvider::new();
    assert_eq!(p.find_words_by_prefix(&mut idx, &mut m, "pro"), None);
}

#[test]
fn with_distance_lowercases_and_generates() {
    let mut m = FuzzyMatcher::new();
    let r = find_words_by_prefix_with_distance(&mut m, "AbC", true).unwrap();
    assert_eq!(r[0], "abc");
    assert!(r.contains(&"abcd".to_string()));
}
