use dictionary_lsp::trie::{BuildError, TrieIndex};

fn rows(words: &[(&str, i64)]) -> Option<Vec<Option<(String, i64)>>> {
    Some(words.iter().map(|(w, f)| Some((w.to_string(), *f))).collect())
}

fn strings(words: &[&str]) -> Vec<String> {
    words.iter().map(|w| w.to_string()).collect()
}

#[test]
fn find_by_prefix_ranks_by_descending_frequency() {
    let mut idx = TrieIndex::new();
    assert!(!idx.is_trie_initialized());
    let r = idx.initialize_global_trie(rows(&[("apple", 100), ("app", 50), ("apply", 10)]), 0);
    assert_eq!(r, Ok(()));
    assert!(idx.is_trie_initialized());
    assert_eq!(idx.find_words_by_prefix("app", 10), strings(&["apple", "app", "apply"]));
}

#[test]
fn find_respecting_case_capitalizes_results() {
    let mut idx = TrieIndex::new();
    idx.initialize_global_trie(rows(&[("apple", 100), ("app", 50), ("apply", 10)]), 0).unwrap();
    assert_eq!(idx.find_words_respecting_case("Ap", 5), strings(&["Apple", "App", "Apply"]));
    assert_eq!(idx.find_words_respecting_case("ap", 5), strings(&["apple", "app", "apply"]));
}

#[test]
fn limit_truncates_the_ranked_list() {
    let mut idx = TrieIndex::new();
    idx.initialize_global_trie(rows(&[("apple", 100), ("app", 50), ("apply", 10)]), 0).unwrap();
    assert_eq!(idx.find_words_by_prefix("app", 2), strings(&["apple", "app"]));
    assert_eq!(idx.find_words_by_prefix("app", 0), Vec::<String>::new());
}

#[test]
fn unknown_prefix_finds_nothing() {
    let mut idx = TrieIndex::new();
    idx.initialize_global_trie(rows(&[("apple", 100)]), 0).unwrap();
    assert_eq!(idx.find_words_by_prefix("b", 5), Vec::<String>::new());
}

#[test]
fn uninitialized_index_finds_nothing() {
    let mut idx = TrieIndex::new();
    assert_eq!(idx.find_words_by_prefix("app", 5), Vec::<String>::new());
}

#[test]
fn missing_source_reports_source_unavailable() {
    let mut idx = TrieIndex::new();
    assert_eq!(idx.initialize_global_trie(None, 0), Err(BuildError::SourceUnavailable));
    assert!(!idx.is_trie_initialized());
}

#[test]
fn malformed_rows_are_skipped_not_fatal() {
    let mut idx = TrieIndex::new();
    let source = Some(vec![
        Some(("good".to_string(), 10)),
        None,
        Some(("fine".to_string(), 5)),
    ]);
    assert_eq!(idx.initialize_global_trie(source, 0), Ok(()));
    assert_eq!(idx.find_words_by_prefix("g", 5), strings(&["good"]));
    assert_eq!(idx.find_words_by_prefix("f", 5), strings(&["fine"]));
}

#[test]
fn empty_word_rows_only_keep_their_rank() {
    let mut idx = TrieIndex::new();
    // the trie cannot store an empty word; the build must not choke on one
    assert_eq!(idx.initialize_global_trie(rows(&[("", 99), ("ash", 2)]), 0), Ok(()));
    assert!(idx.is_trie_initialized());
    assert_eq!(idx.find_words_by_prefix("a", 5), strings(&["ash"]));
}

#[test]
fn recency_guard_suppresses_early_rebuilds() {
    let mut idx = TrieIndex::new();
    idx.initialize_global_trie(rows(&[("old", 1)]), 1000).unwrap();
    // well inside the hour: a rebuild is a silent no-op, even without a source
    assert_eq!(idx.initialize_global_trie(None, 1500), Ok(()));
    assert_eq!(idx.initialize_global_trie(rows(&[("new", 1)]), 1500), Ok(()));
    assert_eq!(idx.find_words_by_prefix("new", 5), Vec::<String>::new());
    assert_eq!(idx.find_words_by_prefix("old", 5), strings(&["old"]));
    // an hour later the rebuild goes through
    assert_eq!(idx.initialize_global_trie(rows(&[("new", 1)]), 1000 + 3600), Ok(()));
    assert_eq!(idx.find_words_by_prefix("new", 5), strings(&["new"]));
}

#[test]
fn rebuild_replaces_the_whole_index_and_clears_the_cache() {
    let mut idx = TrieIndex::new();
    idx.initialize_global_trie(rows(&[("alpha", 10), ("amber", 20)]), 0).unwrap();
    // populate the prefix cache
    assert_eq!(idx.find_words_by_prefix("a", 5), strings(&["amber", "alpha"]));
    // rebuild with other frequencies after the guard interval
    idx.initialize_global_trie(rows(&[("alpha", 30), ("amber", 20)]), 4000).unwrap();
    // the cached entry for "a" is gone: the fresh ranking shows through
    assert_eq!(idx.find_words_by_prefix("a", 5), strings(&["alpha", "amber"]));
}

#[test]
fn repeated_queries_hit_the_cache_and_agree() {
    let mut idx = TrieIndex::new();
    idx.initialize_global_trie(rows(&[("word", 7), ("world", 9)]), 0).unwrap();
    let first = idx.find_words_by_prefix("wor", 5);
    assert_eq!(first, strings(&["world", "word"]));
    assert_eq!(idx.find_words_by_prefix("wor", 5), first);
    // a smaller limit truncates the cached answer
    assert_eq!(idx.find_words_by_prefix("wor", 1), strings(&["world"]));
    // a larger limit recomputes rather than serving a short list
    assert_eq!(idx.find_words_by_prefix("wor", 10), first);
}

#[test]
fn duplicate_rows_keep_the_later_frequency() {
    let mut idx = TrieIndex::new();
    idx.initialize_global_trie(rows(&[("ash", 9), ("axe", 5), ("axe", 20)]), 0).unwrap();
    // "axe" now ranks 20, above "ash"
    assert_eq!(idx.find_words_by_prefix("a", 5), strings(&["axe", "ash"]));
}

#[test]
fn respecting_case_with_no_matches_is_empty() {
    let mut idx = TrieIndex::new();
    idx.initialize_global_trie(rows(&[("apple", 1)]), 0).unwrap();
    assert_eq!(idx.find_words_respecting_case("Zz", 5), Vec::<String>::new());
}

#[test]
fn top_ranked_members_filters_and_ranks_candidates() {
    let mut idx = TrieIndex::new();
    idx.initialize_global_trie(rows(&[("za", 5), ("zb", 9), ("zc", 7)]), 0).unwrap();
    let cands = strings(&["zx", "za", "zc", "za", "zb"]);
    assert_eq!(idx.top_ranked_members(&cands, 5), strings(&["zb", "zc", "za"]));
    assert_eq!(idx.top_ranked_members(&cands, 2), strings(&["zb", "zc"]));
    assert_eq!(idx.top_ranked_members(&strings(&["qq"]), 5), Vec::<String>::new());
}
