use dictionary_lsp::dictionary_data::{
    is_cjk_char, json_prefix_matches, levenshtein_distance, parse_dictionary_entry,
};

fn strings(words: &[&str]) -> Vec<String> {
    words.iter().map(|w| w.to_string()).collect()
}

#[test]
fn json_prefix_matches_is_case_insensitive_and_ordered() {
    let keys = strings(&["Apple", "app", "banana", "APPLY", "ape"]);
    assert_eq!(json_prefix_matches(&keys, "ap"), strings(&["Apple", "app", "APPLY", "ape"]));
    assert_eq!(json_prefix_matches(&keys, "apP"), strings(&["Apple", "app", "APPLY"]));
    assert_eq!(json_prefix_matches(&keys, "zz"), Vec::<String>::new());
}

#[test]
fn json_prefix_matches_caps_depend_on_prefix_length() {
    let keys: Vec<String> = (0..120).map(|i| format!("ab{}", i)).collect();
    // a single-character prefix may return up to 100 keys
    assert_eq!(json_prefix_matches(&keys, "a").len(), 100);
    // a longer prefix is capped at 50, keeping the first keys in order
    let capped = json_prefix_matches(&keys, "ab");
    assert_eq!(capped.len(), 50);
    assert_eq!(capped[0], "ab0");
    assert_eq!(capped[49], "ab49");
}

#[test]
fn cjk_classification_follows_the_unicode_ranges() {
    assert!(is_cjk_char('你'));
    assert!(is_cjk_char('好'));
    assert!(is_cjk_char('\u{4E00}'));
    assert!(is_cjk_char('\u{9FFF}'));
    assert!(is_cjk_char('\u{3400}'));
    assert!(!is_cjk_char('a'));
    assert!(!is_cjk_char('Z'));
    assert!(!is_cjk_char('。'));
    assert!(!is_cjk_char(' '));
}

#[test]
fn levenshtein_distance_matches_known_values() {
    assert_eq!(levenshtein_distance("kitten", "sitting"), 3);
    assert_eq!(levenshtein_distance("", "abc"), 3);
    assert_eq!(levenshtein_distance("abc", ""), 3);
    assert_eq!(levenshtein_distance("", ""), 0);
    assert_eq!(levenshtein_distance("abc", "abc"), 0);
    assert_eq!(levenshtein_distance("flaw", "lawn"), 2);
    assert_eq!(levenshtein_distance("你好", "你坏"), 1);
}

#[test]
fn parse_entry_keeps_translation_then_distinct_detail() {
    let r = parse_dictionary_entry(
        "casa",
        Some("house".to_string()),
        Some("noun".to_string()),
        Some("home".to_string()),
    );
    assert_eq!(r.word, "casa");
    assert_eq!(r.meanings.len(), 1);
    assert_eq!(r.meanings[0].part_of_speech, "noun");
    let defs: Vec<&str> = r.meanings[0].definitions.iter().map(|d| d.definition.as_str()).collect();
    assert_eq!(defs, vec!["house", "home"]);
    assert!(r.meanings[0].definitions.iter().all(|d| d.example.is_none()));
}

#[test]
fn parse_entry_drops_a_detail_equal_to_the_translation() {
    let r = parse_dictionary_entry(
        "casa",
        Some("house".to_string()),
        None,
        Some("house".to_string()),
    );
    assert_eq!(r.meanings[0].part_of_speech, "unknown");
    let defs: Vec<&str> = r.meanings[0].definitions.iter().map(|d| d.definition.as_str()).collect();
    assert_eq!(defs, vec!["house"]);
}

#[test]
fn parse_entry_without_columns_yields_an_empty_meaning() {
    let r = parse_dictionary_entry("casa", None, None, None);
    assert_eq!(r.meanings.len(), 1);
    assert!(r.meanings[0].definitions.is_empty());
}
