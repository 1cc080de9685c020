use dictionary_lsp::fuzzy::{generate_levenshtein_candidates, FuzzyMatcher};

fn alphabet() -> Vec<String> {
    (b'a'..=b'z').map(|c| (c as char).to_string()).collect()
}

#[test]
fn empty_prefix_returns_the_alphabet() {
    let mut m = FuzzyMatcher::new();
    let r = m.generate_candidates("", false);
    assert_eq!(r, alphabet());
    let r2 = m.generate_candidates("", true);
    assert_eq!(r2, alphabet());
}

#[test]
fn oversized_prefix_returns_nothing() {
    let mut m = FuzzyMatcher::new();
    let p: String = "abcdefghijklmnopqrstu".to_string();
    assert_eq!(p.chars().count(), 21);
    assert_eq!(m.generate_candidates(&p, false), Vec::<String>::new());
    assert_eq!(m.generate_candidates(&p, true), Vec::<String>::new());
}

#[test]
fn abc_suffix_completions_are_all_present() {
    let mut m = FuzzyMatcher::new();
    let r = m.generate_candidates("abc", false);
    for c in b'a'..=b'z' {
        let w = format!("abc{}", c as char);
        assert!(r.contains(&w), "missing suffix completion {}", w);
    }
    // what the user already typed is never corrupted: every candidate no
    // longer than the prefix still opens with its first character
    for w in &r {
        if w.chars().count() <= 3 {
            assert!(w.starts_with('a'), "corrupted candidate {}", w);
        }
    }
}

#[test]
fn prefix_itself_ranks_first() {
    let mut m = FuzzyMatcher::new();
    let r = m.generate_candidates("abc", false);
    assert_eq!(r[0], "abc");
    let r2 = m.generate_candidates("house", true);
    assert_eq!(r2[0], "house");
}

#[test]
fn result_is_bounded_and_deduplicated() {
    let mut m = FuzzyMatcher::new();
    for (p, d2) in [("a", false), ("ab", true), ("hello", true), ("x", true)] {
        let r = m.generate_candidates(p, d2);
        assert!(r.len() <= 1000);
        let mut seen = r.clone();
        seen.sort();
        seen.dedup();
        assert_eq!(seen.len(), r.len(), "duplicates for {}", p);
    }
}

#[test]
fn distance_one_edits_are_present() {
    let mut m = FuzzyMatcher::new();
    let r = m.generate_candidates("abc", false);
    // back-half deletions
    assert!(r.contains(&"ab".to_string()));
    assert!(r.contains(&"ac".to_string()));
    // back-half substitution
    assert!(r.contains(&"abd".to_string()));
    assert!(r.contains(&"axc".to_string()));
    // front-half substitution is suppressed
    assert!(!r.contains(&"xbc".to_string()));
    // insertions anywhere
    assert!(r.contains(&"xabc".to_string()));
    assert!(r.contains(&"axbc".to_string()));
}

#[test]
fn distance_two_expands_prefix_keeping_words() {
    let mut m = FuzzyMatcher::new();
    let with = m.generate_candidates("abc", true);
    // a suffix completion of the suffix completion "abcd"
    assert!(with.contains(&"abcda".to_string()));
    let without = m.generate_candidates("abc", false);
    assert!(!without.contains(&"abcda".to_string()));
}

#[test]
fn identical_calls_return_identical_results() {
    let mut m = FuzzyMatcher::new();
    let first = m.generate_candidates("prog", true);
    let second = m.generate_candidates("prog", true);
    assert_eq!(first, second);
    // and a matcher with untouched caches agrees
    let mut fresh = FuzzyMatcher::new();
    assert_eq!(fresh.generate_candidates("prog", true), first);
}

#[test]
fn repeated_calls_promote_and_stay_identical() {
    let mut m = FuzzyMatcher::new();
    let first = m.generate_candidates("word", true);
    for _ in 0..10 {
        assert_eq!(m.generate_candidates("word", true), first);
    }
}

#[test]
fn levenshtein_candidates_delegate_to_the_generator() {
    let mut m = FuzzyMatcher::new();
    let direct = m.generate_candidates("tes", true);
    let mut fresh = FuzzyMatcher::new();
    let delegated = generate_levenshtein_candidates(&mut fresh, "tes", true);
    assert_eq!(direct, delegated);
}

#[test]
fn ranking_orders_prefix_keepers_first_then_by_length() {
    let mut m = FuzzyMatcher::new();
    let r = m.generate_candidates("ab", false);
    // the prefix itself, then its 26 suffix completions in letter order
    assert_eq!(r[0], "ab");
    let suffixes: Vec<String> = (b'a'..=b'z').map(|c| format!("ab{}", c as char)).collect();
    assert_eq!(&r[1..27], &suffixes[..]);
    // then the shortest candidate that lost the prefix: the deletion
    assert_eq!(r[27], "a");
    // then the substitutions, in letter order, skipping the original
    assert_eq!(r[28], "aa");
    assert_eq!(r[29], "ac");
}

#[test]
fn uppercase_input_is_distinct_from_lowercase() {
    // the generator itself does not fold case; callers lowercase first
    let mut m = FuzzyMatcher::new();
    let upper = m.generate_candidates("AB", false);
    assert_eq!(upper[0], "AB");
    assert!(upper.contains(&"ABa".to_string()));
}
