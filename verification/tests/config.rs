use dictionary_lsp::config::{Config, ConfigManager};

#[test]
fn defaults_match_the_documented_values() {
    let manager = ConfigManager::new();
    let config = manager.get_config();
    assert!(config.completion.enabled);
    assert_eq!(config.completion.max_distance, 3);
    assert_eq!(config.dictionary_path, None);
    assert_eq!(config.freq_path, None);
    assert_eq!(config.formatting.word_format, "**{word}**");
    assert_eq!(config.formatting.part_of_speech_format, "_{part}_");
    assert_eq!(config.formatting.definition_format, "{num}. {definition}");
    assert_eq!(config.formatting.example_format, "   > Example: _{example}_");
    assert!(!config.formatting.add_spacing);
}

#[test]
fn update_config_applies_the_closure_and_returns_the_result() {
    let mut manager = ConfigManager::new();
    let updated = manager.update_config(|mut c: Config| {
        c.completion.enabled = false;
        c
    });
    assert!(!updated.completion.enabled);
    assert!(!manager.get_config().completion.enabled);
    // other fields are untouched
    assert_eq!(manager.get_config().completion.max_distance, 3);
}

#[test]
fn config_update_toggles_in_place() {
    let mut config = Config::default();
    config.update(|mut c: Config| {
        c.completion.enabled = !c.completion.enabled;
        c
    });
    assert!(!config.completion.enabled);
    config.update(|mut c: Config| {
        c.completion.enabled = !c.completion.enabled;
        c
    });
    assert!(config.completion.enabled);
}

#[test]
fn config_get_returns_an_equal_copy() {
    let config = Config::default();
    let copy = config.get();
    assert_eq!(copy.completion, config.completion);
    assert_eq!(copy.formatting.word_format, config.formatting.word_format);
    assert_eq!(copy.dictionary_path, config.dictionary_path);
}

#[test]
fn is_sqlite_goes_by_the_extension() {
    assert!(Config::is_sqlite(Some("dict.db")));
    assert!(Config::is_sqlite(Some(".db")));
    assert!(!Config::is_sqlite(Some("dict.json")));
    assert!(!Config::is_sqlite(Some("db")));
    assert!(!Config::is_sqlite(Some("")));
    assert!(!Config::is_sqlite(None));
}
