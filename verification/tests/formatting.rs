use dictionary_lsp::dictionary_data::{Definition, DictionaryResponse, Meaning};
use dictionary_lsp::formatting::{
    format_definition_as_markdown, format_definition_as_markdown_with_config, FormattingConfig,
};

fn sample_response() -> DictionaryResponse {
    DictionaryResponse {
        word: "apple".to_string(),
        meanings: vec![Meaning {
            part_of_speech: "noun".to_string(),
            definitions: vec![
                Definition { definition: "A fruit".to_string(), example: None },
                Definition {
                    definition: "A tree".to_string(),
                    example: Some("An apple a day".to_string()),
                },
            ],
        }],
    }
}

#[test]
fn default_styling_renders_expected_markdown() {
    let md = format_definition_as_markdown("apple", &sample_response());
    assert_eq!(
        md,
        "**apple**\n_noun_\n1. A fruit\n2. A tree\n   > Example: _An apple a day_\n"
    );
}

#[test]
fn default_function_matches_default_config() {
    let via_config = format_definition_as_markdown_with_config(
        "apple",
        &sample_response(),
        &FormattingConfig::default(),
    );
    assert_eq!(format_definition_as_markdown("apple", &sample_response()), via_config);
}

#[test]
fn custom_templates_and_spacing_are_honoured() {
    let config = FormattingConfig {
        word_format: "# {word}".to_string(),
        part_of_speech_format: "[{part}]".to_string(),
        definition_format: "{num}) {definition}".to_string(),
        example_format: "e.g. {example}".to_string(),
        add_spacing: true,
    };
    let md = format_definition_as_markdown_with_config("apple", &sample_response(), &config);
    assert_eq!(md, "# apple\n\n[noun]\n1) A fruit\n2) A tree\ne.g. An apple a day\n");
}

#[test]
fn every_placeholder_occurrence_is_replaced() {
    let config = FormattingConfig {
        word_format: "{word}/{word}".to_string(),
        part_of_speech_format: "{part}".to_string(),
        definition_format: "{num}.{num} {definition}".to_string(),
        example_format: "{example}".to_string(),
        add_spacing: false,
    };
    let response = DictionaryResponse {
        word: "w".to_string(),
        meanings: vec![Meaning {
            part_of_speech: "verb".to_string(),
            definitions: vec![Definition { definition: "do".to_string(), example: None }],
        }],
    };
    let md = format_definition_as_markdown_with_config("w", &response, &config);
    assert_eq!(md, "w/w\nverb\n1.1 do\n");
}

#[test]
fn multiple_meanings_render_in_order() {
    let response = DictionaryResponse {
        word: "run".to_string(),
        meanings: vec![
            Meaning {
                part_of_speech: "noun".to_string(),
                definitions: vec![Definition { definition: "a jog".to_string(), example: None }],
            },
            Meaning {
                part_of_speech: "verb".to_string(),
                definitions: vec![Definition { definition: "to move".to_string(), example: None }],
            },
        ],
    };
    let md = format_definition_as_markdown("run", &response);
    assert_eq!(md, "**run**\n_noun_\n1. a jog\n_verb_\n1. to move\n");
}

#[test]
fn response_without_meanings_renders_only_the_title() {
    let response = DictionaryResponse { word: "bare".to_string(), meanings: vec![] };
    assert_eq!(format_definition_as_markdown("bare", &response), "**bare**\n");
}
