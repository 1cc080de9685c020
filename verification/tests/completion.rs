use dictionary_lsp::completion::get_current_word_and_start;
use dictionary_lsp::dictionary_data::extract_word_at_position;

#[test]
fn test_get_current_word_and_start_empty_line() {
    let content = "";
    let result = get_current_word_and_start(content, 0, 0);
    assert_eq!(result, None);
}

#[test]
fn test_get_current_word_after_non_utf8_word() {
    let content = "你好时间jakdbdwj啊快速导航test再见是建设单位 word";
    // should extract the last word "test"
    let result = get_current_word_and_start(content, 0, 21);
    // if the cursor is at the CJK characters, should return None
    let result_1 = get_current_word_and_start(content, 0, 23);
    assert_eq!(result, Some(("test".to_string(), 17)));
    assert_eq!(result_1, None);
}

#[test]
fn test_get_current_word_and_start_middle_of_text() {
    let content = "some text with multiple words";
    let result = get_current_word_and_start(content, 0, 14);
    assert_eq!(result, Some(("with".to_string(), 10)));
}

#[test]
fn test_get_current_word_on_later_line() {
    let content = "first line\nsecond try";
    let result = get_current_word_and_start(content, 1, 10);
    assert_eq!(result, Some(("try".to_string(), 7)));
}

#[test]
fn test_get_current_word_position_past_line_end() {
    let content = "abc";
    assert_eq!(get_current_word_and_start(content, 0, 7), None);
    assert_eq!(get_current_word_and_start(content, 3, 0), None);
}

#[test]
fn test_extract_word_at_position_middle() {
    let content = "hello world";
    assert_eq!(extract_word_at_position(content, 0, 7), Some("world".to_string()));
    assert_eq!(extract_word_at_position(content, 0, 0), Some("hello".to_string()));
}

#[test]
fn test_extract_word_at_position_cjk_run() {
    let content = "你好test more";
    assert_eq!(extract_word_at_position(content, 0, 1), Some("你好test".to_string()));
}

#[test]
fn test_extract_word_at_position_on_space() {
    let content = "one two";
    // the run scanned backwards from the space still yields the word
    assert_eq!(extract_word_at_position(content, 0, 3), Some("one".to_string()));
    assert_eq!(extract_word_at_position(content, 1, 0), None);
    assert_eq!(extract_word_at_position(content, 0, 11), None);
}

#[test]
fn test_extract_word_on_second_line_with_crlf() {
    let content = "alpha\r\nbeta gamma";
    assert_eq!(extract_word_at_position(content, 1, 0), Some("beta".to_string()));
    assert_eq!(extract_word_at_position(content, 0, 4), Some("alpha".to_string()));
}
