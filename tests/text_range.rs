use ultra_nlp::TextRange;

#[test]
fn test_len() {
    let range = TextRange::new(1, 2);

    let result = range.len();

    assert_eq!(result, 1);
}

#[test]
fn test_extract_ascii() {
    let text = "hello world";
    let range = TextRange::new(1, 2);

    let result = range.extract(text);

    assert_eq!(result, Some("e"));
}

#[test]
fn test_extract_unicode() {
    let text = "你好世界";
    let range = TextRange::new(3, 6);

    let result = range.extract(text);

    assert_eq!(result, Some("好"));
}

#[test]
fn test_extract_invalid_text() {
    let text = "你好世界";
    let range = TextRange::new(0, 1);

    let result = range.extract(text);

    assert_eq!(result, None);
}
