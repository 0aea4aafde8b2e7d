use oxidex::tokenizer::tokenize;

fn toks(bytes: &[u8]) -> Vec<String> {
    tokenize(&bytes.to_vec())
}

#[test]
fn tokenize_normalized_input_is_unchanged() {
    assert_eq!(toks(b"cat dog"), vec!["cat".to_string(), "dog".to_string()]);
}

#[test]
fn tokenize_strips_punctuation_and_lowercases() {
    assert_eq!(toks(b"Cat, Dog!"), vec!["cat".to_string(), "dog".to_string()]);
}

#[test]
fn tokenize_empty_and_whitespace_only() {
    assert_eq!(toks(b""), Vec::<String>::new());
    assert_eq!(toks(b" \t\r\n \x0c "), Vec::<String>::new());
}

#[test]
fn tokenize_splits_on_ascii_whitespace_only() {
    // A non-breaking space is not a split point: the fragment stays whole.
    let bytes = "a\u{a0}b c".as_bytes();
    assert_eq!(toks(bytes), vec!["a\u{a0}b".to_string(), "c".to_string()]);
}

#[test]
fn tokenize_replaces_invalid_bytes() {
    // 0xFF is not valid UTF-8: it decodes to a replacement character,
    // which is not alphanumeric and is trimmed away.
    assert_eq!(toks(&[0xFF, b'A']), vec!["a".to_string()]);
    assert_eq!(toks(&[0xFF]), Vec::<String>::new());
}

#[test]
fn tokenize_lowercases_mixed_case() {
    assert_eq!(toks(b"HeLLo WoRLD"), vec!["hello".to_string(), "world".to_string()]);
}

#[test]
fn tokenize_drops_symbol_only_fragments() {
    assert_eq!(toks(b"... cat --- d0g_1 !!"), vec!["cat".to_string(), "d0g_1".to_string()]);
}
