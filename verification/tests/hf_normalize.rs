use gigatoken_addon::hftok::{normalize_pre_tokenizer, replace_bytes};

#[test]
fn server_regex_is_respelled() {
    let json = br#"{"pre_tokenizer":{"pattern":{"Regex":"(?:'[sS]|'[tT]|'[rR][eE]|'[vV][eE]|'[mM]|'[lL][lL]|'[dD])|[^\r\n\p{L}\p{N}]?\p{L}+"}}}"#;
    let out = normalize_pre_tokenizer(json);
    let expected = br#"{"pre_tokenizer":{"pattern":{"Regex":"(?i:'s|'t|'re|'ve|'m|'ll|'d)|[^\r\n\p{L}\p{N}]?\p{L}+"}}}"#;
    assert_eq!(out, expected.to_vec());
}

#[test]
fn other_json_is_unchanged() {
    let json = br#"{"model":{"type":"BPE"}}"#;
    assert_eq!(normalize_pre_tokenizer(json), json.to_vec());
}

#[test]
fn invalid_utf8_is_replaced() {
    assert_eq!(normalize_pre_tokenizer(b"a\xffb"), b"a\xef\xbf\xbdb".to_vec());
}

#[test]
fn replacement_is_left_to_right_without_overlap() {
    assert_eq!(replace_bytes(b"aaa", b"aa", b"X"), b"Xa".to_vec());
    assert_eq!(replace_bytes(b"abab", b"ab", b""), Vec::<u8>::new());
    assert_eq!(replace_bytes(b"abc", b"", b"X"), b"abc".to_vec());
    assert_eq!(replace_bytes(b"xaby", b"ab", b"[ab]"), b"x[ab]y".to_vec());
}

#[test]
fn normalizing_twice_is_normalizing_once() {
    let server = b"(?:'[sS]|'[tT]|'[rR][eE]|'[vV][eE]|'[mM]|'[lL][lL]|'[dD])";
    let mut json = b"x\xff".to_vec();
    json.extend_from_slice(server);
    json.extend_from_slice(server);
    json.extend_from_slice(b"(?:'[sS]");
    let once = normalize_pre_tokenizer(&json);
    let twice = normalize_pre_tokenizer(&once);
    assert_eq!(once, twice);
    assert!(std::str::from_utf8(&once).is_ok());
    assert!(!once.windows(server.len()).any(|w| w == &server[..]));
}
