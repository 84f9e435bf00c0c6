use mod_bridge::base64::{b64_to_bytes, bytes_to_b64, decode_base64, B64Error};
use mod_bridge::json_text::{extract_json_string, extract_json_value_raw, json_escape_raw};

#[test]
fn b64_encode_known_values() {
    assert_eq!(bytes_to_b64(b""), "");
    assert_eq!(bytes_to_b64(b"f"), "Zg==");
    assert_eq!(bytes_to_b64(b"fo"), "Zm8=");
    assert_eq!(bytes_to_b64(b"foo"), "Zm9v");
    assert_eq!(bytes_to_b64(b"foob"), "Zm9vYg==");
    assert_eq!(bytes_to_b64(b"foobar"), "Zm9vYmFy");
    assert_eq!(bytes_to_b64(&[0xfb, 0xff, 0xbf]), "+/+/");
}

#[test]
fn b64_decode_known_values() {
    assert_eq!(b64_to_bytes("Zm9vYmFy"), Ok(b"foobar".to_vec()));
    assert_eq!(b64_to_bytes("Zg=="), Ok(b"f".to_vec()));
    assert_eq!(b64_to_bytes("Zm8="), Ok(b"fo".to_vec()));
    assert_eq!(b64_to_bytes(""), Ok(Vec::new()));
    assert_eq!(b64_to_bytes("+/+/"), Ok(vec![0xfb, 0xff, 0xbf]));
}

#[test]
fn b64_decode_skips_ascii_whitespace() {
    assert_eq!(b64_to_bytes(" Zm9v\r\n\tYmFy\x0c "), Ok(b"foobar".to_vec()));
}

#[test]
fn b64_decode_length_error() {
    assert_eq!(b64_to_bytes("Zm9"), Err("base64 length".to_string()));
    assert_eq!(decode_base64(b"abcde"), Err(B64Error::BadLength));
}

#[test]
fn b64_decode_bad_char_error() {
    assert_eq!(b64_to_bytes("Zm9*"), Err("bad base64 char: *".to_string()));
    assert_eq!(b64_to_bytes("=m9v"), Err("bad base64 char: =".to_string()));
    assert_eq!(b64_to_bytes("Z=9v"), Err("bad base64 char: =".to_string()));
    // A non-ASCII character is read byte by byte; its first byte is reported.
    assert_eq!(b64_to_bytes("Zm\u{e9}"), Err("bad base64 char: \u{c3}".to_string()));
    assert_eq!(decode_base64(b"ab!d"), Err(B64Error::BadChar(b'!')));
}

#[test]
fn b64_decode_padding_in_third_place_lets_fourth_digit_through() {
    assert_eq!(b64_to_bytes("AB=C"), Ok(vec![0, 2]));
    assert_eq!(b64_to_bytes("Zg==Zg=="), Ok(b"ff".to_vec()));
}

#[test]
fn b64_roundtrip_on_samples() {
    let samples: Vec<Vec<u8>> = vec![
        vec![],
        vec![0],
        vec![255, 254],
        (0u8..=255).collect(),
        b"SharedObject data".to_vec(),
    ];
    for s in samples {
        let text = bytes_to_b64(&s);
        assert_eq!(text.len() % 4, 0);
        assert_eq!(text.len(), 4 * ((s.len() + 2) / 3));
        assert_eq!(b64_to_bytes(&text), Ok(s));
    }
}

#[test]
fn json_escape_named_and_control_chars() {
    assert_eq!(json_escape_raw(""), "\"\"");
    assert_eq!(json_escape_raw("root.x"), "\"root.x\"");
    assert_eq!(
        json_escape_raw("a\"b\\c\nd\te\r\u{1}\u{7f}\u{9f}\u{e9}"),
        "\"a\\\"b\\\\c\\nd\\te\\r\\u0001\\u007f\\u009f\u{e9}\""
    );
}

#[test]
fn extract_string_plain_and_spaced() {
    let blob = r#"{"op":"freeze","path":"root/thanksTanks.buildWait","value":0}"#;
    assert_eq!(extract_json_string(blob, "path"), Some("root/thanksTanks.buildWait".to_string()));
    assert_eq!(extract_json_string(r#"{"op": "freeze", "path": "so:game|coins"}"#, "path"), Some("so:game|coins".to_string()));
    assert_eq!(extract_json_string(blob, "missing"), None);
}

#[test]
fn extract_string_resolves_backslashes() {
    assert_eq!(extract_json_string(r#"{"path":"a\"b\\c\nd"}"#, "path"), Some("a\"b\\cnd".to_string()));
}

#[test]
fn extract_string_without_closing_quote_tries_spaced_form() {
    assert_eq!(extract_json_string(r#"{"path":"abc"#, "path"), None);
    assert_eq!(extract_json_string(r#"{"path":"abc\", "path": "ok"}"#, "path"), Some("abc\", ".to_string()));
    assert_eq!(extract_json_string("{\"path\":\"abc\\", "path"), None);
}

#[test]
fn extract_string_reads_back_escaped_value() {
    let path = "so:game|\"odd\\name\"";
    let blob = format!("{{\"path\":{},\"value\":1}}", json_escape_raw(path));
    assert_eq!(extract_json_string(&blob, "path"), Some(path.to_string()));
}

#[test]
fn extract_raw_values() {
    assert_eq!(extract_json_value_raw(r#"{"path":"x","value":999999}"#, "value"), Some("999999".to_string()));
    assert_eq!(extract_json_value_raw(r#"{"value": 0, "path":"x"}"#, "value"), Some("0".to_string()));
    assert_eq!(extract_json_value_raw(r#"{"value":true}"#, "value"), Some("true".to_string()));
    assert_eq!(extract_json_value_raw(r#"{"value":"abc"}"#, "value"), Some("\"abc\"".to_string()));
    assert_eq!(extract_json_value_raw(r#"{"value": "a b"}"#, "value"), Some("\"a b\"".to_string()));
    assert_eq!(extract_json_value_raw(r#"{"value":}"#, "value"), None);
    assert_eq!(extract_json_value_raw(r#"{"path":"x"}"#, "value"), None);
    assert_eq!(extract_json_value_raw(r#"{"value":-1.5e3}"#, "value"), Some("-1.5e3".to_string()));
}

#[test]
fn b64_decode_same_with_whitespace_taken_out() {
    assert_eq!(b64_to_bytes("TW\nFu "), Ok(b"Man".to_vec()));
    assert_eq!(b64_to_bytes("TW\nFu "), b64_to_bytes("TWFu"));
    assert_eq!(b64_to_bytes(" a b c "), b64_to_bytes("abc"));
}

#[test]
fn b64_decode_reports_first_misplaced_byte() {
    assert_eq!(b64_to_bytes("abc"), Err("base64 length".to_string()));
    assert_eq!(b64_to_bytes("ab*d"), Err("bad base64 char: *".to_string()));
    // `=` may stand in the last two places only; the first bad byte wins.
    assert_eq!(b64_to_bytes("TWFu*b=!"), Err("bad base64 char: *".to_string()));
    assert_eq!(b64_to_bytes("TWFuab=!"), Err("bad base64 char: !".to_string()));
}

#[test]
fn b64_encode_splits_at_three_bytes() {
    let a = b"Man";
    let b = b"xy";
    let ab: Vec<u8> = a.iter().chain(b.iter()).copied().collect();
    assert_eq!(bytes_to_b64(&ab), format!("{}{}", bytes_to_b64(a), bytes_to_b64(b)));
    assert_eq!(bytes_to_b64(&ab), "TWFueHk=");
}

#[test]
fn json_escape_decodes_back_as_a_json_string() {
    for s in ["", "plain", "q\"uote\\back", "line\nfeed\ttab\r", "\u{1}\u{1f}\u{7f}\u{9f}", "caf\u{e9} \u{2014}"] {
        let lit = json_escape_raw(s);
        assert_eq!(serde_json::from_str::<String>(&lit).unwrap(), s);
        assert!(lit.starts_with('"') && lit.ends_with('"'));
        assert!(!lit.chars().any(|c| (c as u32) < 0x20));
    }
}
