use sprig_llm_core::json::{
    decode_string_body, escape_into, extract_openai_delta, extract_text_delta,
    extract_total_tokens, frame_type,
};
use sprig_llm_core::text::BoundedString;

fn esc(s: &str) -> BoundedString<128> {
    let mut out = BoundedString::new();
    escape_into(s, &mut out).unwrap();
    out
}

#[test]
fn escapes_specials() {
    assert_eq!(esc("a\"b\\c\nd\te").as_str(), "a\\\"b\\\\c\\nd\\te");
}

#[test]
fn escapes_control_char_as_unicode() {
    assert_eq!(esc("\u{01}").as_str(), "\\u0001");
}

#[test]
fn decodes_plain_delta() {
    let data = r#"{"type":"content_block_delta","index":0,"delta":{"type":"text_delta","text":"Hello, world"}}"#;
    let mut out: BoundedString<256> = BoundedString::new();
    assert!(extract_text_delta(data, &mut out));
    assert_eq!(out.as_str(), "Hello, world");
}

#[test]
fn decodes_escapes_in_delta() {
    let data = r#"{"delta":{"type":"text_delta","text":"line1\nline2 \"q\" A"}}"#;
    let mut out: BoundedString<256> = BoundedString::new();
    assert!(extract_text_delta(data, &mut out));
    assert_eq!(out.as_str(), "line1\nline2 \"q\" A");
}

#[test]
fn decodes_surrogate_pair() {
    let data = "{\"delta\":{\"type\":\"text_delta\",\"text\":\"hi \\uD83D\\uDE00!\"}}";
    let mut out: BoundedString<256> = BoundedString::new();
    assert!(extract_text_delta(data, &mut out));
    assert_eq!(out.as_str(), "hi \u{1F600}!");
}

#[test]
fn decodes_bmp_unicode_escape() {
    let data = "{\"delta\":{\"type\":\"text_delta\",\"text\":\"caf\\u00e9\"}}";
    let mut out: BoundedString<256> = BoundedString::new();
    assert!(extract_text_delta(data, &mut out));
    assert_eq!(out.as_str(), "caf\u{e9}");
}

#[test]
fn ignores_non_text_delta() {
    let data = r#"{"delta":{"type":"input_json_delta","partial_json":"{\"a\":1}"}}"#;
    let mut out: BoundedString<256> = BoundedString::new();
    assert!(!extract_text_delta(data, &mut out));
}

#[test]
fn extracts_openai_delta_content() {
    let data = r#"{"choices":[{"index":0,"delta":{"role":"assistant","content":"Hello"},"finish_reason":null}]}"#;
    let mut out: BoundedString<256> = BoundedString::new();
    assert!(extract_openai_delta(data, &mut out));
    assert_eq!(out.as_str(), "Hello");
}

#[test]
fn openai_null_content_and_finish_yield_nothing() {
    let mut out: BoundedString<256> = BoundedString::new();
    assert!(!extract_openai_delta(
        r#"{"choices":[{"delta":{"role":"assistant","content":null}}]}"#,
        &mut out
    ));
    assert!(!extract_openai_delta(
        r#"{"choices":[{"delta":{},"finish_reason":"stop"}]}"#,
        &mut out
    ));
}

#[test]
fn extracts_total_tokens_from_usage_chunk() {
    let data = r#"{"choices":[],"usage":{"prompt_tokens":12,"completion_tokens":30,"total_tokens":42}}"#;
    assert_eq!(extract_total_tokens(data), Some(42));
}

#[test]
fn no_total_tokens_in_normal_delta() {
    let data = r#"{"choices":[{"delta":{"content":"hi"}}]}"#;
    assert_eq!(extract_total_tokens(data), None);
    assert_eq!(
        extract_total_tokens(r#"{"usage":{"prompt_tokens":5}}"#),
        None
    );
}

#[test]
fn frame_type_reads_top_level() {
    assert_eq!(
        frame_type(r#"{"type":"content_block_delta","delta":{"type":"text_delta"}}"#),
        "content_block_delta"
    );
    assert_eq!(frame_type(r#"{"type":"message_stop"}"#), "message_stop");
    assert_eq!(frame_type(r#"{"index":0}"#), "");
}

// ---------------------------------------------------------------------------
// Further cases.
// ---------------------------------------------------------------------------

#[test]
fn escape_overflow_keeps_whole_pieces_only() {
    // "ab" fits, then the two-byte escape of '"' does not fit in 3 bytes.
    let mut out: BoundedString<3> = BoundedString::new();
    assert!(escape_into("ab\"", &mut out).is_err());
    assert_eq!(out.as_str(), "ab");
}

#[test]
fn escape_passes_non_ascii_through() {
    assert_eq!(esc("caf\u{e9} \u{1F600}").as_str(), "caf\u{e9} \u{1F600}");
    assert_eq!(esc("\u{1f}").as_str(), "\\u001f");
    assert_eq!(esc("\r").as_str(), "\\r");
}

#[test]
fn decode_body_standard_escapes() {
    let mut out: BoundedString<64> = BoundedString::new();
    assert!(decode_string_body("a\\/b\\b\\f\\x\" rest", &mut out));
    assert_eq!(out.as_str(), "a/b\u{08}\u{0C}x");
}

#[test]
fn decode_body_unterminated_is_false() {
    let mut out: BoundedString<64> = BoundedString::new();
    assert!(!decode_string_body("abc", &mut out));
    assert_eq!(out.as_str(), "abc");
}

#[test]
fn decode_body_bad_hex_is_false() {
    let mut out: BoundedString<64> = BoundedString::new();
    assert!(!decode_string_body("x\\u12G4\"", &mut out));
    assert_eq!(out.as_str(), "x");
}

#[test]
fn decode_body_lone_surrogates_become_replacement() {
    let mut out: BoundedString<64> = BoundedString::new();
    assert!(decode_string_body("\\uD800x\"", &mut out));
    assert_eq!(out.as_str(), "\u{FFFD}");
    let mut out2: BoundedString<64> = BoundedString::new();
    assert!(decode_string_body("\\uDC00\"", &mut out2));
    assert_eq!(out2.as_str(), "\u{FFFD}");
    let mut out3: BoundedString<64> = BoundedString::new();
    assert!(decode_string_body("\\uD83D\\u0041\"", &mut out3));
    assert_eq!(out3.as_str(), "\u{FFFD}");
}

#[test]
fn decode_body_overflow_is_false_and_keeps_prefix() {
    let mut out: BoundedString<4> = BoundedString::new();
    assert!(!decode_string_body("abcdef\"", &mut out));
    assert_eq!(out.as_str(), "abcd");
}

#[test]
fn total_tokens_saturate_and_skip_separators() {
    assert_eq!(
        extract_total_tokens(r#"{"usage":{"total_tokens" : 	99999999999}}"#),
        Some(u32::MAX)
    );
    assert_eq!(extract_total_tokens(r#"{"usage":{"total_tokens":x}}"#), None);
}

#[test]
fn frame_type_without_closing_quote_is_empty() {
    assert_eq!(frame_type(r#"{"type":"abc"#), "");
    assert_eq!(frame_type(r#"{"type":5}"#), "");
}

#[test]
fn openai_content_with_spaces_before_string() {
    let mut out: BoundedString<256> = BoundedString::new();
    assert!(extract_openai_delta(r#"{"delta":{"content" :  "ok"}}"#, &mut out));
    assert_eq!(out.as_str(), "ok");
}

#[test]
fn text_delta_failure_leaves_buffer() {
    let mut out: BoundedString<256> = BoundedString::new();
    out.push_str("keep").unwrap();
    assert!(!extract_text_delta(r#"{"type":"ping"}"#, &mut out));
    assert_eq!(out.as_str(), "keep");
}

#[test]
fn escape_then_decode_gives_the_text_back() {
    let s = "say \"hi\" \\ now\n\t\r\u{01}\u{1f} café 😀";
    let mut esc: BoundedString<256> = BoundedString::new();
    assert_eq!(escape_into(s, &mut esc), Ok(()));
    let body = format!("{}\" and more", esc.as_str());
    let mut out: BoundedString<256> = BoundedString::new();
    assert!(decode_string_body(&body, &mut out));
    assert_eq!(out.as_str(), s);
}
