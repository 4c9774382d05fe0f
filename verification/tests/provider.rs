use sprig_llm_core::provider::{Claude, LlmProvider, OpenRouter, Role};
use sprig_llm_core::text::BoundedString;

#[test]
fn builds_valid_claude_body() {
    let c = Claude::new("opus-4-8");
    let mut body: BoundedString<512> = BoundedString::new();
    c.build_body("hi there", &mut body).unwrap();
    assert_eq!(
        body.as_str(),
        r#"{"model":"opus-4-8","max_tokens":1024,"stream":true,"messages":[{"role":"user","content":"hi there"}]}"#
    );
}

#[test]
fn escapes_prompt_in_body() {
    let c = Claude::new("haiku-4-5");
    let mut body: BoundedString<512> = BoundedString::new();
    c.build_body("say \"hi\"\nnow", &mut body).unwrap();
    assert!(body.as_str().contains(r#""content":"say \"hi\"\nnow""#));
    assert!(body.as_str().contains(r#""model":"haiku-4-5""#));
}

#[test]
fn host_and_path() {
    let c = Claude::new("opus-4-8");
    assert_eq!(c.host(), "api.anthropic.com");
    assert_eq!(c.path(), "/v1/messages");
}

#[test]
fn builds_valid_openrouter_body() {
    let r = OpenRouter::new("deepseek/deepseek-chat");
    let mut body: BoundedString<512> = BoundedString::new();
    r.build_body("hi", &mut body).unwrap();
    assert_eq!(
        body.as_str(),
        r#"{"model":"deepseek/deepseek-chat","max_tokens":1024,"stream":true,"stream_options":{"include_usage":true},"messages":[{"role":"user","content":"hi"}]}"#
    );
    assert_eq!(r.host(), "openrouter.ai");
    assert_eq!(r.path(), "/api/v1/chat/completions");
}

#[test]
fn builds_multi_turn_body() {
    let r = OpenRouter::new("m");
    let mut b: BoundedString<512> = BoundedString::new();
    r.build_chat_body(
        Some("be brief"),
        &[
            (Role::User, "hi"),
            (Role::Assistant, "hello"),
            (Role::User, "bye"),
        ],
        &mut b,
    )
    .unwrap();
    assert_eq!(
        b.as_str(),
        r#"{"model":"m","max_tokens":1024,"stream":true,"stream_options":{"include_usage":true},"messages":[{"role":"system","content":"be brief"},{"role":"user","content":"hi"},{"role":"assistant","content":"hello"},{"role":"user","content":"bye"}]}"#
    );
}

#[test]
fn openrouter_extracts_delta() {
    let r = OpenRouter::new("deepseek/deepseek-chat");
    let mut out: BoundedString<256> = BoundedString::new();
    assert!(r.extract_delta(
        r#"{"choices":[{"delta":{"content":"yo"}}]}"#,
        &mut out
    ));
    assert_eq!(out.as_str(), "yo");
}

// ---------------------------------------------------------------------------
// Further cases.
// ---------------------------------------------------------------------------

#[test]
fn body_too_large_is_an_error() {
    let c = Claude::new("opus-4-8");
    let mut body: BoundedString<33> = BoundedString::new();
    assert!(c.build_body("hi", &mut body).is_err());
    assert_eq!(body.as_str(), r#"{"model":"opus-4-8","max_tokens":"#);
}

#[test]
fn custom_max_tokens_is_written_in_decimal() {
    let mut r = OpenRouter::new("m");
    r.max_tokens = 0;
    let mut b: BoundedString<256> = BoundedString::new();
    r.build_chat_body(None, &[], &mut b).unwrap();
    assert_eq!(
        b.as_str(),
        r#"{"model":"m","max_tokens":0,"stream":true,"stream_options":{"include_usage":true},"messages":[]}"#
    );
    let mut c = Claude::new("c");
    c.max_tokens = 4294967295;
    let mut cb: BoundedString<256> = BoundedString::new();
    c.build_body("", &mut cb).unwrap();
    assert!(cb.as_str().contains(r#""max_tokens":4294967295,"#));
}

#[test]
fn claude_extracts_text_delta_and_version() {
    let c = Claude::new("x");
    let mut out: BoundedString<256> = BoundedString::new();
    assert!(c.extract_delta(r#"{"delta":{"type":"text_delta","text":"t"}}"#, &mut out));
    assert_eq!(out.as_str(), "t");
    assert_eq!(Claude::ANTHROPIC_VERSION, "2023-06-01");
    assert_eq!(Role::Assistant.as_str(), "assistant");
}
