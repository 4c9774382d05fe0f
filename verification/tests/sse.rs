use sprig_llm_core::sse::{process_line, process_openai_line, usage_total, SseOut};
use sprig_llm_core::text::BoundedString;

#[test]
fn extracts_delta_line() {
    let mut d: BoundedString<256> = BoundedString::new();
    let line = r#"data: {"type":"content_block_delta","index":0,"delta":{"type":"text_delta","text":"Hi"}}"#;
    assert_eq!(process_line(line, &mut d), SseOut::Delta);
    assert_eq!(d.as_str(), "Hi");
}

#[test]
fn event_lines_are_ignored() {
    let mut d: BoundedString<256> = BoundedString::new();
    assert_eq!(process_line("event: content_block_delta", &mut d), SseOut::Ignored);
    assert_eq!(process_line("", &mut d), SseOut::Ignored);
    assert_eq!(process_line(": ping", &mut d), SseOut::Ignored);
}

#[test]
fn detects_stop() {
    let mut d: BoundedString<256> = BoundedString::new();
    assert_eq!(
        process_line(r#"data: {"type":"message_stop"}"#, &mut d),
        SseOut::Stop
    );
    assert_eq!(process_line("data: [DONE]", &mut d), SseOut::Stop);
}

#[test]
fn detects_error() {
    let mut d: BoundedString<256> = BoundedString::new();
    let line = r#"data: {"type":"error","error":{"type":"overloaded_error","message":"x"}}"#;
    assert_eq!(process_line(line, &mut d), SseOut::Error);
}

#[test]
fn handles_trailing_cr() {
    let mut d: BoundedString<256> = BoundedString::new();
    let line = "data: {\"type\":\"content_block_delta\",\"delta\":{\"type\":\"text_delta\",\"text\":\"ok\"}}\r";
    assert_eq!(process_line(line, &mut d), SseOut::Delta);
    assert_eq!(d.as_str(), "ok");
}

#[test]
fn openai_delta_done_and_error() {
    let mut d: BoundedString<256> = BoundedString::new();
    assert_eq!(
        process_openai_line(r#"data: {"choices":[{"delta":{"content":"Hi"}}]}"#, &mut d),
        SseOut::Delta
    );
    assert_eq!(d.as_str(), "Hi");
    assert_eq!(process_openai_line("data: [DONE]", &mut d), SseOut::Stop);
    assert_eq!(
        process_openai_line(r#"data: {"error":{"message":"bad"}}"#, &mut d),
        SseOut::Error
    );
}

#[test]
fn openai_content_saying_error_is_a_delta_not_an_error() {
    let mut d: BoundedString<256> = BoundedString::new();
    let line = r#"data: {"choices":[{"delta":{"content":"an error occurred"}}]}"#;
    assert_eq!(process_openai_line(line, &mut d), SseOut::Delta);
    assert_eq!(d.as_str(), "an error occurred");
}

#[test]
fn usage_total_reads_final_chunk() {
    let line = r#"data: {"choices":[],"usage":{"prompt_tokens":3,"completion_tokens":9,"total_tokens":12}}"#;
    assert_eq!(usage_total(line), Some(12));
    assert_eq!(
        usage_total(r#"data: {"choices":[{"delta":{"content":"hi"}}]}"#),
        None
    );
    assert_eq!(usage_total("event: message"), None);
}

#[test]
fn reply_text_mentioning_control_types_is_not_misclassified() {
    let mut d: BoundedString<256> = BoundedString::new();
    let line = r#"data: {"type":"content_block_delta","index":0,"delta":{"type":"text_delta","text":"emit \"type\":\"message_stop\" to end"}}"#;
    assert_eq!(process_line(line, &mut d), SseOut::Delta);
    assert_eq!(d.as_str(), "emit \"type\":\"message_stop\" to end");
}

#[test]
fn data_without_space_and_with_crlf_runs() {
    let mut d: BoundedString<256> = BoundedString::new();
    assert_eq!(process_line("data:[DONE]\r\r", &mut d), SseOut::Stop);
    assert_eq!(process_openai_line("data:\t [DONE]", &mut d), SseOut::Stop);
}

#[test]
fn control_frames_leave_delta_untouched() {
    let mut d: BoundedString<256> = BoundedString::new();
    d.push_str("prev").unwrap();
    assert_eq!(process_line(r#"data: {"type":"ping"}"#, &mut d), SseOut::Ignored);
    assert_eq!(d.as_str(), "prev");
    assert_eq!(process_line(r#"data: {"type":"error"}"#, &mut d), SseOut::Error);
    assert_eq!(d.as_str(), "prev");
}
