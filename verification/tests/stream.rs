use sprig_llm_core::provider::Role;
use sprig_llm_core::stream::{
    bearer_value, chat_body, check_status, request_url, NetError, SseStream, StreamEvent,
    BODY_CAP, LINE_CAP,
};

/// Feeds `bytes`, collecting the deltas and the first terminal event.
fn run(s: &mut SseStream, bytes: &[u8]) -> (Vec<String>, Option<StreamEvent>) {
    let mut deltas = Vec::new();
    for &b in bytes {
        match s.push_byte(b) {
            StreamEvent::Pending => {}
            StreamEvent::Delta => deltas.push(s.delta().to_string()),
            other => return (deltas, Some(other)),
        }
    }
    (deltas, None)
}

#[test]
fn status_check() {
    assert_eq!(check_status(200), Ok(()));
    assert_eq!(check_status(299), Ok(()));
    assert_eq!(check_status(199), Err(NetError::Http(199)));
    assert_eq!(check_status(300), Err(NetError::Http(300)));
    assert_eq!(check_status(401), Err(NetError::Http(401)));
    assert_eq!(check_status(429), Err(NetError::Http(429)));
}

#[test]
fn url_is_scheme_host_path() {
    let u = request_url("openrouter.ai", "/api/v1/chat/completions").unwrap();
    assert_eq!(u.as_str(), "https://openrouter.ai/api/v1/chat/completions");
    let long_host = "h".repeat(100);
    assert_eq!(request_url(&long_host, "/").err(), Some(NetError::Transport));
    // Exactly at capacity still fits.
    let host = "h".repeat(96 - 8 - 1);
    assert_eq!(request_url(&host, "/").unwrap().len(), 96);
}

#[test]
fn bearer_header_value() {
    assert_eq!(bearer_value("sk-or-123").unwrap().as_str(), "Bearer sk-or-123");
    let key = "k".repeat(200);
    assert_eq!(bearer_value(&key).err(), Some(NetError::Transport));
}

#[test]
fn chat_body_for_request() {
    let b = chat_body("deepseek/deepseek-chat", 512, None, &[(Role::User, "hi")]).unwrap();
    assert_eq!(
        b.as_str(),
        r#"{"model":"deepseek/deepseek-chat","max_tokens":512,"stream":true,"stream_options":{"include_usage":true},"messages":[{"role":"user","content":"hi"}]}"#
    );
    let huge = "x".repeat(BODY_CAP);
    assert_eq!(
        chat_body("m", 1, None, &[(Role::User, huge.as_str())]).err(),
        Some(NetError::BodyTooLarge)
    );
}

#[test]
fn stream_of_deltas_then_done() {
    let mut s = SseStream::new();
    let body = b"data: {\"choices\":[{\"delta\":{\"content\":\"Hel\"}}]}\n\ndata: {\"choices\":[{\"delta\":{\"content\":\"lo\"}}]}\n\ndata: {\"choices\":[],\"usage\":{\"prompt_tokens\":3,\"completion_tokens\":9,\"total_tokens\":12}}\n\ndata: [DONE]\n\n";
    let (deltas, end) = run(&mut s, body);
    assert_eq!(deltas, vec!["Hel".to_string(), "lo".to_string()]);
    assert_eq!(end, Some(StreamEvent::Finished(12)));
}

#[test]
fn split_reads_and_multibyte_text_survive() {
    let body = "data: {\"choices\":[{\"delta\":{\"content\":\"café ☕\"}}]}\n".as_bytes();
    // Feed in two pieces, cutting inside a multi-byte character.
    let cut = body.iter().position(|&b| b == 0xC3).unwrap() + 1;
    let mut s = SseStream::new();
    let (d1, e1) = run(&mut s, &body[..cut]);
    assert!(d1.is_empty() && e1.is_none());
    let (d2, e2) = run(&mut s, &body[cut..]);
    assert_eq!(d2, vec!["café ☕".to_string()]);
    assert!(e2.is_none());
}

#[test]
fn error_event_fails_the_stream() {
    let mut s = SseStream::new();
    let (_, end) = run(&mut s, b"data: {\"error\":{\"message\":\"bad\"}}\n");
    assert_eq!(end, Some(StreamEvent::Failed(NetError::StreamError)));
}

#[test]
fn overlong_line_is_dropped_and_framing_recovers() {
    let mut s = SseStream::new();
    let mut body = b"data: {\"choices\":[{\"delta\":{\"content\":\"".to_vec();
    body.extend(std::iter::repeat(b'x').take(LINE_CAP));
    body.extend_from_slice(b"\"}}]}\n");
    body.extend_from_slice(b"data: {\"choices\":[{\"delta\":{\"content\":\"ok\"}}]}\n");
    let (deltas, end) = run(&mut s, &body);
    assert_eq!(deltas, vec!["ok".to_string()]);
    assert!(end.is_none());
}

#[test]
fn invalid_utf8_line_is_skipped() {
    let mut s = SseStream::new();
    let mut body = b"data: {\"choices\":[{\"delta\":{\"content\":\"".to_vec();
    body.push(0xFF);
    body.extend_from_slice(b"\"}}]}\n");
    let (deltas, end) = run(&mut s, &body);
    assert!(deltas.is_empty() && end.is_none());
}

#[test]
fn trailing_line_without_newline_is_read() {
    let mut s = SseStream::new();
    let (deltas, end) = run(&mut s, b"data: {\"choices\":[{\"delta\":{\"content\":\"end\"}}]}");
    assert!(deltas.is_empty() && end.is_none());
    let fin = s.finish();
    assert!(fin.delta);
    assert_eq!(s.delta(), "end");
    assert_eq!(fin.result, Ok(0));
}

#[test]
fn trailing_usage_without_newline_updates_total() {
    let mut s = SseStream::new();
    run(&mut s, b"data: {\"usage\":{\"total_tokens\":7}}");
    let fin = s.finish();
    assert!(!fin.delta);
    assert_eq!(fin.result, Ok(7));
}

#[test]
fn trailing_error_without_newline_fails() {
    let mut s = SseStream::new();
    run(&mut s, b"data: {\"error\":{\"message\":\"x\"}}");
    assert_eq!(s.finish().result, Err(NetError::StreamError));
}

#[test]
fn body_ending_without_stop_reports_total_seen() {
    let mut s = SseStream::new();
    let (_, end) = run(&mut s, b"data: {\"usage\":{\"total_tokens\":5}}\n");
    assert!(end.is_none());
    assert_eq!(s.total(), 5);
    assert_eq!(s.finish().result, Ok(5));
}
