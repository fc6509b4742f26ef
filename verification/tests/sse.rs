use fastnote::ai::chat_request;
use fastnote::ai::config::AiConfig;
use fastnote::ai::prompt::Message;
use fastnote::ai::sse::{parse_sse_line, summarize_error, AiEvent, SseLine};

fn delta(line: &str) -> Option<String> {
    match parse_sse_line(line) {
        SseLine::Delta(d) => Some(d),
        _ => None,
    }
}

#[test]
fn parses_standard_openai_chunk() {
    let l = r#"data: {"choices":[{"delta":{"content":"你好"}}]}"#;
    assert_eq!(delta(l).as_deref(), Some("你好"));
}

#[test]
fn parses_done_sentinel() {
    assert!(matches!(parse_sse_line("data: [DONE]"), SseLine::Done));
}

#[test]
fn ignores_comments_and_blank_lines() {
    assert!(matches!(parse_sse_line(""), SseLine::Skip));
    assert!(matches!(parse_sse_line(": ping"), SseLine::Skip));
}

#[test]
fn parses_bare_json_line_from_local_server() {
    let l = r#"{"choices":[{"delta":{"content":"本地"}}]}"#;
    assert_eq!(delta(l).as_deref(), Some("本地"));
}

#[test]
fn finish_reason_ends_stream() {
    let l = r#"data: {"choices":[{"delta":{},"finish_reason":"stop"}]}"#;
    assert!(matches!(parse_sse_line(l), SseLine::Done));
}

#[test]
fn inline_error_object_surfaces_message() {
    let l = r#"data: {"error":{"message":"额度不足"}}"#;
    assert!(delta(l).unwrap().contains("额度不足"));
}

#[test]
fn error_body_is_summarized_to_message_field() {
    let body = r#"{"error":{"message":"invalid api key","type":"auth"}}"#;
    assert_eq!(summarize_error(body), "invalid api key");
}

#[test]
fn unconfigured_client_reports_instead_of_hanging() {
    let cfg = AiConfig::default();
    let r = chat_request(&cfg, vec![Message::user("hi")], "m".into());
    assert!(matches!(r, Err(AiEvent::Error(_))));
}
