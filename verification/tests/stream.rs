use fastnote::ai::config::{endpoint, AiConfig};
use fastnote::ai::prompt::{build, completion_context, Message, Task};
use fastnote::ai::sse::{
    error_summary, packet_line, parse_sse_line, summarize_error, AiEvent, SseLine, SseReader,
};
use fastnote::ai::{chat_request, status_error, task_request};
use fastnote::chat::{fold_events, Chat, NO_ENDPOINT};
use fastnote::index::{NoteFile, VaultIndex};

fn line(s: &str) -> String {
    format!("data: {{\"choices\":[{{\"delta\":{{\"content\":\"{s}\"}}}}]}}\n")
}

fn read_in_chunks(bytes: &[u8], size: usize) -> Vec<AiEvent> {
    let mut r = SseReader::new();
    let mut out = Vec::new();
    for c in bytes.chunks(size) {
        out.extend(r.feed(c));
    }
    out.extend(r.finish());
    out
}

#[test]
fn chunks_may_be_cut_anywhere() {
    let text = format!(": ping\r\n\r\n{}{}data: [DONE]\n{}", line("你好"), line("世界"), line("不读"));
    let whole = read_in_chunks(text.as_bytes(), text.len());
    assert_eq!(
        whole,
        vec![
            AiEvent::Delta("你好".into()),
            AiEvent::Delta("世界".into()),
            AiEvent::Done
        ]
    );
    for size in 1..40 {
        assert_eq!(read_in_chunks(text.as_bytes(), size), whole, "{size}");
    }
}

#[test]
fn a_reply_that_stops_is_complete() {
    let mut r = SseReader::new();
    assert_eq!(r.feed(line("a").as_bytes()), vec![AiEvent::Delta("a".into())]);
    assert!(r.feed(b"data: {\"half").is_empty());
    assert!(!r.is_over());
    assert_eq!(r.finish(), Some(AiEvent::Done));
    assert_eq!(r.finish(), None);
    assert!(r.is_over());
    assert!(r.feed(line("b").as_bytes()).is_empty());
}

#[test]
fn bytes_that_are_no_text_are_replaced() {
    let mut bytes = b"data: {\"choices\":[{\"delta\":{\"content\":\"".to_vec();
    bytes.push(0xff);
    bytes.extend_from_slice(b"\"}}]}\n");
    let mut r = SseReader::new();
    assert_eq!(r.feed(&bytes), vec![AiEvent::Delta("\u{fffd}".into())]);
}

#[test]
fn packets_of_other_forms_say_nothing() {
    for l in ["data: {broken", "data: 12", "event: x", "{\"choices\":[]}", "{}", "[1]"] {
        assert_eq!(parse_sse_line(l), SseLine::Skip, "{l}");
    }
    assert_eq!(
        parse_sse_line("{\"choices\":[{\"message\":{\"content\":\"整\"}}]}"),
        SseLine::Delta("整".into())
    );
    assert_eq!(
        parse_sse_line("{\"choices\":[{\"delta\":{\"content\":null},\"finish_reason\":null}]}"),
        SseLine::Skip
    );
    assert_eq!(
        parse_sse_line("{\"error\":{}}"),
        SseLine::Delta("\n[错误] 上游返回错误\n".into())
    );
}

#[test]
fn packets_are_read_as_values() {
    let v: serde_json::Value =
        serde_json::from_str("{\"choices\":[{\"delta\":{\"content\":\"x\"}},{}]}").unwrap();
    assert_eq!(packet_line(&v), SseLine::Delta("x".into()));
    let e: serde_json::Value = serde_json::from_str("{\"error\":{\"message\":\"m\"}}").unwrap();
    assert_eq!(error_summary("body", Some(e)), "m");
    assert_eq!(error_summary(" a \n b ", None), "a b");
}

#[test]
fn long_errors_are_cut() {
    let html = format!("<html>\n  {}</html>", "x".repeat(500));
    let s = summarize_error(&html);
    assert_eq!(s.chars().count(), 200);
    assert!(s.starts_with("<html> x"));
    assert_eq!(status_error(401, "{\"error\":{\"message\":\"no\"}}"), "401 no");
}

#[test]
fn requests_carry_the_settings() {
    let mut cfg = endpoint("https://x/v1//", "big");
    cfg.api_key = " k ".into();
    cfg.max_tokens = Some(9);
    cfg.completion_model = Some("small".into());
    let q = task_request(&cfg, &Task::Complete, "前文").unwrap();
    assert_eq!(q.url, "https://x/v1/chat/completions");
    assert_eq!(q.bearer.as_deref(), Some("k"));
    assert_eq!((q.model.as_str(), q.stream, q.max_tokens), ("small", true, Some(9)));
    assert_eq!(q.messages, build(&Task::Complete, "前文"));
    assert_eq!(task_request(&cfg, &Task::Polish, "x").unwrap().model, "big");
    let local = endpoint("HTTP://LOCALHOST/v1", "m");
    let q = chat_request(&local, vec![Message::assistant("a")], "z".into()).unwrap();
    assert_eq!((q.bearer, q.model.as_str()), (None, "z"));
    assert_eq!(q.messages[0].role, "assistant");
}

#[test]
fn the_environment_goes_before_the_file() {
    let s = |t: &str| Some(t.to_string());
    let c = AiConfig::load(Some(endpoint("u", "m")), s("  "), s("key"), s("n"));
    assert_eq!((c.base_url.as_str(), c.api_key.as_str(), c.model.as_str()), ("u", "key", "n"));
    let d = AiConfig::load(None, None, None, None);
    assert_eq!(d, AiConfig::default());
    assert_eq!(AiConfig::config_dir(s("A"), s("X"), s("H")), "A/fastnote");
    assert_eq!(AiConfig::config_dir(None, s("X"), s("H")), "X/fastnote");
    assert_eq!(AiConfig::config_dir(None, None, s("H")), "H/.config/fastnote");
    assert_eq!(AiConfig::config_dir(None, None, None), "./fastnote");
    assert_eq!(AiConfig::config_path("d"), "d/config.json");
}

#[test]
fn endpoints_need_an_address_a_model_and_a_key() {
    let mut c = endpoint("https://x", "m");
    assert!(!c.is_configured());
    c.api_key = "k".into();
    assert!(c.is_configured());
    c.model = " ".into();
    assert!(!c.is_configured());
    assert!(!endpoint(" ", "m").is_configured());
    assert!(endpoint("http://0.0.0.0", "m").is_local());
}

#[test]
fn every_action_asks_in_its_words() {
    let ask = |t: Task| build(&t, "文")[1].content.clone();
    assert_eq!(ask(Task::Complete), "续写以下内容：\n\n文");
    assert_eq!(
        ask(Task::Translate { target: "英文".into() }),
        "把下面内容翻译成英文，保留 Markdown 结构与代码内容不变：\n\n文"
    );
    assert_eq!(ask(Task::Summarize), "为下面内容写一段摘要，用要点列表，不超过 5 条：\n\n文");
    assert_eq!(ask(Task::Explain), "解释下面内容的含义与关键点：\n\n文");
    assert_eq!(ask(Task::Custom { instruction: "改".into() }), "改\n\n---\n\n文");
    assert_eq!(ask(Task::Chat { context: Some(" ".into()) }), "文");
    assert_eq!(ask(Task::Chat { context: None }), "文");
}

#[test]
fn no_more_of_the_text_is_sent_than_the_limits_say() {
    let text = "字".repeat(2000);
    let ctx = completion_context(&text, 4500);
    let (before, rest) = ctx.split_once("<CURSOR>").unwrap();
    let (after, _) = rest.split_once("\n\n").unwrap();
    assert_eq!((before.chars().count(), after.chars().count()), (1200, 300));
}

fn index() -> (VaultIndex, Vec<Option<String>>) {
    let text = "# 计划\n索引 设计\n".to_string();
    let i = VaultIndex::build(&vec![NoteFile {
        path: "v/计划.md".into(),
        text: Some(text.clone()),
    }]);
    (i, vec![Some(text)])
}

#[test]
fn questions_take_the_notes_along() {
    let (i, read) = index();
    let cfg = endpoint("http://localhost/v1", "m");
    let mut c = Chat::new();
    let q = c.question(" 索引 ").unwrap();
    assert_eq!(q, "索引");
    let task = c.ask(&i, &read, &cfg, q).unwrap();
    assert_eq!(
        task,
        Task::Chat {
            context: Some("### 计划 （第 2 行）\n索引 设计\n\n".into())
        }
    );
    assert_eq!(c.turns[0].sources.len(), 1);
    assert_eq!(c.question("x"), None, "an answer is still coming");
    assert!(!c.take(&[AiEvent::Delta("答".into())]));
    assert!(c.take(&[AiEvent::Delta("案".into()), AiEvent::Done]));
    assert_eq!(c.turns[0].answer, "答案");
    assert!(!c.streaming);
    assert_eq!(
        c.ask(&i, &read, &cfg, "没有的词".into()),
        Some(Task::Chat { context: None })
    );
    assert!(c.take(&[AiEvent::Error("断了".into())]));
    assert_eq!(c.turns[1].answer, "⚠️ 断了");
    c.ask(&i, &read, &cfg, "再问".into());
    assert!(c.take(&[AiEvent::Delta("半".into()), AiEvent::Error("断".into())]));
    assert_eq!(c.turns[2].answer, "半\n\n⚠️ 断");
    c.ask(&i, &read, &cfg, "停".into());
    c.cancel();
    assert!(!c.streaming);
}

#[test]
fn without_an_endpoint_the_answer_says_so() {
    let (i, read) = index();
    let mut c = Chat::new();
    assert_eq!(c.question("   "), None);
    assert_eq!(c.ask(&i, &read, &AiConfig::default(), "问".into()), None);
    assert_eq!(c.turns[0].answer, NO_ENDPOINT);
    assert!(!c.streaming);
    let b = fold_events(&[AiEvent::Error("1".into()), AiEvent::Error("2".into())]);
    assert_eq!((b.error.as_deref(), b.finished), (Some("2"), true));
}
