use fastnote::ai::config::AiConfig;

#[test]
fn endpoint_normalizes_trailing_slash() {
    let mut c = AiConfig::default();
    c.base_url = "https://x.com/v1/".into();
    assert_eq!(c.chat_endpoint(), "https://x.com/v1/chat/completions");
}

#[test]
fn local_endpoint_needs_no_key() {
    let mut c = AiConfig::default();
    c.base_url = "http://localhost:11434/v1".into();
    c.model = "qwen2.5".into();
    assert!(c.is_local());
    assert!(c.is_configured());
}

#[test]
fn remote_endpoint_without_key_is_unconfigured() {
    let c = AiConfig::default();
    assert!(!c.is_configured());
}

#[test]
fn completion_model_falls_back_to_main_model() {
    let c = AiConfig::default();
    assert_eq!(c.completion_model(), c.model);
}
