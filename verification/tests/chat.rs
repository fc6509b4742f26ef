use fastnote::chat::{build_context, CONTEXT_MAX_CHARS};
use fastnote::index::SearchHit;

fn hit(name: &str, line: usize, snippet: &str) -> SearchHit {
    SearchHit {
        path: format!("{name}.md"),
        name: name.into(),
        line,
        snippet: snippet.into(),
    }
}

#[test]
fn context_lists_sources_with_line_numbers() {
    let ctx = build_context(&[
        hit("索引设计", 3, "索引只做三件事"),
        hit("库问答设计", 7, "先检索再问"),
    ]);
    assert!(ctx.contains("### 索引设计 （第 4 行）"), "行号要转成 1-based：{ctx}");
    assert!(ctx.contains("### 库问答设计 （第 8 行）"));
    assert!(ctx.contains("索引只做三件事"));
}

#[test]
fn context_skips_blank_snippets() {
    let ctx = build_context(&[hit("空", 0, "   "), hit("有内容", 1, "正文")]);
    assert!(!ctx.contains("空"));
    assert!(ctx.contains("正文"));
}

#[test]
fn context_is_capped() {
    // 每段约 500 字符，10 段必然超过 4000 上限
    let hits: Vec<SearchHit> = (0..10)
        .map(|i| hit(&format!("笔记{i}"), i, &"x".repeat(500)))
        .collect();
    let ctx = build_context(&hits);
    assert!(
        ctx.len() <= CONTEXT_MAX_CHARS + 512,
        "上下文应在上限附近截断，实际 {}",
        ctx.len()
    );
    assert!(ctx.len() < 5000);
}

#[test]
fn empty_hits_produce_empty_context() {
    assert!(build_context(&[]).is_empty());
}

#[test]
fn context_counts_characters() {
    let hits: Vec<SearchHit> = (0..10).map(|i| hit("记", i, &"中".repeat(500))).collect();
    let ctx = build_context(&hits);
    assert_eq!(ctx.matches("###").count(), 7);
    assert!(ctx.chars().count() <= CONTEXT_MAX_CHARS);
    assert!(ctx.len() > CONTEXT_MAX_CHARS);
}
