use fastnote::ai::prompt::{build, completion_context, Task};

#[test]
fn polish_includes_selection_and_system_rule() {
    let m = build(&Task::Polish, "一段话");
    assert_eq!(m[0].role, "system");
    assert!(m[1].content.contains("一段话"));
}

#[test]
fn custom_without_selection_sends_instruction_only() {
    let m = build(
        &Task::Custom {
            instruction: "写个周报模板".into(),
        },
        "",
    );
    assert_eq!(m[1].content, "写个周报模板");
}

#[test]
fn chat_with_context_embeds_snippets() {
    let m = build(
        &Task::Chat {
            context: Some("片段A".into()),
        },
        "问题？",
    );
    assert!(m[1].content.contains("片段A"));
    assert!(m[1].content.contains("问题？"));
}

#[test]
fn completion_context_never_splits_multibyte_char() {
    let text = "中".repeat(2000); // 每字 3 字节，边界都在 3 的倍数上
    let cursor = 3001; // 落在一个字符中间
    let ctx = completion_context(&text, cursor);
    // 能正常构造且不 panic 即说明边界处理正确
    assert!(!ctx.is_empty());
    // 吸附到前一个边界：与显式传入合法下标的结果一致
    assert_eq!(ctx, completion_context(&text, 3000));
    // 越界下标同样被夹取，不 panic
    assert!(!completion_context(&text, text.len() + 10).is_empty());
}

#[test]
fn completion_context_marks_cursor_when_text_follows() {
    let ctx = completion_context("前面内容后面还有很多字", 6);
    assert!(ctx.contains("<CURSOR>"));
}

#[test]
fn completion_context_at_end_has_no_marker() {
    let s = "只有前文";
    let ctx = completion_context(s, s.len());
    assert!(!ctx.contains("<CURSOR>"));
    assert_eq!(ctx, s);
}

#[test]
fn completion_context_counts_characters() {
    let text = "中".repeat(2000);
    let ctx = completion_context(&text, 1500 * 3);
    let (before, after) = ctx.split_once("<CURSOR>").unwrap();
    assert_eq!(before.chars().count(), 1200);
    assert_eq!(after.chars().filter(|c| *c == '中').count(), 300);
    assert_eq!(completion_context(&text, 6000), "中".repeat(1200));
}
