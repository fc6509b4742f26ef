use fastnote::ai::config::{endpoint, AiConfig};
use fastnote::ai::sse::AiEvent;
use fastnote::document::Document;
use fastnote::editor::Editor;
use fastnote::view::{outline, EditorView, Scroll};

fn local() -> AiConfig {
    endpoint("http://localhost:1/v1", "m")
}

fn view(src: &str) -> EditorView {
    EditorView::new(Editor::new(Document::from_str(src)), local())
}

fn text(v: &EditorView) -> String {
    v.input.text()
}

fn delta(s: &str) -> AiEvent {
    AiEvent::Delta(s.into())
}

#[test]
fn a_line_is_brought_into_view() {
    let mut s = Scroll { line: 0, rows: 10 };
    s.bring_in(5);
    assert_eq!(s.line, 0);
    s.bring_in(20);
    assert_eq!(s.line, 13);
    s.bring_in(14);
    assert_eq!(s.line, 12);
    s.bring_in(1);
    assert_eq!(s.line, 0);
    for line in 0..60 {
        s.bring_in(line * 7 % 60);
        assert!(s.line <= line * 7 % 60 && line * 7 % 60 < s.line + s.rows);
    }
}

#[test]
fn scrolling_stops_at_the_ends() {
    let mut s = Scroll { line: 0, rows: 10 };
    s.down(5, 100);
    assert_eq!(s.line, 5);
    s.down(usize::MAX, 100);
    assert_eq!(s.line, 99);
    s.up(9);
    assert_eq!(s.line, 90);
    s.up(1000);
    assert_eq!(s.line, 0);
    s.down(3, 0);
    assert_eq!(s.line, 0);
}

#[test]
fn the_outline_lists_headings() {
    let d = Document::from_str("# 一\n正文\n### 三 \n#不是\n####### 七\n#\n");
    let o: Vec<(u8, String, usize)> = outline(&d)
        .into_iter()
        .map(|h| (h.level, h.text, h.line))
        .collect();
    assert_eq!(
        o,
        vec![(1, "一".to_string(), 0), (3, "三".to_string(), 2), (1, String::new(), 5)]
    );
}

#[test]
fn lines_are_gone_to() {
    let mut v = view("a\nb\nc\nd\ne\n");
    v.goto_line(4);
    assert_eq!(v.input.editor.cursor(), 8);
    assert_eq!(v.scroll.line, 2);
    v.goto_line(999);
    assert_eq!(v.input.editor.cursor(), 10);
}

#[test]
fn pages_are_turned() {
    let mut v = view(&"x\n".repeat(50));
    v.scroll.rows = 12;
    v.page_down();
    assert_eq!(v.input.editor.cursor_line_col().0, 10);
    v.page_up();
    assert_eq!(v.input.editor.cursor_line_col().0, 0);
    v.scroll.rows = 0;
    v.page_down();
    assert_eq!(v.input.editor.cursor_line_col().0, 1);
}

#[test]
fn pasted_line_breaks_are_line_feeds() {
    let mut v = view("");
    v.paste("a\r\nb\rc\n\r\n");
    assert_eq!(text(&v), "a\nb\nc\n\n");
    v.paste("x");
    assert!(v.input.editor.undo());
    assert_eq!(text(&v), "a\nb\nc\n\n", "each paste is undone by itself");
}

#[test]
fn cutting_takes_the_selection() {
    let mut v = view("一二三");
    assert_eq!(v.cut(), None);
    v.input.editor.select(3..6);
    assert_eq!(v.copy().as_deref(), Some("二"));
    assert_eq!(v.cut().as_deref(), Some("二"));
    assert_eq!(text(&v), "一三");
}

#[test]
fn clicks_place_and_select() {
    let mut v = view("foo bar baz");
    v.click(5);
    assert_eq!(v.input.editor.cursor(), 5);
    v.drag(8);
    assert_eq!(v.input.editor.selection(), 5..8);
    v.drag(2);
    assert_eq!(v.input.editor.selection(), 2..5);
    v.shift_click(9);
    assert_eq!(v.input.editor.selection(), 2..9);
    v.shift_click(0);
    assert_eq!(v.input.editor.selection(), 0..9);
    v.is_selecting = false;
    v.drag(4);
    assert_eq!(v.input.editor.selection(), 0..9);
    v.double_click(5);
    assert_eq!(v.input.editor.selected_text(), "bar");
}

#[test]
fn proposals_are_asked_for_at_line_ends() {
    let mut v = view("一句话");
    assert!(!v.settle(), "text follows");
    v.input.editor.move_doc_end(false);
    assert!(v.settle());
    let mut empty = view("");
    assert!(!empty.settle());
    let mut code = view("```rust");
    code.input.editor.move_doc_end(false);
    assert!(!code.settle());
    v.set_ai_config(AiConfig::default());
    assert!(!v.settle(), "no endpoint");
}

#[test]
fn proposals_are_taken_or_dropped() {
    let mut v = view("前");
    v.input.editor.move_doc_end(false);
    v.assist.start_completion();
    assert!(!v.assist.take_completion(&[delta("续"), delta("写")]));
    assert_eq!(v.assist.proposal.as_deref(), Some("续写"));
    assert!(v.assist.take_completion(&[delta("。"), AiEvent::Done]));
    assert!(v.accept_proposal());
    assert_eq!(text(&v), "前续写。");
    assert!(!v.accept_proposal());
    assert!(v.input.editor.undo());
    assert_eq!(text(&v), "前");

    v.assist.start_completion();
    v.assist.take_completion(&[delta("x")]);
    assert!(v.assist.take_completion(&[AiEvent::Error("坏".into())]));
    assert_eq!(v.assist.proposal, None);
    v.assist.start_completion();
    assert!(v.assist.dismiss());
    assert!(!v.assist.dismiss());
    v.assist.start_completion();
    v.assist.drop_completion();
    assert!(!v.assist.completing);
}

#[test]
fn actions_replace_the_line_or_the_selection() {
    let mut v = view("第一行\n第二行\n");
    v.goto_line(1);
    assert_eq!(v.run_insert_task().as_deref(), Some("第二行"));
    assert_eq!(text(&v), "第一行\n\n");
    assert!(!v.take_insert(&[delta("新"), delta("行")]));
    assert!(v.assist.streaming);
    assert!(v.take_insert(&[AiEvent::Done]));
    assert!(!v.assist.streaming);
    assert_eq!(text(&v), "第一行\n新行\n");
    assert!(v.input.editor.undo());
    assert_eq!(text(&v), "第一行\n\n", "all that was written is undone together");

    v.input.editor.select(0..3);
    assert_eq!(v.run_insert_task().as_deref(), Some("第"));
    assert!(v.take_insert(&[delta("A"), AiEvent::Error("x".into()), delta("B")]));
    assert_eq!(text(&v), "A一行\n\n");
    v.set_ai_config(AiConfig::default());
    assert_eq!(v.run_insert_task(), None);
}

#[test]
fn stopping_keeps_what_was_written() {
    let mut v = view("");
    v.run_insert_task();
    v.stream_delta("写");
    v.stream_delta("到一半");
    v.stop_insert();
    assert_eq!(text(&v), "写到一半");
    assert!(!v.assist.inserting);
    assert!(v.input.editor.undo());
    assert_eq!(text(&v), "");
}

#[test]
fn opening_starts_from_the_top() {
    let mut v = view(&"x\n".repeat(50));
    v.goto_line(40);
    v.open(Document::from_str("新"));
    assert_eq!((v.scroll.line, v.input.editor.cursor()), (0, 0));
    assert_eq!(text(&v), "新");
}

#[test]
fn nothing_is_proposed_in_code() {
    let src = "正文\n```rs\nlet a = 1;\n```\n尾\n~~~\n未完";
    for (word, wanted) in [
        ("正文", true),
        ("```rs", false),
        ("let a = 1;", false),
        ("```\n尾", true),
        ("未完", false),
    ] {
        let mut v = view(src);
        let at = src.find(word).unwrap() + word.len();
        v.click(at);
        assert_eq!(v.wants_completion(), wanted, "{word}");
    }
}
