use fastnote::block::BlockKind;
use fastnote::document::Document;
use fastnote::editor::Editor;

fn ed(src: &str) -> Editor {
    Editor::new(Document::from_str(src))
}

fn text(e: &Editor) -> String {
    e.document().rope().to_string()
}

#[test]
fn insert_and_backspace_multibyte() {
    let mut e = ed("");
    e.insert("中");
    e.insert("文");
    assert_eq!(text(&e), "中文");
    assert_eq!(e.cursor(), 6);
    e.backspace();
    assert_eq!(text(&e), "中");
    assert_eq!(e.cursor(), 3);
}

#[test]
fn selection_replace() {
    let mut e = ed("hello world");
    e.select(0..5);
    assert_eq!(e.selected_text(), "hello");
    e.replace_selection("你好");
    assert_eq!(text(&e), "你好 world");
    assert_eq!(e.cursor(), 6);
}

#[test]
fn undo_merges_consecutive_typing_into_one_group() {
    let mut e = ed("");
    e.insert("a");
    e.insert("b");
    e.insert("c");
    assert_eq!(text(&e), "abc");
    assert!(e.undo());
    // 三次连续输入应一并撤销
    assert_eq!(text(&e), "");
}

#[test]
fn undo_redo_roundtrip() {
    let mut e = ed("base");
    e.set_cursor(4);
    e.insert(" more text");
    let after = text(&e);
    assert!(e.undo());
    assert_eq!(text(&e), "base");
    assert!(e.redo());
    assert_eq!(text(&e), after);
}

#[test]
fn paste_is_its_own_undo_group() {
    let mut e = ed("");
    e.insert("x");
    e.insert("一大段粘贴内容");
    assert!(e.undo());
    assert_eq!(text(&e), "x", "粘贴不应和前面的输入合并");
}

#[test]
fn newline_continues_bullet_list() {
    let mut e = ed("- 第一项");
    e.move_doc_end(false);
    e.newline();
    assert_eq!(text(&e), "- 第一项\n- ");
}

#[test]
fn newline_increments_ordered_list() {
    let mut e = ed("3. 三");
    e.move_doc_end(false);
    e.newline();
    assert!(text(&e).ends_with("\n4. "), "实际: {:?}", text(&e));
}

#[test]
fn newline_continues_task_item_unchecked() {
    let mut e = ed("- [x] 完成的事");
    e.move_doc_end(false);
    e.newline();
    assert!(text(&e).ends_with("\n- [ ] "), "实际: {:?}", text(&e));
}

#[test]
fn newline_on_empty_list_item_exits_list() {
    let mut e = ed("- 一\n- ");
    e.move_doc_end(false);
    e.newline();
    assert_eq!(text(&e), "- 一\n\n", "空列表项回车应退出列表");
}

#[test]
fn newline_preserves_indent_for_nested_list() {
    let mut e = ed("  - 缩进项");
    e.move_doc_end(false);
    e.newline();
    assert!(text(&e).ends_with("\n  - "), "实际: {:?}", text(&e));
}

#[test]
fn newline_continues_quote() {
    let mut e = ed("> 引用");
    e.move_doc_end(false);
    e.newline();
    assert!(text(&e).ends_with("\n> "));
}

#[test]
fn toggle_wrap_bold_on_and_off() {
    let mut e = ed("加粗我");
    e.select_all();
    e.toggle_wrap("**");
    assert_eq!(text(&e), "**加粗我**");
    e.select(0..text(&e).len());
    e.toggle_wrap("**");
    assert_eq!(text(&e), "加粗我");
}

#[test]
fn toggle_wrap_without_selection_places_cursor_inside() {
    let mut e = ed("");
    e.toggle_wrap("**");
    assert_eq!(text(&e), "****");
    assert_eq!(e.cursor(), 2);
}

#[test]
fn set_heading_and_demote() {
    let mut e = ed("标题行");
    e.set_heading(2);
    assert_eq!(text(&e), "## 标题行");
    e.set_heading(0);
    assert_eq!(text(&e), "标题行");
}

#[test]
fn toggle_task_flips_checkbox() {
    let mut e = ed("- [ ] 待办");
    assert!(e.toggle_task());
    assert_eq!(text(&e), "- [x] 待办");
    assert!(e.toggle_task());
    assert_eq!(text(&e), "- [ ] 待办");
}

#[test]
fn toggle_task_returns_false_on_plain_list() {
    let mut e = ed("- 普通项");
    assert!(!e.toggle_task());
}

#[test]
fn indent_and_outdent_selection() {
    let mut e = ed("a\nb\n");
    e.select(0..3);
    e.indent();
    assert_eq!(text(&e), "  a\n  b\n");
    e.outdent();
    assert_eq!(text(&e), "a\nb\n");
}

#[test]
fn vertical_motion_keeps_goal_column() {
    let mut e = ed("长长长长的一行\n短\n另一条长行内容\n");
    e.set_cursor(12); // 第一行中部
    let (_, col) = e.cursor_line_col();
    e.move_down(false); // 到短行，列被压缩
    e.move_down(false); // 回到长行，应恢复原列
    let (line, c2) = e.cursor_line_col();
    assert_eq!(line, 2);
    assert_eq!(c2, col, "上下移动应保持目标列");
}

#[test]
fn word_motion_stops_at_boundaries() {
    let mut e = ed("foo bar baz");
    e.move_doc_end(false);
    e.move_word_left(false);
    assert_eq!(e.cursor(), 8);
    e.move_word_left(false);
    assert_eq!(e.cursor(), 4);
}

#[test]
fn home_toggles_between_indent_and_line_start() {
    let mut e = ed("    缩进内容");
    e.move_doc_end(false);
    e.move_line_start(false);
    assert_eq!(e.cursor(), 4, "先到首个非空白");
    e.move_line_start(false);
    assert_eq!(e.cursor(), 0, "再按到真正行首");
}

#[test]
fn left_with_selection_collapses_to_start() {
    let mut e = ed("abcdef");
    e.select(2..5);
    e.move_left(false);
    assert_eq!(e.cursor(), 2);
    assert!(!e.has_selection());
}

#[test]
fn stream_insert_is_one_undo_unit() {
    let mut e = ed("题目：");
    e.move_doc_end(false);
    for d in ["这", "是", "AI", "写的"] {
        e.stream_insert(d);
    }
    e.finish_stream();
    assert_eq!(text(&e), "题目：这是AI写的");
    assert!(e.undo());
    assert_eq!(text(&e), "题目：", "整段生成应一次撤销干净");
}

#[test]
fn active_block_tracks_cursor() {
    let mut e = ed("# 标题\n\n段落内容\n");
    e.set_cursor(0);
    assert!(matches!(
        e.active_block_kind(),
        Some(BlockKind::Heading { level: 1 })
    ));
    let off = e.document().line_to_byte(2);
    e.set_cursor(off);
    assert!(matches!(e.active_block_kind(), Some(BlockKind::Paragraph)));
}

#[test]
fn crlf_backspace_removes_whole_line_break() {
    let mut e = ed("a\r\nb");
    e.set_cursor(3); // 紧跟在 \r\n 之后
    e.backspace();
    assert_eq!(text(&e), "ab", "不应留下孤立的 \\r");
}

#[test]
fn delete_forward_at_end_is_noop() {
    let mut e = ed("ab");
    e.move_doc_end(false);
    e.delete_forward();
    assert_eq!(text(&e), "ab");
}

#[test]
fn quotes_without_a_blank_go_on() {
    for (src, out) in [
        (">a", ">a\n> "),
        ("> a", "> a\n> "),
        ("  >a", "  >a\n  > "),
        (">", "\n"),
        ("> ", "\n"),
        (">>", "\n"),
    ] {
        let mut e = ed(src);
        e.move_doc_end(false);
        e.newline();
        assert_eq!(text(&e), out, "{src}");
    }
}

#[test]
fn words_are_letters_or_chinese_characters() {
    let mut e = ed("中文abc_1 x-y");
    e.move_word_right(false);
    assert_eq!(e.cursor(), 6);
    e.move_word_right(false);
    assert_eq!(e.cursor(), 11);
    e.move_word_right(false);
    assert_eq!(e.cursor(), 13, "连字符不属于词");
    e.move_doc_end(false);
    e.move_word_left(false);
    assert_eq!(e.cursor(), 14);
    e.set_cursor(11);
    e.move_word_left(false);
    assert_eq!(e.cursor(), 6);
    e.move_word_left(false);
    assert_eq!(e.cursor(), 0);
}

#[test]
fn short_documents_are_parsed_whole() {
    let mut e = ed(&"一\n\n".repeat(100));
    let all = e.document().blocks_all().len();
    assert_eq!(e.blocks_for_lines(150..151).len(), all);
    assert_eq!(e.blocks_for_lines(0..1).len(), all);
}

#[test]
fn wrapping_twice_gives_the_selection_back() {
    let mut e = ed("一二三");
    e.select(3..6);
    e.toggle_wrap("**");
    assert_eq!(text(&e), "一**二**三");
    assert_eq!(e.selection(), 3..10);
    e.toggle_wrap("**");
    assert_eq!(text(&e), "一二三");
    assert_eq!(e.selection(), 3..6);
}
