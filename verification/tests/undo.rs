use fastnote::document::Document;
use fastnote::editor::{soon_after, Editor};

fn ed(src: &str) -> Editor {
    Editor::new(Document::from_str(src))
}

fn text(e: &Editor) -> String {
    e.document().rope().to_string()
}

fn taken_back(src: &str, prepare: impl Fn(&mut Editor), edit: impl Fn(&mut Editor)) {
    let mut e = ed(src);
    prepare(&mut e);
    edit(&mut e);
    let after = text(&e);
    assert_ne!(after, src);
    assert!(e.undo());
    assert_eq!(text(&e), src);
    assert!(e.redo());
    assert_eq!(text(&e), after);
    assert!(e.undo());
    assert_eq!(text(&e), src);
}

#[test]
fn every_edit_is_taken_back_and_done_again() {
    let src = "- [ ] 一\n- 二 三\n";
    let all = |e: &mut Editor| e.select_all();
    let end = |e: &mut Editor| e.move_doc_end(false);
    let first = |e: &mut Editor| e.set_cursor(2);
    taken_back(src, end, |e| e.insert("粘贴\n内容"));
    taken_back(src, all, |e| e.insert("x"));
    taken_back(src, end, |e| e.backspace());
    taken_back(src, first, |e| e.delete_forward());
    taken_back(src, first, |e| e.newline());
    taken_back(src, all, |e| e.indent());
    taken_back("  a\n  b\n", all, |e| e.outdent());
    taken_back(src, all, |e| e.toggle_wrap("**"));
    taken_back(src, first, |e| e.set_heading(3));
    taken_back(src, first, |e| {
        e.toggle_task();
    });
    taken_back(src, all, |e| e.replace_selection(""));
}

#[test]
fn edits_of_several_lines_are_done_again_in_order() {
    let mut e = ed("a\nb\nc\n");
    e.select_all();
    e.indent();
    assert_eq!(text(&e), "  a\n  b\n  c\n");
    for _ in 0..3 {
        assert!(e.undo());
        assert_eq!(text(&e), "a\nb\nc\n");
        assert!(e.redo());
        assert_eq!(text(&e), "  a\n  b\n  c\n");
    }
}

#[test]
fn nothing_is_left_to_undo() {
    let mut e = ed("x");
    assert!(!e.undo());
    assert!(!e.redo());
    e.insert("y");
    assert!(e.undo());
    assert!(!e.undo());
    e.insert("z");
    assert!(!e.redo(), "an edit forgets what was undone");
}

#[test]
fn typing_after_a_pause_is_undone_by_itself() {
    let mut e = ed("");
    let now = std::time::Instant::now();
    e.insert_timed("a", false, now);
    e.insert_timed("b", true, now);
    e.insert_timed("c", false, now);
    assert!(e.undo());
    assert_eq!(text(&e), "ab");
    assert!(e.undo());
    assert_eq!(text(&e), "");
}

#[test]
fn backspaces_in_a_row_are_undone_together() {
    let mut e = ed("abc");
    e.move_doc_end(false);
    let now = std::time::Instant::now();
    e.backspace_timed(false, now);
    e.backspace_timed(true, now);
    assert_eq!(text(&e), "a");
    assert!(e.undo());
    assert_eq!(text(&e), "abc");
    e.set_cursor(0);
    e.delete_forward_timed(false, now);
    e.delete_forward_timed(true, now);
    assert_eq!(text(&e), "c");
    assert!(e.undo());
    assert_eq!(text(&e), "abc");
}

#[test]
fn wrapping_twice_gives_the_text_back() {
    let mut e = ed("前 中 后");
    e.select(4..7);
    e.toggle_wrap("**");
    assert_eq!(text(&e), "前 **中** 后");
    assert_eq!(e.selection(), 4..11);
    e.toggle_wrap("**");
    assert_eq!(text(&e), "前 中 后");
    assert_eq!(e.selection(), 4..7);
}

#[test]
fn ticking_twice_gives_the_box_back() {
    let mut e = ed("# x\n  * [x] 做\n");
    e.set_cursor(6);
    assert!(e.toggle_task());
    assert_eq!(text(&e), "# x\n  * [ ] 做\n");
    assert!(e.toggle_task());
    assert_eq!(text(&e), "# x\n  * [x] 做\n");
}

#[test]
fn headings_are_set_once() {
    let mut e = ed("# # a");
    e.set_heading(2);
    assert_eq!(text(&e), "## # a");
    e.set_heading(2);
    assert_eq!(text(&e), "## # a");
}

#[test]
fn down_and_up_lead_back() {
    let mut e = ed("长长长\n短\n长长长\n");
    e.set_cursor(6);
    e.move_down(false);
    e.move_up(false);
    assert_eq!(e.cursor(), 6);
    e.move_down(true);
    assert!(e.has_selection());
}

#[test]
fn an_empty_editor_has_no_text() {
    let e = Editor::default();
    assert_eq!(text(&e), "");
    assert!(!e.has_selection());
}

#[test]
fn saving_names_the_document() {
    let mut e = ed("x");
    assert_eq!(e.document().title(), "未命名");
    e.insert("y");
    assert!(e.document().is_dirty());
    e.saved_as("v/笔记.md");
    assert!(!e.document().is_dirty());
    assert_eq!(e.document().title(), "笔记");
    assert_eq!(e.document().path(), Some("v/笔记.md"));
}

#[test]
fn the_block_at_the_cursor_is_known() {
    let mut e = ed("# 题\n\n7. 项\n");
    e.move_doc_end(false);
    e.move_up(false);
    assert_eq!(e.active_block_lines(), Some(2..3));
    assert_eq!(e.current_list_number(), Some(7));
    e.select(0..3);
    e.collapse_selection();
    assert!(!e.has_selection());
    assert_eq!(e.current_list_number(), None);
}

#[test]
fn edits_within_a_moment_belong_together() {
    assert!(soon_after(0) && soon_after(699));
    assert!(!soon_after(700));
}

#[test]
fn undo_puts_the_cursor_where_the_edit_started() {
    let mut e = ed("一二三");
    e.set_cursor(3);
    e.replace_selection("xy");
    assert_eq!(e.cursor(), 5);
    e.move_doc_end(false);
    assert!(e.undo());
    assert_eq!((e.cursor(), e.has_selection()), (3, false));
    assert!(e.redo());
    assert_eq!((e.cursor(), e.has_selection()), (5, false));
    assert!(e.undo());
    assert_eq!(e.cursor(), 3);
}
