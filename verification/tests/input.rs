use fastnote::input::InputField;

fn field(s: &str) -> InputField {
    let mut f = InputField::new();
    f.set_text(s);
    f
}

#[test]
fn code_units_lead_to_characters() {
    let f = field("a中😀b");
    assert_eq!(f.utf16_to_byte(0), 0);
    assert_eq!(f.utf16_to_byte(1), 1);
    assert_eq!(f.utf16_to_byte(2), 4);
    assert_eq!(f.utf16_to_byte(3), 4, "inside a pair of units");
    assert_eq!(f.utf16_to_byte(4), 8);
    assert_eq!(f.utf16_to_byte(99), 9);
}

#[test]
fn bytes_lead_to_code_units_and_back() {
    let f = field("a中😀b");
    for b in [0usize, 1, 4, 8, 9] {
        assert_eq!(f.utf16_to_byte(f.byte_to_utf16(b)), b);
    }
    assert_eq!(f.byte_to_utf16(2), 1, "inside a character");
    assert_eq!(f.byte_to_utf16(9), 5);
    assert_eq!(f.byte_to_utf16(99), 5);
}

#[test]
fn text_of_a_range_is_whole_characters() {
    let f = field("a中😀b");
    let (text, actual) = f.text_for_range(&(1..3));
    assert_eq!(text, "中");
    assert_eq!(actual, 1..2);
    assert_eq!(f.range_from_utf16(&(1..4)), 1..8);
    assert_eq!(f.range_to_utf16(&(1..8)), 1..4);
}

#[test]
fn typed_text_goes_in_at_the_cursor() {
    let mut f = field("");
    f.replace_text_in_range(None, "你");
    f.replace_text_in_range(None, "好");
    assert_eq!(f.text(), "你好");
    assert_eq!(f.editor.cursor(), 6);
}

#[test]
fn text_goes_in_place_of_a_range() {
    let mut f = field("中文abc");
    f.replace_text_in_range(Some(0..2), "x");
    assert_eq!(f.text(), "xabc");
    assert_eq!(f.selected_text_range(), (1..1, false));
}

#[test]
fn composing_replaces_what_was_composed() {
    let mut f = field("前");
    f.editor.move_doc_end(false);
    f.replace_and_mark_text_in_range(None, "ni", Some(2..2));
    assert_eq!(f.text(), "前ni");
    assert_eq!(f.marked_text_range(), Some(1..3));
    f.replace_and_mark_text_in_range(None, "你", Some(1..1));
    assert_eq!(f.text(), "前你");
    assert_eq!(f.marked, Some(3..6));
    assert_eq!(f.editor.cursor(), 6, "the selection is asked for in code units");
    f.replace_text_in_range(None, "你好");
    assert_eq!(f.text(), "前你好");
    assert!(f.marked_text_range().is_none());
}

#[test]
fn composing_nothing_marks_nothing() {
    let mut f = field("a");
    f.replace_and_mark_text_in_range(None, "", None);
    assert!(f.marked.is_none());
    f.replace_and_mark_text_in_range(Some(0..1), "b", None);
    f.unmark_text();
    assert!(f.marked.is_none());
    assert_eq!(f.text(), "b");
}

#[test]
fn a_backward_selection_is_reported() {
    let mut f = field("abc");
    f.editor.move_doc_end(false);
    f.editor.move_left(true);
    assert_eq!(f.selected_text_range(), (2..3, true));
}
