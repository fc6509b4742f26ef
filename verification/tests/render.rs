use fastnote::inline::{parse_inline, InlineText};
use fastnote::render::{inline_runs, leading_marker_len, source_runs, BlockStyle};

#[test]
fn marker_len_heading() {
    assert_eq!(leading_marker_len("## 标题"), 3);
    assert_eq!(leading_marker_len("#不是标题"), 0);
}

#[test]
fn marker_len_list_and_task() {
    assert_eq!(leading_marker_len("- 项"), 2);
    assert_eq!(leading_marker_len("- [ ] 待办"), 6);
    assert_eq!(leading_marker_len("- [x] 完成"), 6);
    assert_eq!(leading_marker_len("12. 项"), 4);
}

#[test]
fn marker_len_quote_and_fence() {
    assert_eq!(leading_marker_len("> 引用"), 2);
    assert_eq!(leading_marker_len(">> 深"), 3);
    assert_eq!(leading_marker_len("```rust"), 7);
}

#[test]
fn marker_len_plain() {
    assert_eq!(leading_marker_len("普通段落"), 0);
    assert_eq!(leading_marker_len(""), 0);
}

#[test]
fn inline_runs_cover_whole_range() {
    let inline = InlineText::plain("hello world");
    let base = BlockStyle::base();
    let runs = inline_runs(&inline, 0, inline.text.len(), base.ink);
    let total: usize = runs.iter().map(|r| r.len).sum();
    assert_eq!(total, inline.text.len());
}

#[test]
fn inline_runs_sub_range_covers_exactly() {
    let inline = parse_inline("a **bold** c");
    let base = BlockStyle::base();
    let r = 2..inline.text.len() - 1;
    let runs = inline_runs(&inline, r.start, r.end, base.ink);
    let total: usize = runs.iter().map(|x| x.len).sum();
    assert_eq!(total, r.len());
}

#[test]
fn source_runs_cover_whole_line() {
    let base = BlockStyle::base();
    for line in ["## 标题", "- [ ] 待办", "普通", ""] {
        let runs = source_runs(line, base.ink);
        let total: usize = runs.iter().map(|r| r.len).sum();
        assert_eq!(total, line.len(), "line = {line:?}");
    }
}
