use fastnote::block::{Block, BlockKind};
use fastnote::document::Document;
use fastnote::index::{NoteFile, VaultIndex};
use fastnote::layout::{
    active_block, first_block, ghost_line, image_file, image_target, plan_block, query_hits_for,
    strip_image_title, swap_red_blue, view_lines, wikilink_at, PlanKind, RowMap,
};
use fastnote::render::{Tint, TextRun};

fn blocks(d: &mut Document) -> Vec<Block> {
    let n = d.len_lines();
    d.blocks_for_lines(0..n).to_vec()
}

fn total(runs: &[TextRun]) -> usize {
    runs.iter().map(|r| r.len).sum()
}

#[test]
fn the_block_with_the_cursor_shows_its_source() {
    let mut d = Document::from_str("- **粗** 项\n");
    let b = blocks(&mut d);
    let shown = plan_block(&d, &b[0], false, false, None);
    assert_eq!(shown.kind, PlanKind::Shown);
    assert_eq!(shown.rows[0].text, "粗 项");
    assert_eq!(shown.style.prefix.as_deref(), Some("•"));
    let source = plan_block(&d, &b[0], true, false, None);
    assert_eq!(source.kind, PlanKind::Source);
    assert_eq!(source.rows[0].text, "- **粗** 项");
    assert_eq!(source.style.prefix, None);
    assert_eq!(source.style.indent, shown.style.indent);
    assert_eq!(source.rows[0].line_height, shown.rows[0].line_height);
}

#[test]
fn runs_cover_every_row() {
    let mut d = Document::from_str("# 标题\n\n> 甲 **乙**\n> 丙 `x`\n\n```rust\nfn a() {}\n```\n");
    for b in blocks(&mut d) {
        for active in [false, true] {
            for row in plan_block(&d, &b, active, false, None).rows {
                assert_eq!(total(&row.runs), row.text.len());
            }
        }
    }
}

#[test]
fn rows_of_a_quote_stand_for_their_lines() {
    let mut d = Document::from_str("> 甲\n> 乙\n");
    let b = blocks(&mut d);
    let plan = plan_block(&d, &b[0], false, false, None);
    assert_eq!(plan.rows.len(), 2);
    assert_eq!(plan.rows[0].doc, 0..5);
    assert_eq!(plan.rows[1].doc, 6..11);
    assert_eq!(plan.rows[1].map, RowMap::Shown { start: 4 });
    assert_eq!(plan.rows[1].doc_offset(0, &b[0], &d), 8);
    assert_eq!(plan.rows[1].local_offset(8, &b[0], &d), Some(0));
    assert_eq!(plan.rows[1].local_offset(3, &b[0], &d), None);
}

#[test]
fn source_rows_and_bytes_go_together() {
    let mut d = Document::from_str("中文\n");
    let b = blocks(&mut d);
    let row = &plan_block(&d, &b[0], true, false, None).rows[0];
    assert_eq!(row.map, RowMap::Source);
    for byte in 0..=6 {
        let local = row.local_offset(byte, &b[0], &d).unwrap();
        assert_eq!(row.doc_offset(local, &b[0], &d), byte);
    }
    assert_eq!(row.doc_offset(99, &b[0], &d), 6);
}

#[test]
fn rules_and_images_have_one_empty_row() {
    let mut d = Document::from_str("---\n\n![x](a.png)\n");
    let b = blocks(&mut d);
    let rule = plan_block(&d, &b[0], false, false, None);
    assert_eq!(rule.kind, PlanKind::Rule);
    assert_eq!(rule.rows[0].text, "");
    assert_eq!(rule.rows[0].doc, 0..3);
    assert_eq!(plan_block(&d, &b[0], true, false, None).kind, PlanKind::Source);
    assert_eq!(plan_block(&d, &b[2], false, true, None).kind, PlanKind::Image);
    assert_eq!(plan_block(&d, &b[2], false, false, None).kind, PlanKind::Source);
}

#[test]
fn queries_show_what_they_find() {
    let index = VaultIndex::build(&vec![NoteFile {
        path: "v/a.md".into(),
        text: Some("x\n要点 #t\n".into()),
    }]);
    let read = vec![Some("x\n要点 #t\n".to_string())];
    let mut d = Document::from_str("```query\n#t 要点\n```\n");
    let b = blocks(&mut d);
    let hits = query_hits_for(&index, &b[0], &read);
    assert_eq!(hits.as_ref().unwrap().len(), 1);
    let plan = plan_block(&d, &b[0], false, false, hits);
    assert_eq!(plan.kind, PlanKind::Query);
    assert_eq!(plan.rows[0].text, "⌕ 查询 · 1 篇");
    assert_eq!(plan.rows[0].runs[0].ink.color, Tint::Muted);
    assert_eq!(plan.rows[1].text, "· a — 要点 #t");
    assert_eq!(plan.rows[1].link, Some(("v/a.md".to_string(), 1)));
    let none = plan_block(&d, &b[0], false, false, Some(Vec::new()));
    assert_eq!(none.rows[0].text, "⌕ 查询无匹配");
    let mut other = Document::from_str("正文\n");
    let o = blocks(&mut other);
    assert!(query_hits_for(&index, &o[0], &read).is_none());
}

#[test]
fn the_view_stays_in_the_document() {
    assert_eq!(view_lines(0, 10, 100), 0..10);
    assert_eq!(view_lines(95, 10, 100), 95..100);
    assert_eq!(view_lines(500, 10, 100), 99..100);
}

#[test]
fn blocks_are_found_by_byte_and_line() {
    let mut d = Document::from_str("# H\n\n正文\n第二行\n");
    let b = blocks(&mut d);
    assert_eq!(active_block(&b, 0), Some(0));
    assert_eq!(active_block(&b, 6), Some(2));
    assert_eq!(active_block(&b, 999), None);
    assert_eq!(first_block(&b, 3), 2);
    assert_eq!(first_block(&b, 999), 0);
    assert!(matches!(b[2].kind, BlockKind::Paragraph));
}

#[test]
fn selections_are_cut_to_rows() {
    let mut d = Document::from_str("abc\ndef\n");
    let b = blocks(&mut d);
    let rows = plan_block(&d, &b[0], true, false, None).rows;
    assert_eq!(rows[0].selected(&(1..6)), Some((1, 3, true)));
    assert_eq!(rows[1].selected(&(1..6)), Some((4, 6, false)));
    assert_eq!(rows[1].selected(&(0..2)), None);
    assert_eq!(rows[0].selected(&(2..2)), None);
}

#[test]
fn links_are_found_where_they_are_shown() {
    let mut d = Document::from_str("见 [[计划|那个]] 吧\n");
    let b = blocks(&mut d);
    let row = &plan_block(&d, &b[0], false, false, None).rows[0];
    assert_eq!(wikilink_at(row, &b[0], 4).as_deref(), Some("计划"));
    assert_eq!(wikilink_at(row, &b[0], 0), None);
    assert_eq!(wikilink_at(row, &b[0], 10), None);
    let source = &plan_block(&d, &b[0], true, false, None).rows[0];
    assert_eq!(wikilink_at(source, &b[0], 4), None);
}

#[test]
fn proposals_show_their_first_line() {
    assert_eq!(ghost_line("一\n二").as_deref(), Some("一"));
    assert_eq!(ghost_line("\n二"), None);
    assert_eq!(ghost_line(""), None);
}

#[test]
fn image_titles_are_cut_off() {
    assert_eq!(strip_image_title("a.png \"标题\""), "a.png");
    assert_eq!(strip_image_title("a.png 'x'"), "a.png");
    assert_eq!(strip_image_title("a.png (x)"), "a.png");
    assert_eq!(strip_image_title("<a b.png>"), "a b.png");
    assert_eq!(strip_image_title("img (1).png"), "img (1).png");
    assert_eq!(strip_image_title("img(1)"), "img(1)");
    assert_eq!(strip_image_title("  a.png  "), "a.png");
}

#[test]
fn images_are_read_from_disk_only() {
    assert_eq!(image_target("https://x/y.png"), None);
    assert_eq!(image_target("http://x/y.png"), None);
    assert_eq!(image_target("  "), None);
    assert_eq!(image_target("a.png \"t\"").as_deref(), Some("a.png"));
    assert_eq!(image_file("a.png", false, Some("v/d")).as_deref(), Some("v/d/a.png"));
    assert_eq!(image_file("a.png", false, None), None);
    assert_eq!(image_file("/a.png", true, None).as_deref(), Some("/a.png"));
}

#[test]
fn pixels_are_swapped_and_swapped_back() {
    let mut v = vec![1u8, 2, 3, 4, 5, 6, 7, 8, 9];
    swap_red_blue(&mut v);
    assert_eq!(v, vec![3, 2, 1, 4, 7, 6, 5, 8, 9]);
    swap_red_blue(&mut v);
    assert_eq!(v, vec![1, 2, 3, 4, 5, 6, 7, 8, 9]);
}
