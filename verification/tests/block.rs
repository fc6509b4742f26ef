use fastnote::block::{image_src, scan_blocks, Block, BlockKind, LineInput, ListMarker};

fn scan(src: &str) -> Vec<Block> {
    let lines: Vec<String> = src.split('\n').map(|s| s.to_string()).collect();
    let eols = vec![1u8; lines.len()];
    scan_blocks(&LineInput {
        lines: &lines,
        first_line: 0,
        first_byte: 0,
        eol_widths: &eols,
    })
}

#[test]
fn heading_and_paragraph() {
    let b = scan("# 标题\n\n正文一\n正文二\n");
    assert_eq!(b[0].kind, BlockKind::Heading { level: 1 });
    assert_eq!(b[0].inline.as_ref().unwrap().text, "标题");
    assert_eq!(b[1].kind, BlockKind::Blank);
    assert_eq!(b[2].kind, BlockKind::Paragraph);
    // 连续两行合并为一个段落块
    assert_eq!(b[2].lines, 2..4);
}

#[test]
fn hash_without_space_is_not_heading() {
    let b = scan("#标签不是标题\n");
    assert_eq!(b[0].kind, BlockKind::Paragraph);
}

#[test]
fn code_fence_captures_body_and_lang() {
    let b = scan("```rust\nfn main() {}\n```\n");
    match &b[0].kind {
        BlockKind::CodeFence { lang, closed } => {
            assert_eq!(lang.as_deref(), Some("rust"));
            assert!(closed);
        }
        k => panic!("unexpected {k:?}"),
    }
    assert_eq!(b[0].code_body().unwrap(), "fn main() {}");
    assert!(b[0].inline.is_none(), "代码块不做行内解析");
}

#[test]
fn unclosed_fence_is_marked() {
    let b = scan("```\nstill code\n");
    match &b[0].kind {
        BlockKind::CodeFence { closed, .. } => assert!(!closed),
        k => panic!("unexpected {k:?}"),
    }
}

#[test]
fn markdown_inside_fence_is_not_parsed_as_heading() {
    // 末尾 '\n' 经 split 会多出一个空串行，因而尾部还有一个 Blank 块
    let b = scan("```\n# 这是代码里的井号\n```\ntail\n");
    // 围栏必须把中间的 '# ...' 整行吞进去
    assert!(matches!(b[0].kind, BlockKind::CodeFence { closed: true, .. }));
    assert_eq!(b[0].lines, 0..3);
    assert_eq!(b[1].kind, BlockKind::Paragraph);
    // 关键：整篇不该出现任何标题块
    assert!(
        !b.iter()
            .any(|x| matches!(x.kind, BlockKind::Heading { .. })),
        "围栏内的 # 被误判成标题了"
    );
}

#[test]
fn list_items_bullet_ordered_task() {
    let b = scan("- 一\n- [x] 二\n3. 三\n");
    assert!(matches!(
        b[0].kind,
        BlockKind::List {
            marker: ListMarker::Bullet,
            task: None,
            ..
        }
    ));
    assert!(matches!(
        b[1].kind,
        BlockKind::List {
            task: Some(true),
            ..
        }
    ));
    assert_eq!(b[1].inline.as_ref().unwrap().text, "二");
    assert!(matches!(
        b[2].kind,
        BlockKind::List {
            marker: ListMarker::Ordered(3),
            ..
        }
    ));
}

#[test]
fn quote_merges_consecutive_lines_and_strips_marker() {
    let b = scan("> 引用一\n> 引用二\n\n后面\n");
    assert!(matches!(b[0].kind, BlockKind::Quote { depth: 1 }));
    assert_eq!(b[0].inline.as_ref().unwrap().text, "引用一\n引用二");
}

#[test]
fn rule_vs_setext_like_dashes() {
    assert_eq!(scan("---\n")[0].kind, BlockKind::Rule);
    assert_eq!(scan("***\n")[0].kind, BlockKind::Rule);
    assert_eq!(scan("--\n")[0].kind, BlockKind::Paragraph);
}

#[test]
fn table_detection() {
    let b = scan("| a | b |\n|---|---|\n| 1 | 2 |\n");
    assert_eq!(b[0].kind, BlockKind::Table);
    assert_eq!(b[0].lines, 0..3);
}

#[test]
fn byte_ranges_are_contiguous_and_map_back_to_source() {
    let src = "# H\n\npara\n";
    let b = scan(src);
    for blk in &b {
        assert_eq!(&src[blk.bytes.clone()], blk.source, "字节区间必须能取回原文");
    }
}

#[test]
fn offsets_respect_crlf_width() {
    let lines: Vec<String> = vec!["# H".into(), "p".into()];
    let eols = vec![2u8, 2u8]; // \r\n
    let b = scan_blocks(&LineInput {
        lines: &lines,
        first_line: 0,
        first_byte: 0,
        eol_widths: &eols,
    });
    assert_eq!(b[0].bytes, 0..3);
    // 第二块起点应跳过 "\r\n"
    assert_eq!(b[1].bytes.start, 5);
}

#[test]
fn crlf_multiline_block_byte_range_counts_two_byte_eols() {
    // 段落两行，CRLF。source 用 '\n' 连接（5 字节），
    // 但文档里占 "ab\r\ncd" = 6 字节，bytes.end 必须是 6。
    let lines: Vec<String> = vec!["ab".into(), "cd".into()];
    let eols = vec![2u8, 2u8];
    let b = scan_blocks(&LineInput {
        lines: &lines,
        first_line: 0,
        first_byte: 0,
        eol_widths: &eols,
    });
    assert_eq!(b.len(), 1);
    assert_eq!(b[0].source, "ab\ncd");
    assert_eq!(b[0].bytes, 0..6);
}

#[test]
fn strip_records_heading_prefix() {
    let b = scan("## 标题\n");
    assert_eq!(b[0].strip, vec![3]); // "## "
    assert_eq!(b[0].inline.as_ref().unwrap().text, "标题");
}

#[test]
fn strip_records_quote_prefix_per_line() {
    let b = scan("> 一\n> 二\n");
    assert_eq!(b[0].strip, vec![2, 2]);
}

#[test]
fn strip_records_task_marker() {
    let b = scan("- [x] 完成\n");
    // "- " (2) + "[x] " (4) = 6
    assert_eq!(b[0].strip, vec![6]);
    assert_eq!(b[0].inline.as_ref().unwrap().text, "完成");
}

#[test]
fn inline_offset_maps_back_to_source_column() {
    let b = scan("## 标题内容\n");
    let blk = &b[0];
    let inline = blk.inline.as_ref().unwrap();
    // 渲染文本开头对应源码第 3 字节（"## " 之后）
    assert_eq!(blk.inline_to_line_col(0), (0, 3));
    // 渲染文本末尾对应源码行末
    let (line, col) = blk.inline_to_line_col(inline.text.len());
    assert_eq!(line, 0);
    assert_eq!(col, blk.source.len());
}

#[test]
fn inline_offset_maps_second_quote_line() {
    let b = scan("> 甲\n> 乙\n");
    let blk = &b[0];
    let inline = blk.inline.as_ref().unwrap();
    assert_eq!(inline.text, "甲\n乙");
    // "乙" 在渲染文本中的偏移
    let r = inline.text.find('乙').unwrap();
    let (line, col) = blk.inline_to_line_col(r);
    assert_eq!(line, 1);
    assert_eq!(col, 2); // "> " 之后
}

#[test]
fn inline_line_col_round_trip() {
    let b = scan("> **粗** 体\n");
    let blk = &b[0];
    let inline = blk.inline.as_ref().unwrap();
    for (r, _) in inline.text.char_indices() {
        let (line, col) = blk.inline_to_line_col(r);
        assert_eq!(blk.line_col_to_inline(line, col), r, "rendered {r}");
    }
}

#[test]
fn strip_len_matches_line_count() {
    for src in [
        "# H\n",
        "> a\n> b\n> c\n",
        "- [ ] x\n  续行\n",
        "普通\n第二行\n",
    ] {
        let b = scan(src);
        for blk in &b {
            if blk.inline.is_some() {
                assert_eq!(
                    blk.strip.len(),
                    blk.source.split('\n').count(),
                    "块 {:?} 的 strip 长度应等于行数",
                    blk.kind
                );
            }
        }
    }
}

#[test]
fn image_block_is_recognized_and_breaks_paragraph() {
    // 单独成行的图片语法应为 Image 块，且 inline 为 None。
    // 注意 scan 按 '\n' 切行，末尾换行会多出一个空行块（与 rule 测试一致）。
    let b = scan("![封面](cover.png)\n");
    assert_eq!(b.len(), 2);
    match &b[0].kind {
        BlockKind::Image { src } => assert_eq!(src, "cover.png"),
        k => panic!("expected Image block, got {k:?}"),
    }
    assert!(b[0].inline.is_none(), "图片块不做行内解析");
    assert_eq!(b[1].kind, BlockKind::Blank);

    // 图片行应打断前面的段落
    let b = scan("前文\n\n![图](a.png)\n\n后文\n");
    let kinds: Vec<_> = b.iter().map(|x| x.kind.clone()).collect();
    assert!(kinds.iter().any(|k| matches!(k, BlockKind::Image { .. })));
    // 不应出现把图片吞进段落的情况
    assert!(
        !b.iter()
            .any(|x| matches!(x.kind, BlockKind::Paragraph) && x.source.contains("!["))
    );
}

#[test]
fn image_src_parses_path_only() {
    assert_eq!(
        image_src("![alt text](path/to/img.jpg)"),
        Some("path/to/img.jpg".to_string())
    );
    assert_eq!(image_src("正文里有 ![x](y.png) 混排"), None);
    assert_eq!(image_src("![空]()"), None);
    assert_eq!(image_src("[普通链接](z.png)"), None);
}

#[test]
fn only_a_line_that_is_an_image_as_a_whole_is_one() {
    assert_eq!(image_src("![x](y.png) 后文"), None);
    assert_eq!(image_src("  ![x]( y.png )  ").as_deref(), Some("y.png"));
    assert_eq!(image_src("![x](y.png"), None);
    assert_eq!(image_src("![x]()"), None);
    let b = scan("前文\n![x](y.png) 后文\n");
    assert_eq!(b[0].kind, BlockKind::Paragraph);
    assert_eq!(b[0].lines, 0..2);
}

#[test]
fn scanning_may_start_at_any_block() {
    let src = "# 标题\n\n> 一\n> 二\n- 项\n  续\n```rs\n# x\n```\n| a |\n|---|\n| 1 |\n尾\n";
    let lines: Vec<String> = src.split('\n').map(|s| s.to_string()).collect();
    let eols = vec![1u8; lines.len()];
    let all = scan(src);
    for j in 0..all.len() {
        let k = all[j].lines.start;
        let tail: Vec<String> = lines[k..].to_vec();
        let part = scan_blocks(&LineInput {
            lines: &tail,
            first_line: k,
            first_byte: all[j].bytes.start,
            eol_widths: &eols[k..],
        });
        assert_eq!(format!("{part:?}"), format!("{:?}", &all[j..]));
    }
}

#[test]
fn blocks_without_markup_lead_back_to_every_position() {
    for src in ["# 标题", "> 一\n> 二", "- 项目\n  续行", "12. 数\n   字", "- [ ] 待办", "正文\n两行"] {
        let blocks = scan(src);
        let b = &blocks[0];
        let n = b.inline.as_ref().unwrap().text.len();
        for r in 0..=n {
            let (k, c) = b.inline_to_line_col(r);
            assert_eq!(b.line_col_to_inline(k, c), r, "{src} {r}");
        }
    }
}

#[test]
fn addresses_of_images_may_hold_brackets() {
    assert_eq!(image_src("![a](b(1).png)").as_deref(), Some("b(1).png"));
    assert_eq!(image_src("![a](b(1.png)").as_deref(), Some("b(1.png"));
    assert_eq!(image_src("![a](b.png) 与 (c)"), None);
    assert_eq!(image_src("![a](b.png) ![c](d.png)"), None);
}
