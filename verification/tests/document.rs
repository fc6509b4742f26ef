use fastnote::block::BlockKind;
use fastnote::document::{Document, Newline};

#[test]
fn open_and_edit_roundtrip() {
    let mut d = Document::from_str("# 标题\n\n正文\n");
    assert!(!d.is_dirty());
    d.insert(0, "x");
    assert!(d.is_dirty());
    assert_eq!(d.rope().to_string(), "x# 标题\n\n正文\n");
}

#[test]
fn byte_offsets_handle_multibyte() {
    let d = Document::from_str("中文abc\n第二行\n");
    // "中文abc" = 3+3+3 = 9 bytes
    assert_eq!(d.byte_to_line_col(9), (0, 9));
    assert_eq!(d.byte_to_line(10), 1);
    // 从 "文" 之后退一个字符应回到 "中" 之后（3 字节），不能切半
    assert_eq!(d.prev_char_boundary(6), 3);
    assert_eq!(d.next_char_boundary(3), 6);
}

#[test]
fn viewport_parse_only_covers_requested_window() {
    let mut src = String::new();
    for i in 0..5000 {
        src.push_str(&format!("段落 {i}\n\n"));
    }
    let mut d = Document::from_str(&src);
    let total_lines = d.len_lines();
    let blocks = d.blocks_for_lines(4000..4050);
    // 关键是"远小于全文"，而不是某个具体数字：
    // 解析窗口 = 视口 60 行 + 上下各 VIEW_PAD，再加 safe_start/safe_end 的对齐余量
    assert!(
        blocks.len() < total_lines / 4,
        "视口解析块数 {} 相对全文 {} 行过多，惰性解析没生效",
        blocks.len(),
        total_lines
    );
    assert!(blocks.iter().any(|b| b.source == "段落 2000"));
}

#[test]
fn fence_cache_survives_plain_typing() {
    // 围栏之后的行：解析起点必须落在围栏内容之外
    let mut src = String::new();
    src.push_str("段首\n\n```rust\nfn a() {}\n```\n\n");
    for i in 0..600 {
        src.push_str(&format!("正文 {i}\n\n"));
    }
    let mut d = Document::from_str(&src);

    let line = d.len_lines() - 4;
    let before = d.blocks_for_lines(line..line + 2).len();
    let fence_rev = d.fence_rev();

    // 普通字符不含 ` ~ 与换行 → 围栏结构没变，缓存应保留
    d.insert(d.len_bytes(), "字");
    assert_eq!(d.fence_rev(), fence_rev, "普通打字不应让围栏缓存失效");
    let after = d.blocks_for_lines(line..line + 2).len();
    assert_eq!(before, after);
}

#[test]
fn fence_cache_invalidated_by_structural_edit() {
    let mut d = Document::from_str("a\n\n```\ncode\n```\n\nb\n");
    let rev = d.fence_rev();

    // 插入反引号：围栏分布可能变
    d.insert(0, "`");
    assert_ne!(d.fence_rev(), rev, "插入反引号必须让围栏缓存失效");

    let rev2 = d.fence_rev();
    // 插入换行：行号错位，同样是结构性改动
    d.insert(0, "\n");
    assert_ne!(d.fence_rev(), rev2, "插入换行必须让围栏缓存失效");

    // 删除含围栏的区间也要失效
    let rev3 = d.fence_rev();
    let s = d.rope().to_string();
    let at = s.find("```").unwrap();
    d.remove(at..at + 3);
    assert_ne!(d.fence_rev(), rev3, "删除围栏必须让缓存失效");
}

#[test]
fn typing_after_unclosed_fence_still_parses_as_code() {
    // 未闭合围栏之后的行必须继续算代码，普通打字不能让这个判定失准
    let mut src = String::from("intro\n\n```\n");
    for i in 0..80 {
        src.push_str(&format!("let x{i} = {i};\n"));
    }
    let mut d = Document::from_str(&src);
    let last = d.len_lines().saturating_sub(2);

    let in_fence = |d: &mut Document, line: usize| {
        d.blocks_for_lines(line..line + 1)
            .iter()
            .any(|b| b.contains_line(line) && matches!(b.kind, BlockKind::CodeFence { .. }))
    };

    assert!(in_fence(&mut d, last), "未闭合围栏内的行应判为代码");
    d.insert(d.len_bytes(), "x");
    assert!(in_fence(&mut d, last), "打字后仍应判为代码");
}

#[test]
fn cache_is_reused_within_same_revision() {
    let mut d = Document::from_str("a\n\nb\n\nc\n");
    let rev = d.revision();
    let n1 = d.blocks_for_lines(0..5).len();
    let n2 = d.blocks_for_lines(1..3).len();
    assert_eq!(rev, d.revision());
    assert_eq!(n1, n2, "子区间请求应命中缓存返回同一批块");
}

#[test]
fn cache_invalidated_after_edit() {
    let mut d = Document::from_str("# A\n");
    assert_eq!(
        d.blocks_for_lines(0..1)[0].kind,
        BlockKind::Heading { level: 1 }
    );
    // 把 "# A" 改成 "A"
    d.remove(0..2);
    assert_eq!(d.blocks_for_lines(0..1)[0].kind, BlockKind::Paragraph);
}

#[test]
fn safe_start_backs_out_of_open_code_fence() {
    // 视口落在代码块中间时，必须从围栏起始行开始解析，
    // 否则 "# 注释" 会被误判成标题
    let mut src = String::from("intro\n\n```rust\n");
    for i in 0..40 {
        src.push_str(&format!("// # 注释 {i}\n"));
    }
    src.push_str("```\n\nend\n");
    let mut d = Document::from_str(&src);
    let blocks = d.blocks_for_lines(30..35);
    let hit = blocks
        .iter()
        .find(|b| b.contains_line(32))
        .expect("视口内必须有块");
    assert!(
        matches!(hit.kind, BlockKind::CodeFence { .. }),
        "实际是 {:?}",
        hit.kind
    );
}

#[test]
fn block_at_byte_locates_active_block() {
    let mut d = Document::from_str("# H\n\npara text\n");
    let off = d.line_to_byte(2) + 2;
    let b = d.block_at_byte(off).unwrap();
    assert_eq!(b.source, "para text");
}

#[test]
fn crlf_document_offsets_are_consistent() {
    let mut d = Document::from_str("# H\r\n\r\npara\r\n");
    assert_eq!(d.newline(), Newline::Crlf);
    let blocks = d.blocks_for_lines(0..3).to_vec();
    for b in &blocks {
        assert_eq!(d.slice_to_string(b.bytes.clone()), b.source);
    }
}
