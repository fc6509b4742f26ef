use fastnote::inline::{parse_inline, InlineText, SpanStyle};

fn styles(t: &InlineText) -> Vec<(&str, u8)> {
    t.spans
        .iter()
        .map(|s| (&t.text[s.range.clone()], s.style.bits()))
        .collect()
}

#[test]
fn plain_text_fast_path() {
    let t = parse_inline("普通一段文字，没有标记");
    assert_eq!(t.text, "普通一段文字，没有标记");
    assert_eq!(t.spans.len(), 1);
    assert!(t.spans[0].style.is_plain());
}

#[test]
fn bold_italic_code() {
    let t = parse_inline("前 **粗** 中 *斜* 后 `code`");
    assert_eq!(t.text, "前 粗 中 斜 后 code");
    let s = styles(&t);
    assert!(s.contains(&("粗", SpanStyle::bold().bits())));
    assert!(s.contains(&("斜", SpanStyle::italic().bits())));
    assert!(s.contains(&("code", SpanStyle::code().bits())));
}

#[test]
fn nested_bold_italic_merges_flags() {
    let t = parse_inline("***both***");
    assert_eq!(t.text, "both");
    let want = (SpanStyle::bold() | SpanStyle::italic()).bits();
    assert_eq!(t.spans[0].style.bits(), want);
}

#[test]
fn strikethrough() {
    let t = parse_inline("~~删掉~~");
    assert_eq!(t.text, "删掉");
    assert!(t.spans[0].style.contains(SpanStyle::strike()));
}

#[test]
fn link_records_url_and_range() {
    let t = parse_inline("看 [文档](https://example.com/a) 吧");
    assert_eq!(t.text, "看 文档 吧");
    assert_eq!(t.links.len(), 1);
    let (range, url) = &t.links[0];
    assert_eq!(&t.text[range.clone()], "文档");
    assert_eq!(url, "https://example.com/a");
}

#[test]
fn adjacent_same_style_spans_are_merged() {
    // "a" 与 "b" 同为无样式，应合并成一个区间而不是两个
    let t = parse_inline("ab **c**");
    assert_eq!(t.spans[0].range, 0..3);
}

#[test]
fn plain_text_source_mapping_is_identity() {
    let src = "普通文字";
    let t = parse_inline(src);
    for i in 0..=src.len() {
        assert_eq!(t.source_offset(i), i, "rendered {i}");
    }
}

#[test]
fn source_offset_maps_inside_bold_precisely() {
    let src = "前 **粗体** 后";
    let t = parse_inline(src);
    assert_eq!(t.text, "前 粗体 后");
    // 粗体「内部」的位置必须精确落回 ** 之内，这是点击定位的核心保证
    let r = t.text.find('体').unwrap();
    assert_eq!(t.source_offset(r), src.find('体').unwrap());
    // 末尾要映射到源码末尾附近，而不是越界
    assert!(t.source_offset(t.text.len()) <= src.len());
}

#[test]
fn source_offset_at_marker_seam_stays_outside_marker() {
    // 渲染文本剥掉了 **，所以「星号前」与「星号后」在渲染上是同一个零宽位置，
    // 无法区分。约定归到前一段的源码末尾 —— 光标停在标记符外侧，
    // 于是在粗体开头输入的文字不会被吸进粗体里（与 Typora 行为一致）。
    let src = "前 **粗体** 后";
    let t = parse_inline(src);
    let seam = t.text.find('粗').unwrap();
    let s = t.source_offset(seam);
    assert_eq!(s, src.find("**").unwrap());
    // 无论落哪一侧，都不能越过标记符跑进粗体正文
    assert!(s <= src.find('粗').unwrap());
}

#[test]
fn code_span_maps_inside_backticks() {
    let src = "跑 `cargo test` 看看";
    let t = parse_inline(src);
    // 同理，测代码区间「内部」的位置
    let r = t.text.find("test").unwrap();
    assert_eq!(t.source_offset(r), src.find("test").unwrap());
}

#[test]
fn source_and_rendered_offsets_round_trip() {
    let src = "a **b** c `d` e";
    let t = parse_inline(src);
    for (i, _) in t.text.char_indices() {
        let s = t.source_offset(i);
        // 源码偏移换回渲染偏移应落在同一位置（标记符位置允许就近取整）
        assert_eq!(t.rendered_offset(s), i, "rendered {i} -> src {s}");
    }
}

#[test]
fn source_offset_never_exceeds_source_len() {
    let src = "**多** *种* `标` ~~记~~ [x](y)";
    let t = parse_inline(src);
    for i in 0..=t.text.len() {
        assert!(t.source_offset(i) <= src.len());
    }
}

#[test]
fn wikilink_parsed_with_target_and_display() {
    let src = "参见 [[项目计划]] 与 [[会议纪要|那次会议]]";
    let t = parse_inline(src);
    assert_eq!(t.text, "参见 项目计划 与 那次会议");
    assert_eq!(t.wikilinks.len(), 2);
    assert_eq!(t.wikilinks[0].1, "项目计划");
    assert_eq!(t.wikilinks[1].1, "会议纪要");
    // 点击 Wikilink span 应映射回 `[[` 起点
    let (range, _) = &t.wikilinks[0];
    let r = range.start;
    let s = t.source_offset(r);
    assert_eq!(&src[s..s + 2], "[[");
}

#[test]
fn tag_parsed_inline() {
    let src = "这是 #重要 的笔记 #todo/2026";
    let t = parse_inline(src);
    // 第二个含 '/'，但当前只取一个词段；这里验证基础标签
    assert!(t.text.contains("#重要"));
    assert!(!t.tags.is_empty());
    assert_eq!(t.tags[0].1, "重要");
}

#[test]
fn wikilink_and_markdown_do_not_conflict() {
    // 普通链接 [x](y) 不应被当成 wikilink
    let t = parse_inline("见 [文档](https://x.com) 与 [[另一篇]]");
    assert_eq!(t.links.len(), 1);
    assert_eq!(t.wikilinks.len(), 1);
    assert_eq!(t.wikilinks[0].1, "另一篇");
}
