use fastnote::block::{scan_blocks, LineInput};
use fastnote::date::{civil_from_days, clock_seconds, clock_with_offset, date_with_offset, days_from_civil, parse_ymd, weekday_cn};
use fastnote::document::{Document, Newline};
use fastnote::inline::{parse_inline, SpanStyle};
use fastnote::paths::{depth_of, extension_of_path, file_name_of, file_stem_of, join_path, parent_of};
use fastnote::render::{
    block_style, button_look, inline_runs, source_runs, BlockStyle, Face, Kind, Metrics, Tint,
};
use fastnote::sorting::sort_order;

fn chars(s: &str) -> Vec<char> {
    s.chars().collect()
}

#[test]
fn paths_have_parts() {
    assert_eq!(file_name_of("a/b.md"), Some(chars("b.md")));
    assert_eq!(file_name_of("a/.."), None);
    assert_eq!(file_stem_of("a/b.c.md"), Some(chars("b.c")));
    assert_eq!(extension_of_path("a/.hidden"), None);
    assert_eq!(extension_of_path("a/b.md"), Some(chars("md")));
    assert_eq!(depth_of("/a/b"), 3);
    assert_eq!(join_path("a", "b"), "a/b");
    assert_eq!(join_path("a", "/b"), "/b");
    assert_eq!(join_path("", "b"), "b");
    assert_eq!((parent_of("a/b"), parent_of("b"), parent_of("/b")), (Some("a".into()), Some("".into()), Some("/".into())));
}

#[test]
fn sorting_is_stable() {
    let keys = vec![chars("b"), chars("a"), chars("b"), chars("ab")];
    assert_eq!(sort_order(&keys), vec![1, 3, 0, 2]);
}

#[test]
fn days_are_counted_in_both_ways() {
    for d in (-800_000i64..800_000).step_by(997) {
        let (y, m, day) = civil_from_days(d);
        assert_eq!(days_from_civil(y, m, day), d);
    }
    assert_eq!(parse_ymd("2026-02-28"), Some((2026, 2, 28)));
    assert_eq!(parse_ymd("x"), None);
    assert_eq!((clock_seconds(Some(7)), clock_seconds(None)), (7, 0));
    assert_eq!(weekday_cn("2026-09-20"), "周日");
}

#[test]
fn line_breaks_are_sniffed() {
    assert_eq!(Document::from_str("a\nb").newline(), Newline::Lf);
    assert_eq!(Document::from_file("p.md", "a\r\nb").newline(), Newline::Crlf);
    assert_eq!(Document::from_file("p.md", "a").path(), Some("p.md"));
    assert_eq!(Newline::Crlf.as_str(), "\r\n");
    let mut d = Document::empty();
    d.set_path("v/x.md".into());
    assert_eq!(d.title(), "x");
}

#[test]
fn lines_end_as_in_unicode() {
    let d = Document::from_str("a\u{2028}b\r\nc\rd");
    assert_eq!(d.len_lines(), 4);
    assert_eq!(d.line_text(3), "d");
    assert_eq!(d.line_text(9), "");
    assert_eq!(d.byte_to_line_col(4), (1, 0));
    assert_eq!(d.line_col_to_byte(1, 99), 5);
}

#[test]
fn bytes_out_of_place_are_brought_in() {
    let mut d = Document::from_str("中");
    d.insert(99, "x");
    assert_eq!(d.rope().to_string(), "中x");
    d.remove(3..99);
    assert_eq!(d.rope().to_string(), "中");
    d.replace(0..3, "文");
    assert_eq!(d.slice_to_string(0..99), "文");
    assert_eq!(d.blocks_all().len(), 1);
}

#[test]
fn blocks_tile_their_lines() {
    let src = "# a\n> b\n> c\n\n- d\n```\ne\n```\nf\n";
    let lines: Vec<String> = src.split('\n').map(|s| s.to_string()).collect();
    let eols = vec![1u8; lines.len()];
    let blocks = scan_blocks(&LineInput {
        lines: &lines,
        first_line: 7,
        first_byte: 100,
        eol_widths: &eols,
    });
    let mut at = 7;
    for b in &blocks {
        assert_eq!(b.lines.start, at);
        at = b.lines.end;
    }
    assert_eq!(at, 7 + lines.len());
}

#[test]
fn spans_tile_the_shown_text() {
    let src = "a **b** [c](u) [[d|e]] #f `g` ~~h~~ ![i](j)";
    let t = parse_inline(src);
    let mut at = 0;
    for s in &t.spans {
        assert_eq!(s.range.start, at);
        assert!(s.range.start < s.range.end && s.src.end <= src.len());
        at = s.range.end;
    }
    assert_eq!(at, t.text.len());
}

#[test]
fn styles_join() {
    let both = SpanStyle::bold() | SpanStyle::code();
    assert!(both.contains(SpanStyle::code()) && !both.contains(SpanStyle::tag()));
    let mut s = SpanStyle::none();
    s.insert(SpanStyle::wikilink());
    assert_eq!((s.bits(), SpanStyle::link().bits()), (32, 16));
}

#[test]
fn headings_have_sizes() {
    let sizes: Vec<(u32, u32)> = "# \n## \n### \n#### \n##### \n###### "
        .lines()
        .map(|l| {
            let d = Document::from_str(l);
            let s = block_style(&d.blocks_all()[0].kind, false);
            (s.font_size, s.line_height)
        })
        .collect();
    assert_eq!(sizes, vec![(28, 41), (23, 33), (19, 28), (17, 25), (15, 22), (14, 20)]);
    assert_eq!(Metrics::heading_scale(1), 185);
    let base = BlockStyle::base();
    assert_eq!((base.font_size, base.line_height), (15, 26));
}

#[test]
fn blocks_have_their_look() {
    let style = |src: &str| {
        let d = Document::from_str(src);
        block_style(&d.blocks_all()[0].kind, false)
    };
    let code = style("```\nx\n```");
    assert_eq!((code.font_size, code.line_height, code.ink.font), (14, 22, Face::Mono));
    assert_eq!(code.bg, Some(Tint::CodeBlockBack));
    assert_eq!(style("|a|\n|-|\n").line_height, 24);
    assert_eq!(style(">> x").indent, 32);
    assert_eq!(style("  12. x").prefix.as_deref(), Some("12."));
    assert_eq!(style("- [x] x").prefix.as_deref(), Some("☑"));
    assert_eq!(style("- [ ] x").prefix.as_deref(), Some("☐"));
    assert!(style("---").is_rule);
}

#[test]
fn runs_have_their_look() {
    let base = BlockStyle::base().ink;
    let look = |src: &str| {
        let t = parse_inline(src);
        inline_runs(&t, 0, t.text.len(), base)[0]
    };
    let code = look("`c`");
    assert_eq!((code.ink.font, code.ink.color), (Face::Mono, Tint::Code));
    assert!(look("**b**").ink.bold && look("*i*").italic);
    let wiki = look("[[w]]");
    assert_eq!((wiki.ink.color, wiki.underline), (Tint::Wikilink, Some(Tint::Wikilink)));
    let tag = look("#t");
    assert_eq!((tag.ink.color, tag.background), (Tint::Tag, Some(Tint::TagBack)));
    assert_eq!(look("[l](u)").underline, Some(Tint::Accent));
    assert!(look("~~s~~").strike);
    let src = source_runs("## x", base);
    assert_eq!((src[0].len, src[0].ink.color, src[1].len), (3, Tint::Syntax, 1));
}

#[test]
fn buttons_have_their_weight() {
    assert!(button_look(Kind::Primary).heavy && button_look(Kind::On).filled);
    assert_eq!(button_look(Kind::Danger).color, Tint::Warn);
    assert_eq!(button_look(Kind::Quiet).color, Tint::Muted);
    assert_eq!(button_look(Kind::Plain).hover, Tint::Hover);
}

#[test]
fn directories_of_files_pass_over_what_does_not_count() {
    for (p, dir) in [
        ("a/", Some("")),
        ("a/b/", Some("a")),
        ("a//b", Some("a")),
        ("a/./b/.", Some("a")),
        ("./a", Some(".")),
        (".", Some("")),
        ("//a", Some("/")),
        ("/", None),
        ("", None),
    ] {
        assert_eq!(parent_of(p).as_deref(), dir, "{p}");
        let std = std::path::Path::new(p).parent().map(|d| d.to_str().unwrap());
        assert_eq!(parent_of(p).as_deref(), std, "{p}");
    }
}

#[test]
fn clocks_and_offsets_stop_at_the_ends() {
    assert_eq!(clock_seconds(Some(u64::MAX)), i64::MAX);
    assert_eq!(clock_seconds(Some(2_000_000_000_000_000_000)), 2_000_000_000_000_000_000);
    assert_eq!(date_with_offset(0, -1), "1969-12-31");
    assert_eq!(clock_with_offset(0, -1), "23:59:00");
    assert_eq!(clock_with_offset(i64::MAX, 480), clock_with_offset(i64::MAX, 0));
    assert_eq!(date_with_offset(i64::MIN, -480), date_with_offset(i64::MIN, 0));
}
