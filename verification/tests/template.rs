use fastnote::template::{cursor_offset, expand, load_all, Ctx, TemplateFile, SEED_BODY};

fn ctx() -> Ctx {
    Ctx {
        date: "2026-09-17".into(),
        time: "14:05:33".into(),
        title: "项目计划".into(),
    }
}

#[test]
fn expands_all_known_variables() {
    let out = expand(
        "# {{title}} {{date}} {{weekday}} {{year}}/{{month}}/{{day}} {{time}}",
        &ctx(),
    );
    assert_eq!(out, "# 项目计划 2026-09-17 周四 2026/09/17 14:05:33");
}

#[test]
fn datetime_joins_date_and_time() {
    assert_eq!(expand("{{datetime}}", &ctx()), "2026-09-17 14:05:33");
}

#[test]
fn unknown_variables_are_left_alone() {
    // 写错了要看得见，而不是被悄悄替换成空
    assert_eq!(expand("{{nope}} 与 {{date}}", &ctx()), "{{nope}} 与 2026-09-17");
}

#[test]
fn unclosed_braces_do_not_eat_the_rest() {
    assert_eq!(expand("前缀 {{date 后缀", &ctx()), "前缀 {{date 后缀");
}

#[test]
fn cursor_expands_to_empty_and_reports_offset() {
    let body = "abc{{cursor}}def";
    assert_eq!(expand(body, &ctx()), "abcdef");
    assert_eq!(cursor_offset(body, &ctx()), Some(3));
    assert_eq!(cursor_offset("无占位符", &ctx()), None);
}

#[test]
fn cursor_offset_accounts_for_expansion_before_it() {
    // 占位符前面的变量展开后长度会变，偏移必须用展开后的长度算
    let body = "{{date}}{{cursor}}";
    assert_eq!(cursor_offset(body, &ctx()), Some(10));
}

fn files() -> Vec<TemplateFile> {
    vec![
        TemplateFile {
            path: "v/templates/周报.md".into(),
            text: Some("B".into()),
        },
        TemplateFile {
            path: "v/templates/会议记录.md".into(),
            text: Some("A".into()),
        },
        TemplateFile {
            path: "v/templates/logo.png".into(),
            text: Some("x".into()),
        },
    ]
}

#[test]
fn loads_templates_sorted_and_skips_non_notes() {
    let t = load_all(&files());
    let names: Vec<_> = t.iter().map(|t| t.name.as_str()).collect();
    // 中文按 Unicode 码点排序（会 < 周），这一点与侧栏的排序规则一致
    assert_eq!(names, vec!["会议记录", "周报"]);
    assert_eq!(t[0].body, "A", "中文模板也要能正确读出正文");
}

#[test]
fn missing_template_dir_is_not_an_error() {
    assert!(load_all(&Vec::new()).is_empty());
}

#[test]
fn text_without_braces_stays() {
    assert_eq!(expand("a } b { c", &ctx()), "a } b { c");
}

#[test]
fn the_starting_template_can_be_filled_in() {
    let out = expand(SEED_BODY, &ctx());
    assert!(out.starts_with("# 2026-09-17 周四 会议记录\n"));
    assert!(!out.contains("{{"));
    let at = cursor_offset(SEED_BODY, &ctx()).unwrap();
    assert!(out[at..].starts_with("\n\n## 后续行动"));
}

#[test]
fn a_context_of_now_has_a_date_and_a_time() {
    let c = Ctx::now("标题".into());
    assert_eq!(c.date.len(), 10);
    assert_eq!(c.time.len(), 8);
    assert_eq!(Ctx::on("2026-01-02".into(), "t".into()).date, "2026-01-02");
}

#[test]
fn the_cursor_splits_the_filled_text() {
    let (a, b) = ("{{title}}：", "（{{time}}）{{nope}}");
    let body = format!("{a}{{{{cursor}}}}{b}");
    let out = expand(&body, &ctx());
    let at = cursor_offset(&body, &ctx()).unwrap();
    assert_eq!(&out[..at], expand(a, &ctx()));
    assert_eq!(&out[at..], expand(b, &ctx()));
}

#[test]
fn the_cursor_stands_between_the_filled_parts() {
    for a in ["", "头 {{date}} ", "{{nope}}{", "}} {{title}}x"] {
        for b in ["", " 尾 {{time}}", "{{cursor}}{{"] {
            let body = format!("{a}{{{{cursor}}}}{b}");
            if a.ends_with('{') {
                continue;
            }
            let head = expand(a, &ctx());
            assert_eq!(cursor_offset(&body, &ctx()), Some(head.len()), "{body}");
            assert_eq!(expand(&body, &ctx()), head + &expand(b, &ctx()));
        }
        assert_eq!(cursor_offset(a, &ctx()), None);
    }
}
