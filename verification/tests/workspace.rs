use fastnote::ai::config::{endpoint, presets, AiConfig};
use fastnote::ai::prompt::Task;
use fastnote::help::shortcuts;
use fastnote::index::{NoteFile, VaultIndex};
use fastnote::keys::{bindings, KeyCmd, KeyScope};
use fastnote::palette::{AppCmd, CommandPalette, PaletteCmd};
use fastnote::template::{Ctx, Template};
use fastnote::vault::Entry;
use fastnote::when::When;
use fastnote::workspace::{
    ai_menu, board_sync, click_entry, cursor_label, daily_body, empty_text, entry_glyph,
    note_name, palette_action, place_label, restores_open_note, search_panel, search_submit,
    size_text, snapshot_size, start_paths, ApplyPreset, BoardSync, DiskStep, EntryClick, Have, NewNoteFromTemplate,
    OpenNoteAt, OpenWikilink, Overlay, PaletteAction, RestoreSnapshot, RightTab, RunAppCmd,
    SubmitAi, Workspace,
};

const ALL: Have = Have {
    vault: true,
    index: true,
    notes: true,
    path: true,
};
const NONE: Have = Have {
    vault: false,
    index: false,
    notes: false,
    path: false,
};

fn told(w: &Workspace) -> &str {
    w.notice.as_deref().unwrap_or("")
}

#[test]
fn panels_need_what_they_show() {
    for (which, msg) in [
        (Overlay::Search, "未打开笔记库，无法搜索"),
        (Overlay::Graph, "未打开笔记库，无法生成图谱"),
        (Overlay::Chat, "未打开笔记库，库问答需要笔记库作为知识来源"),
        (Overlay::Board, "白板保存在笔记里：先打开或新建一篇笔记"),
        (Overlay::History, "未打开笔记库，历史版本存在库内 .fastnote/history/"),
    ] {
        let mut w = Workspace::new();
        assert!(!w.open_overlay(which, NONE));
        assert_eq!(told(&w), msg);
        assert!(w.open_overlay(which, ALL));
        assert!(w.overlay_open());
        assert!(!w.open_overlay(which, ALL), "it is open already");
    }
    let mut w = Workspace::new();
    assert!(!w.open_overlay(Overlay::Graph, Have { notes: false, ..ALL }));
    assert_eq!(told(&w), "笔记库里还没有笔记");
    assert!(!w.open_overlay(Overlay::History, Have { path: false, ..ALL }));
    assert_eq!(told(&w), "先打开一篇库内笔记，才能看它的历史");
    for which in [Overlay::Palette, Overlay::Settings, Overlay::Help] {
        assert!(w.open_overlay(which, NONE));
    }
}

#[test]
fn closing_closes_everything() {
    let mut w = Workspace::new();
    assert!(!w.close_overlays());
    w.open_overlay(Overlay::Board, ALL);
    w.open_overlay(Overlay::Help, ALL);
    w.show_ai_menu();
    assert!(w.close_overlays());
    assert!(!w.overlay_open() && !w.overlays.menu);
    assert!(w.index_dirty, "a board may have changed its note");
    assert!(!w.close_overlays());
}

#[test]
fn the_bar_comes_and_goes() {
    let mut w = Workspace::new();
    assert!(!w.chrome_visible());
    assert!(!w.hover(47));
    assert!(w.hover(46));
    assert!(w.chrome_visible());
    assert!(!w.hover(56), "it stays a little longer");
    assert!(w.hover(57));
    w.toggle_chrome();
    assert!(w.chrome_visible());
    w.hover(0);
    w.toggle_chrome();
    assert!(!w.chrome_visible());
    w.open_overlay(Overlay::Help, ALL);
    assert!(!w.hover(0));
}

#[test]
fn parts_of_the_window_are_toggled() {
    let mut w = Workspace::new();
    w.toggle_sidebar();
    w.toggle_right_panel();
    w.toggle_theme();
    assert!(w.show_sidebar && w.right_visible && w.dark);
    w.toggle_sidebar();
    w.toggle_right_panel();
    w.toggle_theme();
    assert!(!w.show_sidebar && !w.right_visible && !w.dark);
}

#[test]
fn actions_need_an_endpoint() {
    let mut w = Workspace::new();
    w.open_overlay(Overlay::Palette, ALL);
    w.show_ai_menu();
    let none = AiConfig::default();
    assert_eq!(w.submit_ai(&SubmitAi(Task::Polish), &none), None);
    assert!(told(&w).starts_with("尚未配置 AI："));
    assert!(!w.overlay_open() && !w.overlays.menu);
    let local = endpoint("http://127.0.0.1/v1", "m");
    assert_eq!(w.submit_ai(&SubmitAi(Task::Polish), &local), Some(Task::Polish));
    assert!(w.do_ai_task(&local));
    w.hide_ai_menu();
    assert_eq!(w.run_app_cmd(&RunAppCmd(AppCmd::OpenHelp)), AppCmd::OpenHelp);
}

#[test]
fn presets_are_chosen_by_place() {
    let mut w = Workspace::new();
    w.open_overlay(Overlay::Settings, ALL);
    let c = w.apply_preset(&ApplyPreset(1)).unwrap();
    assert_eq!(c.base_url, "http://localhost:1234/v1");
    assert!(!w.overlays.settings);
    assert!(w.apply_preset(&ApplyPreset(5)).is_none());
    let list = presets();
    assert_eq!(list.len(), 5);
    assert!(list[0].1.is_configured() && !list[3].1.is_configured());
    assert_eq!(list[4].0, "Moonshot (需 key)");
    assert_eq!(f32::from_bits(list[2].1.temperature), 0.7);
}

fn index() -> VaultIndex {
    VaultIndex::build(&vec![NoteFile {
        path: "v/计划.md".into(),
        text: Some("# 计划\n内容\n".into()),
    }])
}

#[test]
fn links_open_notes() {
    let mut w = Workspace::new();
    let i = index();
    assert_eq!(
        w.open_wikilink(&OpenWikilink("计划".into()), Some(&i)).as_deref(),
        Some("v/计划.md")
    );
    w.link_opened("v/计划.md");
    assert_eq!(told(&w), "打开链接 → 计划.md");
    assert!(w.index_dirty && w.right_tab == RightTab::Backlinks);
    assert_eq!(w.open_wikilink(&OpenWikilink("无".into()), Some(&i)), None);
    assert_eq!(told(&w), "未找到笔记：无");
    assert_eq!(w.open_wikilink(&OpenWikilink("计划".into()), None), None);
}

#[test]
fn opening_a_hit_closes_the_search() {
    let mut w = Workspace::new();
    w.open_overlay(Overlay::Search, ALL);
    let i = index();
    let read = vec![Some("# 计划\n内容\n".to_string())];
    let hits = search_panel(&i, "内容", &read);
    let a = search_submit(&hits).unwrap();
    assert_eq!(a, OpenNoteAt("v/计划.md".into(), 1));
    w.note_opened_at(&a);
    assert_eq!(told(&w), "已打开 计划.md（行 2）");
    assert!(!w.overlays.search);
    assert!(search_panel(&i, "  ", &read).is_empty());
    assert_eq!(search_submit(&Vec::new()), None);
}

#[test]
fn changes_on_disk_are_noticed() {
    let mut w = Workspace::new();
    assert_eq!(w.check_disk("a", "a", true), DiskStep::Nothing);
    assert_eq!(w.check_disk("a", "b", false), DiskStep::Reload);
    assert_eq!(w.check_disk("a", "b", true), DiskStep::Warned);
    assert!(told(&w).contains("已被外部修改"));
    assert_eq!(w.check_disk("a", "b", true), DiskStep::Nothing, "told once");
    w.reloaded("v/x.md");
    assert_eq!(told(&w), "x.md 已被外部修改，已重新载入");
    assert_eq!(w.check_disk("a", "b", true), DiskStep::Warned);
}

#[test]
fn what_was_opened_is_told() {
    let mut w = Workspace::new();
    w.vault_opened("v");
    assert_eq!(told(&w), "笔记库：v");
    assert!(w.show_sidebar);
    w.entry_opened(3);
    assert_eq!((w.selected, w.notice.is_none()), (Some(3), true));
    w.daily_opened("2026-09-17", true);
    assert_eq!(told(&w), "已创建每日笔记 2026-09-17");
    w.daily_opened("2026-09-17", false);
    assert_eq!(told(&w), "打开每日笔记 2026-09-17");
    w.set_notice("x".into());
    assert_eq!(told(&w), "x");
}

#[test]
fn empty_panels_say_why() {
    assert_eq!(empty_text(RightTab::Outline, false), "这篇笔记还没有标题");
    assert_eq!(empty_text(RightTab::Backlinks, true), "还没有其他笔记链接到这里");
    assert_eq!(empty_text(RightTab::Tags, true), "还没有标签");
    assert_eq!(empty_text(RightTab::Tags, false), "未打开笔记库");
    assert_eq!(place_label("a.md", 4), "a.md:5");
    assert_eq!(cursor_label(0, 9), "1:10");
}

#[test]
fn entries_are_clicked() {
    let entry = |path: &str, is_dir: bool| Entry {
        path: path.into(),
        name: path.into(),
        is_dir,
        expanded: false,
        depth: 0,
    };
    let v = vec![entry("d", true), entry("a.md", false)];
    assert_eq!(click_entry(&v, 0), EntryClick::Fold);
    assert_eq!(click_entry(&v, 1), EntryClick::Open("a.md".into()));
    assert_eq!(click_entry(&v, 2), EntryClick::Nothing);
    assert_eq!(
        (entry_glyph(true, true), entry_glyph(true, false), entry_glyph(false, false)),
        ("▾", "▸", "·")
    );
}

#[test]
fn the_note_of_the_day_has_a_template() {
    let ctx = Ctx {
        date: "2026-09-17".into(),
        time: "00:00:00".into(),
        title: "2026-09-17".into(),
    };
    assert_eq!(daily_body(&Vec::new(), &ctx), "# 2026-09-17\n\n");
    let t = |name: &str, body: &str| Template {
        name: name.into(),
        path: "p".into(),
        body: body.into(),
    };
    let ts = vec![t("会议", "x"), t("每日", "{{weekday}}")];
    assert_eq!(daily_body(&ts, &ctx), "周四");
    assert_eq!(note_name(&NewNoteFromTemplate("v/templates/周报.md".into())), "周报");
    assert_eq!(note_name(&NewNoteFromTemplate("/".into())), "未命名");
}

#[test]
fn boards_are_saved_into_the_latest_text() {
    let a = BoardSync("v/a.md".into(), "{}".into());
    let (text, same) = board_sync(&a, Some(("v/a.md", "编辑中")), "磁盘");
    assert!(same && text.starts_with("编辑中\n\n```board\n{}\n"));
    let (text, same) = board_sync(&a, Some(("v/b.md", "编辑中")), "磁盘");
    assert!(!same && text.starts_with("磁盘"));
    assert!(board_sync(&a, None, "").0.starts_with("```board"));
    let r = RestoreSnapshot("v/a.md".into(), "s".into());
    assert!(restores_open_note(&r, Some("v/a.md")));
    assert!(!restores_open_note(&r, None));
}

#[test]
fn the_program_starts_with_its_argument() {
    let s = |t: &str| Some(t.to_string());
    assert_eq!(start_paths(s("v"), true, s("c")), (s("v"), None));
    assert_eq!(start_paths(s("v/a.md"), false, s("c")), (s("v"), s("v/a.md")));
    assert_eq!(start_paths(s("a.md"), false, None), (s(""), s("a.md")));
    assert_eq!(start_paths(s("a/"), false, None), (s(""), s("a/")));
    assert_eq!(start_paths(s(""), false, None), (None, s("")));
    assert_eq!(start_paths(None, false, s("c")), (s("c"), None));
}

#[test]
fn the_menu_lists_actions() {
    let labels: Vec<&str> = ai_menu().iter().map(|m| m.0).collect();
    assert_eq!(labels, vec!["润色", "翻译为英文", "翻译为中文", "摘要", "解释"]);
}

#[test]
fn the_palette_runs_what_is_selected() {
    let mut p = CommandPalette::new(vec![("周会".into(), "t/周会.md".into())]);
    assert_eq!(p.items.len(), 26);
    assert_eq!(p.on_submit(""), Some(PaletteCmd::Ai(Task::Polish)));
    p.down("");
    p.down("");
    p.up("");
    assert_eq!(p.selected, 1);
    assert_eq!(
        p.on_submit("周会"),
        Some(PaletteCmd::NewFromTemplate("t/周会.md".into())),
        "the last one shown"
    );
    assert_eq!(
        p.on_submit(" 写首诗 "),
        Some(PaletteCmd::Ai(Task::Custom {
            instruction: "写首诗".into()
        }))
    );
    p.selected = 25;
    p.down("");
    assert_eq!(p.selected, 0);
    p.up("");
    assert_eq!(p.selected, 0);
    assert_eq!(p.on_submit("graph"), Some(PaletteCmd::App(AppCmd::OpenGraph)));
    assert!(matches!(
        palette_action(PaletteCmd::App(AppCmd::OpenGraph)),
        PaletteAction::App(RunAppCmd(AppCmd::OpenGraph))
    ));
    assert!(matches!(
        palette_action(PaletteCmd::NewFromTemplate("p".into())),
        PaletteAction::Template(_)
    ));
}

#[test]
fn no_key_does_two_things() {
    let v = bindings();
    assert_eq!(v.len(), 71);
    for (i, a) in v.iter().enumerate() {
        for b in &v[i + 1..] {
            assert!(a.keys != b.keys || a.scope != b.scope, "{} twice", a.keys);
        }
    }
    assert!(v
        .iter()
        .any(|b| b.keys == "ctrl-s" && b.cmd == KeyCmd::Save && b.scope == KeyScope::Everywhere));
    assert!(v
        .iter()
        .any(|b| b.keys == "enter" && b.cmd == KeyCmd::InputSubmit && b.scope == KeyScope::Input));
}

#[test]
fn help_lists_all_groups() {
    let g = shortcuts();
    assert_eq!(g.len(), 8);
    assert_eq!(g[0].title, "文件");
    assert_eq!(g[0].items[3], ("保存", "Ctrl+S"));
    assert_eq!(g[7].items.len(), 3);
}

#[test]
fn values_change_on_a_condition() {
    assert_eq!(1.when(true, |x| x + 1), 2);
    assert_eq!(1.when(false, |x| x + 1), 1);
    assert_eq!(1.when_some(Some(5), |x, y| x + y), 6);
    assert_eq!(1.when_some(None::<i32>, |x, y| x + y), 1);
}

#[test]
fn sizes_are_shown_as_the_numbers_are() {
    for n in (0u64..3_000_000).step_by(64).chain([1279, 1280, 1281, 1792, u32::MAX as u64]) {
        let kb = format!("{:.1} KB", n as f64 / 1024.);
        let want = if n >= 1024 * 1024 {
            format!("{:.1} MB", n as f64 / 1024. / 1024.)
        } else if n >= 1024 {
            kb.clone()
        } else {
            format!("{n} B")
        };
        assert_eq!(size_text(n), want);
        assert_eq!(snapshot_size(n), if n < 1024 { want } else { kb });
    }
}
