//! The window as a whole: which panels are open, what is told, and what commands do.
use crate::ai::config::{preset_list, presets, AiConfig};
use crate::ai::prompt::{Task, TaskModel};
use crate::block::{opt_str, opt_text};
use crate::board::{splice, spliced};
use crate::index::{resolved_path, SearchHit, VaultIndex, found, hits_model};
use crate::palette::{AppCmd, CmdModel, PaletteCmd};
use crate::paths::{file_name, file_name_of, file_stem, file_stem_of, parent, parent_of};
use crate::template::{expand, expanded, templates_model, Ctx, CtxModel, Template, TemplateModel};
use crate::text::{digits_of, glue, glue3, is_blank, same_text, string_of, trim, wide_number_chars};
use crate::vault::Entry;
use vstd::prelude::*;

verus! {

// ---------- what is asked of the window ----------

/// An AI action is to be run.
#[derive(Clone, Debug, PartialEq, Eq)]
pub struct SubmitAi(pub Task);

/// A command is to be run.
#[derive(Clone, Copy, Debug, PartialEq, Eq)]
pub struct RunAppCmd(pub AppCmd);

/// A note is to be made from the template at this path.
#[derive(Clone, Debug, PartialEq, Eq)]
pub struct NewNoteFromTemplate(pub String);

/// The board of a note is to be saved: the note, and the board as JSON.
#[derive(Clone, Debug, PartialEq, Eq)]
pub struct BoardSync(pub String, pub String);

/// A snapshot is to be brought back: the note, and the snapshot.
#[derive(Clone, Debug, PartialEq, Eq)]
pub struct RestoreSnapshot(pub String, pub String);

/// An endpoint of the list is to be used.
#[derive(Clone, Copy, Debug, PartialEq, Eq)]
pub struct ApplyPreset(pub usize);

/// The note that a link names is to be opened.
#[derive(Clone, Debug, PartialEq, Eq)]
pub struct OpenWikilink(pub String);

/// A note is to be opened at a line.
#[derive(Clone, Debug, PartialEq, Eq)]
pub struct OpenNoteAt(pub String, pub usize);

/// What an entry of the palette asks for.
#[derive(Debug)]
pub enum PaletteAction {
    Ai(SubmitAi),
    App(RunAppCmd),
    Template(NewNoteFromTemplate),
}

impl View for PaletteAction {
    type V = CmdModel;

    open spec fn view(&self) -> CmdModel {
        match *self {
            PaletteAction::Ai(t) => CmdModel::Ai(t.0@),
            PaletteAction::App(c) => CmdModel::App(c.0),
            PaletteAction::Template(p) => CmdModel::NewFromTemplate(p.0@),
        }
    }
}

/// What an entry of the palette asks for.
pub fn palette_action(cmd: PaletteCmd) -> (r: PaletteAction)
    ensures
        r@ == cmd@,
{
    match cmd {
        PaletteCmd::Ai(t) => PaletteAction::Ai(SubmitAi(t)),
        PaletteCmd::App(c) => PaletteAction::App(RunAppCmd(c)),
        PaletteCmd::NewFromTemplate(p) => PaletteAction::Template(NewNoteFromTemplate(p)),
    }
}

// ---------- panels ----------

/// What the panel at the right shows.
#[derive(Clone, Copy, Debug, PartialEq, Eq, Structural)]
pub enum RightTab {
    Outline,
    Backlinks,
    Tags,
}

/// A panel that lies over the text.
#[derive(Clone, Copy, Debug, PartialEq, Eq, Structural)]
pub enum Overlay {
    Palette,
    Settings,
    Help,
    Search,
    Graph,
    Chat,
    Board,
    History,
}

/// Which panels lie over the text.
#[derive(Clone, Copy, Debug, PartialEq, Eq, Structural)]
pub struct Overlays {
    pub palette: bool,
    pub settings: bool,
    pub menu: bool,
    pub help: bool,
    pub search: bool,
    pub graph: bool,
    pub chat: bool,
    pub board: bool,
    pub history: bool,
}

/// No panel.
pub open spec fn no_overlays() -> Overlays {
    Overlays {
        palette: false,
        settings: false,
        menu: false,
        help: false,
        search: false,
        graph: false,
        chat: false,
        board: false,
        history: false,
    }
}

/// Whether a panel covers the text. A menu does not.
pub open spec fn covers(o: Overlays) -> bool {
    o.palette || o.settings || o.help || o.search || o.graph || o.chat || o.board || o.history
}

pub open spec fn shows(o: Overlays, which: Overlay) -> bool {
    match which {
        Overlay::Palette => o.palette,
        Overlay::Settings => o.settings,
        Overlay::Help => o.help,
        Overlay::Search => o.search,
        Overlay::Graph => o.graph,
        Overlay::Chat => o.chat,
        Overlay::Board => o.board,
        Overlay::History => o.history,
    }
}

pub open spec fn with_overlay(o: Overlays, which: Overlay) -> Overlays {
    match which {
        Overlay::Palette => Overlays { palette: true, ..o },
        Overlay::Settings => Overlays { settings: true, ..o },
        Overlay::Help => Overlays { help: true, ..o },
        Overlay::Search => Overlays { search: true, ..o },
        Overlay::Graph => Overlays { graph: true, ..o },
        Overlay::Chat => Overlays { chat: true, ..o },
        Overlay::Board => Overlays { board: true, ..o },
        Overlay::History => Overlays { history: true, ..o },
    }
}

fn is_shown(o: Overlays, which: Overlay) -> (r: bool)
    ensures
        r == shows(o, which),
{
    match which {
        Overlay::Palette => o.palette,
        Overlay::Settings => o.settings,
        Overlay::Help => o.help,
        Overlay::Search => o.search,
        Overlay::Graph => o.graph,
        Overlay::Chat => o.chat,
        Overlay::Board => o.board,
        Overlay::History => o.history,
    }
}

fn opened(o: Overlays, which: Overlay) -> (r: Overlays)
    ensures
        r == with_overlay(o, which),
{
    match which {
        Overlay::Palette => Overlays { palette: true, ..o },
        Overlay::Settings => Overlays { settings: true, ..o },
        Overlay::Help => Overlays { help: true, ..o },
        Overlay::Search => Overlays { search: true, ..o },
        Overlay::Graph => Overlays { graph: true, ..o },
        Overlay::Chat => Overlays { chat: true, ..o },
        Overlay::Board => Overlays { board: true, ..o },
        Overlay::History => Overlays { history: true, ..o },
    }
}

/// What is there: a vault, its index, notes in it, and a note that is open as a file.
#[derive(Clone, Copy, Debug, PartialEq, Eq, Structural)]
pub struct Have {
    pub vault: bool,
    pub index: bool,
    pub notes: bool,
    pub path: bool,
}

/// What is told in place of a panel that needs what is not there.
pub open spec fn refusal(which: Overlay, have: Have) -> Option<Seq<char>> {
    match which {
        Overlay::Search => if have.index {
            None
        } else {
            Some("未打开笔记库，无法搜索"@)
        },
        Overlay::Graph => if !have.index {
            Some("未打开笔记库，无法生成图谱"@)
        } else if !have.notes {
            Some("笔记库里还没有笔记"@)
        } else {
            None
        },
        Overlay::Chat => if have.index {
            None
        } else {
            Some("未打开笔记库，库问答需要笔记库作为知识来源"@)
        },
        Overlay::Board => if have.path {
            None
        } else {
            Some("白板保存在笔记里：先打开或新建一篇笔记"@)
        },
        Overlay::History => if !have.vault {
            Some("未打开笔记库，历史版本存在库内 .fastnote/history/"@)
        } else if !have.path {
            Some("先打开一篇库内笔记，才能看它的历史"@)
        } else {
            None
        },
        _ => None,
    }
}

fn refusal_text(which: Overlay, have: Have) -> (r: Option<&'static str>)
    ensures
        opt_str(r) == refusal(which, have),
{
    match which {
        Overlay::Search => if have.index {
            None
        } else {
            Some("未打开笔记库，无法搜索")
        },
        Overlay::Graph => if !have.index {
            Some("未打开笔记库，无法生成图谱")
        } else if !have.notes {
            Some("笔记库里还没有笔记")
        } else {
            None
        },
        Overlay::Chat => if have.index {
            None
        } else {
            Some("未打开笔记库，库问答需要笔记库作为知识来源")
        },
        Overlay::Board => if have.path {
            None
        } else {
            Some("白板保存在笔记里：先打开或新建一篇笔记")
        },
        Overlay::History => if !have.vault {
            Some("未打开笔记库，历史版本存在库内 .fastnote/history/")
        } else if !have.path {
            Some("先打开一篇库内笔记，才能看它的历史")
        } else {
            None
        },
        _ => None,
    }
}

// ---------- the window ----------

/// What was found of the file that is open.
#[derive(Clone, Copy, Debug, PartialEq, Eq, Structural)]
pub enum DiskStep {
    /// Nothing is to be done.
    Nothing,
    /// The file is to be read again.
    Reload,
    /// Another program has changed the file, and it was changed here too.
    Warned,
}

/// The state of the window.
pub struct Workspace {
    pub dark: bool,
    pub show_sidebar: bool,
    /// Whether the bar at the top stays.
    pub chrome_pinned: bool,
    /// Whether the mouse is at the top.
    pub chrome_hovered: bool,
    /// The entry of the vault that is open.
    pub selected: Option<usize>,
    /// What is told.
    pub notice: Option<String>,
    pub right_visible: bool,
    pub right_tab: RightTab,
    /// Whether the index is to be built again.
    pub index_dirty: bool,
    /// Whether it was told already that another program has changed the file.
    pub external_warned: bool,
    pub overlays: Overlays,
}

pub struct WorkspaceModel {
    pub dark: bool,
    pub show_sidebar: bool,
    pub chrome_pinned: bool,
    pub chrome_hovered: bool,
    pub selected: Option<usize>,
    pub notice: Option<Seq<char>>,
    pub right_visible: bool,
    pub right_tab: RightTab,
    pub index_dirty: bool,
    pub external_warned: bool,
    pub overlays: Overlays,
}

impl View for Workspace {
    type V = WorkspaceModel;

    open spec fn view(&self) -> WorkspaceModel {
        WorkspaceModel {
            dark: self.dark,
            show_sidebar: self.show_sidebar,
            chrome_pinned: self.chrome_pinned,
            chrome_hovered: self.chrome_hovered,
            selected: self.selected,
            notice: opt_text(self.notice),
            right_visible: self.right_visible,
            right_tab: self.right_tab,
            index_dirty: self.index_dirty,
            external_warned: self.external_warned,
            overlays: self.overlays,
        }
    }
}

pub open spec fn fresh_workspace() -> WorkspaceModel {
    WorkspaceModel {
        dark: false,
        show_sidebar: false,
        chrome_pinned: false,
        chrome_hovered: false,
        selected: None,
        notice: None,
        right_visible: false,
        right_tab: RightTab::Outline,
        index_dirty: false,
        external_warned: false,
        overlays: no_overlays(),
    }
}

pub open spec fn told(w: WorkspaceModel, msg: Seq<char>) -> WorkspaceModel {
    WorkspaceModel { notice: Some(msg), ..w }
}

pub open spec fn palette_closed(w: WorkspaceModel) -> WorkspaceModel {
    WorkspaceModel { overlays: Overlays { palette: false, ..w.overlays }, ..w }
}

/// Everything is closed. What was done on a board may have changed the notes.
pub open spec fn all_closed(w: WorkspaceModel) -> WorkspaceModel {
    WorkspaceModel {
        overlays: no_overlays(),
        index_dirty: w.index_dirty || w.overlays.board,
        ..w
    }
}

/// An AI action was asked for: the menu closes, and if it cannot be run, that is told.
pub open spec fn ai_asked(w: WorkspaceModel, ready: bool) -> WorkspaceModel {
    let v = WorkspaceModel { overlays: Overlays { menu: false, ..w.overlays }, ..w };
    if ready {
        v
    } else {
        told(v, NO_AI@)
    }
}

/// The name of the file at a path.
pub open spec fn name_text(path: Seq<char>) -> Seq<char> {
    match file_name(path) {
        Some(n) => n,
        None => Seq::empty(),
    }
}

/// How far down the mouse counts as being at the top: a little farther once it was.
pub open spec fn top_limit(hovered: bool) -> int {
    if hovered {
        56
    } else {
        46
    }
}

/// The name of the file at a path; nothing if it has none.
pub fn name_of_file(path: &str) -> (r: String)
    ensures
        r@ == name_text(path@),
{
    match file_name_of(path) {
        Some(n) => string_of(n.as_slice()),
        None => {
            let none: String = String::new();
            proof {
                assert(none@ =~= Seq::<char>::empty());
            }
            none
        },
    }
}

impl Workspace {
    /// The window as it opens: the text alone.
    pub fn new() -> (r: Workspace)
        ensures
            r@ == fresh_workspace(),
    {
        Workspace {
            dark: false,
            show_sidebar: false,
            chrome_pinned: false,
            chrome_hovered: false,
            selected: None,
            notice: None,
            right_visible: false,
            right_tab: RightTab::Outline,
            index_dirty: false,
            external_warned: false,
            overlays: Overlays {
                palette: false,
                settings: false,
                menu: false,
                help: false,
                search: false,
                graph: false,
                chat: false,
                board: false,
                history: false,
            },
        }
    }

    /// Tells something.
    pub fn set_notice(&mut self, msg: String)
        ensures
            final(self)@ == told(old(self)@, msg@),
    {
        self.notice = Some(msg);
    }

    /// Opens a panel, if what it needs is there and it is not open yet; or else it is told
    /// what is missing. Says whether the panel was opened.
    pub fn open_overlay(&mut self, which: Overlay, have: Have) -> (r: bool)
        ensures
            r == (!shows(old(self)@.overlays, which) && refusal(which, have) is None),
            final(self)@ == if shows(old(self)@.overlays, which) {
                old(self)@
            } else {
                match refusal(which, have) {
                    Some(msg) => told(old(self)@, msg),
                    None => WorkspaceModel {
                        overlays: with_overlay(old(self)@.overlays, which),
                        ..old(self)@
                    },
                }
            },
    {
        let o: Overlays = self.overlays;
        if is_shown(o, which) {
            return false;
        }
        match refusal_text(which, have) {
            Some(msg) => {
                self.notice = Some(msg.to_owned());
                false
            },
            None => {
                self.overlays = opened(o, which);
                true
            },
        }
    }

    /// Shows the menu of AI actions.
    pub fn show_ai_menu(&mut self)
        ensures
            final(self)@ == (WorkspaceModel {
                overlays: Overlays { menu: true, ..old(self)@.overlays },
                ..old(self)@
            }),
    {
        self.overlays = Overlays { menu: true, ..self.overlays };
    }

    /// Hides the menu of AI actions.
    pub fn hide_ai_menu(&mut self)
        ensures
            final(self)@ == (WorkspaceModel {
                overlays: Overlays { menu: false, ..old(self)@.overlays },
                ..old(self)@
            }),
    {
        self.overlays = Overlays { menu: false, ..self.overlays };
    }

    /// Closes all panels; says whether any was open. A board may have changed its note, so
    /// the index is to be built again behind one.
    pub fn close_overlays(&mut self) -> (r: bool)
        ensures
            r == (covers(old(self)@.overlays) || old(self)@.overlays.menu),
            final(self)@ == all_closed(old(self)@),
    {
        let o: Overlays = self.overlays;
        let changed: bool = self.overlay_open() || o.menu;
        self.overlays = Overlays {
            palette: false,
            settings: false,
            menu: false,
            help: false,
            search: false,
            graph: false,
            chat: false,
            board: false,
            history: false,
        };
        if o.board {
            self.index_dirty = true;
        }
        changed
    }

    /// Whether a panel covers the text.
    pub fn overlay_open(&self) -> (r: bool)
        ensures
            r == covers(self@.overlays),
    {
        let o: Overlays = self.overlays;
        o.palette || o.settings || o.help || o.search || o.graph || o.chat || o.board || o.history
    }

    /// Whether the bar at the top is shown.
    pub fn chrome_visible(&self) -> (r: bool)
        ensures
            r == (self@.chrome_pinned || self@.chrome_hovered),
    {
        self.chrome_pinned || self.chrome_hovered
    }

    /// Lets the bar at the top stay, or no more.
    pub fn toggle_chrome(&mut self)
        ensures
            final(self)@ == (WorkspaceModel {
                chrome_pinned: !old(self)@.chrome_pinned,
                chrome_hovered: old(self)@.chrome_hovered && !old(self)@.chrome_pinned,
                ..old(self)@
            }),
    {
        self.chrome_pinned = !self.chrome_pinned;
        if !self.chrome_pinned {
            self.chrome_hovered = false;
        }
    }

    /// The mouse moves, so many whole pixels down from the top; says whether the bar comes
    /// or goes. While a panel covers the text it does neither.
    pub fn hover(&mut self, y: i64) -> (r: bool)
        ensures
            ({
                let want = y <= top_limit(old(self)@.chrome_hovered);
                &&& r == (!covers(old(self)@.overlays) && old(self)@.chrome_hovered != want)
                &&& final(self)@ == if r {
                    WorkspaceModel { chrome_hovered: want, ..old(self)@ }
                } else {
                    old(self)@
                }
            }),
    {
        if self.overlay_open() {
            return false;
        }
        let limit: i64 = if self.chrome_hovered {
            56
        } else {
            46
        };
        let want: bool = y <= limit;
        if self.chrome_hovered != want {
            self.chrome_hovered = want;
            true
        } else {
            false
        }
    }

    /// Shows or hides the list of the vault.
    pub fn toggle_sidebar(&mut self)
        ensures
            final(self)@ == (WorkspaceModel {
                show_sidebar: !old(self)@.show_sidebar,
                ..old(self)@
            }),
    {
        self.show_sidebar = !self.show_sidebar;
    }

    /// Shows or hides the panel at the right.
    pub fn toggle_right_panel(&mut self)
        ensures
            final(self)@ == (WorkspaceModel {
                right_visible: !old(self)@.right_visible,
                ..old(self)@
            }),
    {
        self.right_visible = !self.right_visible;
    }

    /// Dark or light.
    pub fn toggle_theme(&mut self)
        ensures
            final(self)@ == (WorkspaceModel { dark: !old(self)@.dark, ..old(self)@ }),
    {
        self.dark = !self.dark;
    }

    fn close_palette(&mut self)
        ensures
            final(self)@ == palette_closed(old(self)@),
    {
        self.overlays = Overlays { palette: false, ..self.overlays };
    }

    /// A command of the palette: the palette closes, and the command is to be carried out.
    pub fn run_app_cmd(&mut self, a: &RunAppCmd) -> (r: AppCmd)
        ensures
            r == a.0,
            final(self)@ == palette_closed(old(self)@),
    {
        self.close_palette();
        a.0
    }

    /// An AI action is asked for: the menu closes. Says whether it can be run; if not, it
    /// is told why.
    pub fn do_ai_task(&mut self, cfg: &AiConfig) -> (r: bool)
        ensures
            r == cfg@.is_configured(),
            final(self)@ == ai_asked(old(self)@, r),
    {
        self.overlays = Overlays { menu: false, ..self.overlays };
        let ready: bool = cfg.is_configured();
        if !ready {
            self.notice = Some(NO_AI.to_owned());
        }
        ready
    }

    /// An AI action of the palette: the palette closes, and the action is to be run, if
    /// that can be.
    pub fn submit_ai(&mut self, a: &SubmitAi, cfg: &AiConfig) -> (r: Option<Task>)
        ensures
            r is Some == cfg@.is_configured(),
            r matches Some(t) ==> t@ == a.0@,
            final(self)@ == ai_asked(palette_closed(old(self)@), r is Some),
    {
        self.close_palette();
        let ready: bool = self.do_ai_task(cfg);
        if ready {
            Some(a.0.clone())
        } else {
            None
        }
    }

    /// An endpoint of the list is chosen: the settings close. What comes back is to be
    /// saved; none if there is no such entry.
    pub fn apply_preset(&mut self, p: &ApplyPreset) -> (r: Option<AiConfig>)
        ensures
            final(self)@ == (WorkspaceModel {
                overlays: Overlays { settings: false, ..old(self)@.overlays },
                ..old(self)@
            }),
            match r {
                Some(c) => p.0 < preset_list().len() && c@ == preset_list()[p.0 as int].1,
                None => p.0 >= preset_list().len(),
            },
    {
        self.overlays = Overlays { settings: false, ..self.overlays };
        let mut list: Vec<(String, AiConfig)> = presets();
        proof {
            assert(crate::ai::config::presets_model(list@).len() == list@.len());
        }
        if p.0 < list.len() {
            let ghost all = crate::ai::config::presets_model(list@);
            let (_, cfg) = list.swap_remove(p.0);
            proof {
                assert(all[p.0 as int].1 == cfg@);
            }
            Some(cfg)
        } else {
            None
        }
    }

    /// The note that a link leads to; if there is none, that is told.
    pub fn open_wikilink(&mut self, a: &OpenWikilink, index: Option<&VaultIndex>) -> (r: Option<
        String,
    >)
        requires
            index matches Some(i) ==> i.wf(),
        ensures
            opt_text(r) == match index {
                Some(i) => resolved_path(i@, a.0@),
                None => None,
            },
            final(self)@ == if r is Some {
                old(self)@
            } else {
                told(old(self)@, "未找到笔记："@ + a.0@)
            },
    {
        if let Some(i) = index {
            if let Some(p) = i.resolve(&a.0) {
                return Some(p.to_owned());
            }
        }
        self.set_notice(glue("未找到笔记：", &a.0));
        None
    }

    /// The note of a link was opened.
    pub fn link_opened(&mut self, path: &str)
        ensures
            final(self)@ == told(
                WorkspaceModel {
                    index_dirty: true,
                    right_tab: RightTab::Backlinks,
                    ..old(self)@
                },
                "打开链接 → "@ + name_text(path@),
            ),
    {
        self.index_dirty = true;
        self.right_tab = RightTab::Backlinks;
        self.set_notice(glue("打开链接 → ", &name_of_file(path)));
    }

    /// A note was opened at a line: search and graph close.
    pub fn note_opened_at(&mut self, a: &OpenNoteAt)
        ensures
            final(self)@ == told(
                WorkspaceModel {
                    index_dirty: true,
                    right_tab: RightTab::Backlinks,
                    overlays: Overlays { search: false, graph: false, ..old(self)@.overlays },
                    ..old(self)@
                },
                "已打开 "@ + name_text(a.0@) + "（行 "@ + digits_of((a.1 + 1) as nat) + "）"@,
            ),
    {
        self.overlays = Overlays { search: false, graph: false, ..self.overlays };
        self.index_dirty = true;
        self.right_tab = RightTab::Backlinks;
        let head: String = glue3("已打开 ", &name_of_file(&a.0), "（行 ");
        let n: Vec<char> = wide_number_chars(a.1 as u128 + 1);
        self.set_notice(glue3(&head, &string_of(n.as_slice()), "）"));
    }

    /// A vault was opened.
    pub fn vault_opened(&mut self, root: &str)
        ensures
            final(self)@ == told(
                WorkspaceModel { selected: None, show_sidebar: true, ..old(self)@ },
                "笔记库："@ + root@,
            ),
    {
        self.selected = None;
        self.show_sidebar = true;
        self.set_notice(glue("笔记库：", root));
    }

    /// A note of the list was opened.
    pub fn entry_opened(&mut self, index: usize)
        ensures
            final(self)@ == (WorkspaceModel {
                selected: Some(index),
                notice: None,
                ..old(self)@
            }),
    {
        self.selected = Some(index);
        self.notice = None;
    }

    /// The note of the day was opened.
    pub fn daily_opened(&mut self, today: &str, is_new: bool)
        ensures
            final(self)@ == told(
                WorkspaceModel { index_dirty: true, ..old(self)@ },
                if is_new {
                    "已创建每日笔记 "@ + today@
                } else {
                    "打开每日笔记 "@ + today@
                },
            ),
    {
        self.index_dirty = true;
        let msg: String = if is_new {
            glue("已创建每日笔记 ", today)
        } else {
            glue("打开每日笔记 ", today)
        };
        self.set_notice(msg);
    }

    /// What is to be done where the file on disk reads `disk` and the text here `mem`.
    /// Where both were changed, that is told once.
    pub fn check_disk(&mut self, disk: &str, mem: &str, dirty: bool) -> (r: DiskStep)
        ensures
            r == if disk@ == mem@ {
                DiskStep::Nothing
            } else if !dirty {
                DiskStep::Reload
            } else if old(self)@.external_warned {
                DiskStep::Nothing
            } else {
                DiskStep::Warned
            },
            final(self)@ == if r is Warned {
                told(
                    WorkspaceModel { external_warned: true, ..old(self)@ },
                    "磁盘上的文件已被外部修改；先保存或撤销你的改动再重载"@,
                )
            } else {
                old(self)@
            },
    {
        if same_text(disk, mem) {
            return DiskStep::Nothing;
        }
        if !dirty {
            return DiskStep::Reload;
        }
        if self.external_warned {
            return DiskStep::Nothing;
        }
        self.external_warned = true;
        self.set_notice("磁盘上的文件已被外部修改；先保存或撤销你的改动再重载".to_owned());
        DiskStep::Warned
    }

    /// The file was read again.
    pub fn reloaded(&mut self, path: &str)
        ensures
            final(self)@ == told(
                WorkspaceModel { index_dirty: true, external_warned: false, ..old(self)@ },
                name_text(path@) + " 已被外部修改，已重新载入"@,
            ),
    {
        self.index_dirty = true;
        self.external_warned = false;
        self.set_notice(glue(&name_of_file(path), " 已被外部修改，已重新载入"));
    }
}

/// What is said where no AI action can be run.
pub const NO_AI: &'static str =
    "尚未配置 AI：按 Ctrl+Shift+, 选择端点，或用环境变量 FASTNOTE_API_KEY";

/// Closing leaves no panel open, and closing again changes nothing.
pub proof fn closing_leaves_nothing_open(w: WorkspaceModel)
    ensures
        !covers(all_closed(w).overlays),
        !all_closed(w).overlays.menu,
        forall|which: Overlay| !#[trigger] shows(all_closed(w).overlays, which),
        all_closed(all_closed(w)) == all_closed(w),
{
}

/// A panel that was opened is shown, and the others stay as they were.
pub proof fn opening_shows_one_more(o: Overlays, which: Overlay, other: Overlay)
    ensures
        shows(with_overlay(o, which), which),
        which != other ==> shows(with_overlay(o, which), other) == shows(o, other),
        covers(with_overlay(o, which)),
{
}

// ---------- what panels show ----------

/// What the panel at the right says where it has nothing to show.
pub open spec fn empty_message(tab: RightTab, has_index: bool) -> Seq<char> {
    match tab {
        RightTab::Outline => "这篇笔记还没有标题"@,
        RightTab::Backlinks => if has_index {
            "还没有其他笔记链接到这里"@
        } else {
            "未打开笔记库"@
        },
        RightTab::Tags => if has_index {
            "还没有标签"@
        } else {
            "未打开笔记库"@
        },
    }
}

/// What the panel at the right says where it has nothing to show.
pub fn empty_text(tab: RightTab, has_index: bool) -> (r: &'static str)
    ensures
        r@ == empty_message(tab, has_index),
{
    match tab {
        RightTab::Outline => "这篇笔记还没有标题",
        RightTab::Backlinks => if has_index {
            "还没有其他笔记链接到这里"
        } else {
            "未打开笔记库"
        },
        RightTab::Tags => if has_index {
            "还没有标签"
        } else {
            "未打开笔记库"
        },
    }
}

/// A place by its name and its line, which is counted from one.
pub fn place_label(name: &str, line: usize) -> (r: String)
    ensures
        r@ == name@ + ":"@ + digits_of((line + 1) as nat),
{
    let n: Vec<char> = wide_number_chars(line as u128 + 1);
    glue3(name, ":", &string_of(n.as_slice()))
}

/// Where the cursor is, line and column counted from one.
pub fn cursor_label(line: usize, col: usize) -> (r: String)
    ensures
        r@ == digits_of((line + 1) as nat) + ":"@ + digits_of((col + 1) as nat),
{
    let a: Vec<char> = wide_number_chars(line as u128 + 1);
    let b: Vec<char> = wide_number_chars(col as u128 + 1);
    glue3(&string_of(a.as_slice()), ":", &string_of(b.as_slice()))
}

/// What the search panel finds for what was typed. `read` holds the text of each note as
/// it is now.
pub fn search_panel(index: &VaultIndex, typed: &str, read: &Vec<Option<String>>) -> (r: Vec<SearchHit>)
    requires
        index.wf(),
    ensures
        hits_model(r@) == if trim(typed@).len() == 0 {
            Seq::empty()
        } else {
            found(index@, read@, typed@, 5, 50)
        },
{
    if is_blank(typed) {
        let none: Vec<SearchHit> = Vec::new();
        proof {
            assert(hits_model(none@) =~= Seq::empty());
        }
        return none;
    }
    index.search(typed, 5, 50, read)
}

/// What is opened where the input of the search panel is confirmed: the first hit.
pub fn search_submit(hits: &Vec<SearchHit>) -> (r: Option<OpenNoteAt>)
    ensures
        match r {
            Some(a) => hits@.len() > 0 && a.0@ == hits@[0].path@ && a.1 == hits@[0].line,
            None => hits@.len() == 0,
        },
{
    if hits.len() > 0 {
        Some(OpenNoteAt(hits[0].path.clone(), hits[0].line))
    } else {
        None
    }
}

/// What a click on an entry of the vault does.
#[derive(Clone, Debug, PartialEq, Eq)]
pub enum EntryClick {
    Nothing,
    /// A directory is folded or unfolded.
    Fold,
    /// A note is opened.
    Open(String),
}

/// What a click on an entry of the vault does.
pub fn click_entry(entries: &[Entry], index: usize) -> (r: EntryClick)
    ensures
        match r {
            EntryClick::Nothing => index >= entries@.len(),
            EntryClick::Fold => index < entries@.len() && entries@[index as int].is_dir,
            EntryClick::Open(p) => index < entries@.len() && !entries@[index as int].is_dir && p@
                == entries@[index as int].path@,
        },
{
    if index >= entries.len() {
        return EntryClick::Nothing;
    }
    if entries[index].is_dir {
        return EntryClick::Fold;
    }
    EntryClick::Open(entries[index].path.clone())
}

/// The mark before an entry of the vault: folded, unfolded, or a note.
pub fn entry_glyph(is_dir: bool, expanded: bool) -> (r: &'static str)
    ensures
        r@ == if !is_dir {
            "·"@
        } else if expanded {
            "▾"@
        } else {
            "▸"@
        },
{
    if !is_dir {
        "·"
    } else if expanded {
        "▾"
    } else {
        "▸"
    }
}

pub open spec fn menu_model(v: Seq<(&'static str, Task)>) -> Seq<(Seq<char>, TaskModel)> {
    v.map_values(|p: (&'static str, Task)| (p.0@, p.1@))
}

/// The menu of AI actions.
pub fn ai_menu() -> (r: Vec<(&'static str, Task)>)
    ensures
        menu_model(r@) == seq![
            ("润色"@, TaskModel::Polish),
            ("翻译为英文"@, TaskModel::Translate("英文"@)),
            ("翻译为中文"@, TaskModel::Translate("中文"@)),
            ("摘要"@, TaskModel::Summarize),
            ("解释"@, TaskModel::Explain),
        ],
{
    let mut v: Vec<(&'static str, Task)> = Vec::new();
    v.push(("润色", Task::Polish));
    v.push(("翻译为英文", Task::Translate { target: "英文".to_owned() }));
    v.push(("翻译为中文", Task::Translate { target: "中文".to_owned() }));
    v.push(("摘要", Task::Summarize));
    v.push(("解释", Task::Explain));
    proof {
        assert(menu_model(v@) =~= seq![
            ("润色"@, TaskModel::Polish),
            ("翻译为英文"@, TaskModel::Translate("英文"@)),
            ("翻译为中文"@, TaskModel::Translate("中文"@)),
            ("摘要"@, TaskModel::Summarize),
            ("解释"@, TaskModel::Explain),
        ]);
    }
    v
}

// ---------- notes to be written ----------

/// The first template with this name, from template `k` on.
pub open spec fn template_named(ts: Seq<TemplateModel>, name: Seq<char>, k: int) -> Option<int>
    decreases ts.len() - k,
{
    if k < 0 || k >= ts.len() {
        None
    } else if ts[k].name == name {
        Some(k)
    } else {
        template_named(ts, name, k + 1)
    }
}

/// The template of the note of the day.
pub const DAILY_TEMPLATE: &'static str = "每日";

/// The template of the note of the day, if there is one.
pub fn daily_template(templates: &Vec<Template>) -> (r: Option<usize>)
    ensures
        match r {
            Some(k) => template_named(templates_model(templates@), DAILY_TEMPLATE@, 0) == Some(
                k as int,
            ) && k < templates@.len(),
            None => template_named(templates_model(templates@), DAILY_TEMPLATE@, 0) is None,
        },
{
    let ghost ts = templates_model(templates@);
    let mut k: usize = 0;
    while k < templates.len()
        invariant
            0 <= k <= templates@.len(),
            ts == templates_model(templates@),
            template_named(ts, DAILY_TEMPLATE@, 0) == template_named(ts, DAILY_TEMPLATE@, k as int),
        decreases templates@.len() - k,
    {
        proof {
            assert(ts[k as int] == templates@[k as int]@);
        }
        if same_text(&templates[k].name, DAILY_TEMPLATE) {
            return Some(k);
        }
        k = k + 1;
    }
    None
}

/// What the note of the day starts with: its template, or else the day as a heading.
pub open spec fn daily_text(ts: Seq<TemplateModel>, ctx: CtxModel) -> Seq<char> {
    match template_named(ts, DAILY_TEMPLATE@, 0) {
        Some(k) => expanded(ts[k].body, ctx),
        None => "# "@ + ctx.date + "\n\n"@,
    }
}

/// What the note of the day starts with.
pub fn daily_body(templates: &Vec<Template>, ctx: &Ctx) -> (r: String)
    ensures
        r@ == daily_text(templates_model(templates@), ctx@),
{
    match daily_template(templates) {
        Some(k) => {
            proof {
                assert(templates_model(templates@)[k as int] == templates@[k as int]@);
            }
            expand(&templates[k].body, ctx)
        },
        None => glue3("# ", &ctx.date, "\n\n"),
    }
}

/// The name of a note that is made from a template: that of the template.
pub fn note_name(a: &NewNoteFromTemplate) -> (r: String)
    ensures
        r@ == match file_stem(a.0@) {
            Some(s) => s,
            None => "未命名"@,
        },
{
    match file_stem_of(&a.0) {
        Some(s) => string_of(s.as_slice()),
        None => "未命名".to_owned(),
    }
}

/// The text of a note whose board was changed. `open` is the path of the note that is
/// open, with its text: that text counts if it is the same note, or else what is on disk.
pub open spec fn board_base(
    note: Seq<char>,
    open: Option<(Seq<char>, Seq<char>)>,
    disk: Seq<char>,
) -> Seq<char> {
    match open {
        Some((p, text)) => if p == note {
            text
        } else {
            disk
        },
        None => disk,
    }
}

/// The text of a note whose board was changed, and whether the note is open.
pub fn board_sync(a: &BoardSync, open: Option<(&str, &str)>, disk: &str) -> (r: (String, bool))
    ensures
        ({
            let o = match open {
                Some((p, t)) => Some((p@, t@)),
                None => None,
            };
            &&& r.0@ == spliced(board_base(a.0@, o, disk@), a.1@)
            &&& r.1 == (o matches Some((p, _)) && p == a.0@)
        }),
{
    if let Some((p, text)) = open {
        if same_text(p, &a.0) {
            return (splice(text, &a.1), true);
        }
    }
    (splice(disk, &a.1), false)
}

/// Whether a snapshot belongs to the note that is open.
pub fn restores_open_note(a: &RestoreSnapshot, open: Option<&str>) -> (r: bool)
    ensures
        r == (opt_str(open) == Some(a.0@)),
{
    match open {
        Some(p) => same_text(p, &a.0),
        None => false,
    }
}

/// Which vault and which file to open at the start, by the argument of the program: a
/// directory is a vault; the directory of a file is one too. Without an argument it is
/// the directory `cwd`.
pub fn start_paths(arg: Option<String>, is_dir: bool, cwd: Option<String>) -> (r: (
    Option<String>,
    Option<String>,
))
    ensures
        (opt_text(r.0), opt_text(r.1)) == match opt_text(arg) {
            Some(p) => if is_dir {
                (Some(p), None::<Seq<char>>)
            } else {
                (parent(p), Some(p))
            },
            None => (opt_text(cwd), None),
        },
{
    match arg {
        Some(p) => if is_dir {
            (Some(p), None)
        } else {
            let dir: Option<String> = parent_of(&p);
            (dir, Some(p))
        },
        None => (cwd, None),
    }
}

// ---------- sizes ----------

/// How many tenths of a unit so many bytes are, to the nearest one; halfway to the even
/// one.
pub open spec fn tenths(bytes: int, unit: int) -> int {
    let q = bytes * 10 / unit;
    let r = bytes * 10 % unit;
    if 2 * r > unit || (2 * r == unit && q % 2 == 1) {
        q + 1
    } else {
        q
    }
}

/// A number of units with one digit behind the point.
pub open spec fn in_units(bytes: int, unit: int) -> Seq<char> {
    let t = tenths(bytes, unit);
    digits_of((t / 10) as nat) + "."@ + digits_of((t % 10) as nat)
}

/// How many bytes there are, in kilobytes from one on.
pub open spec fn snapshot_size_of(bytes: int) -> Seq<char> {
    if bytes < 1024 {
        digits_of(bytes as nat) + " B"@
    } else {
        in_units(bytes, 1024) + " KB"@
    }
}

/// How many bytes there are, in kilobytes or megabytes from one on.
pub open spec fn size_of_text(bytes: int) -> Seq<char> {
    if bytes >= 1048576 {
        in_units(bytes, 1048576) + " MB"@
    } else {
        snapshot_size_of(bytes)
    }
}

fn units_text(bytes: u64, unit: u64) -> (r: String)
    requires
        bytes <= 0x20_0000_0000_0000,
        unit == 1024 || unit == 1048576,
    ensures
        r@ == in_units(bytes as int, unit as int),
{
    let q: u64 = bytes * 10 / unit;
    let rest: u64 = bytes * 10 % unit;
    let t: u64 = if 2 * rest > unit || (2 * rest == unit && q % 2 == 1) {
        q + 1
    } else {
        q
    };
    let a: Vec<char> = wide_number_chars((t / 10) as u128);
    let b: Vec<char> = wide_number_chars((t % 10) as u128);
    glue3(&string_of(a.as_slice()), ".", &string_of(b.as_slice()))
}

/// How large a snapshot is, as it is shown.
pub fn snapshot_size(bytes: u64) -> (r: String)
    requires
        bytes <= 0x20_0000_0000_0000,
    ensures
        r@ == snapshot_size_of(bytes as int),
{
    if bytes < 1024 {
        let n: Vec<char> = wide_number_chars(bytes as u128);
        glue(&string_of(n.as_slice()), " B")
    } else {
        glue(&units_text(bytes, 1024), " KB")
    }
}

/// How large a text is, as it is shown.
pub fn size_text(bytes: u64) -> (r: String)
    requires
        bytes <= 0x20_0000_0000_0000,
    ensures
        r@ == size_of_text(bytes as int),
{
    if bytes >= 1048576 {
        glue(&units_text(bytes, 1048576), " MB")
    } else {
        snapshot_size(bytes)
    }
}

} // verus!
