//! The command palette: actions to choose from, found by what is typed.
use crate::ai::prompt::{Task, TaskModel};
use crate::text::{
    chars_of, contains_text, has_text, is_blank, lowercase, string_of, trim, trim_chars,
};
use vstd::prelude::*;

verus! {

/// A command of the application that takes no arguments.
#[derive(Clone, Copy, Debug, PartialEq, Eq, Structural)]
pub enum AppCmd {
    NewNote,
    NewFromTemplate,
    OpenFile,
    OpenVault,
    SaveAs,
    ToggleSidebar,
    ToggleTheme,
    ToggleRightPanel,
    FocusEditor,
    OpenSearch,
    OpenGraph,
    OpenDaily,
    OpenChat,
    OpenBoard,
    Snapshot,
    OpenHistory,
    OpenSettings,
    OpenHelp,
    OpenConfigDir,
}

/// What an entry of the palette does.
#[derive(Debug, PartialEq, Eq)]
pub enum PaletteCmd {
    Ai(Task),
    App(AppCmd),
    /// A new note from the template at this path.
    NewFromTemplate(String),
}

pub enum CmdModel {
    Ai(TaskModel),
    App(AppCmd),
    NewFromTemplate(Seq<char>),
}

impl View for PaletteCmd {
    type V = CmdModel;

    open spec fn view(&self) -> CmdModel {
        match *self {
            PaletteCmd::Ai(t) => CmdModel::Ai(t@),
            PaletteCmd::App(c) => CmdModel::App(c),
            PaletteCmd::NewFromTemplate(p) => CmdModel::NewFromTemplate(p@),
        }
    }
}

impl Clone for PaletteCmd {
    fn clone(&self) -> (r: PaletteCmd)
        ensures
            r@ == self@,
    {
        match self {
            PaletteCmd::Ai(t) => PaletteCmd::Ai(t.clone()),
            PaletteCmd::App(c) => PaletteCmd::App(*c),
            PaletteCmd::NewFromTemplate(p) => PaletteCmd::NewFromTemplate(p.clone()),
        }
    }
}

/// An entry of the palette.
#[derive(Debug)]
pub struct PaletteItem {
    pub label: String,
    pub group: &'static str,
    /// Other words that it is found by.
    pub keywords: &'static str,
    pub cmd: PaletteCmd,
}

pub struct ItemModel {
    pub label: Seq<char>,
    pub group: Seq<char>,
    pub keywords: Seq<char>,
    pub cmd: CmdModel,
}

impl View for PaletteItem {
    type V = ItemModel;

    open spec fn view(&self) -> ItemModel {
        ItemModel {
            label: self.label@,
            group: self.group@,
            keywords: self.keywords@,
            cmd: self.cmd@,
        }
    }
}

pub open spec fn items_model(v: Seq<PaletteItem>) -> Seq<ItemModel> {
    v.map_values(|i: PaletteItem| i@)
}

// ---------- finding entries ----------

/// Whether an entry holds `q` in its label, its keywords or its group, whatever the case
/// of their letters.
pub open spec fn item_matches(it: ItemModel, q: Seq<char>) -> bool {
    has_text(lowercase(it.label), q) || has_text(lowercase(it.keywords), q) || has_text(
        lowercase(it.group),
        q,
    )
}

/// Whether an entry is shown for what was typed. Where that is blank, all are.
pub open spec fn is_shown(it: ItemModel, typed: Seq<char>) -> bool {
    let q = lowercase(trim(typed));
    q.len() == 0 || item_matches(it, q)
}

/// Which of the first `n` entries are shown.
pub open spec fn shown_upto(items: Seq<ItemModel>, typed: Seq<char>, n: int) -> Seq<int>
    decreases n,
{
    if n <= 0 {
        Seq::empty()
    } else if is_shown(items[n - 1], typed) {
        shown_upto(items, typed, n - 1).push(n - 1)
    } else {
        shown_upto(items, typed, n - 1)
    }
}

/// Which entries are shown, in their order.
pub open spec fn shown(items: Seq<ItemModel>, typed: Seq<char>) -> Seq<int> {
    shown_upto(items, typed, items.len() as int)
}

pub open spec fn ints(v: Seq<usize>) -> Seq<int> {
    v.map_values(|i: usize| i as int)
}

fn lower_holds(s: &str, q: &[char]) -> (r: bool)
    ensures
        r == has_text(lowercase(s@), q@),
{
    let low: Vec<char> = chars_of(&s.to_lowercase());
    contains_text(low.as_slice(), q)
}

impl PaletteItem {
    /// Whether the entry holds `q`, which is in lower case.
    pub fn matches(&self, q: &str) -> (r: bool)
        ensures
            r == item_matches(self@, q@),
    {
        let qc: Vec<char> = chars_of(q);
        lower_holds(&self.label, qc.as_slice()) || lower_holds(self.keywords, qc.as_slice())
            || lower_holds(self.group, qc.as_slice())
    }
}

/// Which entries are shown for what was typed.
pub fn filter_indices(items: &[PaletteItem], q: &str) -> (r: Vec<usize>)
    ensures
        ints(r@) == shown(items_model(items@), q@),
        forall|k: int| 0 <= k < r@.len() ==> #[trigger] r@[k] < items@.len(),
{
    let ghost im = items_model(items@);
    let qc: Vec<char> = chars_of(q);
    let low: String = string_of(trim_chars(qc.as_slice())).to_lowercase();
    let all: bool = low.as_str().is_empty();
    let mut out: Vec<usize> = Vec::new();
    let mut k: usize = 0;
    proof {
        assert(ints(out@) =~= shown_upto(im, q@, 0));
    }
    while k < items.len()
        invariant
            0 <= k <= items@.len(),
            im == items_model(items@),
            low@ == lowercase(trim(q@)),
            all == (low@.len() == 0),
            ints(out@) == shown_upto(im, q@, k as int),
            forall|j: int| 0 <= j < out@.len() ==> #[trigger] out@[j] < items@.len(),
        decreases items@.len() - k,
    {
        proof {
            assert(im[k as int] == items@[k as int]@);
        }
        if all || items[k].matches(&low) {
            let ghost before = out@;
            out.push(k);
            proof {
                assert(ints(out@) =~= ints(before).push(k as int));
            }
        }
        k = k + 1;
    }
    out
}

/// The entries that are shown are those that match, each once and in their order.
pub proof fn shown_are_the_matching(items: Seq<ItemModel>, typed: Seq<char>, n: int)
    requires
        0 <= n <= items.len(),
    ensures
        forall|i: int| #[trigger]
            shown_upto(items, typed, n).contains(i) <==> 0 <= i < n && is_shown(items[i], typed),
        forall|j: int, k: int|
            0 <= j < k < shown_upto(items, typed, n).len() ==> #[trigger] shown_upto(
                items,
                typed,
                n,
            )[j] < #[trigger] shown_upto(items, typed, n)[k],
    decreases n,
{
    if n > 0 {
        shown_are_the_matching(items, typed, n - 1);
        let v = shown_upto(items, typed, n - 1);
        let w = shown_upto(items, typed, n);
        assert forall|i: int| #[trigger] w.contains(i) <==> 0 <= i < n && is_shown(
            items[i],
            typed,
        ) by {
            if w.contains(i) {
                let j = choose|j: int| 0 <= j < w.len() && w[j] == i;
                if j < v.len() {
                    assert(v[j] == i);
                    assert(v.contains(i));
                }
            }
            if v.contains(i) {
                let j = choose|j: int| 0 <= j < v.len() && v[j] == i;
                assert(w[j] == i);
            }
            if i == n - 1 && is_shown(items[i], typed) {
                assert(w[v.len() as int] == i);
            }
        }
        assert forall|j: int, k: int| 0 <= j < k < w.len() implies #[trigger] w[j]
            < #[trigger] w[k] by {
            assert(v[j] == w[j]);
            assert(v.contains(v[j]));
            if k < v.len() {
                assert(v[k] == w[k]);
            }
        }
    }
}

// ---------- the entries ----------

pub open spec fn ai_entry(label: Seq<char>, keywords: Seq<char>, task: TaskModel) -> ItemModel {
    ItemModel { label, group: "AI"@, keywords, cmd: CmdModel::Ai(task) }
}

pub open spec fn app_entry(label: Seq<char>, keywords: Seq<char>, cmd: AppCmd) -> ItemModel {
    ItemModel { label, group: "命令"@, keywords, cmd: CmdModel::App(cmd) }
}

pub open spec fn template_entry(name: Seq<char>, path: Seq<char>) -> ItemModel {
    ItemModel {
        label: name,
        group: "模板"@,
        keywords: "template muban new"@,
        cmd: CmdModel::NewFromTemplate(path),
    }
}

/// The entries that are always there: AI actions, files, the vault, the view, and the
/// application.
pub open spec fn default_list() -> Seq<ItemModel> {
    seq![
        ai_entry("润色"@, "polish runse"@, TaskModel::Polish),
        ai_entry("翻译为英文"@, "translate english en fanyi"@, TaskModel::Translate("英文"@)),
        ai_entry("翻译为中文"@, "translate chinese zh fanyi"@, TaskModel::Translate("中文"@)),
        ai_entry("摘要"@, "summarize zhaiyao summary"@, TaskModel::Summarize),
        ai_entry("解释"@, "explain jieshi explain"@, TaskModel::Explain),
        ai_entry("续写"@, "complete xuxie continue"@, TaskModel::Complete),
        app_entry("新建笔记"@, "new note xinjian"@, AppCmd::NewNote),
        app_entry("从模板新建"@, "new from template muban"@, AppCmd::NewFromTemplate),
        app_entry("打开文件"@, "open file dakai wenjian"@, AppCmd::OpenFile),
        app_entry("打开笔记库"@, "open vault dakai bijiku"@, AppCmd::OpenVault),
        app_entry("另存为"@, "save as lingcun as"@, AppCmd::SaveAs),
        app_entry("全库搜索"@, "search find sousuo"@, AppCmd::OpenSearch),
        app_entry("关系图谱"@, "graph tupu relations"@, AppCmd::OpenGraph),
        app_entry("今日笔记"@, "daily today jinri"@, AppCmd::OpenDaily),
        app_entry("库问答"@, "chat ask qa wenku"@, AppCmd::OpenChat),
        app_entry("打开白板"@, "board canvas baiban"@, AppCmd::OpenBoard),
        app_entry("版本快照"@, "snapshot kuaizhao backup"@, AppCmd::Snapshot),
        app_entry("历史版本"@, "history versions lishi"@, AppCmd::OpenHistory),
        app_entry("收起 / 展开侧栏"@, "sidebar celan"@, AppCmd::ToggleSidebar),
        app_entry("切换深 / 浅色"@, "theme dark light qianse"@, AppCmd::ToggleTheme),
        app_entry("切换右侧面板"@, "panel right youce"@, AppCmd::ToggleRightPanel),
        app_entry("聚焦编辑区"@, "focus editor jujiao"@, AppCmd::FocusEditor),
        app_entry("AI 设置"@, "settings config shezhi"@, AppCmd::OpenSettings),
        app_entry("快捷键帮助"@, "help keys bangzhu"@, AppCmd::OpenHelp),
        app_entry("打开配置目录"@, "config dir peizhimulu"@, AppCmd::OpenConfigDir),
    ]
}

fn push_ai(v: &mut Vec<PaletteItem>, label: &str, keywords: &'static str, task: Task)
    ensures
        items_model(final(v)@) == items_model(old(v)@).push(ai_entry(label@, keywords@, task@)),
{
    let ghost before = v@;
    let ghost tm = task@;
    v.push(
        PaletteItem { label: label.to_owned(), group: "AI", keywords, cmd: PaletteCmd::Ai(task) },
    );
    proof {
        assert(items_model(v@) =~= items_model(before).push(ai_entry(label@, keywords@, tm)));
    }
}

fn push_app(v: &mut Vec<PaletteItem>, label: &str, keywords: &'static str, cmd: AppCmd)
    ensures
        items_model(final(v)@) == items_model(old(v)@).push(app_entry(label@, keywords@, cmd)),
{
    let ghost before = v@;
    v.push(
        PaletteItem { label: label.to_owned(), group: "命令", keywords, cmd: PaletteCmd::App(cmd) },
    );
    proof {
        assert(items_model(v@) =~= items_model(before).push(app_entry(label@, keywords@, cmd)));
    }
}

/// The entries that are always there.
pub fn default_items() -> (r: Vec<PaletteItem>)
    ensures
        items_model(r@) == default_list(),
{
    let mut v: Vec<PaletteItem> = Vec::new();
    proof {
        assert(items_model(v@) =~= Seq::empty());
    }
    push_ai(&mut v, "润色", "polish runse", Task::Polish);
    push_ai(&mut v, "翻译为英文", "translate english en fanyi", Task::Translate { target: "英文".to_owned() });
    push_ai(&mut v, "翻译为中文", "translate chinese zh fanyi", Task::Translate { target: "中文".to_owned() });
    push_ai(&mut v, "摘要", "summarize zhaiyao summary", Task::Summarize);
    push_ai(&mut v, "解释", "explain jieshi explain", Task::Explain);
    push_ai(&mut v, "续写", "complete xuxie continue", Task::Complete);
    push_app(&mut v, "新建笔记", "new note xinjian", AppCmd::NewNote);
    push_app(&mut v, "从模板新建", "new from template muban", AppCmd::NewFromTemplate);
    push_app(&mut v, "打开文件", "open file dakai wenjian", AppCmd::OpenFile);
    push_app(&mut v, "打开笔记库", "open vault dakai bijiku", AppCmd::OpenVault);
    push_app(&mut v, "另存为", "save as lingcun as", AppCmd::SaveAs);
    push_app(&mut v, "全库搜索", "search find sousuo", AppCmd::OpenSearch);
    push_app(&mut v, "关系图谱", "graph tupu relations", AppCmd::OpenGraph);
    push_app(&mut v, "今日笔记", "daily today jinri", AppCmd::OpenDaily);
    push_app(&mut v, "库问答", "chat ask qa wenku", AppCmd::OpenChat);
    push_app(&mut v, "打开白板", "board canvas baiban", AppCmd::OpenBoard);
    push_app(&mut v, "版本快照", "snapshot kuaizhao backup", AppCmd::Snapshot);
    push_app(&mut v, "历史版本", "history versions lishi", AppCmd::OpenHistory);
    push_app(&mut v, "收起 / 展开侧栏", "sidebar celan", AppCmd::ToggleSidebar);
    push_app(&mut v, "切换深 / 浅色", "theme dark light qianse", AppCmd::ToggleTheme);
    push_app(&mut v, "切换右侧面板", "panel right youce", AppCmd::ToggleRightPanel);
    push_app(&mut v, "聚焦编辑区", "focus editor jujiao", AppCmd::FocusEditor);
    push_app(&mut v, "AI 设置", "settings config shezhi", AppCmd::OpenSettings);
    push_app(&mut v, "快捷键帮助", "help keys bangzhu", AppCmd::OpenHelp);
    push_app(&mut v, "打开配置目录", "config dir peizhimulu", AppCmd::OpenConfigDir);
    proof {
        assert(items_model(v@) =~= default_list());
    }
    v
}

pub open spec fn template_list(templates: Seq<(String, String)>) -> Seq<ItemModel> {
    templates.map_values(|t: (String, String)| template_entry(t.0@, t.1@))
}

// ---------- the palette ----------

/// The palette, with one entry selected among those that are shown.
pub struct CommandPalette {
    pub items: Vec<PaletteItem>,
    pub selected: usize,
}

/// What is done where the entry at place `selected` of those shown is chosen. Where none
/// is shown, what was typed is an instruction.
pub open spec fn chosen_cmd(items: Seq<ItemModel>, selected: int, typed: Seq<char>) -> Option<
    CmdModel,
> {
    let f = shown(items, typed);
    if f.len() > 0 {
        Some(
            items[f[if selected < f.len() {
                selected
            } else {
                f.len() - 1
            }]].cmd,
        )
    } else if trim(typed).len() > 0 {
        Some(CmdModel::Ai(TaskModel::Custom(trim(typed))))
    } else {
        None
    }
}

impl CommandPalette {
    /// The palette with the entries that are always there, and one for each template: its
    /// name and its path.
    pub fn new(templates: Vec<(String, String)>) -> (r: CommandPalette)
        ensures
            items_model(r.items@) == default_list() + template_list(templates@),
            r.selected == 0,
    {
        let mut items: Vec<PaletteItem> = default_items();
        let ghost all = template_list(templates@);
        let mut k: usize = 0;
        proof {
            assert(default_list() + all.take(0) =~= default_list());
        }
        while k < templates.len()
            invariant
                0 <= k <= templates@.len(),
                all == template_list(templates@),
                items_model(items@) == default_list() + all.take(k as int),
            decreases templates@.len() - k,
        {
            let ghost before = items@;
            let it = PaletteItem {
                label: templates[k].0.clone(),
                group: "模板",
                keywords: "template muban new",
                cmd: PaletteCmd::NewFromTemplate(templates[k].1.clone()),
            };
            let ghost im = it@;
            items.push(it);
            proof {
                assert(im == all[k as int]);
                assert(items_model(items@) =~= items_model(before).push(im));
                assert(items_model(items@) =~= default_list() + all.take(k + 1));
            }
            k = k + 1;
        }
        proof {
            assert(all.take(k as int) =~= all);
        }
        CommandPalette { items, selected: 0 }
    }

    /// The entries that are shown for what was typed.
    pub fn filtered(&self, q: &str) -> (r: Vec<usize>)
        ensures
            ints(r@) == shown(items_model(self.items@), q@),
            forall|k: int| 0 <= k < r@.len() ==> #[trigger] r@[k] < self.items@.len(),
    {
        filter_indices(self.items.as_slice(), q)
    }

    /// What is done where the selected entry is chosen.
    pub fn on_submit(&self, q: &str) -> (r: Option<PaletteCmd>)
        ensures
            match r {
                Some(c) => chosen_cmd(
                    items_model(self.items@),
                    self.selected as int,
                    q@,
                ) == Some(c@),
                None => chosen_cmd(items_model(self.items@), self.selected as int, q@) is None,
            },
    {
        let f: Vec<usize> = self.filtered(q);
        let ghost fm = ints(f@);
        proof {
            assert(fm.len() == f@.len());
        }
        if f.len() > 0 {
            let at: usize = if self.selected < f.len() {
                self.selected
            } else {
                f.len() - 1
            };
            let i: usize = f[at];
            proof {
                assert(fm[at as int] == i as int);
                assert(items_model(self.items@)[i as int] == self.items@[i as int]@);
            }
            return Some(self.items[i].cmd.clone());
        }
        if is_blank(q) {
            return None;
        }
        let qc: Vec<char> = chars_of(q);
        Some(PaletteCmd::Ai(Task::Custom { instruction: string_of(trim_chars(qc.as_slice())) }))
    }

    /// Selects the entry above.
    pub fn up(&mut self, q: &str)
        ensures
            final(self).items@ == old(self).items@,
            ({
                let n = shown(items_model(old(self).items@), q@).len();
                let s = old(self).selected;
                final(self).selected == if n == 0 || s == 0 {
                    s as int
                } else {
                    (s - 1) % (n as int)
                }
            }),
    {
        let f: Vec<usize> = self.filtered(q);
        proof {
            assert(ints(f@).len() == f@.len());
        }
        if f.len() == 0 || self.selected == 0 {
            return;
        }
        self.selected = (self.selected - 1) % f.len();
    }

    /// Selects the entry below; behind the last one comes the first.
    pub fn down(&mut self, q: &str)
        requires
            old(self).selected < usize::MAX,
        ensures
            final(self).items@ == old(self).items@,
            ({
                let n = shown(items_model(old(self).items@), q@).len();
                let s = old(self).selected;
                final(self).selected == if n == 0 {
                    s as int
                } else {
                    (s + 1) % (n as int)
                }
            }),
    {
        let f: Vec<usize> = self.filtered(q);
        proof {
            assert(ints(f@).len() == f@.len());
        }
        if f.len() == 0 {
            return;
        }
        self.selected = (self.selected + 1) % f.len();
    }
}

} // verus!
