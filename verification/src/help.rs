//! The list of keys that is shown as help.
use vstd::prelude::*;

verus! {

/// Keys that belong together: for each what it does, and the key.
pub struct ShortcutGroup {
    pub title: &'static str,
    pub items: Vec<(&'static str, &'static str)>,
}

pub struct GroupModel {
    pub title: Seq<char>,
    pub items: Seq<(Seq<char>, Seq<char>)>,
}

pub open spec fn pairs_model(v: Seq<(&'static str, &'static str)>) -> Seq<(Seq<char>, Seq<char>)> {
    v.map_values(|p: (&'static str, &'static str)| (p.0@, p.1@))
}

impl View for ShortcutGroup {
    type V = GroupModel;

    open spec fn view(&self) -> GroupModel {
        GroupModel { title: self.title@, items: pairs_model(self.items@) }
    }
}

pub open spec fn groups_model(v: Seq<ShortcutGroup>) -> Seq<GroupModel> {
    v.map_values(|g: ShortcutGroup| g@)
}

/// The keys of one group.
pub open spec fn file_group() -> GroupModel {
    GroupModel {
        title: "文件"@,
        items: seq![
            ("打开文件"@, "Ctrl+O"@),
            ("打开笔记库"@, "Ctrl+Shift+O"@),
            ("新建笔记"@, "Ctrl+N"@),
            ("保存"@, "Ctrl+S"@),
            ("另存为"@, "Ctrl+Shift+S"@),
        ],
    }
}

/// The keys of one group.
pub open spec fn cursor_group() -> GroupModel {
    GroupModel {
        title: "编辑 · 光标与选择"@,
        items: seq![
            ("移动光标"@, "↑ ↓ ← →"@),
            ("按词移动"@, "Ctrl+← / →"@),
            ("行首 / 行尾"@, "Home / End"@),
            ("文档首 / 尾"@, "Ctrl+Home / End"@),
            ("上 / 下翻页"@, "PageUp / PageDown"@),
            ("选择文本"@, "Shift+方向键"@),
            ("全选"@, "Ctrl+A"@),
        ],
    }
}

/// The keys of one group.
pub open spec fn text_group() -> GroupModel {
    GroupModel {
        title: "编辑 · 文本"@,
        items: seq![
            ("换行"@, "Enter"@),
            ("缩进 / 反缩进"@, "Tab / Shift+Tab"@),
            ("撤销 / 重做"@, "Ctrl+Z / Ctrl+Shift+Z"@),
            ("复制 / 剪切 / 粘贴"@, "Ctrl+C / X / V"@),
            ("切换待办勾选"@, "Ctrl+Enter"@),
        ],
    }
}

/// The keys of one group.
pub open spec fn format_group() -> GroupModel {
    GroupModel {
        title: "格式（Markdown）"@,
        items: seq![
            ("加粗"@, "Ctrl+B"@),
            ("斜体"@, "Ctrl+I"@),
            ("行内代码"@, "Ctrl+Shift+`"@),
        ],
    }
}

/// The keys of one group.
pub open spec fn view_group() -> GroupModel {
    GroupModel {
        title: "视图"@,
        items: seq![
            ("浮现顶部工具条"@, "鼠标贴窗口顶端"@),
            ("顶栏常显 / 收起"@, "Ctrl+Shift+M"@),
            ("收起 / 展开侧栏"@, "Ctrl+\\"@),
            ("切换深 / 浅色"@, "Ctrl+Shift+L"@),
            ("聚焦编辑区"@, "Ctrl+Shift+E"@),
            ("切换知识面板"@, "Ctrl+Shift+R"@),
        ],
    }
}

/// The keys of one group.
pub open spec fn notes_group() -> GroupModel {
    GroupModel {
        title: "知识库"@,
        items: seq![
            ("全库搜索"@, "Ctrl+Shift+F"@),
            ("关系图谱"@, "Ctrl+Shift+G"@),
            ("每日笔记"@, "Ctrl+D"@),
            ("库问答"@, "Ctrl+Shift+Q"@),
            ("白板"@, "Ctrl+Shift+B"@),
            ("历史版本"@, "Ctrl+Shift+H"@),
        ],
    }
}

/// The keys of one group.
pub open spec fn model_group() -> GroupModel {
    GroupModel {
        title: "AI 与命令"@,
        items: seq![
            ("打开 AI 设置"@, "Ctrl+Shift+,"@),
            ("打开命令面板"@, "Ctrl+K"@),
            ("采纳 AI 续写"@, "Alt+Tab"@),
            ("忽略 AI 续写"@, "Esc"@),
            ("打开本帮助"@, "Ctrl+?"@),
        ],
    }
}

/// The keys of one group.
pub open spec fn template_group() -> GroupModel {
    GroupModel {
        title: "模板"@,
        items: seq![
            ("模板目录"@, "库内 templates/"@),
            ("从模板新建"@, "Ctrl+K → 模板名"@),
            ("变量"@, "{{date}} {{title}} …"@),
        ],
    }
}

/// All keys, by what they are for.
pub open spec fn shortcut_list() -> Seq<GroupModel> {
    seq![
        file_group(),
        cursor_group(),
        text_group(),
        format_group(),
        view_group(),
        notes_group(),
        model_group(),
        template_group(),
    ]
}

fn push_group(
    v: &mut Vec<ShortcutGroup>,
    title: &'static str,
    items: Vec<(&'static str, &'static str)>,
)
    ensures
        groups_model(final(v)@) == groups_model(old(v)@).push(
            GroupModel { title: title@, items: pairs_model(items@) },
        ),
{
    let ghost before = v@;
    let g = ShortcutGroup { title, items };
    let ghost gm = g@;
    v.push(g);
    proof {
        assert(groups_model(v@) =~= groups_model(before).push(gm));
    }
}

fn push_file(v: &mut Vec<ShortcutGroup>)
    ensures
        groups_model(final(v)@) == groups_model(old(v)@).push(file_group()),
{
    let mut items: Vec<(&'static str, &'static str)> = Vec::new();
    items.push(("打开文件", "Ctrl+O"));
    items.push(("打开笔记库", "Ctrl+Shift+O"));
    items.push(("新建笔记", "Ctrl+N"));
    items.push(("保存", "Ctrl+S"));
    items.push(("另存为", "Ctrl+Shift+S"));
    proof {
        assert(pairs_model(items@) =~= file_group().items);
    }
    push_group(v, "文件", items);
}

fn push_cursor(v: &mut Vec<ShortcutGroup>)
    ensures
        groups_model(final(v)@) == groups_model(old(v)@).push(cursor_group()),
{
    let mut items: Vec<(&'static str, &'static str)> = Vec::new();
    items.push(("移动光标", "↑ ↓ ← →"));
    items.push(("按词移动", "Ctrl+← / →"));
    items.push(("行首 / 行尾", "Home / End"));
    items.push(("文档首 / 尾", "Ctrl+Home / End"));
    items.push(("上 / 下翻页", "PageUp / PageDown"));
    items.push(("选择文本", "Shift+方向键"));
    items.push(("全选", "Ctrl+A"));
    proof {
        assert(pairs_model(items@) =~= cursor_group().items);
    }
    push_group(v, "编辑 · 光标与选择", items);
}

fn push_text(v: &mut Vec<ShortcutGroup>)
    ensures
        groups_model(final(v)@) == groups_model(old(v)@).push(text_group()),
{
    let mut items: Vec<(&'static str, &'static str)> = Vec::new();
    items.push(("换行", "Enter"));
    items.push(("缩进 / 反缩进", "Tab / Shift+Tab"));
    items.push(("撤销 / 重做", "Ctrl+Z / Ctrl+Shift+Z"));
    items.push(("复制 / 剪切 / 粘贴", "Ctrl+C / X / V"));
    items.push(("切换待办勾选", "Ctrl+Enter"));
    proof {
        assert(pairs_model(items@) =~= text_group().items);
    }
    push_group(v, "编辑 · 文本", items);
}

fn push_format(v: &mut Vec<ShortcutGroup>)
    ensures
        groups_model(final(v)@) == groups_model(old(v)@).push(format_group()),
{
    let mut items: Vec<(&'static str, &'static str)> = Vec::new();
    items.push(("加粗", "Ctrl+B"));
    items.push(("斜体", "Ctrl+I"));
    items.push(("行内代码", "Ctrl+Shift+`"));
    proof {
        assert(pairs_model(items@) =~= format_group().items);
    }
    push_group(v, "格式（Markdown）", items);
}

fn push_view(v: &mut Vec<ShortcutGroup>)
    ensures
        groups_model(final(v)@) == groups_model(old(v)@).push(view_group()),
{
    let mut items: Vec<(&'static str, &'static str)> = Vec::new();
    items.push(("浮现顶部工具条", "鼠标贴窗口顶端"));
    items.push(("顶栏常显 / 收起", "Ctrl+Shift+M"));
    items.push(("收起 / 展开侧栏", "Ctrl+\\"));
    items.push(("切换深 / 浅色", "Ctrl+Shift+L"));
    items.push(("聚焦编辑区", "Ctrl+Shift+E"));
    items.push(("切换知识面板", "Ctrl+Shift+R"));
    proof {
        assert(pairs_model(items@) =~= view_group().items);
    }
    push_group(v, "视图", items);
}

fn push_notes(v: &mut Vec<ShortcutGroup>)
    ensures
        groups_model(final(v)@) == groups_model(old(v)@).push(notes_group()),
{
    let mut items: Vec<(&'static str, &'static str)> = Vec::new();
    items.push(("全库搜索", "Ctrl+Shift+F"));
    items.push(("关系图谱", "Ctrl+Shift+G"));
    items.push(("每日笔记", "Ctrl+D"));
    items.push(("库问答", "Ctrl+Shift+Q"));
    items.push(("白板", "Ctrl+Shift+B"));
    items.push(("历史版本", "Ctrl+Shift+H"));
    proof {
        assert(pairs_model(items@) =~= notes_group().items);
    }
    push_group(v, "知识库", items);
}

fn push_model(v: &mut Vec<ShortcutGroup>)
    ensures
        groups_model(final(v)@) == groups_model(old(v)@).push(model_group()),
{
    let mut items: Vec<(&'static str, &'static str)> = Vec::new();
    items.push(("打开 AI 设置", "Ctrl+Shift+,"));
    items.push(("打开命令面板", "Ctrl+K"));
    items.push(("采纳 AI 续写", "Alt+Tab"));
    items.push(("忽略 AI 续写", "Esc"));
    items.push(("打开本帮助", "Ctrl+?"));
    proof {
        assert(pairs_model(items@) =~= model_group().items);
    }
    push_group(v, "AI 与命令", items);
}

fn push_template(v: &mut Vec<ShortcutGroup>)
    ensures
        groups_model(final(v)@) == groups_model(old(v)@).push(template_group()),
{
    let mut items: Vec<(&'static str, &'static str)> = Vec::new();
    items.push(("模板目录", "库内 templates/"));
    items.push(("从模板新建", "Ctrl+K → 模板名"));
    items.push(("变量", "{{date}} {{title}} …"));
    proof {
        assert(pairs_model(items@) =~= template_group().items);
    }
    push_group(v, "模板", items);
}

/// All keys, by what they are for.
pub fn shortcuts() -> (r: Vec<ShortcutGroup>)
    ensures
        groups_model(r@) == shortcut_list(),
{
    let mut v: Vec<ShortcutGroup> = Vec::new();
    proof {
        assert(groups_model(v@) =~= Seq::empty());
    }
    push_file(&mut v);
    push_cursor(&mut v);
    push_text(&mut v);
    push_format(&mut v);
    push_view(&mut v);
    push_notes(&mut v);
    push_model(&mut v);
    push_template(&mut v);
    proof {
        assert(groups_model(v@) =~= shortcut_list());
    }
    v
}

} // verus!
