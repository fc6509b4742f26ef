//! Which key does what, and where.
use vstd::prelude::*;

verus! {

/// What a key does.
#[derive(Clone, Copy, Debug, PartialEq, Eq, Structural)]
pub enum KeyCmd {
    MoveLeft,
    MoveRight,
    MoveUp,
    MoveDown,
    SelectLeft,
    SelectRight,
    SelectUp,
    SelectDown,
    WordLeft,
    WordRight,
    SelectWordLeft,
    SelectWordRight,
    LineStart,
    LineEnd,
    SelectLineStart,
    SelectLineEnd,
    DocStart,
    DocEnd,
    PageUp,
    PageDown,
    Backspace,
    DeleteForward,
    Newline,
    Indent,
    Outdent,
    SelectAll,
    Undo,
    Redo,
    Copy,
    Cut,
    Paste,
    ToggleBold,
    ToggleItalic,
    ToggleCode,
    ToggleTask,
    AcceptGhost,
    DismissGhost,
    Close,
    Save,
    SaveAs,
    OpenFile,
    OpenVault,
    NewNote,
    ToggleSidebar,
    ToggleChrome,
    ToggleTheme,
    FocusEditor,
    OpenSearch,
    ToggleRightPanel,
    OpenGraph,
    OpenDaily,
    OpenChat,
    OpenBoard,
    OpenHistory,
    OpenSettings,
    OpenCommandPalette,
    OpenHelp,
    InputSubmit,
    InputBackspace,
    InputDelete,
    InputLeft,
    InputRight,
    InputHome,
    InputEnd,
    PaletteUp,
    PaletteDown,
}

/// Where a key does it.
#[derive(Clone, Copy, Debug, PartialEq, Eq, Structural)]
pub enum KeyScope {
    /// In the text of a note.
    Editor,
    /// Wherever nothing else takes the key.
    Everywhere,
    /// In an input line.
    Input,
}

/// A key with what it does.
#[derive(Clone, Copy, Debug, PartialEq, Eq)]
pub struct KeyBinding {
    pub keys: &'static str,
    pub cmd: KeyCmd,
    pub scope: KeyScope,
}

pub open spec fn bindings_model(v: Seq<KeyBinding>) -> Seq<(Seq<char>, KeyCmd, KeyScope)> {
    v.map_values(|b: KeyBinding| (b.keys@, b.cmd, b.scope))
}

fn bind(v: &mut Vec<KeyBinding>, keys: &'static str, cmd: KeyCmd, scope: KeyScope)
    ensures
        bindings_model(final(v)@) == bindings_model(old(v)@).push((keys@, cmd, scope)),
{
    let ghost before = v@;
    v.push(KeyBinding { keys, cmd, scope });
    proof {
        assert(bindings_model(v@) =~= bindings_model(before).push((keys@, cmd, scope)));
    }
}

/// The keys of the text.
pub open spec fn editor_keys_list() -> Seq<(Seq<char>, KeyCmd, KeyScope)> {
    seq![
        ("left"@, KeyCmd::MoveLeft, KeyScope::Editor),
        ("right"@, KeyCmd::MoveRight, KeyScope::Editor),
        ("up"@, KeyCmd::MoveUp, KeyScope::Editor),
        ("down"@, KeyCmd::MoveDown, KeyScope::Editor),
        ("shift-left"@, KeyCmd::SelectLeft, KeyScope::Editor),
        ("shift-right"@, KeyCmd::SelectRight, KeyScope::Editor),
        ("shift-up"@, KeyCmd::SelectUp, KeyScope::Editor),
        ("shift-down"@, KeyCmd::SelectDown, KeyScope::Editor),
        ("ctrl-left"@, KeyCmd::WordLeft, KeyScope::Editor),
        ("ctrl-right"@, KeyCmd::WordRight, KeyScope::Editor),
        ("ctrl-shift-left"@, KeyCmd::SelectWordLeft, KeyScope::Editor),
        ("ctrl-shift-right"@, KeyCmd::SelectWordRight, KeyScope::Editor),
        ("home"@, KeyCmd::LineStart, KeyScope::Editor),
        ("end"@, KeyCmd::LineEnd, KeyScope::Editor),
        ("shift-home"@, KeyCmd::SelectLineStart, KeyScope::Editor),
        ("shift-end"@, KeyCmd::SelectLineEnd, KeyScope::Editor),
        ("ctrl-home"@, KeyCmd::DocStart, KeyScope::Editor),
        ("ctrl-end"@, KeyCmd::DocEnd, KeyScope::Editor),
        ("pageup"@, KeyCmd::PageUp, KeyScope::Editor),
        ("pagedown"@, KeyCmd::PageDown, KeyScope::Editor),
        ("backspace"@, KeyCmd::Backspace, KeyScope::Editor),
        ("delete"@, KeyCmd::DeleteForward, KeyScope::Editor),
        ("enter"@, KeyCmd::Newline, KeyScope::Editor),
        ("tab"@, KeyCmd::Indent, KeyScope::Editor),
        ("shift-tab"@, KeyCmd::Outdent, KeyScope::Editor),
        ("ctrl-a"@, KeyCmd::SelectAll, KeyScope::Editor),
        ("ctrl-z"@, KeyCmd::Undo, KeyScope::Editor),
        ("ctrl-shift-z"@, KeyCmd::Redo, KeyScope::Editor),
        ("ctrl-y"@, KeyCmd::Redo, KeyScope::Editor),
        ("ctrl-c"@, KeyCmd::Copy, KeyScope::Editor),
        ("ctrl-x"@, KeyCmd::Cut, KeyScope::Editor),
        ("ctrl-v"@, KeyCmd::Paste, KeyScope::Editor),
        ("ctrl-b"@, KeyCmd::ToggleBold, KeyScope::Editor),
        ("ctrl-i"@, KeyCmd::ToggleItalic, KeyScope::Editor),
        ("ctrl-`"@, KeyCmd::ToggleCode, KeyScope::Editor),
        ("ctrl-~"@, KeyCmd::ToggleCode, KeyScope::Editor),
        ("ctrl-enter"@, KeyCmd::ToggleTask, KeyScope::Editor),
        ("alt-tab"@, KeyCmd::AcceptGhost, KeyScope::Editor),
        ("escape"@, KeyCmd::DismissGhost, KeyScope::Editor),
    ]
}

fn editor_keys() -> (r: Vec<KeyBinding>)
    ensures
        bindings_model(r@) == editor_keys_list(),
{
    let mut v: Vec<KeyBinding> = Vec::new();
    proof {
        assert(bindings_model(v@) =~= Seq::empty());
    }
    bind(&mut v, "left", KeyCmd::MoveLeft, KeyScope::Editor);
    bind(&mut v, "right", KeyCmd::MoveRight, KeyScope::Editor);
    bind(&mut v, "up", KeyCmd::MoveUp, KeyScope::Editor);
    bind(&mut v, "down", KeyCmd::MoveDown, KeyScope::Editor);
    bind(&mut v, "shift-left", KeyCmd::SelectLeft, KeyScope::Editor);
    bind(&mut v, "shift-right", KeyCmd::SelectRight, KeyScope::Editor);
    bind(&mut v, "shift-up", KeyCmd::SelectUp, KeyScope::Editor);
    bind(&mut v, "shift-down", KeyCmd::SelectDown, KeyScope::Editor);
    bind(&mut v, "ctrl-left", KeyCmd::WordLeft, KeyScope::Editor);
    bind(&mut v, "ctrl-right", KeyCmd::WordRight, KeyScope::Editor);
    bind(&mut v, "ctrl-shift-left", KeyCmd::SelectWordLeft, KeyScope::Editor);
    bind(&mut v, "ctrl-shift-right", KeyCmd::SelectWordRight, KeyScope::Editor);
    bind(&mut v, "home", KeyCmd::LineStart, KeyScope::Editor);
    bind(&mut v, "end", KeyCmd::LineEnd, KeyScope::Editor);
    bind(&mut v, "shift-home", KeyCmd::SelectLineStart, KeyScope::Editor);
    bind(&mut v, "shift-end", KeyCmd::SelectLineEnd, KeyScope::Editor);
    bind(&mut v, "ctrl-home", KeyCmd::DocStart, KeyScope::Editor);
    bind(&mut v, "ctrl-end", KeyCmd::DocEnd, KeyScope::Editor);
    bind(&mut v, "pageup", KeyCmd::PageUp, KeyScope::Editor);
    bind(&mut v, "pagedown", KeyCmd::PageDown, KeyScope::Editor);
    bind(&mut v, "backspace", KeyCmd::Backspace, KeyScope::Editor);
    bind(&mut v, "delete", KeyCmd::DeleteForward, KeyScope::Editor);
    bind(&mut v, "enter", KeyCmd::Newline, KeyScope::Editor);
    bind(&mut v, "tab", KeyCmd::Indent, KeyScope::Editor);
    bind(&mut v, "shift-tab", KeyCmd::Outdent, KeyScope::Editor);
    bind(&mut v, "ctrl-a", KeyCmd::SelectAll, KeyScope::Editor);
    bind(&mut v, "ctrl-z", KeyCmd::Undo, KeyScope::Editor);
    bind(&mut v, "ctrl-shift-z", KeyCmd::Redo, KeyScope::Editor);
    bind(&mut v, "ctrl-y", KeyCmd::Redo, KeyScope::Editor);
    bind(&mut v, "ctrl-c", KeyCmd::Copy, KeyScope::Editor);
    bind(&mut v, "ctrl-x", KeyCmd::Cut, KeyScope::Editor);
    bind(&mut v, "ctrl-v", KeyCmd::Paste, KeyScope::Editor);
    bind(&mut v, "ctrl-b", KeyCmd::ToggleBold, KeyScope::Editor);
    bind(&mut v, "ctrl-i", KeyCmd::ToggleItalic, KeyScope::Editor);
    bind(&mut v, "ctrl-`", KeyCmd::ToggleCode, KeyScope::Editor);
    bind(&mut v, "ctrl-~", KeyCmd::ToggleCode, KeyScope::Editor);
    bind(&mut v, "ctrl-enter", KeyCmd::ToggleTask, KeyScope::Editor);
    bind(&mut v, "alt-tab", KeyCmd::AcceptGhost, KeyScope::Editor);
    bind(&mut v, "escape", KeyCmd::DismissGhost, KeyScope::Editor);
    proof {
        assert(bindings_model(v@) =~= editor_keys_list());
    }
    v
}

/// The keys that work everywhere.
pub open spec fn global_keys_list() -> Seq<(Seq<char>, KeyCmd, KeyScope)> {
    seq![
        ("escape"@, KeyCmd::Close, KeyScope::Everywhere),
        ("ctrl-s"@, KeyCmd::Save, KeyScope::Everywhere),
        ("ctrl-shift-s"@, KeyCmd::SaveAs, KeyScope::Everywhere),
        ("ctrl-o"@, KeyCmd::OpenFile, KeyScope::Everywhere),
        ("ctrl-shift-o"@, KeyCmd::OpenVault, KeyScope::Everywhere),
        ("ctrl-n"@, KeyCmd::NewNote, KeyScope::Everywhere),
        ("ctrl-\\"@, KeyCmd::ToggleSidebar, KeyScope::Everywhere),
        ("ctrl-shift-m"@, KeyCmd::ToggleChrome, KeyScope::Everywhere),
        ("ctrl-shift-l"@, KeyCmd::ToggleTheme, KeyScope::Everywhere),
        ("ctrl-shift-e"@, KeyCmd::FocusEditor, KeyScope::Everywhere),
        ("ctrl-shift-f"@, KeyCmd::OpenSearch, KeyScope::Everywhere),
        ("ctrl-shift-r"@, KeyCmd::ToggleRightPanel, KeyScope::Everywhere),
        ("ctrl-shift-g"@, KeyCmd::OpenGraph, KeyScope::Everywhere),
        ("ctrl-d"@, KeyCmd::OpenDaily, KeyScope::Everywhere),
        ("ctrl-shift-q"@, KeyCmd::OpenChat, KeyScope::Everywhere),
        ("ctrl-shift-b"@, KeyCmd::OpenBoard, KeyScope::Everywhere),
        ("ctrl-shift-h"@, KeyCmd::OpenHistory, KeyScope::Everywhere),
        ("ctrl-,"@, KeyCmd::OpenSettings, KeyScope::Everywhere),
        ("ctrl-<"@, KeyCmd::OpenSettings, KeyScope::Everywhere),
        ("ctrl-，"@, KeyCmd::OpenSettings, KeyScope::Everywhere),
        ("ctrl-k"@, KeyCmd::OpenCommandPalette, KeyScope::Everywhere),
        ("ctrl-?"@, KeyCmd::OpenHelp, KeyScope::Everywhere),
        ("ctrl-shift-?"@, KeyCmd::OpenHelp, KeyScope::Everywhere),
    ]
}

fn global_keys() -> (r: Vec<KeyBinding>)
    ensures
        bindings_model(r@) == global_keys_list(),
{
    let mut v: Vec<KeyBinding> = Vec::new();
    proof {
        assert(bindings_model(v@) =~= Seq::empty());
    }
    bind(&mut v, "escape", KeyCmd::Close, KeyScope::Everywhere);
    bind(&mut v, "ctrl-s", KeyCmd::Save, KeyScope::Everywhere);
    bind(&mut v, "ctrl-shift-s", KeyCmd::SaveAs, KeyScope::Everywhere);
    bind(&mut v, "ctrl-o", KeyCmd::OpenFile, KeyScope::Everywhere);
    bind(&mut v, "ctrl-shift-o", KeyCmd::OpenVault, KeyScope::Everywhere);
    bind(&mut v, "ctrl-n", KeyCmd::NewNote, KeyScope::Everywhere);
    bind(&mut v, "ctrl-\\", KeyCmd::ToggleSidebar, KeyScope::Everywhere);
    bind(&mut v, "ctrl-shift-m", KeyCmd::ToggleChrome, KeyScope::Everywhere);
    bind(&mut v, "ctrl-shift-l", KeyCmd::ToggleTheme, KeyScope::Everywhere);
    bind(&mut v, "ctrl-shift-e", KeyCmd::FocusEditor, KeyScope::Everywhere);
    bind(&mut v, "ctrl-shift-f", KeyCmd::OpenSearch, KeyScope::Everywhere);
    bind(&mut v, "ctrl-shift-r", KeyCmd::ToggleRightPanel, KeyScope::Everywhere);
    bind(&mut v, "ctrl-shift-g", KeyCmd::OpenGraph, KeyScope::Everywhere);
    bind(&mut v, "ctrl-d", KeyCmd::OpenDaily, KeyScope::Everywhere);
    bind(&mut v, "ctrl-shift-q", KeyCmd::OpenChat, KeyScope::Everywhere);
    bind(&mut v, "ctrl-shift-b", KeyCmd::OpenBoard, KeyScope::Everywhere);
    bind(&mut v, "ctrl-shift-h", KeyCmd::OpenHistory, KeyScope::Everywhere);
    bind(&mut v, "ctrl-,", KeyCmd::OpenSettings, KeyScope::Everywhere);
    bind(&mut v, "ctrl-<", KeyCmd::OpenSettings, KeyScope::Everywhere);
    bind(&mut v, "ctrl-，", KeyCmd::OpenSettings, KeyScope::Everywhere);
    bind(&mut v, "ctrl-k", KeyCmd::OpenCommandPalette, KeyScope::Everywhere);
    bind(&mut v, "ctrl-?", KeyCmd::OpenHelp, KeyScope::Everywhere);
    bind(&mut v, "ctrl-shift-?", KeyCmd::OpenHelp, KeyScope::Everywhere);
    proof {
        assert(bindings_model(v@) =~= global_keys_list());
    }
    v
}

/// The keys of an input line.
pub open spec fn input_keys_list() -> Seq<(Seq<char>, KeyCmd, KeyScope)> {
    seq![
        ("enter"@, KeyCmd::InputSubmit, KeyScope::Input),
        ("backspace"@, KeyCmd::InputBackspace, KeyScope::Input),
        ("delete"@, KeyCmd::InputDelete, KeyScope::Input),
        ("left"@, KeyCmd::InputLeft, KeyScope::Input),
        ("right"@, KeyCmd::InputRight, KeyScope::Input),
        ("home"@, KeyCmd::InputHome, KeyScope::Input),
        ("end"@, KeyCmd::InputEnd, KeyScope::Input),
        ("up"@, KeyCmd::PaletteUp, KeyScope::Input),
        ("down"@, KeyCmd::PaletteDown, KeyScope::Input),
    ]
}

fn input_keys() -> (r: Vec<KeyBinding>)
    ensures
        bindings_model(r@) == input_keys_list(),
{
    let mut v: Vec<KeyBinding> = Vec::new();
    proof {
        assert(bindings_model(v@) =~= Seq::empty());
    }
    bind(&mut v, "enter", KeyCmd::InputSubmit, KeyScope::Input);
    bind(&mut v, "backspace", KeyCmd::InputBackspace, KeyScope::Input);
    bind(&mut v, "delete", KeyCmd::InputDelete, KeyScope::Input);
    bind(&mut v, "left", KeyCmd::InputLeft, KeyScope::Input);
    bind(&mut v, "right", KeyCmd::InputRight, KeyScope::Input);
    bind(&mut v, "home", KeyCmd::InputHome, KeyScope::Input);
    bind(&mut v, "end", KeyCmd::InputEnd, KeyScope::Input);
    bind(&mut v, "up", KeyCmd::PaletteUp, KeyScope::Input);
    bind(&mut v, "down", KeyCmd::PaletteDown, KeyScope::Input);
    proof {
        assert(bindings_model(v@) =~= input_keys_list());
    }
    v
}

/// All keys: those of the text first, so that they go before those that work everywhere.
pub fn bindings() -> (r: Vec<KeyBinding>)
    ensures
        bindings_model(r@) == editor_keys_list() + global_keys_list() + input_keys_list(),
{
    let mut v: Vec<KeyBinding> = editor_keys();
    let mut g: Vec<KeyBinding> = global_keys();
    let mut i: Vec<KeyBinding> = input_keys();
    let ghost (a, b, c) = (v@, g@, i@);
    v.append(&mut g);
    v.append(&mut i);
    proof {
        assert(bindings_model(v@) =~= bindings_model(a) + bindings_model(b) + bindings_model(c));
    }
    v
}

} // verus!
