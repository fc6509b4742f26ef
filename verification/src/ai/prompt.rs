//! The messages of each AI action.
//!
//! What comes back is written into the note as it is, so every prompt asks for the
//! result alone.
use crate::block::opt_text;
use crate::text::{
    chars_of, floor_index, glue, glue3, index_at, is_blank, lemma_floor_index, string_of, trim,
    trim_chars,
};
use vstd::prelude::*;
use vstd::slice::slice_subrange;

verus! {

/// A message of a conversation.
#[derive(Clone, Debug, PartialEq, Eq)]
pub struct Message {
    pub role: String,
    pub content: String,
}

pub struct MessageModel {
    pub role: Seq<char>,
    pub content: Seq<char>,
}

impl View for Message {
    type V = MessageModel;

    open spec fn view(&self) -> MessageModel {
        MessageModel { role: self.role@, content: self.content@ }
    }
}

pub open spec fn messages_model(v: Seq<Message>) -> Seq<MessageModel> {
    v.map_values(|m: Message| m@)
}

pub open spec fn system_says(c: Seq<char>) -> MessageModel {
    MessageModel { role: "system"@, content: c }
}

pub open spec fn user_says(c: Seq<char>) -> MessageModel {
    MessageModel { role: "user"@, content: c }
}

pub open spec fn assistant_says(c: Seq<char>) -> MessageModel {
    MessageModel { role: "assistant"@, content: c }
}

impl Message {
    /// A message that sets the rules.
    pub fn system(c: &str) -> (r: Message)
        ensures
            r@ == system_says(c@),
    {
        Message { role: "system".to_owned(), content: c.to_owned() }
    }

    /// A message of the user.
    pub fn user(c: &str) -> (r: Message)
        ensures
            r@ == user_says(c@),
    {
        Message { role: "user".to_owned(), content: c.to_owned() }
    }

    /// A message of the model.
    pub fn assistant(c: &str) -> (r: Message)
        ensures
            r@ == assistant_says(c@),
    {
        Message { role: "assistant".to_owned(), content: c.to_owned() }
    }
}

/// An AI action.
#[derive(Debug, PartialEq, Eq)]
pub enum Task {
    /// Go on at the cursor.
    Complete,
    /// Polish the selected text.
    Polish,
    Translate { target: String },
    Summarize,
    Explain,
    /// An instruction of the user's own.
    Custom { instruction: String },
    /// A question, with what was found in the notes.
    Chat { context: Option<String> },
}

pub enum TaskModel {
    Complete,
    Polish,
    Translate(Seq<char>),
    Summarize,
    Explain,
    Custom(Seq<char>),
    Chat(Option<Seq<char>>),
}

impl View for Task {
    type V = TaskModel;

    open spec fn view(&self) -> TaskModel {
        match *self {
            Task::Complete => TaskModel::Complete,
            Task::Polish => TaskModel::Polish,
            Task::Translate { target } => TaskModel::Translate(target@),
            Task::Summarize => TaskModel::Summarize,
            Task::Explain => TaskModel::Explain,
            Task::Custom { instruction } => TaskModel::Custom(instruction@),
            Task::Chat { context } => TaskModel::Chat(opt_text(context)),
        }
    }
}

impl Clone for Task {
    fn clone(&self) -> (r: Task)
        ensures
            r@ == self@,
    {
        match self {
            Task::Complete => Task::Complete,
            Task::Polish => Task::Polish,
            Task::Translate { target } => Task::Translate { target: target.clone() },
            Task::Summarize => Task::Summarize,
            Task::Explain => Task::Explain,
            Task::Custom { instruction } => Task::Custom { instruction: instruction.clone() },
            Task::Chat { context } => Task::Chat {
                context: match context {
                    Some(c) => Some(c.clone()),
                    None => None,
                },
            },
        }
    }
}

/// The rules for actions on a text.
pub const EDITOR_SYSTEM: &'static str = "你是嵌在 Markdown 笔记编辑器里的写作助手。规则：1) 只输出结果本身，不要任何前言、解释或代码围栏包裹；2) 保持原文语言，除非要求翻译；3) 输出使用 Markdown 语法；4) 不要重复用户已经写过的内容。";

/// The rules for going on at the cursor.
pub const COMPLETE_SYSTEM: &'static str = "你是 Markdown 笔记的行内续写引擎。根据光标前的内容自然地续写下去。规则：1) 只输出续写部分，不要重复已有文本；2) 最多两句话，简洁克制；3) 不要添加标题或列表符号，除非上文正处于列表中；4) 不要输出任何解释。";

/// The rules for questions.
pub const CHAT_SYSTEM: &'static str = "你是本地笔记库的问答助手。优先依据给出的笔记片段回答；片段中没有的信息要明确说明，不要编造。回答使用 Markdown，简洁直接。";

/// How many characters before the cursor are sent.
pub const COMPLETE_BEFORE: usize = 1200;

/// How many characters behind the cursor are sent.
pub const COMPLETE_AFTER: usize = 300;

/// The rules that go with an action.
pub open spec fn rules_of(task: TaskModel) -> Seq<char> {
    match task {
        TaskModel::Complete => COMPLETE_SYSTEM@,
        TaskModel::Chat(_) => CHAT_SYSTEM@,
        _ => EDITOR_SYSTEM@,
    }
}

/// What an action asks of a text.
pub open spec fn request_of(task: TaskModel, selected: Seq<char>) -> Seq<char> {
    match task {
        TaskModel::Complete => "续写以下内容：\n\n"@ + selected,
        TaskModel::Polish =>
            "润色下面这段文字，让表达更清晰流畅，保持原意与信息量，不要扩写：\n\n"@ + selected,
        TaskModel::Translate(target) => "把下面内容翻译成"@ + target
            + "，保留 Markdown 结构与代码内容不变：\n\n"@ + selected,
        TaskModel::Summarize => "为下面内容写一段摘要，用要点列表，不超过 5 条：\n\n"@ + selected,
        TaskModel::Explain => "解释下面内容的含义与关键点：\n\n"@ + selected,
        TaskModel::Custom(instruction) => if trim(selected).len() == 0 {
            instruction
        } else {
            instruction + "\n\n---\n\n"@ + selected
        },
        TaskModel::Chat(Some(ctx)) => if trim(ctx).len() == 0 {
            selected
        } else {
            "以下是笔记库中的相关片段：\n\n"@ + ctx + "\n\n---\n\n问题："@ + selected
        },
        TaskModel::Chat(None) => selected,
    }
}

/// The messages of an action on a text: its rules, and what it asks.
pub fn build(task: &Task, selected: &str) -> (r: Vec<Message>)
    ensures
        messages_model(r@) == seq![
            system_says(rules_of(task@)),
            user_says(request_of(task@, selected@)),
        ],
{
    let rules: &str = match task {
        Task::Complete => COMPLETE_SYSTEM,
        Task::Chat { .. } => CHAT_SYSTEM,
        _ => EDITOR_SYSTEM,
    };
    let ask: String = match task {
        Task::Complete => glue("续写以下内容：\n\n", selected),
        Task::Polish => glue(
            "润色下面这段文字，让表达更清晰流畅，保持原意与信息量，不要扩写：\n\n",
            selected,
        ),
        Task::Translate { target } => {
            let head: String = glue3(
                "把下面内容翻译成",
                target,
                "，保留 Markdown 结构与代码内容不变：\n\n",
            );
            glue(&head, selected)
        },
        Task::Summarize => glue(
            "为下面内容写一段摘要，用要点列表，不超过 5 条：\n\n",
            selected,
        ),
        Task::Explain => glue("解释下面内容的含义与关键点：\n\n", selected),
        Task::Custom { instruction } => if is_blank(selected) {
            instruction.clone()
        } else {
            glue3(instruction, "\n\n---\n\n", selected)
        },
        Task::Chat { context } => match context {
            Some(ctx) => if is_blank(ctx) {
                selected.to_owned()
            } else {
                let head: String = glue3(
                    "以下是笔记库中的相关片段：\n\n",
                    ctx,
                    "\n\n---\n\n问题：",
                );
                glue(&head, selected)
            },
            None => selected.to_owned(),
        },
    };
    let first = Message::system(rules);
    let second = Message::user(&ask);
    let ghost both = seq![first@, second@];
    let mut out: Vec<Message> = Vec::new();
    out.push(first);
    out.push(second);
    proof {
        assert(messages_model(out@) =~= both);
    }
    out
}

// ---------- the text around the cursor ----------

/// What is told to the model behind the text around the cursor.
pub const CURSOR_HINT: &'static str = "\n\n（在 <CURSOR> 处继续写，只输出插入的内容）";

/// Where the text starts that is sent for a cursor before character `c`.
pub open spec fn context_start(c: int) -> int {
    if c > COMPLETE_BEFORE {
        c - COMPLETE_BEFORE
    } else {
        0
    }
}

/// Where the text ends that is sent for a cursor before character `c`.
pub open spec fn context_end(s: Seq<char>, c: int) -> int {
    if s.len() - c > COMPLETE_AFTER {
        c + COMPLETE_AFTER
    } else {
        s.len() as int
    }
}

/// The text around the cursor: so many characters of it before and behind. The cursor is
/// marked if anything but blanks follows it.
pub open spec fn context_of(s: Seq<char>, cursor_byte: int) -> Seq<char> {
    let c = floor_index(s, cursor_byte);
    let before = s.subrange(context_start(c), c);
    let after = s.subrange(c, context_end(s, c));
    if trim(after).len() == 0 {
        before
    } else {
        before + "<CURSOR>"@ + after + CURSOR_HINT@
    }
}

/// The text around the cursor, to be sent where the model is to go on. A cursor inside a
/// character counts as standing before it, one past the end as standing at the end.
pub fn completion_context(full_text: &str, cursor_byte: usize) -> (r: String)
    ensures
        r@ == context_of(full_text@, cursor_byte as int),
{
    let cs: Vec<char> = chars_of(full_text);
    let all = cs.as_slice();
    let c: usize = index_at(all, cursor_byte);
    let from: usize = if c > COMPLETE_BEFORE {
        c - COMPLETE_BEFORE
    } else {
        0
    };
    let to: usize = if all.len() - c > COMPLETE_AFTER {
        c + COMPLETE_AFTER
    } else {
        all.len()
    };
    let before = slice_subrange(all, from, c);
    let after = slice_subrange(all, c, to);
    let head: String = string_of(before);
    if trim_chars(after).len() == 0 {
        return head;
    }
    let marked: String = glue3(&head, "<CURSOR>", &string_of(after));
    glue(&marked, CURSOR_HINT)
}

/// No more of the text is sent than the limits say: the characters right before and right
/// behind the cursor.
pub proof fn context_is_bounded(s: Seq<char>, cursor_byte: int)
    requires
        0 <= cursor_byte,
    ensures
        ({
            let c = floor_index(s, cursor_byte);
            &&& 0 <= context_start(c) <= c <= context_end(s, c) <= s.len()
            &&& c - context_start(c) <= COMPLETE_BEFORE
            &&& context_end(s, c) - c <= COMPLETE_AFTER
            &&& c <= COMPLETE_BEFORE ==> context_start(c) == 0
            &&& s.len() - c <= COMPLETE_AFTER ==> context_end(s, c) == s.len()
        }),
{
    lemma_floor_index(s, cursor_byte);
}

} // verus!
