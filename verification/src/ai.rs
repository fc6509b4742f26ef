//! Talking to a chat endpoint: what is sent, and how the reply is read.
//!
//! The connection itself is made by the caller.
use crate::ai::config::{AiConfig, AiConfigModel};
use crate::ai::prompt::{
    build, messages_model, request_of, rules_of, system_says, user_says, Message, MessageModel, Task,
};
use crate::ai::sse::{json_text, summarize_error, summary_of, AiEvent, EventModel};
use crate::block::opt_text;
use crate::text::{
    chars_of, digits_of, extend_str, number_chars, string_of, trim, trim_chars,
};
use vstd::prelude::*;

pub mod config;
pub mod prompt;
pub mod sse;

verus! {

/// A request to a chat endpoint.
#[derive(Clone, Debug, PartialEq, Eq)]
pub struct ChatRequest {
    pub url: String,
    /// The key to send with it, if there is one.
    pub bearer: Option<String>,
    pub model: String,
    pub messages: Vec<Message>,
    /// Whether the reply is to come piece by piece.
    pub stream: bool,
    /// The bits of the temperature, a number in single precision.
    pub temperature: u32,
    pub max_tokens: Option<u32>,
}

pub struct ChatRequestModel {
    pub url: Seq<char>,
    pub bearer: Option<Seq<char>>,
    pub model: Seq<char>,
    pub messages: Seq<MessageModel>,
    pub stream: bool,
    pub temperature: u32,
    pub max_tokens: Option<u32>,
}

impl View for ChatRequest {
    type V = ChatRequestModel;

    open spec fn view(&self) -> ChatRequestModel {
        ChatRequestModel {
            url: self.url@,
            bearer: opt_text(self.bearer),
            model: self.model@,
            messages: messages_model(self.messages@),
            stream: self.stream,
            temperature: self.temperature,
            max_tokens: self.max_tokens,
        }
    }
}

/// What is said where requests cannot be made.
pub const UNCONFIGURED: &'static str =
    "尚未配置 AI 端点。按 Ctrl+, 打开设置，或设置环境变量 FASTNOTE_API_KEY";

/// A request under these settings.
pub open spec fn request_for(
    cfg: AiConfigModel,
    messages: Seq<MessageModel>,
    model: Seq<char>,
) -> Result<ChatRequestModel, EventModel> {
    if !cfg.is_configured() {
        Err(EventModel::Error(UNCONFIGURED@))
    } else {
        Ok(
            ChatRequestModel {
                url: cfg.chat_endpoint(),
                bearer: if trim(cfg.api_key).len() > 0 {
                    Some(trim(cfg.api_key))
                } else {
                    None
                },
                model,
                messages,
                stream: true,
                temperature: cfg.temperature,
                max_tokens: cfg.max_tokens,
            },
        )
    }
}

pub open spec fn request_model(r: Result<ChatRequest, AiEvent>) -> Result<
    ChatRequestModel,
    EventModel,
> {
    match r {
        Ok(q) => Ok(q@),
        Err(e) => Err(e@),
    }
}

/// The request for a conversation; what to report in its place where requests cannot be
/// made.
pub fn chat_request(cfg: &AiConfig, messages: Vec<Message>, model: String) -> (r: Result<
    ChatRequest,
    AiEvent,
>)
    ensures
        request_model(r) == request_for(cfg@, messages_model(messages@), model@),
{
    if !cfg.is_configured() {
        return Err(AiEvent::Error(UNCONFIGURED.to_owned()));
    }
    let key: Vec<char> = chars_of(&cfg.api_key);
    let k = trim_chars(key.as_slice());
    let bearer: Option<String> = if k.len() > 0 {
        Some(string_of(k))
    } else {
        None
    };
    Ok(
        ChatRequest {
            url: cfg.chat_endpoint(),
            bearer,
            model,
            messages,
            stream: true,
            temperature: cfg.temperature,
            max_tokens: cfg.max_tokens,
        },
    )
}

/// The request for an action on a text: going on at the cursor has a model of its own.
pub fn task_request(cfg: &AiConfig, task: &Task, input: &str) -> (r: Result<ChatRequest, AiEvent>)
    ensures
        request_model(r) == request_for(
            cfg@,
            seq![system_says(rules_of(task@)), user_says(request_of(task@, input@))],
            if task@ is Complete {
                cfg@.model_for_completion()
            } else {
                cfg.model@
            },
        ),
{
    let messages: Vec<Message> = build(task, input);
    let model: String = match task {
        Task::Complete => cfg.completion_model().to_owned(),
        _ => cfg.model.clone(),
    };
    chat_request(cfg, messages, model)
}

/// What is said of a reply with a status that is no success.
pub fn status_error(status: u16, body: &str) -> (r: String)
    ensures
        r@ == digits_of(status as nat).push(' ') + summary_of(body@, json_text(body@)),
{
    let mut out: Vec<char> = number_chars(status as u64);
    out.push(' ');
    extend_str(&mut out, &summarize_error(body));
    string_of(out.as_slice())
}

} // verus!
