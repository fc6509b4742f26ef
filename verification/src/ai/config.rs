//! Which endpoint to talk to, and how.
//!
//! Any endpoint will do that takes requests in the form of OpenAI's
//! `/chat/completions`, local ones too.
use crate::block::{ascii_lower, lower, opt_text};
use crate::paths::{join_path, joined};
use crate::text::{
    chars_of, contains_text, extend_str, has_text, is_blank, string_of, trim, trim_run_end,
    trim_run_end_chars,
};
use vstd::prelude::*;

verus! {

/// The settings of an endpoint.
#[derive(Clone, Debug, PartialEq, Eq)]
pub struct AiConfig {
    /// Such as `https://api.deepseek.com/v1`.
    pub base_url: String,
    pub api_key: String,
    pub model: String,
    /// The bits of the temperature, a number in single precision.
    pub temperature: u32,
    pub max_tokens: Option<u32>,
    /// The model that goes on at the cursor, if it is another one.
    pub completion_model: Option<String>,
}

pub struct AiConfigModel {
    pub base_url: Seq<char>,
    pub api_key: Seq<char>,
    pub model: Seq<char>,
    pub temperature: u32,
    pub max_tokens: Option<u32>,
    pub completion_model: Option<Seq<char>>,
}

impl View for AiConfig {
    type V = AiConfigModel;

    open spec fn view(&self) -> AiConfigModel {
        AiConfigModel {
            base_url: self.base_url@,
            api_key: self.api_key@,
            model: self.model@,
            temperature: self.temperature,
            max_tokens: self.max_tokens,
            completion_model: opt_text(self.completion_model),
        }
    }
}

/// The endpoint where none was chosen.
pub const DEFAULT_BASE_URL: &'static str = "https://api.deepseek.com/v1";

/// The model where none was chosen.
pub const DEFAULT_MODEL: &'static str = "deepseek-chat";

/// The bits of 0.7 in single precision.
pub const DEFAULT_TEMPERATURE: u32 = 0x3f33_3333;

/// The settings of an endpoint that needs no more than these two.
pub open spec fn config_for(base_url: Seq<char>, model: Seq<char>) -> AiConfigModel {
    AiConfigModel {
        base_url,
        api_key: Seq::empty(),
        model,
        temperature: DEFAULT_TEMPERATURE,
        max_tokens: None,
        completion_model: None,
    }
}

/// The settings of an endpoint that needs no more than these two.
pub fn endpoint(base_url: &str, model: &str) -> (r: AiConfig)
    ensures
        r@ == config_for(base_url@, model@),
{
    let r = AiConfig {
        base_url: base_url.to_owned(),
        api_key: String::new(),
        model: model.to_owned(),
        temperature: DEFAULT_TEMPERATURE,
        max_tokens: None,
        completion_model: None,
    };
    proof {
        assert(r.api_key@ =~= Seq::<char>::empty());
    }
    r
}

impl Default for AiConfig {
    fn default() -> (r: AiConfig)
        ensures
            r@ == config_for(DEFAULT_BASE_URL@, DEFAULT_MODEL@),
    {
        endpoint(DEFAULT_BASE_URL, DEFAULT_MODEL)
    }
}

/// `s` with its ASCII letters in lower case.
pub open spec fn ascii_lowered(s: Seq<char>) -> Seq<char> {
    s.map_values(|c: char| ascii_lower(c))
}

impl AiConfigModel {
    /// Whether the endpoint is on this machine.
    pub open spec fn is_local(self) -> bool {
        let u = ascii_lowered(self.base_url);
        has_text(u, "localhost"@) || has_text(u, "127.0.0.1"@) || has_text(u, "0.0.0.0"@)
    }

    /// Whether requests can be made: a local endpoint needs no key.
    pub open spec fn is_configured(self) -> bool {
        &&& trim(self.base_url).len() > 0
        &&& trim(self.model).len() > 0
        &&& trim(self.api_key).len() > 0 || self.is_local()
    }

    pub open spec fn chat_endpoint(self) -> Seq<char> {
        trim_run_end(self.base_url, '/') + "/chat/completions"@
    }

    pub open spec fn model_for_completion(self) -> Seq<char> {
        match self.completion_model {
            Some(m) => m,
            None => self.model,
        }
    }
}

fn holds(cs: &[char], pat: &str) -> (r: bool)
    ensures
        r == has_text(cs@, pat@),
{
    let p: Vec<char> = chars_of(pat);
    contains_text(cs, p.as_slice())
}

impl AiConfig {
    /// The directory of the settings, where these are the directories that the
    /// environment names.
    pub fn config_dir(
        appdata: Option<String>,
        xdg_config_home: Option<String>,
        home: Option<String>,
    ) -> (r: String)
        ensures
            r@ == joined(
                match (appdata, xdg_config_home, home) {
                    (Some(d), _, _) => d@,
                    (None, Some(d), _) => d@,
                    (None, None, Some(d)) => joined(d@, ".config"@),
                    (None, None, None) => "."@,
                },
                "fastnote"@,
            ),
    {
        let base: String = match appdata {
            Some(d) => d,
            None => match xdg_config_home {
                Some(d) => d,
                None => match home {
                    Some(d) => join_path(&d, ".config"),
                    None => ".".to_owned(),
                },
            },
        };
        join_path(&base, "fastnote")
    }

    /// The file of the settings in their directory.
    pub fn config_path(dir: &str) -> (r: String)
        ensures
            r@ == joined(dir@, "config.json"@),
    {
        join_path(dir, "config.json")
    }

    /// The settings to use: those of the file, or the default ones, with what the
    /// environment says in their place. What is blank says nothing.
    pub fn load(
        file: Option<AiConfig>,
        base_url: Option<String>,
        api_key: Option<String>,
        model: Option<String>,
    ) -> (r: AiConfig)
        ensures
            ({
                let c = match file {
                    Some(c) => c@,
                    None => config_for(DEFAULT_BASE_URL@, DEFAULT_MODEL@),
                };
                r@ == AiConfigModel {
                    base_url: chosen(base_url, c.base_url),
                    api_key: chosen(api_key, c.api_key),
                    model: chosen(model, c.model),
                    ..c
                }
            }),
    {
        let mut cfg: AiConfig = match file {
            Some(c) => c,
            None => AiConfig::default(),
        };
        if let Some(v) = base_url {
            if !is_blank(&v) {
                cfg.base_url = v;
            }
        }
        if let Some(v) = api_key {
            if !is_blank(&v) {
                cfg.api_key = v;
            }
        }
        if let Some(v) = model {
            if !is_blank(&v) {
                cfg.model = v;
            }
        }
        cfg
    }

    /// Whether requests can be made.
    pub fn is_configured(&self) -> (r: bool)
        ensures
            r == self@.is_configured(),
    {
        if is_blank(&self.base_url) || is_blank(&self.model) {
            return false;
        }
        !is_blank(&self.api_key) || self.is_local()
    }

    /// Whether the endpoint is on this machine.
    pub fn is_local(&self) -> (r: bool)
        ensures
            r == self@.is_local(),
    {
        let cs: Vec<char> = chars_of(&self.base_url);
        let mut u: Vec<char> = Vec::new();
        let mut i: usize = 0;
        while i < cs.len()
            invariant
                0 <= i <= cs@.len(),
                u@ =~= ascii_lowered(cs@.take(i as int)),
            decreases cs@.len() - i,
        {
            u.push(lower(cs[i]));
            i = i + 1;
        }
        proof {
            assert(cs@.take(cs@.len() as int) =~= cs@);
        }
        holds(u.as_slice(), "localhost") || holds(u.as_slice(), "127.0.0.1") || holds(
            u.as_slice(),
            "0.0.0.0",
        )
    }

    /// Where requests go.
    pub fn chat_endpoint(&self) -> (r: String)
        ensures
            r@ == self@.chat_endpoint(),
    {
        let cs: Vec<char> = chars_of(&self.base_url);
        let mut out: Vec<char> = chars_of(&string_of(trim_run_end_chars(cs.as_slice(), '/')));
        extend_str(&mut out, "/chat/completions");
        string_of(out.as_slice())
    }

    /// The model that goes on at the cursor.
    pub fn completion_model(&self) -> (r: &str)
        ensures
            r@ == self@.model_for_completion(),
    {
        match &self.completion_model {
            Some(m) => m.as_str(),
            None => self.model.as_str(),
        }
    }
}

/// What the environment says, unless it is blank.
pub open spec fn chosen(said: Option<String>, kept: Seq<char>) -> Seq<char> {
    match said {
        Some(v) => if trim(v@).len() > 0 {
            v@
        } else {
            kept
        },
        None => kept,
    }
}

// ---------- presets ----------

pub open spec fn presets_model(v: Seq<(String, AiConfig)>) -> Seq<(Seq<char>, AiConfigModel)> {
    v.map_values(|p: (String, AiConfig)| (p.0@, p.1@))
}

/// The endpoints to choose from, each with the name it is shown under.
pub open spec fn preset_list() -> Seq<(Seq<char>, AiConfigModel)> {
    seq![
        (
            "Ollama 本地 (http://localhost:11434，免 key)"@,
            config_for("http://localhost:11434/v1"@, "qwen2.5"@),
        ),
        (
            "LM Studio 本地 (http://localhost:1234，免 key)"@,
            config_for("http://localhost:1234/v1"@, "local-model"@),
        ),
        ("DeepSeek (需 key)"@, config_for("https://api.deepseek.com/v1"@, "deepseek-chat"@)),
        ("OpenAI (需 key)"@, config_for("https://api.openai.com/v1"@, "gpt-4o-mini"@)),
        ("Moonshot (需 key)"@, config_for("https://api.moonshot.cn/v1"@, "moonshot-v1-8k"@)),
    ]
}

fn push_preset(v: &mut Vec<(String, AiConfig)>, name: &str, base_url: &str, model: &str)
    ensures
        presets_model(final(v)@) == presets_model(old(v)@).push(
            (name@, config_for(base_url@, model@)),
        ),
{
    let ghost before = v@;
    let c = endpoint(base_url, model);
    let ghost cm = c@;
    v.push((name.to_owned(), c));
    proof {
        assert(presets_model(v@) =~= presets_model(before).push((name@, cm)));
    }
}

/// The endpoints to choose from, each with the name it is shown under.
pub fn presets() -> (r: Vec<(String, AiConfig)>)
    ensures
        presets_model(r@) == preset_list(),
{
    let mut v: Vec<(String, AiConfig)> = Vec::new();
    proof {
        assert(presets_model(v@) =~= Seq::empty());
    }
    push_preset(
        &mut v,
        "Ollama 本地 (http://localhost:11434，免 key)",
        "http://localhost:11434/v1",
        "qwen2.5",
    );
    push_preset(
        &mut v,
        "LM Studio 本地 (http://localhost:1234，免 key)",
        "http://localhost:1234/v1",
        "local-model",
    );
    push_preset(&mut v, "DeepSeek (需 key)", "https://api.deepseek.com/v1", "deepseek-chat");
    push_preset(&mut v, "OpenAI (需 key)", "https://api.openai.com/v1", "gpt-4o-mini");
    push_preset(&mut v, "Moonshot (需 key)", "https://api.moonshot.cn/v1", "moonshot-v1-8k");
    proof {
        assert(presets_model(v@) =~= preset_list());
    }
    v
}

} // verus!
