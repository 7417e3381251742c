//! Message, conversation and request/response types of the chat front end
//! that stores its long-term memory in the embedding store.
//!
//! These are plain data carriers; their serialized forms and database rows
//! are handled by the unverified shell around the library.

use vstd::prelude::*;
use vstd::string::StringExecFns;

use crate::text::{render_i64_string, str_eq};

verus! {

/// The role a message was written in.
#[derive(Clone, Copy, Debug, PartialEq, Eq, Structural)]
pub enum MessageType {
    System,
    User,
    Assistant,
    Developer,
}

/// The numeric id a message type is stored under.
///
/// `Assistant` and `Developer` share an id: developer messages are stored
/// as assistant rows, and id `2` always reads back as `Assistant`.
pub open spec fn message_type_id(t: MessageType) -> int {
    match t {
        MessageType::System => 0,
        MessageType::User => 1,
        MessageType::Assistant => 2,
        MessageType::Developer => 2,
    }
}

/// The wire label of a message type.
pub open spec fn message_type_label(t: MessageType) -> Seq<char> {
    match t {
        MessageType::System => "system"@,
        MessageType::User => "user"@,
        MessageType::Assistant => "assistant"@,
        MessageType::Developer => "developer"@,
    }
}

impl MessageType {
    /// The wire label of this message type.
    pub fn to_string(&self) -> (r: String)
        ensures
            r@ == message_type_label(*self),
    {
        match self {
            MessageType::System => "system".to_owned(),
            MessageType::User => "user".to_owned(),
            MessageType::Assistant => "assistant".to_owned(),
            MessageType::Developer => "developer".to_owned(),
        }
    }

    /// The numeric id this message type is stored under.
    pub fn id(&self) -> (r: i64)
        ensures
            r == message_type_id(*self),
    {
        match self {
            MessageType::System => 0,
            MessageType::User => 1,
            MessageType::Assistant => 2,
            MessageType::Developer => 2,
        }
    }

    /// The message type stored under a numeric id; ids outside `0..=3` are
    /// rejected.
    pub fn from_id(id: i64) -> (r: Result<Self, String>)
        ensures
            match r {
                Ok(t) => (id == 0 && t == MessageType::System) || (id == 1 && t
                    == MessageType::User) || (id == 2 && t == MessageType::Assistant) || (id == 3
                    && t == MessageType::Developer),
                Err(_) => !(0 <= id <= 3),
            },
    {
        match id {
            0 => Ok(MessageType::System),
            1 => Ok(MessageType::User),
            2 => Ok(MessageType::Assistant),
            3 => Ok(MessageType::Developer),
            _ => {
                let mut msg = "Invalid message type: ".to_owned();
                msg.append(render_i64_string(id).as_str());
                Err(msg)
            },
        }
    }
}

/// A provider together with one of its models.
#[derive(Clone, Copy, Debug, PartialEq, Eq, Structural)]
pub enum API {
    OpenAI(OpenAIModel),
    Groq(GroqModel),
    Anthropic(AnthropicModel),
}

#[derive(Clone, Copy, Debug, PartialEq, Eq, Structural)]
pub enum OpenAIModel {
    GPT4o,
    GPT4oMini,
    O1Preview,
    O1Mini,
}

#[derive(Clone, Copy, Debug, PartialEq, Eq, Structural)]
pub enum GroqModel {
    LLaMA70B,
}

#[derive(Clone, Copy, Debug, PartialEq, Eq, Structural)]
pub enum AnthropicModel {
    Claude3Opus,
    Claude3Sonnet,
    Claude3Haiku,
    Claude35Sonnet,
    Claude37Sonnet,
    Claude35Haiku,
}

/// The `(provider, model)` string pair an API value is written as.
///
/// The model labels are this crate's own stand-ins, not the providers'
/// dated model strings; a store persisted with other labels must be
/// migrated.  `Claude37Sonnet` deliberately writes the same label as
/// `Claude35Sonnet`, mirroring how the two are served interchangeably.
pub open spec fn api_labels(a: API) -> (Seq<char>, Seq<char>) {
    match a {
        API::OpenAI(m) => (
            "openai"@,
            match m {
                OpenAIModel::GPT4o => "gpt-4o"@,
                OpenAIModel::GPT4oMini => "gpt-4o-mini"@,
                OpenAIModel::O1Preview => "o1-preview"@,
                OpenAIModel::O1Mini => "o1-mini"@,
            },
        ),
        API::Groq(m) => (
            "groq"@,
            match m {
                GroqModel::LLaMA70B => "llama3-70b-8192"@,
            },
        ),
        API::Anthropic(m) => (
            "anthropic"@,
            match m {
                AnthropicModel::Claude3Opus => "anthropic-opus-3"@,
                AnthropicModel::Claude3Sonnet => "anthropic-sonnet-3"@,
                AnthropicModel::Claude3Haiku => "anthropic-haiku-3"@,
                AnthropicModel::Claude35Sonnet => "anthropic-sonnet-3-5"@,
                AnthropicModel::Claude37Sonnet => "anthropic-sonnet-3-5"@,
                AnthropicModel::Claude35Haiku => "anthropic-haiku-3-5"@,
            },
        ),
    }
}

/// The API value parsed from a `(provider, model)` string pair.
///
/// `Claude37Sonnet` is never parsed: its wire form reads back as
/// `Claude35Sonnet`.
pub open spec fn api_of_labels(p: Seq<char>, m: Seq<char>) -> Option<API> {
    if p == "openai"@ {
        if m == "gpt-4o"@ {
            Some(API::OpenAI(OpenAIModel::GPT4o))
        } else if m == "gpt-4o-mini"@ {
            Some(API::OpenAI(OpenAIModel::GPT4oMini))
        } else if m == "o1-preview"@ {
            Some(API::OpenAI(OpenAIModel::O1Preview))
        } else if m == "o1-mini"@ {
            Some(API::OpenAI(OpenAIModel::O1Mini))
        } else {
            None
        }
    } else if p == "groq"@ {
        if m == "llama3-70b-8192"@ {
            Some(API::Groq(GroqModel::LLaMA70B))
        } else {
            None
        }
    } else if p == "anthropic"@ {
        if m == "anthropic-opus-3"@ {
            Some(API::Anthropic(AnthropicModel::Claude3Opus))
        } else if m == "anthropic-sonnet-3"@ {
            Some(API::Anthropic(AnthropicModel::Claude3Sonnet))
        } else if m == "anthropic-haiku-3"@ {
            Some(API::Anthropic(AnthropicModel::Claude3Haiku))
        } else if m == "anthropic-sonnet-3-5"@ {
            Some(API::Anthropic(AnthropicModel::Claude35Sonnet))
        } else if m == "anthropic-haiku-3-5"@ {
            Some(API::Anthropic(AnthropicModel::Claude35Haiku))
        } else {
            None
        }
    } else {
        None
    }
}

impl API {
    /// Parse a `(provider, model)` string pair.
    pub fn from_strings(provider: &str, model: &str) -> (r: Result<Self, String>)
        ensures
            match r {
                Ok(a) => api_of_labels(provider@, model@) == Some(a),
                Err(m) => api_of_labels(provider@, model@) is None && m@ == (
                if provider@ == "openai"@ {
                    "Unknown OpenAI model: "@ + model@
                } else if provider@ == "groq"@ {
                    "Unknown Groq model: "@ + model@
                } else if provider@ == "anthropic"@ {
                    "Unknown Anthropic model: "@ + model@
                } else {
                    "Unknown provider: "@ + provider@
                }),
            },
    {
        if str_eq(provider, "openai") {
            if str_eq(model, "gpt-4o") {
                Ok(API::OpenAI(OpenAIModel::GPT4o))
            } else if str_eq(model, "gpt-4o-mini") {
                Ok(API::OpenAI(OpenAIModel::GPT4oMini))
            } else if str_eq(model, "o1-preview") {
                Ok(API::OpenAI(OpenAIModel::O1Preview))
            } else if str_eq(model, "o1-mini") {
                Ok(API::OpenAI(OpenAIModel::O1Mini))
            } else {
                let mut msg = "Unknown OpenAI model: ".to_owned();
                msg.append(model);
                Err(msg)
            }
        } else if str_eq(provider, "groq") {
            if str_eq(model, "llama3-70b-8192") {
                Ok(API::Groq(GroqModel::LLaMA70B))
            } else {
                let mut msg = "Unknown Groq model: ".to_owned();
                msg.append(model);
                Err(msg)
            }
        } else if str_eq(provider, "anthropic") {
            if str_eq(model, "anthropic-opus-3") {
                Ok(API::Anthropic(AnthropicModel::Claude3Opus))
            } else if str_eq(model, "anthropic-sonnet-3") {
                Ok(API::Anthropic(AnthropicModel::Claude3Sonnet))
            } else if str_eq(model, "anthropic-haiku-3") {
                Ok(API::Anthropic(AnthropicModel::Claude3Haiku))
            } else if str_eq(model, "anthropic-sonnet-3-5") {
                Ok(API::Anthropic(AnthropicModel::Claude35Sonnet))
            } else if str_eq(model, "anthropic-haiku-3-5") {
                Ok(API::Anthropic(AnthropicModel::Claude35Haiku))
            } else {
                let mut msg = "Unknown Anthropic model: ".to_owned();
                msg.append(model);
                Err(msg)
            }
        } else {
            let mut msg = "Unknown provider: ".to_owned();
            msg.append(provider);
            Err(msg)
        }
    }

    /// The `(provider, model)` string pair of this API value.
    pub fn to_strings(&self) -> (r: (String, String))
        ensures
            r.0@ == api_labels(*self).0,
            r.1@ == api_labels(*self).1,
    {
        match self {
            API::OpenAI(model) => {
                let model_str = match model {
                    OpenAIModel::GPT4o => "gpt-4o",
                    OpenAIModel::GPT4oMini => "gpt-4o-mini",
                    OpenAIModel::O1Preview => "o1-preview",
                    OpenAIModel::O1Mini => "o1-mini",
                };
                ("openai".to_owned(), model_str.to_owned())
            },
            API::Groq(model) => {
                let model_str = match model {
                    GroqModel::LLaMA70B => "llama3-70b-8192",
                };
                ("groq".to_owned(), model_str.to_owned())
            },
            API::Anthropic(model) => {
                let model_str = match model {
                    AnthropicModel::Claude3Opus => "anthropic-opus-3",
                    AnthropicModel::Claude3Sonnet => "anthropic-sonnet-3",
                    AnthropicModel::Claude3Haiku => "anthropic-haiku-3",
                    AnthropicModel::Claude35Sonnet => "anthropic-sonnet-3-5",
                    AnthropicModel::Claude37Sonnet => "anthropic-sonnet-3-5",
                    AnthropicModel::Claude35Haiku => "anthropic-haiku-3-5",
                };
                ("anthropic".to_owned(), model_str.to_owned())
            },
        }
    }
}

/// One chat message.
#[derive(Debug)]
pub struct Message {
    pub id: Option<i64>,
    pub message_type: MessageType,
    pub content: String,
    pub api: API,
    pub system_prompt: String,
    pub sequence: i32,
    pub date_created: String,
}

impl Message {
    /// An owned copy equal to this message.
    pub fn duplicate(&self) -> (r: Message)
        ensures
            r == *self,
    {
        Message {
            id: self.id,
            message_type: self.message_type,
            content: self.content.clone(),
            api: self.api,
            system_prompt: self.system_prompt.clone(),
            sequence: self.sequence,
            date_created: self.date_created.clone(),
        }
    }
}

/// A named sequence of messages.
#[derive(Debug)]
pub struct Conversation {
    pub id: Option<i64>,
    pub name: String,
    pub messages: Vec<Message>,
}

#[derive(Debug)]
pub struct ConversationList {
    pub conversations: Vec<Conversation>,
}

#[derive(Debug)]
pub struct LoadConversation {
    pub id: i64,
}

#[derive(Debug)]
pub struct Ping {
    pub body: String,
}

#[derive(Debug)]
pub struct Fork {
    pub conversation_id: i64,
    pub sequence: i64,
}

#[derive(Debug)]
pub struct APIKeys {
    pub openai: String,
    pub groq: String,
    pub grok: String,
    pub anthropic: String,
    pub gemini: String,
}

/// The user's configured settings and secrets.
#[derive(Debug)]
pub struct UserConfig {
    pub write: bool,
    pub api_keys: APIKeys,
    pub system_prompt: String,
}

#[derive(Debug)]
pub struct Preview {
    pub conversation_id: i64,
    pub content: String,
}

#[derive(Debug)]
pub struct DeleteConversation {
    pub conversation_id: i64,
}

#[derive(Debug)]
pub struct UsageRequest {
    pub conversation_id: Option<i64>,
    pub api: API,
    pub date_from: String,
    pub date_to: String,
}

/// The body of a request, by kind.
#[derive(Debug)]
pub enum RequestPayload {
    Ping(Ping),
    Completion(Conversation),
    ConversationList,
    Load(LoadConversation),
    Fork(Fork),
    Config(UserConfig),
    Preview(Preview),
    DeleteConversation(DeleteConversation),
    Usage(UsageRequest),
}

/// A tagged request: a correlation id plus the payload for its method.
#[derive(Debug)]
pub enum ArrakisRequest {
    Ping { id: String, payload: Ping },
    Completion { id: String, payload: Conversation },
    ConversationList { id: String },
    Load { id: String, payload: LoadConversation },
    Fork { id: String, payload: Fork },
    Config { id: String, payload: UserConfig },
    WilliamError { id: String, payload: WilliamError },
    Preview { id: String, payload: Preview },
    DeleteConversation { id: String, payload: DeleteConversation },
    Usage { id: String, payload: UsageRequest },
}

/// The body of a response, by kind.
#[derive(Debug)]
pub enum ResponsePayload {
    Ping(Ping),
    Completion(Completion),
    CompletionEnd(SystemPrompt),
    ConversationList(ConversationList),
    Load(Conversation),
    Config(UserConfig),
    WilliamError(WilliamError),
    Preview(Preview),
}

#[derive(Debug)]
pub struct WilliamError {
    pub error_type: String,
    pub message: String,
}

#[derive(Debug)]
pub struct SystemPrompt {
    pub content: String,
}

/// One streamed completion delta.
#[derive(Debug)]
pub struct Completion {
    pub stream: bool,
    pub delta: String,
    pub name: String,
    pub conversation_id: i64,
    pub request_id: i64,
    pub response_id: i64,
}

#[derive(Debug)]
pub struct TokenUsage {
    pub input_tokens: usize,
    pub output_tokens: usize,
}

/// Token usage per model label, one entry per date.
#[derive(Debug)]
pub struct UsageResponse {
    pub token_usage: Vec<Vec<(String, TokenUsage)>>,
    pub dates: Vec<String>,
}

/// A tagged response: a correlation id plus the payload for its method.
#[derive(Debug)]
pub enum ArrakisResponse {
    Ping { id: String, payload: Ping },
    Completion { id: String, payload: Completion },
    CompletionEnd { id: String, payload: SystemPrompt },
    ConversationList { id: String, payload: ConversationList },
    Load { id: String, payload: Conversation },
    Config { id: String, payload: UserConfig },
    WilliamError { id: String, payload: WilliamError },
    Preview { id: String, payload: Preview },
    Usage { id: String, payload: UsageResponse },
}

/// A top-k search request against the embedding store.
#[derive(Debug)]
pub struct DeweyRequest {
    pub k: usize,
    pub query: String,
    pub filters: Vec<String>,
}

#[derive(Debug)]
pub struct DeweyResponseItem {
    pub filepath: String,
    pub subset: (u64, u64),
}

#[derive(Debug)]
pub struct DeweyResponse {
    pub results: Vec<DeweyResponseItem>,
}

/// Everything needed to issue one completion request upstream.
#[derive(Debug)]
pub struct RequestParams {
    pub provider: String,
    pub host: String,
    pub path: String,
    pub port: u16,
    pub messages: Vec<Message>,
    pub model: String,
    pub stream: bool,
    pub authorization_token: String,
    pub max_tokens: Option<u16>,
    pub system_prompt: Option<String>,
}

} // verus!
