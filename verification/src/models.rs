//! Data model of the completion protocol: conversation messages, prompts,
//! response events, and the failure taxonomy.

use vstd::prelude::*;

verus! {

/// Identifies which chat backend an adapter speaks to.
#[derive(Clone, Copy, Debug, PartialEq, Eq, Structural)]
pub enum BackendName {
    LangChain,
    Ollama,
    OpenAI,
    AzureAI,
}

/// Who produced a piece of conversation text.
#[derive(Clone, Copy, Debug, PartialEq, Eq, Structural)]
pub enum Author {
    User,
    Model,
}

/// Failure taxonomy of a completion call.
#[derive(Clone, Copy, Debug, PartialEq, Eq, Structural)]
pub enum BackendError {
    /// A required connection parameter (base URL, credential) is empty.
    ConfigurationError,
    /// Non-success HTTP status, or an I/O failure while reading the stream.
    TransportError,
    /// A structured payload line failed to parse.
    DecodeError,
    /// The event channel's receiver is gone.
    DeliveryError,
    /// The requested backend is not provided by this crate.
    UnsupportedBackendError,
}

/// One `{role, content}` record of the conversation history.
#[derive(Debug)]
pub struct MessageRequest {
    pub role: String,
    pub content: String,
}

/// Ghost image of a message: role and content as character sequences.
#[verifier::ext_equal]
pub struct MessageView {
    pub role: Seq<char>,
    pub content: Seq<char>,
}

impl View for MessageRequest {
    type V = MessageView;

    open spec fn view(&self) -> MessageView {
        MessageView { role: self.role@, content: self.content@ }
    }
}

/// A user prompt together with the serialized context of prior turns.
pub struct BackendPrompt {
    pub text: String,
    pub backend_context: String,
}

/// One event republished to the caller: either an incremental fragment
/// (`done == false`, one fragment in `text`), or the single terminal event
/// (`done == true`, empty `text`, updated serialized context).
pub struct BackendResponse {
    pub author: Author,
    pub text: String,
    pub done: bool,
    pub context: Option<String>,
}

/// What the adapter posts to the completion endpoint.
pub struct CompletionRequest {
    pub model: String,
    pub messages: Vec<MessageRequest>,
    pub stream: bool,
}

/// What travels over the event channel to the caller.
pub enum Event {
    BackendPromptResponse(BackendResponse),
}

/// Unwraps a received channel event into the response it carries.
pub fn to_res(action: Option<Event>) -> (r: Result<BackendResponse, BackendError>)
    requires
        action is Some,
    ensures
        r is Ok && action->0 == Event::BackendPromptResponse(r->Ok_0),
{
    match action {
        Some(Event::BackendPromptResponse(res)) => Ok(res),
        None => Err(BackendError::DeliveryError),
    }
}

/// Builds the body of a streaming completion request: the given messages,
/// the configured model, and streaming switched on.
pub fn build_request(model: String, messages: Vec<MessageRequest>) -> (r: CompletionRequest)
    ensures
        r.model == model,
        r.messages == messages,
        r.stream == true,
{
    CompletionRequest { model, messages, stream: true }
}

} // verus!
