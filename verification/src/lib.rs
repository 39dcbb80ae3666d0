//! Streaming chat-completion backend: decodes a line-delimited response
//! stream into ordered incremental text fragments and a final serialized
//! conversation context.

pub mod azureai;
pub mod context;
pub mod decode;
pub mod framer;
pub mod models;
pub mod stream;

pub use azureai::check_status;
pub use azureai::build_messages;
pub use context::parse_context;
pub use context::serialize_context;
pub use decode::decode_line;
pub use decode::LineOutcome;
pub use models::build_request;
pub use azureai::AzureAI;
pub use azureai::BackendConfig;
pub use azureai::BackendManager;
pub use framer::LineFramer;
pub use stream::process_lines;
pub use stream::StreamDecoder;
pub use models::Author;
pub use models::BackendError;
pub use models::BackendName;
pub use models::BackendPrompt;
pub use models::BackendResponse;
pub use models::CompletionRequest;
pub use models::Event;
pub use models::MessageRequest;
pub use models::MessageView;
pub use models::to_res;
