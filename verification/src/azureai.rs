//! The Azure AI chat-completion adapter and the backend selector.

use vstd::prelude::*;
use vstd::string::StrSliceExecFns;
use vstd::string::StringExecFns;

use crate::context::ctx_parse;
use crate::context::ctx_ser;
use crate::context::parse_context;
use crate::models::Author;
use crate::models::BackendError;
use crate::models::BackendName;
use crate::models::BackendPrompt;
use crate::models::BackendResponse;
use crate::models::MessageRequest;
use crate::models::MessageView;
use crate::stream::events_follow_run;
use crate::stream::process_lines;
use crate::stream::run_spec;

verus! {

/// Connection parameters an adapter is constructed from, sourced once by the
/// caller (for this backend: base URL, API credential, API version and
/// deployment identifier).
pub struct BackendConfig {
    pub url: String,
    pub api_key: String,
    pub api_version: String,
    pub deployment_id: String,
}

/// The Azure AI adapter: one backend implementation of the completion
/// capability.
#[derive(Debug)]
pub struct AzureAI {
    pub url: String,
    pub api_key: String,
    pub api_version: String,
    pub deployment_id: String,
}

/// Decides from the HTTP status whether the response stream may be decoded:
/// only a success status (2xx) may.
pub fn check_status(status: u16) -> (r: Result<(), BackendError>)
    ensures
        r is Ok <==> 200 <= status < 300,
        r is Err ==> r->Err_0 == BackendError::TransportError,
{
    if 200 <= status && status < 300 {
        Ok(())
    } else {
        Err(BackendError::TransportError)
    }
}

/// Builds the request messages for one call: the prior context's messages,
/// in their original order, with the new user message appended last. A prior
/// context this adapter did not emit is rejected as a decode error.
pub fn build_messages(prompt: &BackendPrompt) -> (r: Result<Vec<MessageRequest>, BackendError>)
    ensures
        match ctx_parse(prompt.backend_context@) {
            Some(ms) => r matches Ok(v) && v@.map_values(|m: MessageRequest| m@) == ms.push(
                MessageView { role: "user"@, content: prompt.text@ },
            ),
            None => r matches Err(e) && e == BackendError::DecodeError,
        },
{
    let mut messages = match parse_context(prompt.backend_context.as_str()) {
        Ok(v) => v,
        Err(e) => {
            return Err(e);
        },
    };
    let ghost prior: Seq<MessageView> = messages@.map_values(|m: MessageRequest| m@);
    messages.push(MessageRequest { role: String::from_str("user"), content: prompt.text.clone() });
    proof {
        assert(messages@.map_values(|m: MessageRequest| m@) =~= prior.push(
            MessageView { role: "user"@, content: prompt.text@ },
        ));
    }
    Ok(messages)
}

impl AzureAI {
    pub fn from_config(config: BackendConfig) -> (r: Self)
        ensures
            r.url == config.url,
            r.api_key == config.api_key,
            r.api_version == config.api_version,
            r.deployment_id == config.deployment_id,
    {
        AzureAI {
            url: config.url,
            api_key: config.api_key,
            api_version: config.api_version,
            deployment_id: config.deployment_id,
        }
    }

    pub fn name(&self) -> (r: BackendName)
        ensures
            r == BackendName::AzureAI,
    {
        BackendName::AzureAI
    }

    /// Validates the minimum required configuration before any network
    /// activity: the base URL and the credential must be non-empty.
    pub fn health_check(&self) -> (r: Result<(), BackendError>)
        ensures
            r is Ok <==> (self.url@.len() > 0 && self.api_key@.len() > 0),
            r is Err ==> r->Err_0 == BackendError::ConfigurationError,
    {
        if self.url.as_str().is_empty() {
            return Err(BackendError::ConfigurationError);
        }
        if self.api_key.as_str().is_empty() {
            return Err(BackendError::ConfigurationError);
        }
        Ok(())
    }

    /// The completion endpoint for this adapter's deployment and API
    /// version, under the configured base URL.
    pub fn completion_url(&self) -> (r: String)
        ensures
            r@ == self.url@ + "/openai/deployments/"@ + self.deployment_id@
                + "/chat/completions?api-version="@ + self.api_version@,
    {
        let mut url = self.url.clone();
        url.append("/openai/deployments/");
        url.append(self.deployment_id.as_str());
        url.append("/chat/completions?api-version=");
        url.append(self.api_version.as_str());
        url
    }

    /// The models this adapter offers.
    pub fn list_models(&self) -> (r: Result<Vec<String>, BackendError>)
        ensures
            r matches Ok(v) && v@.len() == 1 && v@[0]@ == "gpt-35-turbo"@,
    {
        let mut models: Vec<String> = Vec::new();
        models.push(String::from_str("gpt-35-turbo"));
        Ok(models)
    }

    /// The completion pipeline after transport: builds the messages from the
    /// prompt, then consumes the framed response lines, returning every
    /// event the call emits, in emission order, with the call's outcome.
    pub fn completion_events(&self, prompt: &BackendPrompt, lines: &Vec<Vec<u8>>) -> (r: (
        Vec<BackendResponse>,
        Result<(), BackendError>,
    ))
        ensures
            ctx_parse(prompt.backend_context@) is None ==> (r.0@.len() == 0 && (r.1 matches Err(e)
                && e == BackendError::DecodeError)),
            ctx_parse(prompt.backend_context@) matches Some(ms) ==> events_follow_run(
                r.0@,
                r.1,
                ms.push(MessageView { role: "user"@, content: prompt.text@ }),
                run_spec(lines@.map_values(|l: Vec<u8>| l@)),
            ),
    {
        let messages = match build_messages(prompt) {
            Ok(v) => v,
            Err(e) => {
                return (Vec::new(), Err(e));
            },
        };
        process_lines(messages, lines)
    }

    /// One whole completion call after the HTTP exchange: a non-success
    /// status fails with a transport error before anything is decoded, so
    /// zero events are emitted; a success status decodes the framed body
    /// lines.
    pub fn completion_call(&self, prompt: &BackendPrompt, status: u16, lines: &Vec<Vec<u8>>) -> (r:
        (Vec<BackendResponse>, Result<(), BackendError>))
        ensures
            !(200 <= status < 300) ==> (r.0@.len() == 0 && (r.1 matches Err(e) && e
                == BackendError::TransportError)),
            (200 <= status < 300) && ctx_parse(prompt.backend_context@) is None ==> (r.0@.len()
                == 0 && (r.1 matches Err(e) && e == BackendError::DecodeError)),
            (200 <= status < 300) ==> (ctx_parse(prompt.backend_context@) matches Some(ms)
                ==> events_follow_run(
                r.0@,
                r.1,
                ms.push(MessageView { role: "user"@, content: prompt.text@ }),
                run_spec(lines@.map_values(|l: Vec<u8>| l@)),
            )),
    {
        match check_status(status) {
            Err(e) => (Vec::new(), Err(e)),
            Ok(()) => self.completion_events(prompt, lines),
        }
    }
}

/// The backend selector: maps a backend name to a configured adapter. This
/// crate provides the Azure AI adapter; resolving any other name fails.
pub struct BackendManager {}

impl BackendManager {
    pub fn get(name: BackendName, config: BackendConfig) -> (r: Result<AzureAI, BackendError>)
        ensures
            (r is Ok) == (name == BackendName::AzureAI),
            r matches Ok(a) ==> (a.url == config.url && a.api_key == config.api_key
                && a.api_version == config.api_version && a.deployment_id == config.deployment_id),
            r is Err ==> r->Err_0 == BackendError::UnsupportedBackendError,
    {
        match name {
            BackendName::AzureAI => Ok(AzureAI::from_config(config)),
            _ => Err(BackendError::UnsupportedBackendError),
        }
    }
}

} // verus!
