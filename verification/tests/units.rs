use azureai_backend::build_request;
use azureai_backend::check_status;
use azureai_backend::decode_line;
use azureai_backend::parse_context;
use azureai_backend::serialize_context;
use azureai_backend::to_res;
use azureai_backend::AzureAI;
use azureai_backend::BackendConfig;
use azureai_backend::BackendError;
use azureai_backend::BackendManager;
use azureai_backend::BackendName;
use azureai_backend::BackendResponse;
use azureai_backend::Author;
use azureai_backend::Event;
use azureai_backend::LineFramer;
use azureai_backend::LineOutcome;
use azureai_backend::MessageRequest;

fn full_config() -> BackendConfig {
    BackendConfig {
        url: "http://localhost".to_string(),
        api_key: "key".to_string(),
        api_version: "2024-02-01".to_string(),
        deployment_id: "gpt-35-turbo".to_string(),
    }
}

fn msg(role: &str, content: &str) -> MessageRequest {
    MessageRequest { role: role.to_string(), content: content.to_string() }
}

#[test]
fn health_check_rejects_empty_credential() {
    let mut config = full_config();
    config.api_key = String::new();
    let backend = AzureAI::from_config(config);
    assert_eq!(backend.health_check().unwrap_err(), BackendError::ConfigurationError);
}

#[test]
fn health_check_rejects_empty_url() {
    let mut config = full_config();
    config.url = String::new();
    let backend = AzureAI::from_config(config);
    assert_eq!(backend.health_check().unwrap_err(), BackendError::ConfigurationError);
}

#[test]
fn health_check_accepts_full_config() {
    let backend = AzureAI::from_config(full_config());
    assert!(backend.health_check().is_ok());
}

#[test]
fn status_500_is_transport_error() {
    assert_eq!(check_status(500).unwrap_err(), BackendError::TransportError);
}

#[test]
fn status_boundaries() {
    assert!(check_status(200).is_ok());
    assert!(check_status(299).is_ok());
    assert_eq!(check_status(199).unwrap_err(), BackendError::TransportError);
    assert_eq!(check_status(300).unwrap_err(), BackendError::TransportError);
    assert_eq!(check_status(404).unwrap_err(), BackendError::TransportError);
}

#[test]
fn manager_resolves_azureai() {
    let adapter = BackendManager::get(BackendName::AzureAI, full_config()).unwrap();
    assert_eq!(adapter.url, "http://localhost");
    assert_eq!(adapter.api_key, "key");
    assert_eq!(adapter.api_version, "2024-02-01");
    assert_eq!(adapter.deployment_id, "gpt-35-turbo");
    assert_eq!(adapter.name(), BackendName::AzureAI);
}

#[test]
fn manager_rejects_other_backends() {
    assert_eq!(
        BackendManager::get(BackendName::Ollama, full_config()).unwrap_err(),
        BackendError::UnsupportedBackendError
    );
    assert_eq!(
        BackendManager::get(BackendName::OpenAI, full_config()).unwrap_err(),
        BackendError::UnsupportedBackendError
    );
    assert_eq!(
        BackendManager::get(BackendName::LangChain, full_config()).unwrap_err(),
        BackendError::UnsupportedBackendError
    );
}

#[test]
fn completion_url_is_assembled_from_config() {
    let backend = AzureAI::from_config(full_config());
    assert_eq!(
        backend.completion_url(),
        "http://localhost/openai/deployments/gpt-35-turbo/chat/completions?api-version=2024-02-01"
    );
}

#[test]
fn list_models_names_deployment_model() {
    let backend = AzureAI::from_config(full_config());
    assert_eq!(backend.list_models().unwrap(), vec!["gpt-35-turbo".to_string()]);
}

#[test]
fn to_res_unwraps_prompt_response() {
    let response = BackendResponse {
        author: Author::Model,
        text: "hi".to_string(),
        done: false,
        context: None,
    };
    let got = to_res(Some(Event::BackendPromptResponse(response))).unwrap();
    assert_eq!(got.text, "hi");
    assert_eq!(got.author, Author::Model);
}

#[test]
fn build_request_switches_streaming_on() {
    let req = build_request("gpt-35-turbo".to_string(), vec![msg("user", "hello")]);
    assert_eq!(req.model, "gpt-35-turbo");
    assert!(req.stream);
    assert_eq!(req.messages.len(), 1);
    assert_eq!(req.messages[0].role, "user");
    assert_eq!(req.messages[0].content, "hello");
}

#[test]
fn context_round_trip_plain() {
    let msgs = vec![msg("user", "hello"), msg("assistant", "hi there")];
    let blob = serialize_context(&msgs);
    let back = parse_context(&blob).unwrap();
    assert_eq!(back.len(), 2);
    assert_eq!(back[0].role, "user");
    assert_eq!(back[0].content, "hello");
    assert_eq!(back[1].role, "assistant");
    assert_eq!(back[1].content, "hi there");
}

#[test]
fn context_round_trip_tricky_content() {
    let msgs = vec![
        msg("user", "12:34: a colon-and-digit soup 5:6:7:"),
        msg("assistant", "line one\nline two\n"),
        msg("user", ""),
        msg("assistant", "snowman \u{2603} and accents \u{e9}\u{e8}"),
    ];
    let blob = serialize_context(&msgs);
    let back = parse_context(&blob).unwrap();
    assert_eq!(back.len(), 4);
    for (a, b) in msgs.iter().zip(back.iter()) {
        assert_eq!(a.role, b.role);
        assert_eq!(a.content, b.content);
    }
}

#[test]
fn serialize_empty_context_is_empty() {
    assert_eq!(serialize_context(&Vec::new()), "");
    assert!(parse_context("").unwrap().is_empty());
}

#[test]
fn parse_context_rejects_truncated_record() {
    assert_eq!(parse_context("4:user7:short").unwrap_err(), BackendError::DecodeError);
    assert_eq!(parse_context("4:user").unwrap_err(), BackendError::DecodeError);
    assert_eq!(parse_context(":").unwrap_err(), BackendError::DecodeError);
    assert_eq!(
        parse_context("99999999999999999999999999:x").unwrap_err(),
        BackendError::DecodeError
    );
}

#[test]
fn framer_buffers_across_chunk_boundaries() {
    let mut framer = LineFramer::new();
    let first = framer.feed(&b"par".to_vec());
    assert!(first.is_empty());
    let second = framer.feed(&b"tial\nnext\nrest".to_vec());
    assert_eq!(second, vec![b"partial".to_vec(), b"next".to_vec()]);
    assert_eq!(framer.remainder(), Some(b"rest".to_vec()));
}

#[test]
fn framer_remainder_empty_after_trailing_newline() {
    let mut framer = LineFramer::new();
    let lines = framer.feed(&b"a\nb\n".to_vec());
    assert_eq!(lines, vec![b"a".to_vec(), b"b".to_vec()]);
    assert_eq!(framer.remainder(), None);
}

#[test]
fn framer_keeps_empty_lines() {
    let mut framer = LineFramer::new();
    let lines = framer.feed(&b"\n\nx\n".to_vec());
    assert_eq!(lines, vec![b"".to_vec(), b"".to_vec(), b"x".to_vec()]);
    assert_eq!(framer.remainder(), None);
}

#[test]
fn decode_line_sentinel_matches_suffix() {
    assert!(matches!(decode_line(&b"data: [DONE]".to_vec()), Ok(LineOutcome::Stop)));
    assert!(matches!(decode_line(&b"[DONE]".to_vec()), Ok(LineOutcome::Stop)));
    assert!(matches!(decode_line(&b"  [DONE]  ".to_vec()), Ok(LineOutcome::Stop)));
    assert!(matches!(decode_line(&b"anything [DONE]".to_vec()), Ok(LineOutcome::Stop)));
}

#[test]
fn decode_line_extracts_first_choice_only() {
    let line = b"{\"choices\":[{\"delta\":{}},{\"delta\":{\"content\":\"X\"}}]}".to_vec();
    assert!(matches!(decode_line(&line), Ok(LineOutcome::Skip)));
    let line2 =
        b"{\"choices\":[{\"delta\":{\"content\":\"A\"}},{\"delta\":{\"content\":\"B\"}}]}".to_vec();
    match decode_line(&line2) {
        Ok(LineOutcome::Fragment(text)) => assert_eq!(text, "A"),
        other => panic!("expected the first choice's fragment, got {:?}", other.is_ok()),
    }
}

#[test]
fn decode_line_rejects_invalid_json() {
    assert_eq!(decode_line(&b"data: {oops".to_vec()).unwrap_err(), BackendError::DecodeError);
    assert_eq!(decode_line(&b"plain words".to_vec()).unwrap_err(), BackendError::DecodeError);
}

#[test]
fn decode_line_without_prefix_still_decodes() {
    let line = b"{\"choices\":[{\"delta\":{\"content\":\"bare\"}}]}".to_vec();
    match decode_line(&line) {
        Ok(LineOutcome::Fragment(text)) => assert_eq!(text, "bare"),
        _ => panic!("expected a fragment"),
    }
}
