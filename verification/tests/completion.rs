use azureai_backend::build_messages;
use azureai_backend::parse_context;
use azureai_backend::serialize_context;
use azureai_backend::Author;
use azureai_backend::AzureAI;
use azureai_backend::BackendConfig;
use azureai_backend::BackendError;
use azureai_backend::BackendPrompt;
use azureai_backend::MessageRequest;

fn config(url: &str, key: &str) -> BackendConfig {
    BackendConfig {
        url: url.to_string(),
        api_key: key.to_string(),
        api_version: "2024-02-01".to_string(),
        deployment_id: "gpt-35-turbo".to_string(),
    }
}

fn lines(texts: &[&str]) -> Vec<Vec<u8>> {
    texts.iter().map(|t| t.as_bytes().to_vec()).collect()
}

#[test]
fn completion_scenario_hello_world() {
    let backend = AzureAI::from_config(config("http://localhost", "key"));
    let prompt = BackendPrompt { text: "Hi".to_string(), backend_context: String::new() };
    let input = lines(&[
        "data: {\"choices\":[{\"delta\":{\"content\":\"Hello \"}}]}",
        "data: {\"choices\":[{\"delta\":{\"content\":\"World\"}}]}",
        "data: [DONE]",
    ]);
    let (events, outcome) = backend.completion_events(&prompt, &input);
    assert!(outcome.is_ok());
    assert_eq!(events.len(), 3);
    assert_eq!(events[0].text, "Hello ");
    assert!(!events[0].done);
    assert!(events[0].context.is_none());
    assert_eq!(events[1].text, "World");
    assert!(!events[1].done);
    let terminal = &events[2];
    assert!(terminal.done);
    assert_eq!(terminal.text, "");
    assert_eq!(terminal.author, Author::Model);
    let ctx = terminal.context.as_ref().expect("terminal event carries the context");
    let msgs = parse_context(ctx).expect("emitted context parses back");
    assert_eq!(msgs.len(), 2);
    assert_eq!(msgs[0].role, "user");
    assert_eq!(msgs[0].content, "Hi");
    assert_eq!(msgs[1].role, "assistant");
    assert_eq!(msgs[1].content, "Hello World");
}

#[test]
fn fragments_concat_matches_assistant_message() {
    let backend = AzureAI::from_config(config("http://localhost", "key"));
    let prompt = BackendPrompt { text: "count".to_string(), backend_context: String::new() };
    let input = lines(&[
        "data: {\"choices\":[{\"delta\":{\"content\":\"one \"}}]}",
        "",
        "data: {\"choices\":[{\"delta\":{\"content\":\"two \"}}]}",
        "data: {\"choices\":[{\"delta\":{}}]}",
        "data: {\"choices\":[{\"delta\":{\"content\":\"three\"}}]}",
        "data: [DONE]",
    ]);
    let (events, outcome) = backend.completion_events(&prompt, &input);
    assert!(outcome.is_ok());
    let concatenated: String =
        events.iter().filter(|e| !e.done).map(|e| e.text.clone()).collect();
    let terminal = events.last().unwrap();
    let msgs = parse_context(terminal.context.as_ref().unwrap()).unwrap();
    assert_eq!(msgs.last().unwrap().role, "assistant");
    assert_eq!(msgs.last().unwrap().content, concatenated);
    assert_eq!(concatenated, "one two three");
}

#[test]
fn single_terminal_event_on_success() {
    let backend = AzureAI::from_config(config("http://localhost", "key"));
    let prompt = BackendPrompt { text: "q".to_string(), backend_context: String::new() };
    let input = lines(&[
        "data: {\"choices\":[{\"delta\":{\"content\":\"a\"}}]}",
        "data: [DONE]",
    ]);
    let (events, outcome) = backend.completion_events(&prompt, &input);
    assert!(outcome.is_ok());
    let terminal_count = events.iter().filter(|e| e.done).count();
    assert_eq!(terminal_count, 1);
    assert!(events.last().unwrap().done);
}

#[test]
fn no_terminal_event_on_decode_error() {
    let backend = AzureAI::from_config(config("http://localhost", "key"));
    let prompt = BackendPrompt { text: "q".to_string(), backend_context: String::new() };
    let input = lines(&[
        "data: {\"choices\":[{\"delta\":{\"content\":\"partial\"}}]}",
        "data: {not json",
        "data: {\"choices\":[{\"delta\":{\"content\":\"never seen\"}}]}",
    ]);
    let (events, outcome) = backend.completion_events(&prompt, &input);
    assert_eq!(outcome, Err(BackendError::DecodeError));
    assert_eq!(events.len(), 1);
    assert_eq!(events[0].text, "partial");
    assert!(events.iter().all(|e| !e.done));
}

#[test]
fn blank_lines_are_skipped() {
    let backend = AzureAI::from_config(config("http://localhost", "key"));
    let prompt = BackendPrompt { text: "q".to_string(), backend_context: String::new() };
    let input = lines(&[
        "",
        "   ",
        "data:",
        "data:    ",
        "data: {\"choices\":[{\"delta\":{\"content\":\"only\"}}]}",
        "data: [DONE]",
    ]);
    let (events, outcome) = backend.completion_events(&prompt, &input);
    assert!(outcome.is_ok());
    assert_eq!(events.len(), 2);
    assert_eq!(events[0].text, "only");
}

#[test]
fn empty_fragment_not_emitted() {
    let backend = AzureAI::from_config(config("http://localhost", "key"));
    let prompt = BackendPrompt { text: "q".to_string(), backend_context: String::new() };
    let input = lines(&[
        "data: {\"choices\":[{\"delta\":{\"content\":\"\"}}]}",
        "data: {\"choices\":[]}",
        "data: [DONE]",
    ]);
    let (events, outcome) = backend.completion_events(&prompt, &input);
    assert!(outcome.is_ok());
    assert_eq!(events.len(), 1);
    assert!(events[0].done);
}

#[test]
fn sentinel_stops_further_consumption() {
    let backend = AzureAI::from_config(config("http://localhost", "key"));
    let prompt = BackendPrompt { text: "q".to_string(), backend_context: String::new() };
    let input = lines(&[
        "data: {\"choices\":[{\"delta\":{\"content\":\"done\"}}]}",
        "data: [DONE]",
        "data: {utterly broken",
        "data: {\"choices\":[{\"delta\":{\"content\":\"after the end\"}}]}",
    ]);
    let (events, outcome) = backend.completion_events(&prompt, &input);
    assert!(outcome.is_ok());
    assert_eq!(events.len(), 2);
    assert_eq!(events[0].text, "done");
    assert!(events[1].done);
}

#[test]
fn bare_sentinel_without_prefix_stops() {
    let backend = AzureAI::from_config(config("http://localhost", "key"));
    let prompt = BackendPrompt { text: "q".to_string(), backend_context: String::new() };
    let input = lines(&["[DONE]", "data: {broken"]);
    let (events, outcome) = backend.completion_events(&prompt, &input);
    assert!(outcome.is_ok());
    assert_eq!(events.len(), 1);
    assert!(events[0].done);
}

#[test]
fn transport_failure_emits_nothing() {
    let backend = AzureAI::from_config(config("http://localhost", "key"));
    let prompt = BackendPrompt { text: "q".to_string(), backend_context: String::new() };
    let input = lines(&[
        "data: {\"choices\":[{\"delta\":{\"content\":\"never delivered\"}}]}",
        "data: [DONE]",
    ]);
    let (events, outcome) = backend.completion_call(&prompt, 500, &input);
    assert!(events.is_empty());
    assert_eq!(outcome, Err(BackendError::TransportError));

    let (events_ok, outcome_ok) = backend.completion_call(&prompt, 200, &input);
    assert!(outcome_ok.is_ok());
    assert_eq!(events_ok.len(), 2);
    assert_eq!(events_ok[0].text, "never delivered");
}

#[test]
fn prior_context_round_trips_into_next_request() {
    let prior = vec![
        MessageRequest { role: "assistant".to_string(), content: "How may I help you?".to_string() },
    ];
    let serialized = serialize_context(&prior);
    let prompt = BackendPrompt {
        text: "Say hi to the world".to_string(),
        backend_context: serialized,
    };
    let messages = build_messages(&prompt).expect("a previously emitted context is accepted");
    assert_eq!(messages.len(), 2);
    assert_eq!(messages[0].role, "assistant");
    assert_eq!(messages[0].content, "How may I help you?");
    assert_eq!(messages[1].role, "user");
    assert_eq!(messages[1].content, "Say hi to the world");
}

#[test]
fn emitted_context_feeds_second_call() {
    let backend = AzureAI::from_config(config("http://localhost", "key"));
    let first_prompt = BackendPrompt { text: "Hi".to_string(), backend_context: String::new() };
    let first_input = lines(&[
        "data: {\"choices\":[{\"delta\":{\"content\":\"Hello!\"}}]}",
        "data: [DONE]",
    ]);
    let (first_events, _) = backend.completion_events(&first_prompt, &first_input);
    let emitted = first_events.last().unwrap().context.clone().unwrap();

    let second_prompt = BackendPrompt {
        text: "And again".to_string(),
        backend_context: emitted,
    };
    let messages = build_messages(&second_prompt).unwrap();
    assert_eq!(messages.len(), 3);
    assert_eq!(messages[0].role, "user");
    assert_eq!(messages[0].content, "Hi");
    assert_eq!(messages[1].role, "assistant");
    assert_eq!(messages[1].content, "Hello!");
    assert_eq!(messages[2].role, "user");
    assert_eq!(messages[2].content, "And again");
}

#[test]
fn empty_context_yields_user_message_only() {
    let prompt = BackendPrompt { text: "first".to_string(), backend_context: String::new() };
    let messages = build_messages(&prompt).unwrap();
    assert_eq!(messages.len(), 1);
    assert_eq!(messages[0].role, "user");
    assert_eq!(messages[0].content, "first");
}

#[test]
fn malformed_context_is_rejected() {
    let prompt = BackendPrompt {
        text: "q".to_string(),
        backend_context: "no such framing".to_string(),
    };
    assert_eq!(build_messages(&prompt).unwrap_err(), BackendError::DecodeError);
}
