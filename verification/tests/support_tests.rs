use hinata_core::escaping::{escape, unescape};
use hinata_core::msg::{ApiRequest, GenArgs, LlmConfig, Message, Role};
use hinata_core::provider::{endpoint_url, find_provider, split_model_name};

#[test]
fn escape_marks_tag_lines_and_unescape_removes_the_mark() {
    assert_eq!(escape("<hnt-user>"), "\\<hnt-user>");
    assert_eq!(unescape("\\<hnt-user>"), "<hnt-user>");
    assert_eq!(escape("\\<hnt-system>"), "\\\\<hnt-system>");
    assert_eq!(unescape("\\\\<hnt-system>"), "\\<hnt-system>");
}

#[test]
fn ordinary_lines_pass_through_the_codec() {
    assert_eq!(escape("hello <hnt-user> inline"), "hello <hnt-user> inline");
    assert_eq!(unescape("plain text"), "plain text");
    assert_eq!(unescape("\\not a tag"), "\\not a tag");
}

#[test]
fn codec_round_trips_multiline_text() {
    let text = "a line\n<hnt-system>\nmore\n\\</hnt-user>\n";
    assert_eq!(unescape(&escape(text)), text);
}

#[test]
fn known_providers_resolve() {
    let p = find_provider("openai").unwrap();
    assert_eq!(p.name, "openai");
    assert_eq!(p.api_url, "https://api.openai.com/v1/chat/completions");
    assert_eq!(p.env_var, "OPENAI_API_KEY");
    assert!(p.extra_headers.is_empty());

    let p = find_provider("openrouter").unwrap();
    assert_eq!(p.env_var, "OPENROUTER_API_KEY");
    assert_eq!(p.extra_headers.len(), 2);
    assert_eq!(p.extra_headers[0].0, "HTTP-Referer");

    assert_eq!(find_provider("deepseek").unwrap().env_var, "DEEPSEEK_API_KEY");
    assert_eq!(find_provider("google").unwrap().env_var, "GOOGLE_API_KEY");
}

#[test]
fn unknown_provider_is_none() {
    assert!(find_provider("nonesuch").is_none());
}

#[test]
fn model_identifier_splits_at_first_slash() {
    let (provider, model) = split_model_name("openai/gpt-4o");
    assert_eq!(provider, "openai");
    assert_eq!(model, "gpt-4o");

    let (provider, model) = split_model_name("openrouter/deepseek/deepseek-chat-v3-0324:free");
    assert_eq!(provider, "openrouter");
    assert_eq!(model, "deepseek/deepseek-chat-v3-0324:free");
}

#[test]
fn bare_model_name_defaults_to_openrouter() {
    let (provider, model) = split_model_name("some-model");
    assert_eq!(provider, "openrouter");
    assert_eq!(model, "some-model");
}

#[test]
fn endpoint_template_expands_the_model_slot() {
    assert_eq!(endpoint_url("https://api.example/v1/{model}/chat", "m1"), "https://api.example/v1/m1/chat");
    assert_eq!(endpoint_url("https://api.example/chat", "m1"), "https://api.example/chat");
    assert_eq!(endpoint_url("{model}/{model}", "x"), "x/x");
}

#[test]
fn api_request_always_streams() {
    let messages = vec![Message { role: Role::User, content: "hi".to_string() }];
    let req = ApiRequest::new("m".to_string(), messages);
    assert_eq!(req.model, "m");
    assert!(req.stream);
    assert_eq!(req.messages.len(), 1);
}

#[test]
fn config_carries_generation_arguments() {
    let args = GenArgs {
        model: "openai/gpt-4o".to_string(),
        system: Some("sys".to_string()),
        include_reasoning: true,
    };
    let config = LlmConfig::from_args(&args);
    assert_eq!(config.model, "openai/gpt-4o");
    assert_eq!(config.system_prompt.as_deref(), Some("sys"));
    assert!(config.include_reasoning);
}
