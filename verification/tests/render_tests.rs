use hinata_core::msg::LlmStreamEvent;
use hinata_core::render::{render_transcript, OutputRenderer};

fn events() -> Vec<LlmStreamEvent> {
    vec![
        LlmStreamEvent::Reasoning("a".to_string()),
        LlmStreamEvent::Reasoning("b".to_string()),
        LlmStreamEvent::Content("c".to_string()),
        LlmStreamEvent::Reasoning("d".to_string()),
    ]
}

#[test]
fn reasoning_enabled_brackets_thinking_and_drops_late_reasoning() {
    let out = render_transcript(&events(), true);
    assert_eq!(out, "<think>ab</think>\nc");
}

#[test]
fn reasoning_disabled_renders_only_content() {
    let out = render_transcript(&events(), false);
    assert_eq!(out, "c");
}

#[test]
fn stream_ending_in_thinking_closes_the_delimiter() {
    let evs = vec![
        LlmStreamEvent::Reasoning("only thinking".to_string()),
    ];
    let out = render_transcript(&evs, true);
    assert_eq!(out, "<think>only thinking</think>\n");
}

#[test]
fn content_only_stream_has_no_delimiters() {
    let evs = vec![
        LlmStreamEvent::Content("one".to_string()),
        LlmStreamEvent::Content("two".to_string()),
    ];
    let out = render_transcript(&evs, true);
    assert_eq!(out, "onetwo");
}

#[test]
fn empty_stream_renders_nothing() {
    let out = render_transcript(&Vec::new(), true);
    assert_eq!(out, "");
}

#[test]
fn renderer_steps_match_the_transcript() {
    let mut r = OutputRenderer::new(true);
    let mut out = String::new();
    for e in events() {
        out.push_str(&r.render_event(&e));
    }
    out.push_str(&r.finish());
    assert_eq!(out, "<think>ab</think>\nc");
}

#[test]
fn finish_after_content_writes_nothing() {
    let mut r = OutputRenderer::new(true);
    let _ = r.render_event(&LlmStreamEvent::Content("x".to_string()));
    assert_eq!(r.finish(), "");
}
