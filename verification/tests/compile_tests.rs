use hinata_core::compile::{build_messages, ParseError};
use hinata_core::msg::{Message, Role};

fn roles_and_texts(msgs: &[Message]) -> Vec<(Role, String)> {
    msgs.iter().map(|m| (m.role, m.content.clone())).collect()
}

#[test]
fn plain_text_becomes_one_user_message() {
    let msgs = build_messages("  hello world \n", None).unwrap();
    assert_eq!(roles_and_texts(&msgs), vec![(Role::User, "hello world".to_string())]);
}

#[test]
fn whitespace_only_text_becomes_no_message() {
    let msgs = build_messages("   \n\t  ", None).unwrap();
    assert!(msgs.is_empty());
}

#[test]
fn system_and_user_tags_compile_in_order() {
    let msgs = build_messages("<hnt-system>A</hnt-system><hnt-user>B</hnt-user>", None).unwrap();
    assert_eq!(
        roles_and_texts(&msgs),
        vec![(Role::System, "A".to_string()), (Role::User, "B".to_string())]
    );
}

#[test]
fn assistant_tag_compiles() {
    let msgs = build_messages("<hnt-assistant>ok</hnt-assistant>", None).unwrap();
    assert_eq!(roles_and_texts(&msgs), vec![(Role::Assistant, "ok".to_string())]);
}

#[test]
fn second_system_tag_is_discarded() {
    let msgs = build_messages(
        "<hnt-system>first</hnt-system><hnt-system>second</hnt-system>",
        None,
    )
    .unwrap();
    assert_eq!(roles_and_texts(&msgs), vec![(Role::System, "first".to_string())]);
}

#[test]
fn injected_prompt_wins_over_system_tag() {
    let msgs = build_messages(
        "<hnt-system>from text</hnt-system><hnt-user>q</hnt-user>",
        Some("injected".to_string()),
    )
    .unwrap();
    assert_eq!(
        roles_and_texts(&msgs),
        vec![(Role::System, "injected".to_string()), (Role::User, "q".to_string())]
    );
}

#[test]
fn unknown_tag_is_skipped() {
    let msgs = build_messages("<hnt-bogus>x</hnt-bogus>hello", None).unwrap();
    assert_eq!(roles_and_texts(&msgs), vec![(Role::User, "hello".to_string())]);
}

#[test]
fn missing_closing_tag_fails() {
    let err = build_messages("<hnt-user>unterminated", None).unwrap_err();
    match err {
        ParseError::MissingClosingTag(tag) => assert_eq!(tag, "<hnt-user>"),
        other => panic!("expected MissingClosingTag, got {:?}", other),
    }
}

#[test]
fn unclosed_tag_fails_with_offset() {
    let err = build_messages("abc<hnt-user", None).unwrap_err();
    match err {
        ParseError::UnclosedTag(pos) => assert_eq!(pos, 3),
        other => panic!("expected UnclosedTag, got {:?}", other),
    }
}

#[test]
fn plain_text_around_tags_is_gathered_into_trailing_user_message() {
    let msgs = build_messages("hello <hnt-user>hi</hnt-user> world", None).unwrap();
    assert_eq!(
        roles_and_texts(&msgs),
        vec![(Role::User, "hi".to_string()), (Role::User, "hello  world".to_string())]
    );
}

#[test]
fn tag_body_is_unescaped() {
    let msgs = build_messages("<hnt-user>\\<hnt-system></hnt-user>", None).unwrap();
    assert_eq!(roles_and_texts(&msgs), vec![(Role::User, "<hnt-system>".to_string())]);
}
