use correlation::action::{ActionType, MessageAction};
use correlation::conditions::Builder;
use correlation::context::Context;
use correlation::message::Builder as MessageBuilder;
use std::rc::Rc;

#[test]
fn builder_keeps_uuid_name_and_values() {
    let mut b = MessageBuilder::new("42");
    b.name("login".to_string());
    b.pair("user".to_string(), "alice".to_string());
    b.pair("host".to_string(), "h1".to_string());
    b.pair("user".to_string(), "bob".to_string());
    let m = b.build();
    assert_eq!(m.uuid(), "42");
    assert_eq!(m.name().map(|s| s.as_str()), Some("login"));
    assert_eq!(m.get("user").map(|s| s.as_str()), Some("bob"));
    assert_eq!(m.get("host").map(|s| s.as_str()), Some("h1"));
    assert_eq!(m.get("missing"), None);
}

#[test]
fn message_action_merges_values_later_shadowing_earlier() {
    let mut context = Context::new(
        Builder::new(100).patterns(vec!["a".to_string(), "b".to_string()]).build().unwrap(),
    );
    let mut b1 = MessageBuilder::new("a");
    b1.name("first".to_string());
    b1.pair("k".to_string(), "1".to_string());
    b1.pair("x".to_string(), "only".to_string());
    let mut b2 = MessageBuilder::new("b");
    b2.name("second".to_string());
    b2.pair("k".to_string(), "2".to_string());
    context.on_message(Rc::new(b1.build()));
    context.on_message(Rc::new(b2.build()));
    let out = MessageAction::new().execute(&context, "out".to_string()).unwrap();
    assert_eq!(out.uuid(), "out");
    assert_eq!(out.name().map(|s| s.as_str()), Some("first"));
    assert_eq!(out.get("k").map(|s| s.as_str()), Some("2"));
    assert_eq!(out.get("x").map(|s| s.as_str()), Some("only"));
}

#[test]
fn message_action_on_an_unopened_context_emits_nothing() {
    let context = Context::new(Builder::new(100).build().unwrap());
    assert!(MessageAction::new().execute(&context, "out".to_string()).is_none());
}

#[test]
fn message_action_converts_into_action_type() {
    let a: ActionType = MessageAction::new().into();
    assert_eq!(a, ActionType::Message(MessageAction));
}
