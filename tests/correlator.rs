use std::rc::Rc;

use correlation::action::{ActionType, MessageAction};
use correlation::conditions::Builder;
use correlation::context::TimerEvent;
use correlation::correlator::{classify, ContextTemplate, Dispatcher, Event};
use correlation::message::Builder as MessageBuilder;
use correlation::parsers::Parser;
use correlation::trie::{NodeType, Pattern, SuffixTable};

fn msg(uuid: &str) -> Event {
    Event::Message(Rc::new(MessageBuilder::new(uuid).build()))
}

fn template(name: &str, b: Builder) -> ContextTemplate {
    ContextTemplate::new(
        name.to_string(),
        b.build().unwrap(),
        vec![ActionType::Message(MessageAction::new())],
    )
}

#[test]
fn dispatcher_opens_routes_and_closes_per_template() {
    let mut d = Dispatcher::new(vec![
        template("a", Builder::new(100).max_size(2).patterns(vec!["x".to_string()])),
        template("b", Builder::new(30).patterns(vec!["x".to_string(), "y".to_string()])),
    ]);
    assert!(d.on_event(&msg("y")).is_empty());
    assert!(d.on_event(&msg("x")).is_empty());
    let closed = d.on_event(&msg("x"));
    assert_eq!(closed.len(), 1);
    assert_eq!(closed[0].0, 0);
    assert_eq!(closed[0].1.messages().len(), 2);
    let closed = d.on_event(&Event::Timer(TimerEvent(30)));
    assert_eq!(closed.len(), 1);
    assert_eq!(closed[0].0, 1);
    assert_eq!(closed[0].1.messages().len(), 3);
}

#[test]
fn flush_hands_back_every_open_context() {
    let mut d = Dispatcher::new(vec![
        template("a", Builder::new(100).patterns(vec!["x".to_string()])),
        template("b", Builder::new(100).patterns(vec!["y".to_string()])),
        template("c", Builder::new(100).patterns(vec!["x".to_string()])),
    ]);
    assert!(d.on_event(&msg("x")).is_empty());
    let open = d.flush();
    let slots: Vec<usize> = open.iter().map(|(i, _)| *i).collect();
    assert_eq!(slots, vec![0, 2]);
    assert!(d.flush().is_empty());
}

#[test]
fn classify_uses_the_matching_pattern_and_its_bindings() {
    let mut t = SuffixTable::new();
    t.insert(Pattern::new(
        "login",
        vec![NodeType::Literal("user ".to_string()), NodeType::Parser(Parser::integer("id"))],
    ))
    .unwrap();
    let m = classify(&t, "user 42").unwrap();
    assert_eq!(m.uuid(), "login");
    assert_eq!(m.get("id").map(|s| s.as_str()), Some("42"));
    assert!(m.name().is_none());
    assert!(classify(&t, "user x").is_none());
}
