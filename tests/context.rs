use correlation::conditions::Builder;
use correlation::context::{Context, TimerEvent};
use correlation::message::Builder as MessageBuilder;
use correlation::message::Message;
use std::rc::Rc;

fn message(uuid: &str) -> Rc<Message> {
    Rc::new(MessageBuilder::new(uuid).build())
}

#[test]
fn test_given_close_condition_with_timeout_when_the_timeout_expires_then_the_condition_is_met() {
    let timeout = 100;
    let mut context = Context::new(
        Builder::new(timeout).patterns(vec!["1".to_string()]).build().unwrap(),
    );
    assert!(!context.on_message(message("1")));
    assert!(!context.on_timer(&TimerEvent(50)));
    assert!(!context.on_timer(&TimerEvent(49)));
    assert!(context.on_timer(&TimerEvent(1)));
}

#[test]
fn test_given_close_condition_with_max_size_when_the_max_size_reached_then_the_condition_is_met() {
    let timeout = 100;
    let max_size = 3;
    let mut context = Context::new(
        Builder::new(timeout)
            .max_size(max_size)
            .patterns(vec!["1".to_string()])
            .build()
            .unwrap(),
    );
    assert!(!context.on_message(message("1")));
    assert!(!context.on_message(message("1")));
    assert!(context.on_message(message("1")));
}

#[test]
fn test_given_close_condition_with_renew_timeout_when_the_timeout_expires_without_renewing_messages_then_the_condition_is_met(
) {
    let timeout = 100;
    let renew_timeout = 10;
    let mut context = Context::new(
        Builder::new(timeout)
            .renew_timeout(renew_timeout)
            .patterns(vec!["1".to_string()])
            .first_opens(true)
            .build()
            .unwrap(),
    );
    assert!(!context.on_message(message("1")));
    assert!(!context.on_timer(&TimerEvent(8)));
    assert!(!context.on_timer(&TimerEvent(1)));
    assert!(context.on_timer(&TimerEvent(1)));
}

#[test]
fn test_given_close_condition_with_renew_timeout_when_the_timeout_expires_with_renewing_messages_then_the_context_is_not_closed(
) {
    let timeout = 100;
    let renew_timeout = 10;
    let mut context = Context::new(
        Builder::new(timeout)
            .renew_timeout(renew_timeout)
            .patterns(vec!["1".to_string()])
            .first_opens(true)
            .build()
            .unwrap(),
    );
    assert!(!context.on_message(message("1")));
    assert!(!context.on_timer(&TimerEvent(8)));
    assert!(!context.on_timer(&TimerEvent(1)));
    assert!(!context.on_message(message("1")));
    assert!(!context.on_timer(&TimerEvent(1)));
}

#[test]
fn timer_on_a_closed_context_does_nothing() {
    let mut context = Context::new(Builder::new(100).build().unwrap());
    assert!(!context.on_timer(&TimerEvent(1000)));
    assert!(!context.is_open());
}

#[test]
fn message_of_another_pattern_does_not_open() {
    let mut context = Context::new(
        Builder::new(100).max_size(1).patterns(vec!["1".to_string()]).build().unwrap(),
    );
    assert!(!context.on_message(message("2")));
    assert!(!context.is_open());
    assert_eq!(context.messages().len(), 0);
    assert!(context.on_message(message("1")));
}

#[test]
fn first_opens_accepts_only_the_first_pattern() {
    let mut context = Context::new(
        Builder::new(100)
            .patterns(vec!["a".to_string(), "b".to_string()])
            .first_opens(true)
            .build()
            .unwrap(),
    );
    assert!(!context.on_message(message("b")));
    assert!(!context.is_open());
    assert!(!context.on_message(message("a")));
    assert!(context.is_open());
    assert!(!context.on_message(message("b")));
    assert_eq!(context.messages().len(), 2);
}

#[test]
fn last_closes_closes_on_the_last_pattern() {
    let mut context = Context::new(
        Builder::new(100)
            .patterns(vec!["a".to_string(), "b".to_string()])
            .last_closes(true)
            .build()
            .unwrap(),
    );
    assert!(!context.on_message(message("a")));
    assert!(!context.on_message(message("a")));
    assert!(context.on_message(message("b")));
}

#[test]
fn last_pattern_without_last_closes_does_not_close() {
    let mut context = Context::new(
        Builder::new(100).patterns(vec!["a".to_string(), "b".to_string()]).build().unwrap(),
    );
    assert!(!context.on_message(message("a")));
    assert!(!context.on_message(message("b")));
}

#[test]
fn timeout_closes_once_the_ticks_add_up_to_it() {
    let mut context = Context::new(
        Builder::new(30).patterns(vec!["1".to_string()]).build().unwrap(),
    );
    assert!(!context.on_message(message("1")));
    let ticks = [10u32, 10, 9, 1, 5];
    let mut sum = 0u32;
    for (k, t) in ticks.iter().enumerate() {
        sum += *t;
        let closed = context.on_timer(&TimerEvent(*t));
        assert_eq!(closed, sum >= 30, "tick {}", k);
    }
}

#[test]
fn huge_ticks_saturate_and_close() {
    let mut context = Context::new(
        Builder::new(u32::MAX - 1).patterns(vec!["1".to_string()]).build().unwrap(),
    );
    assert!(!context.on_message(message("1")));
    assert!(!context.on_timer(&TimerEvent(u32::MAX - 2)));
    assert!(context.on_timer(&TimerEvent(u32::MAX)));
}

#[test]
fn max_size_closes_on_exactly_the_kth_message() {
    for k in 1usize..6 {
        let mut context = Context::new(
            Builder::new(100).max_size(k).patterns(vec!["1".to_string()]).build().unwrap(),
        );
        for i in 1..=k {
            assert_eq!(context.on_message(message("1")), i == k);
        }
    }
}
