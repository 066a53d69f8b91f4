//! Scenario tests for the publish/subscribe dispatch core.

use event_emitter::{
    ArgType, ArgValue, Dispatcher, EmitError, HandlerBody, Outcome, OutcomeKind, TypedHandler,
};

fn handler(tag: u64, sig: Vec<ArgType>, body: HandlerBody) -> TypedHandler {
    TypedHandler { tag, sig, body }
}

fn completed(tag: u64) -> Outcome {
    Outcome { tag, kind: OutcomeKind::Completed }
}

#[test]
fn subscriptions_deliver_once_in_order() {
    let mut d = Dispatcher::new();
    d.subscribe("evt", handler(1, vec![], HandlerBody::Completes));
    d.subscribe("evt", handler(2, vec![], HandlerBody::Completes));
    d.subscribe("evt", handler(3, vec![], HandlerBody::Completes));
    let out = d.publish("evt", &vec![]).unwrap();
    assert_eq!(out, vec![completed(1), completed(2), completed(3)]);
}

#[test]
fn publish_without_subscriptions_reports_no_listeners() {
    let mut d = Dispatcher::new();
    let r = d.publish("nobody", &vec![ArgValue::Int(5)]);
    assert!(matches!(r, Err(EmitError::NoListeners)));
}

#[test]
fn once_fires_exactly_once() {
    let mut d = Dispatcher::new();
    d.subscribe_once("evt", handler(9, vec![], HandlerBody::Completes));
    let first = d.publish("evt", &vec![]).unwrap();
    assert_eq!(first, vec![completed(9)]);
    let second = d.publish("evt", &vec![]);
    assert!(matches!(second, Err(EmitError::NoListeners)));
}

#[test]
fn three_times_budget_fires_three_times() {
    let mut d = Dispatcher::new();
    d.subscribe_times("evt", 3, handler(4, vec![], HandlerBody::Completes));
    let mut fired = 0;
    for _ in 0..3 {
        let out = d.publish("evt", &vec![]).unwrap();
        fired += out.iter().filter(|o| o.kind == OutcomeKind::Completed).count();
    }
    assert_eq!(fired, 3);
    let fourth = d.publish("evt", &vec![]);
    assert!(matches!(fourth, Err(EmitError::NoListeners)));
}

#[test]
fn fault_does_not_stop_later_handlers() {
    let mut d = Dispatcher::new();
    d.subscribe("evt", handler(1, vec![], HandlerBody::Completes));
    d.subscribe("evt", handler(2, vec![], HandlerBody::Faults));
    d.subscribe("evt", handler(3, vec![], HandlerBody::Completes));
    let out = d.publish("evt", &vec![]).unwrap();
    assert_eq!(
        out,
        vec![
            completed(1),
            Outcome { tag: 2, kind: OutcomeKind::Faulted },
            completed(3),
        ],
    );
    // a later, independent publish still delivers to all three
    let again = d.publish("evt", &vec![]).unwrap();
    assert_eq!(again.len(), 3);
    assert_eq!(again[2], completed(3));
}

#[test]
fn emitters_are_isolated_by_selection() {
    let mut d = Dispatcher::new();
    d.select_active_emitter("A");
    d.subscribe("x", handler(1, vec![], HandlerBody::Completes));
    d.select_active_emitter("B");
    let r = d.publish("x", &vec![]);
    assert!(matches!(r, Err(EmitError::NoListeners)));
    // the handler under "A" is untouched
    d.select_active_emitter("A");
    let out = d.publish("x", &vec![]).unwrap();
    assert_eq!(out, vec![completed(1)]);
}

#[test]
fn greet_handler_captures_published_name() {
    let mut d = Dispatcher::new();
    d.subscribe("greet", handler(1, vec![ArgType::Text], HandlerBody::Completes));
    let args = vec![ArgValue::Text(String::from("world"))];
    let out = d.publish("greet", &args).unwrap();
    // run the callable for each delivered outcome, as a caller would
    let mut captured: Vec<String> = Vec::new();
    for o in &out {
        if o.tag == 1 && o.kind == OutcomeKind::Completed {
            if let ArgValue::Text(name) = &args[0] {
                captured.push(name.clone());
            }
        }
    }
    assert_eq!(captured, vec![String::from("world")]);
}

#[test]
fn wrong_argument_type_is_a_contract_violation() {
    let mut d = Dispatcher::new();
    d.subscribe("greet", handler(1, vec![ArgType::Text], HandlerBody::Completes));
    let r = d.publish("greet", &vec![ArgValue::Int(42)]);
    match r {
        Err(EmitError::ContractViolation { event, position, expected }) => {
            assert_eq!(event, String::from("greet"));
            assert_eq!(position, 0);
            assert_eq!(expected, Some(ArgType::Text));
        }
        other => panic!("expected a contract violation, got {:?}", other),
    }
}

#[test]
fn missing_argument_is_a_contract_violation() {
    let mut d = Dispatcher::new();
    d.subscribe(
        "pair",
        handler(1, vec![ArgType::Text, ArgType::Int], HandlerBody::Completes),
    );
    let r = d.publish("pair", &vec![ArgValue::Text(String::from("a"))]);
    match r {
        Err(EmitError::ContractViolation { event, position, expected }) => {
            assert_eq!(event, String::from("pair"));
            assert_eq!(position, 1);
            assert_eq!(expected, Some(ArgType::Int));
        }
        other => panic!("expected a contract violation, got {:?}", other),
    }
}

#[test]
fn surplus_argument_is_a_contract_violation() {
    let mut d = Dispatcher::new();
    d.subscribe("bare", handler(1, vec![], HandlerBody::Completes));
    let r = d.publish("bare", &vec![ArgValue::Flag(true)]);
    match r {
        Err(EmitError::ContractViolation { event, position, expected }) => {
            assert_eq!(event, String::from("bare"));
            assert_eq!(position, 0);
            assert_eq!(expected, None);
        }
        other => panic!("expected a contract violation, got {:?}", other),
    }
}

#[test]
fn zero_budget_skips_only_the_first_publish() {
    let mut d = Dispatcher::new();
    d.subscribe_times("evt", 0, handler(6, vec![], HandlerBody::Completes));
    // the would-be-first invocation does not run the body ...
    let first = d.publish("evt", &vec![]).unwrap();
    assert_eq!(first, vec![Outcome { tag: 6, kind: OutcomeKind::Skipped }]);
    // ... and the budget wraps, so every later one delivers
    let second = d.publish("evt", &vec![]).unwrap();
    assert_eq!(second, vec![completed(6)]);
}

#[test]
fn violation_aborts_after_earlier_effects() {
    let mut d = Dispatcher::new();
    // a one-shot first, then a handler whose signature cannot match
    d.subscribe_once("evt", handler(1, vec![], HandlerBody::Completes));
    d.subscribe("evt", handler(2, vec![ArgType::Int], HandlerBody::Completes));
    let r = d.publish("evt", &vec![]);
    assert!(matches!(r, Err(EmitError::ContractViolation { .. })));
    // the one-shot fired and exhausted before the abort, removing the entry
    let later = d.publish("evt", &vec![]);
    assert!(matches!(later, Err(EmitError::NoListeners)));
}

#[test]
fn unsubscribe_all_removes_and_is_idempotent() {
    let mut d = Dispatcher::new();
    d.subscribe("evt", handler(1, vec![], HandlerBody::Completes));
    d.unsubscribe_all("evt");
    assert!(matches!(d.publish("evt", &vec![]), Err(EmitError::NoListeners)));
    d.unsubscribe_all("evt");
    assert!(matches!(d.publish("evt", &vec![]), Err(EmitError::NoListeners)));
}

#[test]
fn create_emitter_does_not_change_selection() {
    let mut d = Dispatcher::new();
    d.subscribe("evt", handler(1, vec![], HandlerBody::Completes));
    d.create_emitter("other");
    // still publishing on "default"
    let out = d.publish("evt", &vec![]).unwrap();
    assert_eq!(out, vec![completed(1)]);
}
