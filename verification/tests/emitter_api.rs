//! Tests against a single emitter's own register/publish/remove API.

use event_emitter::{
    ArgType, ArgValue, EmitError, EventEmitter, HandlerBody, Outcome, OutcomeKind, Subscription,
    TypedHandler,
};

fn plain(tag: u64, sig: Vec<ArgType>) -> Subscription {
    Subscription {
        handler: TypedHandler { tag, sig, body: HandlerBody::Completes },
        remaining: None,
    }
}

#[test]
fn on_then_emit_delivers() {
    let mut em = EventEmitter::new();
    em.on("ping", plain(11, vec![]));
    let out = em.emit("ping", &vec![]).unwrap();
    assert_eq!(out, vec![Outcome { tag: 11, kind: OutcomeKind::Completed }]);
}

#[test]
fn emit_keeps_events_apart() {
    let mut em = EventEmitter::new();
    em.on("a", plain(1, vec![]));
    em.on("b", plain(2, vec![]));
    let out = em.emit("b", &vec![]).unwrap();
    assert_eq!(out, vec![Outcome { tag: 2, kind: OutcomeKind::Completed }]);
    let out = em.emit("a", &vec![]).unwrap();
    assert_eq!(out, vec![Outcome { tag: 1, kind: OutcomeKind::Completed }]);
}

#[test]
fn off_removes_the_whole_event() {
    let mut em = EventEmitter::new();
    em.on("a", plain(1, vec![]));
    em.on("a", plain(2, vec![]));
    em.off("a");
    assert!(matches!(em.emit("a", &vec![]), Err(EmitError::NoListeners)));
    // removing an absent event is a no-op
    em.off("a");
    assert!(matches!(em.emit("a", &vec![]), Err(EmitError::NoListeners)));
}

#[test]
fn default_emitter_is_clear() {
    let mut em = EventEmitter::default();
    assert!(matches!(em.emit("anything", &vec![]), Err(EmitError::NoListeners)));
}

#[test]
fn emit_passes_arguments_positionally() {
    let mut em = EventEmitter::new();
    em.on("typed", plain(3, vec![ArgType::Int, ArgType::Flag]));
    let out = em
        .emit("typed", &vec![ArgValue::Int(-7), ArgValue::Flag(false)])
        .unwrap();
    assert_eq!(out, vec![Outcome { tag: 3, kind: OutcomeKind::Completed }]);
}

#[test]
fn counted_entry_registered_directly_counts_down() {
    let mut em = EventEmitter::new();
    em.on(
        "tick",
        Subscription {
            handler: TypedHandler { tag: 5, sig: vec![], body: HandlerBody::Completes },
            remaining: Some(2),
        },
    );
    assert_eq!(em.emit("tick", &vec![]).unwrap().len(), 1);
    assert_eq!(em.emit("tick", &vec![]).unwrap().len(), 1);
    assert!(matches!(em.emit("tick", &vec![]), Err(EmitError::NoListeners)));
}
