//! An in-process publish/subscribe dispatch core.
//!
//! Named emitters own an event-name to handler-list table; a dispatcher
//! holds a registry of emitters keyed by id and a per-context active
//! selection with get-or-create semantics. Handlers declare a positional
//! argument signature that is checked dynamically at publish time, and
//! counted subscriptions fire a fixed number of times before removing
//! their event's entry. Publishing snapshots the handler list and
//! reports, in delivery order, what happened to each handler; a fault of
//! one handler body never suppresses the handlers after it.

pub mod args;
pub mod emitter;
pub mod laws;
pub mod location;
pub mod registry;

pub use args::{ArgType, ArgValue, Violation};
pub use emitter::{
    EmitError, EventEmitter, HandlerBody, Outcome, OutcomeKind, Subscription, TypedHandler,
};
pub use registry::Dispatcher;
