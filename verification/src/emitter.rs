//! The emitter: an event-name to handler-list table with ordered delivery,
//! per-handler fault isolation, typed-dispatch checking and counted
//! (fire-N-times, then self-remove) subscriptions.
//!
//! `emit` does not run handler bodies itself: a handler is a descriptor
//! whose behaviour on invocation (completes or faults) is part of the
//! value, and `emit` returns the ordered invocation outcomes. The caller
//! runs the real callables from that list; a fault recorded for one
//! handler never suppresses the handlers after it.

use vstd::prelude::*;
use crate::args::{ArgType, ArgValue, Violation, check_args, expected_at, sig_ok, violation_pos};

verus! {

/// What a handler body does when it is invoked: it either completes
/// normally or terminates abnormally. A fault is isolated per handler
/// during a publish and never surfaces as a failure of the publish itself.
#[derive(Clone, Copy, Debug, PartialEq, Eq, Structural)]
pub enum HandlerBody {
    Completes,
    Faults,
}

/// A handler as registered: a caller-chosen identifying tag, the declared
/// positional argument signature, and the modelled invocation behaviour.
#[derive(Debug)]
pub struct TypedHandler {
    pub tag: u64,
    pub sig: Vec<ArgType>,
    pub body: HandlerBody,
}

/// A handler-list entry: the wrapped handler and, for counted
/// subscriptions, the shared decrementing budget. `remaining: None` means
/// the subscription is not counted and fires on every publish.
#[derive(Debug)]
pub struct Subscription {
    pub handler: TypedHandler,
    pub remaining: Option<u64>,
}

/// What happened to one handler of the snapshot during a publish.
#[derive(Clone, Copy, Debug, PartialEq, Eq, Structural)]
pub enum OutcomeKind {
    Completed,
    Faulted,
    Skipped,
}

/// One invocation record of a publish, in delivery order.
#[derive(Clone, Copy, Debug, PartialEq, Eq, Structural)]
pub struct Outcome {
    pub tag: u64,
    pub kind: OutcomeKind,
}

/// How a publish can fail.
///
/// `NoListeners` is informational: the event had no registered handlers.
/// `LockError` reports a synchronization primitive left inconsistent by a
/// prior fault; the core itself is lock-free and never produces it, the
/// variant exists for callers that guard an emitter with a lock.
/// `ContractViolation` is fatal: the published arguments disagree with a
/// handler's declared signature at the named parameter position.
#[derive(Debug)]
pub enum EmitError {
    NoListeners,
    LockError(String),
    ContractViolation { event: String, position: usize, expected: Option<ArgType> },
}

pub(crate) struct EventEntry {
    pub name: String,
    pub handlers: Vec<Subscription>,
}

/// A named container of event-name to handler-list mappings.
pub struct EventEmitter {
    events: Vec<EventEntry>,
}

/// The outcome kind recorded for an invoked handler with the given body.
pub open spec fn delivered_kind(b: HandlerBody) -> OutcomeKind {
    match b {
        HandlerBody::Completes => OutcomeKind::Completed,
        HandlerBody::Faults => OutcomeKind::Faulted,
    }
}

/// A subscription fires on this invocation: it is uncounted, or its
/// pre-decrement budget is at least one.
pub open spec fn fires(s: Subscription) -> bool {
    match s.remaining {
        Option::None => true,
        Option::Some(v) => v >= 1,
    }
}

/// This invocation exhausts a counted budget: the pre-decrement value is
/// exactly one, which triggers removal of the whole event entry.
pub open spec fn exhausts(s: Subscription) -> bool {
    s.remaining == Some(1u64)
}

/// The subscription after one invocation: a counted budget decrements,
/// wrapping at zero; an uncounted subscription is unchanged.
pub open spec fn dec_sub(s: Subscription) -> Subscription {
    match s.remaining {
        Option::None => s,
        Option::Some(v) => Subscription {
            handler: s.handler,
            remaining: Some(if v == 0 { u64::MAX } else { (v - 1) as u64 }),
        },
    }
}

/// The complete effect of one publish on a snapshot of a handler list.
pub ghost struct DispatchModel {
    /// The invocation records, in delivery order; meaningful only when
    /// `violation` is `None`, since a contract violation aborts the
    /// publish.
    pub outcomes: Seq<Outcome>,
    /// The handler list as left behind, position by position; meaningful
    /// only when `removed` is false.
    pub handlers: Seq<Subscription>,
    /// Some invocation exhausted a counted budget, which removes the whole
    /// event entry.
    pub removed: bool,
    /// The first typed-dispatch violation met, if any; it aborts the
    /// publish at that handler, leaving the earlier effects in place.
    pub violation: Option<Violation>,
}

/// One publish over a snapshot of a handler list, processed in
/// registration order. Every processed subscription decrements its budget
/// (observing the pre-decrement value); one that fires is checked against
/// the published arguments and then delivered or, on a mismatch, aborts
/// the publish.
pub open spec fn dispatch(subs: Seq<Subscription>, args: Seq<ArgValue>) -> DispatchModel
    decreases subs.len(),
{
    if subs.len() == 0 {
        DispatchModel {
            outcomes: Seq::empty(),
            handlers: Seq::empty(),
            removed: false,
            violation: None,
        }
    } else {
        let s = subs[0];
        let tail = subs.subrange(1, subs.len() as int);
        if !fires(s) {
            let rest = dispatch(tail, args);
            DispatchModel {
                outcomes: seq![Outcome { tag: s.handler.tag, kind: OutcomeKind::Skipped }]
                    + rest.outcomes,
                handlers: seq![dec_sub(s)] + rest.handlers,
                removed: rest.removed,
                violation: rest.violation,
            }
        } else if !sig_ok(s.handler.sig@, args) {
            DispatchModel {
                outcomes: Seq::empty(),
                handlers: seq![dec_sub(s)] + tail,
                removed: exhausts(s),
                violation: Some(Violation {
                    position: violation_pos(s.handler.sig@, args) as usize,
                    expected: expected_at(s.handler.sig@, args),
                }),
            }
        } else {
            let rest = dispatch(tail, args);
            DispatchModel {
                outcomes: seq![Outcome { tag: s.handler.tag, kind: delivered_kind(s.handler.body) }]
                    + rest.outcomes,
                handlers: seq![dec_sub(s)] + rest.handlers,
                removed: exhausts(s) || rest.removed,
                violation: rest.violation,
            }
        }
    }
}

/// A handler list after appending a registration: the event's existing
/// list extended, or a fresh one-element list when the event was absent.
pub open spec fn appended(pre: Option<Seq<Subscription>>, s: Subscription) -> Seq<Subscription> {
    match pre {
        Option::None => seq![s],
        Option::Some(h) => h.push(s),
    }
}

/// An event has no listeners: no entry, or an empty handler list.
pub open spec fn no_listeners(pre: Option<Seq<Subscription>>) -> bool {
    match pre {
        Option::None => true,
        Option::Some(h) => h.len() == 0,
    }
}

/// First-match lookup of an event name in the entry list.
pub(crate) open spec fn lookup(entries: Seq<EventEntry>, name: Seq<char>) -> Option<
    Seq<Subscription>,
>
    decreases entries.len(),
{
    if entries.len() == 0 {
        None
    } else if entries[0].name@ == name {
        Some(entries[0].handlers@)
    } else {
        lookup(entries.subrange(1, entries.len() as int), name)
    }
}

/// No two entries carry the same event name.
pub(crate) open spec fn names_unique(entries: Seq<EventEntry>) -> bool {
    forall|i: int, j: int|
        #![trigger entries[i].name@, entries[j].name@]
        0 <= i < j < entries.len() ==> entries[i].name@ != entries[j].name@
}

proof fn lemma_lookup_none_iff(entries: Seq<EventEntry>, name: Seq<char>)
    ensures
        lookup(entries, name) is None <==> (forall|k: int|
            0 <= k < entries.len() ==> #[trigger] entries[k].name@ != name),
    decreases entries.len(),
{
    if entries.len() > 0 {
        let tail = entries.subrange(1, entries.len() as int);
        lemma_lookup_none_iff(tail, name);
        if entries[0].name@ == name {
            assert(lookup(entries, name) is Some);
        } else {
            assert(lookup(entries, name) == lookup(tail, name));
            if lookup(tail, name) is None {
                assert forall|k: int|
                    0 <= k < entries.len() implies #[trigger] entries[k].name@ != name by {
                    if k > 0 {
                        assert(tail[k - 1] == entries[k]);
                    }
                }
            } else {
                assert(!(forall|k: int| 0 <= k < tail.len() ==> #[trigger] tail[k].name@ != name));
                let k0 = choose|k: int| 0 <= k < tail.len() && !(#[trigger] tail[k].name@ != name);
                assert(entries[k0 + 1].name@ == name);
            }
        }
    }
}

proof fn lemma_lookup_found(entries: Seq<EventEntry>, name: Seq<char>, k: int)
    requires
        0 <= k < entries.len(),
        entries[k].name@ == name,
        forall|j: int| 0 <= j < k ==> #[trigger] entries[j].name@ != name,
    ensures
        lookup(entries, name) == Some(entries[k].handlers@),
    decreases k,
{
    if k > 0 {
        let tail = entries.subrange(1, entries.len() as int);
        assert(forall|j: int| 0 <= j < k - 1 ==> #[trigger] tail[j] == entries[j + 1]);
        lemma_lookup_found(tail, name, k - 1);
    }
}

proof fn lemma_lookup_update(entries: Seq<EventEntry>, k: int, e2: EventEntry, name: Seq<char>)
    requires
        0 <= k < entries.len(),
        entries[k].name@ == e2.name@,
        forall|j: int| 0 <= j < k ==> #[trigger] entries[j].name@ != e2.name@,
    ensures
        lookup(entries.update(k, e2), name) == if name == e2.name@ {
            Some(e2.handlers@)
        } else {
            lookup(entries, name)
        },
    decreases k,
{
    let upd = entries.update(k, e2);
    if k == 0 {
        assert(upd[0] == e2);
        assert(upd.subrange(1, upd.len() as int) =~= entries.subrange(1, entries.len() as int));
    } else {
        let tail = entries.subrange(1, entries.len() as int);
        assert(forall|j: int| 0 <= j < k - 1 ==> #[trigger] tail[j] == entries[j + 1]);
        assert(upd.subrange(1, upd.len() as int) =~= tail.update(k - 1, e2));
        lemma_lookup_update(tail, k - 1, e2, name);
        assert(upd[0] == entries[0]);
    }
}

proof fn lemma_lookup_remove(entries: Seq<EventEntry>, k: int, name: Seq<char>)
    requires
        0 <= k < entries.len(),
        forall|j: int|
            0 <= j < entries.len() && j != k ==> #[trigger] entries[j].name@ != entries[k].name@,
    ensures
        lookup(entries.remove(k), name) == if name == entries[k].name@ {
            None
        } else {
            lookup(entries, name)
        },
    decreases k,
{
    let rem = entries.remove(k);
    if k == 0 {
        assert(rem =~= entries.subrange(1, entries.len() as int));
        if name == entries[0].name@ {
            lemma_lookup_none_iff(rem, name);
            assert(forall|j: int| 0 <= j < rem.len() ==> #[trigger] rem[j] == entries[j + 1]);
        }
    } else {
        let tail = entries.subrange(1, entries.len() as int);
        assert(forall|j: int| 0 <= j < tail.len() ==> #[trigger] tail[j] == entries[j + 1]);
        assert(rem[0] == entries[0]);
        assert(rem.subrange(1, rem.len() as int) =~= tail.remove(k - 1));
        lemma_lookup_remove(tail, k - 1, name);
    }
}

proof fn lemma_lookup_push(entries: Seq<EventEntry>, e: EventEntry, name: Seq<char>)
    requires
        lookup(entries, e.name@) is None,
    ensures
        lookup(entries.push(e), name) == if name == e.name@ {
            Some(e.handlers@)
        } else {
            lookup(entries, name)
        },
    decreases entries.len(),
{
    let p = entries.push(e);
    if entries.len() == 0 {
        assert(p[0] == e);
        assert(p.subrange(1, p.len() as int) =~= Seq::<EventEntry>::empty());
        if name == e.name@ {
            assert(lookup(p, name) == Some(e.handlers@));
        } else {
            assert(lookup(p, name) == lookup(p.subrange(1, p.len() as int), name));
            assert(lookup(p, name) is None);
            assert(lookup(entries, name) is None);
        }
    } else {
        assert(p[0] == entries[0]);
        let tail = entries.subrange(1, entries.len() as int);
        assert(p.subrange(1, p.len() as int) =~= tail.push(e));
        assert(entries[0].name@ != e.name@);
        assert(lookup(tail, e.name@) is None);
        lemma_lookup_push(tail, e, name);
        if name == entries[0].name@ {
            assert(lookup(p, name) == Some(entries[0].handlers@));
        } else {
            assert(lookup(p, name) == lookup(tail.push(e), name));
            assert(lookup(entries, name) == lookup(tail, name));
        }
    }
}

impl EventEmitter {
    /// The handler list registered for an event name, if any.
    pub closed spec fn handlers_of(&self, name: Seq<char>) -> Option<Seq<Subscription>> {
        lookup(self.events@, name)
    }

    /// Well-formedness: every event name owns at most one entry.
    pub closed spec fn wf(&self) -> bool {
        names_unique(self.events@)
    }

    /// No event has any handlers.
    pub open spec fn is_clear(&self) -> bool {
        forall|n: Seq<char>| #[trigger] self.handlers_of(n) is None
    }

    /// A fresh emitter with an empty handler table.
    pub fn new() -> (r: Self)
        ensures
            r.wf(),
            r.is_clear(),
    {
        let r = EventEmitter { events: Vec::new() };
        proof {
            assert forall|n: Seq<char>| #[trigger] r.handlers_of(n) is None by {
                assert(r.events@.len() == 0);
            }
        }
        r
    }

    fn find_entry(&self, name: &String) -> (r: Option<usize>)
        ensures
            match r {
                Some(k) => {
                    &&& k < self.events@.len()
                    &&& self.events@[k as int].name@ == name@
                    &&& (forall|j: int| 0 <= j < k ==> #[trigger] self.events@[j].name@ != name@)
                    &&& self.handlers_of(name@) == Some(self.events@[k as int].handlers@)
                },
                None => self.handlers_of(name@) is None,
            },
    {
        let mut i: usize = 0;
        while i < self.events.len()
            invariant
                i <= self.events@.len(),
                forall|j: int| 0 <= j < i ==> #[trigger] self.events@[j].name@ != name@,
            decreases self.events@.len() - i,
        {
            if self.events[i].name == *name {
                proof {
                    lemma_lookup_found(self.events@, name@, i as int);
                }
                return Some(i);
            }
            i += 1;
        }
        proof {
            lemma_lookup_none_iff(self.events@, name@);
        }
        None
    }

    /// Register a handler for an event: it is appended to the event's
    /// list, creating the list if absent, and takes part in every future
    /// publish of that event after all previously registered handlers.
    pub fn on(&mut self, event: &str, listener: Subscription)
        requires
            old(self).wf(),
        ensures
            final(self).wf(),
            final(self).handlers_of(event@) == Some(
                appended(old(self).handlers_of(event@), listener),
            ),
            forall|n: Seq<char>|
                n != event@ ==> #[trigger] final(self).handlers_of(n) == old(self).handlers_of(n),
    {
        let ev: String = event.to_owned();
        let found = self.find_entry(&ev);
        match found {
            Some(k) => {
                let ghost pre = self.events@;
                let mut entry = self.events.remove(k);
                entry.handlers.push(listener);
                self.events.insert(k, entry);
                proof {
                    let e2 = self.events@[k as int];
                    assert(self.events@ =~= pre.update(k as int, e2));
                    assert(e2.name@ == ev@);
                    assert(e2.handlers@ == pre[k as int].handlers@.push(listener));
                    assert forall|i: int, j: int|
                        #![trigger self.events@[i].name@, self.events@[j].name@]
                        0 <= i < j < self.events@.len() implies self.events@[i].name@
                        != self.events@[j].name@ by {
                        assert(self.events@[i].name@ == pre[i].name@);
                        assert(self.events@[j].name@ == pre[j].name@);
                    }
                    assert forall|n: Seq<char>| #[trigger]
                        lookup(self.events@, n) == if n == ev@ {
                            Some(e2.handlers@)
                        } else {
                            lookup(pre, n)
                        } by {
                        lemma_lookup_update(pre, k as int, e2, n);
                    }
                }
            }
            None => {
                let mut handlers: Vec<Subscription> = Vec::new();
                handlers.push(listener);
                let ghost pre = self.events@;
                self.events.push(EventEntry { name: ev, handlers });
                proof {
                    let e = self.events@[pre.len() as int];
                    assert(self.events@ =~= pre.push(e));
                    assert(e.name@ == ev@);
                    assert(e.handlers@ =~= seq![listener]);
                    lemma_lookup_none_iff(pre, ev@);
                    assert forall|i: int, j: int|
                        #![trigger self.events@[i].name@, self.events@[j].name@]
                        0 <= i < j < self.events@.len() implies self.events@[i].name@
                        != self.events@[j].name@ by {
                        if j < pre.len() {
                            assert(self.events@[i].name@ == pre[i].name@);
                            assert(self.events@[j].name@ == pre[j].name@);
                        } else {
                            assert(self.events@[i].name@ == pre[i].name@);
                            assert(self.events@[j].name@ == ev@);
                        }
                    }
                    assert forall|n: Seq<char>| #[trigger]
                        lookup(self.events@, n) == if n == ev@ {
                            Some(e.handlers@)
                        } else {
                            lookup(pre, n)
                        } by {
                        lemma_lookup_push(pre, e, n);
                    }
                }
            }
        }
    }

    /// Publish an event with an ordered argument list.
    ///
    /// The event's handler list is snapshotted and every snapshot entry is
    /// processed in registration order, as `dispatch` states: a counted
    /// subscription decrements its budget (observing the pre-decrement
    /// value `v`) and fires only when `v >= 1`; a firing handler is
    /// checked against the published arguments and delivered — a fault of
    /// its body is recorded and never suppresses the handlers after it;
    /// the decrement that exhausts a budget (`v == 1`) removes the whole
    /// event entry. An event with no handlers reports `NoListeners` and
    /// changes nothing; a signature mismatch aborts the publish with a
    /// fatal `ContractViolation` naming the event, the offending
    /// parameter position and the expected type, leaving earlier effects
    /// in place.
    pub fn emit(&mut self, event: &str, args: &Vec<ArgValue>) -> (r: Result<
        Vec<Outcome>,
        EmitError,
    >)
        requires
            old(self).wf(),
        ensures
            final(self).wf(),
            forall|n: Seq<char>|
                n != event@ ==> #[trigger] final(self).handlers_of(n) == old(self).handlers_of(n),
            no_listeners(old(self).handlers_of(event@)) ==> (r matches Err(EmitError::NoListeners)
                && final(self).handlers_of(event@) == old(self).handlers_of(event@)),
            old(self).handlers_of(event@) matches Some(subs) ==> subs.len() > 0 ==> ({
                let m = dispatch(subs, args@);
                &&& (m.violation is None ==> (r matches Ok(out) && out@ == m.outcomes))
                &&& (m.violation matches Some(v) ==> (r matches Err(
                    EmitError::ContractViolation { event: e2, position: p2, expected: x2 },
                ) && e2@ == event@ && p2 == v.position && x2 == v.expected))
                &&& final(self).handlers_of(event@) == (if m.removed {
                    None::<Seq<Subscription>>
                } else {
                    Some(m.handlers)
                })
            }),
    {
        let ev: String = event.to_owned();
        let found = self.find_entry(&ev);
        let k = match found {
            None => {
                return Err(EmitError::NoListeners);
            },
            Some(k) => k,
        };
        let entry_ref = &self.events[k];
        if entry_ref.handlers.len() == 0 {
            return Err(EmitError::NoListeners);
        }
        let ghost pre_entries = self.events@;
        let ghost orig: Seq<Subscription> = self.events@[k as int].handlers@;
        let ghost full = dispatch(orig, args@);

        let entry = self.events.remove(k);
        let EventEntry { name, handlers: mut old_subs } = entry;
        let mut new_subs: Vec<Subscription> = Vec::new();
        let mut outcomes: Vec<Outcome> = Vec::new();
        let mut removed: bool = false;
        let mut violation: Option<Violation> = None;

        proof {
            assert(dispatch(old_subs@, args@) == full);
        }
        while old_subs.len() > 0 && violation.is_none()
            invariant
                self.events@ == pre_entries.remove(k as int),
                k < pre_entries.len(),
                names_unique(pre_entries),
                pre_entries[k as int].name@ == ev@,
                forall|j: int| 0 <= j < k ==> #[trigger] pre_entries[j].name@ != ev@,
                name@ == ev@,
                ev@ == event@,
                full == dispatch(orig, args@),
                violation is None ==> {
                    &&& full.outcomes == outcomes@ + dispatch(old_subs@, args@).outcomes
                    &&& full.handlers == new_subs@ + dispatch(old_subs@, args@).handlers
                    &&& full.removed == (removed || dispatch(old_subs@, args@).removed)
                    &&& full.violation == dispatch(old_subs@, args@).violation
                },
                violation matches Some(v) ==> {
                    &&& full.violation == Some(v)
                    &&& full.handlers == new_subs@ + old_subs@
                    &&& full.removed == removed
                },
            decreases old_subs@.len(),
        {
            let ghost suffix = old_subs@;
            let ghost outs0 = outcomes@;
            let ghost news0 = new_subs@;
            let ghost removed0 = removed;
            let s = old_subs.remove(0);
            let ghost s_spec = s;
            proof {
                assert(old_subs@ =~= suffix.subrange(1, suffix.len() as int));
            }
            let ghost tail_model = dispatch(old_subs@, args@);
            let ghost step_model = dispatch(suffix, args@);
            let tg: u64 = s.handler.tag;
            let (new_rem, fires_now, exh): (Option<u64>, bool, bool) = match s.remaining {
                None => (None, true, false),
                Some(v) => (Some(if v == 0 { u64::MAX } else { v - 1 }), v >= 1, v == 1),
            };
            proof {
                assert(fires_now == fires(s_spec));
                assert(exh == exhausts(s_spec));
            }
            if !fires_now {
                outcomes.push(Outcome { tag: tg, kind: OutcomeKind::Skipped });
                let s2 = Subscription { handler: s.handler, remaining: new_rem };
                proof {
                    assert(s2 == dec_sub(s_spec));
                }
                new_subs.push(s2);
                removed = removed || exh;
                proof {
                    let o = (Outcome { tag: s_spec.handler.tag, kind: OutcomeKind::Skipped });
                    assert(step_model.outcomes == seq![o] + tail_model.outcomes);
                    assert(step_model.handlers == seq![dec_sub(s_spec)] + tail_model.handlers);
                    assert(step_model.removed == tail_model.removed);
                    assert(step_model.violation == tail_model.violation);
                    assert(outs0 + (seq![o] + tail_model.outcomes) =~= outs0.push(o)
                        + tail_model.outcomes);
                    assert(news0 + (seq![dec_sub(s_spec)] + tail_model.handlers) =~= news0.push(
                        dec_sub(s_spec),
                    ) + tail_model.handlers);
                }
            } else {
                let chk = check_args(&s.handler.sig, args);
                match chk {
                    None => {
                        let kind = match s.handler.body {
                            HandlerBody::Completes => OutcomeKind::Completed,
                            HandlerBody::Faults => OutcomeKind::Faulted,
                        };
                        outcomes.push(Outcome { tag: tg, kind });
                        let s2 = Subscription { handler: s.handler, remaining: new_rem };
                        proof {
                            assert(s2 == dec_sub(s_spec));
                        }
                        new_subs.push(s2);
                        removed = removed || exh;
                        proof {
                            let o = (Outcome {
                                tag: s_spec.handler.tag,
                                kind: delivered_kind(s_spec.handler.body),
                            });
                            assert(step_model.outcomes == seq![o] + tail_model.outcomes);
                            assert(step_model.handlers == seq![dec_sub(s_spec)]
                                + tail_model.handlers);
                            assert(step_model.removed == (exhausts(s_spec) || tail_model.removed));
                            assert(step_model.violation == tail_model.violation);
                            assert(outs0 + (seq![o] + tail_model.outcomes) =~= outs0.push(o)
                                + tail_model.outcomes);
                            assert(news0 + (seq![dec_sub(s_spec)] + tail_model.handlers)
                                =~= news0.push(dec_sub(s_spec)) + tail_model.handlers);
                        }
                    },
                    Some(vio) => {
                        let s2 = Subscription { handler: s.handler, remaining: new_rem };
                        proof {
                            assert(s2 == dec_sub(s_spec));
                        }
                        new_subs.push(s2);
                        removed = removed || exh;
                        violation = Some(vio);
                        proof {
                            let mv = (Violation {
                                position: violation_pos(s_spec.handler.sig@, args@) as usize,
                                expected: expected_at(s_spec.handler.sig@, args@),
                            });
                            assert(step_model.violation == Some(mv));
                            assert(violation_pos(s_spec.handler.sig@, args@) as usize
                                == vio.position);
                            assert(mv == vio);
                            assert(step_model.handlers == seq![dec_sub(s_spec)] + old_subs@);
                            assert(step_model.removed == exhausts(s_spec));
                            assert(news0 + (seq![dec_sub(s_spec)] + old_subs@) =~= news0.push(
                                dec_sub(s_spec),
                            ) + old_subs@);
                        }
                    },
                }
            }
        }
        proof {
            if violation is None {
                assert(old_subs@.len() == 0);
                assert(dispatch(old_subs@, args@).outcomes == Seq::<Outcome>::empty());
                assert(full.outcomes =~= outcomes@);
                assert(full.handlers =~= new_subs@ + Seq::<Subscription>::empty());
                assert(full.handlers =~= new_subs@);
                assert(full.removed == removed);
                assert(full.violation is None);
            }
        }
        let ghost news_before = new_subs@;
        new_subs.append(&mut old_subs);
        proof {
            if violation is None {
                assert(new_subs@ =~= news_before);
            }
            assert(full.handlers == new_subs@);
            assert(full.removed == removed);
        }
        if !removed {
            self.events.insert(k, EventEntry { name, handlers: new_subs });
            proof {
                let e2 = self.events@[k as int];
                assert(self.events@ =~= pre_entries.update(k as int, e2));
                assert(e2.name@ == ev@);
                assert(e2.handlers@ == full.handlers);
                assert forall|i: int, j: int|
                    #![trigger self.events@[i].name@, self.events@[j].name@]
                    0 <= i < j < self.events@.len() implies self.events@[i].name@
                    != self.events@[j].name@ by {
                    assert(self.events@[i].name@ == pre_entries[i].name@);
                    assert(self.events@[j].name@ == pre_entries[j].name@);
                }
                assert forall|n: Seq<char>| #[trigger]
                    lookup(self.events@, n) == if n == ev@ {
                        Some(e2.handlers@)
                    } else {
                        lookup(pre_entries, n)
                    } by {
                    lemma_lookup_update(pre_entries, k as int, e2, n);
                }
            }
        } else {
            proof {
                assert forall|n: Seq<char>| #[trigger]
                    lookup(self.events@, n) == if n == ev@ {
                        None::<Seq<Subscription>>
                    } else {
                        lookup(pre_entries, n)
                    } by {
                    lemma_lookup_remove(pre_entries, k as int, n);
                }
                assert forall|i: int, j: int|
                    #![trigger self.events@[i].name@, self.events@[j].name@]
                    0 <= i < j < self.events@.len() implies self.events@[i].name@
                    != self.events@[j].name@ by {
                    if i < k as int {
                        assert(self.events@[i] == pre_entries[i]);
                    } else {
                        assert(self.events@[i] == pre_entries[i + 1]);
                    }
                    if j < k as int {
                        assert(self.events@[j] == pre_entries[j]);
                    } else {
                        assert(self.events@[j] == pre_entries[j + 1]);
                    }
                }
            }
        }
        match violation {
            None => Ok(outcomes),
            Some(v) => Err(
                EmitError::ContractViolation {
                    event: ev,
                    position: v.position,
                    expected: v.expected,
                },
            ),
        }
    }

    /// Remove the entire handler list for an event; a no-op when the event
    /// has none.
    pub fn off(&mut self, event: &str)
        requires
            old(self).wf(),
        ensures
            final(self).wf(),
            final(self).handlers_of(event@) is None,
            forall|n: Seq<char>|
                n != event@ ==> #[trigger] final(self).handlers_of(n) == old(self).handlers_of(n),
    {
        let ev: String = event.to_owned();
        let found = self.find_entry(&ev);
        match found {
            Some(k) => {
                let ghost pre = self.events@;
                self.events.remove(k);
                proof {
                    assert forall|j: int|
                        0 <= j < pre.len() && j != k implies #[trigger] pre[j].name@
                            != pre[k as int].name@ by {}
                    assert forall|n: Seq<char>| #[trigger]
                        lookup(self.events@, n) == if n == ev@ {
                            None::<Seq<Subscription>>
                        } else {
                            lookup(pre, n)
                        } by {
                        lemma_lookup_remove(pre, k as int, n);
                    }
                    assert forall|i: int, j: int|
                        #![trigger self.events@[i].name@, self.events@[j].name@]
                        0 <= i < j < self.events@.len() implies self.events@[i].name@
                        != self.events@[j].name@ by {
                        if i < k as int {
                            assert(self.events@[i] == pre[i]);
                        } else {
                            assert(self.events@[i] == pre[i + 1]);
                        }
                        if j < k as int {
                            assert(self.events@[j] == pre[j]);
                        } else {
                            assert(self.events@[j] == pre[j + 1]);
                        }
                    }
                }
            }
            None => {}
        }
    }
}

impl Default for EventEmitter {
    /// Same as `EventEmitter::new`.
    fn default() -> (r: Self)
        ensures
            r.wf(),
            r.is_clear(),
    {
        EventEmitter::new()
    }
}

} // verus!
