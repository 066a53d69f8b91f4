//! The dispatch laws, proved over the publish model.
//!
//! These state, once and for all inputs, what the emitter's contracts
//! promise in combination: ordered exactly-once delivery, fault
//! isolation, and the counted-subscription protocol over repeated
//! publishes.

use vstd::prelude::*;
use crate::args::{ArgValue, sig_ok};
use crate::emitter::{
    HandlerBody, Outcome, OutcomeKind, Subscription, TypedHandler, appended, dec_sub,
    delivered_kind, dispatch, exhausts, fires,
};

verus! {

/// The state of one event entry after a run of publishes, together with
/// how often handlers were delivered to. `entry` is `None` when the
/// event has no entry: a publish then reports `NoListeners` and changes
/// nothing.
pub ghost struct PublishesModel {
    pub entry: Option<Seq<Subscription>>,
    pub fired: nat,
}

/// How many outcomes of a publish are deliveries (completed or faulted,
/// as opposed to skipped).
pub open spec fn delivered_count(outs: Seq<Outcome>) -> nat
    decreases outs.len(),
{
    if outs.len() == 0 {
        0
    } else {
        (if outs[0].kind == OutcomeKind::Skipped {
            0nat
        } else {
            1nat
        }) + delivered_count(outs.subrange(1, outs.len() as int))
    }
}

/// The effect of one publish on one event entry, as `EventEmitter::emit`
/// ensures it: an absent or empty entry is left unchanged with nothing
/// delivered, and otherwise the entry becomes what `dispatch` leaves
/// behind — removed entirely when a counted budget was exhausted.
pub open spec fn publish_step(entry: Option<Seq<Subscription>>, args: Seq<ArgValue>) -> PublishesModel {
    match entry {
        Option::None => PublishesModel { entry: Option::None, fired: 0 },
        Option::Some(subs) => {
            if subs.len() == 0 {
                PublishesModel { entry: Option::Some(subs), fired: 0 }
            } else {
                let m = dispatch(subs, args);
                PublishesModel {
                    entry: if m.removed {
                        Option::None
                    } else {
                        Option::Some(m.handlers)
                    },
                    fired: delivered_count(m.outcomes),
                }
            }
        },
    }
}

/// `k` publishes of the same event and arguments in a row.
pub open spec fn publishes(entry: Option<Seq<Subscription>>, args: Seq<ArgValue>, k: nat) -> PublishesModel
    decreases k,
{
    if k == 0 {
        PublishesModel { entry, fired: 0 }
    } else {
        let one = publish_step(entry, args);
        let rest = publishes(one.entry, args, (k - 1) as nat);
        PublishesModel { entry: rest.entry, fired: one.fired + rest.fired }
    }
}

/// The entry for an event that started with no handlers, after its
/// subscriptions were registered one by one: each registration appends,
/// as `EventEmitter::on` and `Dispatcher::subscribe` ensure.
pub open spec fn after_registrations(subs: Seq<Subscription>) -> Option<Seq<Subscription>>
    decreases subs.len(),
{
    if subs.len() == 0 {
        Option::None
    } else {
        Option::Some(appended(after_registrations(subs.drop_last()), subs.last()))
    }
}

/// Registering a row of subscriptions in turn, for an event that had no
/// entry, yields exactly that row, in registration order.
pub proof fn lemma_registrations_in_order(subs: Seq<Subscription>)
    requires
        subs.len() > 0,
    ensures
        after_registrations(subs) == Option::Some(subs),
    decreases subs.len(),
{
    if subs.len() == 1 {
        assert(seq![subs.last()] =~= subs);
    } else {
        lemma_registrations_in_order(subs.drop_last());
        assert(subs.drop_last().push(subs.last()) =~= subs);
    }
}

/// A run of outcomes without a skip counts one delivery per outcome.
proof fn lemma_delivered_count_all(outs: Seq<Outcome>)
    requires
        forall|i: int| 0 <= i < outs.len() ==> (#[trigger] outs[i]).kind != OutcomeKind::Skipped,
    ensures
        delivered_count(outs) == outs.len(),
    decreases outs.len(),
{
    if outs.len() > 0 {
        let tail = outs.subrange(1, outs.len() as int);
        assert(forall|i: int| 0 <= i < tail.len() ==> #[trigger] tail[i] == outs[i + 1]);
        lemma_delivered_count_all(tail);
    }
}

/// One publish delivers to every registered subscription exactly once,
/// in registration order: when every subscription of the snapshot is
/// uncounted and matches the published arguments, the outcomes are one
/// delivery per subscription, position by position, and the handler list
/// is left as it was — whatever each handler body does when invoked.
pub proof fn lemma_publish_delivers_in_order(subs: Seq<Subscription>, args: Seq<ArgValue>)
    requires
        forall|i: int| 0 <= i < subs.len() ==> (#[trigger] subs[i]).remaining is None,
        forall|i: int| 0 <= i < subs.len() ==> sig_ok((#[trigger] subs[i]).handler.sig@, args),
    ensures
        ({
            let m = dispatch(subs, args);
            &&& m.violation is None
            &&& !m.removed
            &&& m.outcomes.len() == subs.len()
            &&& forall|i: int|
                0 <= i < subs.len() ==> #[trigger] m.outcomes[i] == (Outcome {
                    tag: subs[i].handler.tag,
                    kind: delivered_kind(subs[i].handler.body),
                })
            &&& delivered_count(m.outcomes) == subs.len()
            &&& m.handlers == subs
        }),
    decreases subs.len(),
{
    if subs.len() > 0 {
        let s = subs[0];
        let tail = subs.subrange(1, subs.len() as int);
        assert(forall|i: int| 0 <= i < tail.len() ==> #[trigger] tail[i] == subs[i + 1]);
        lemma_publish_delivers_in_order(tail, args);
        let m = dispatch(subs, args);
        let mt = dispatch(tail, args);
        assert(fires(s));
        assert(sig_ok(s.handler.sig@, args));
        assert(!exhausts(s));
        assert(dec_sub(s) == s);
        let o = (Outcome { tag: s.handler.tag, kind: delivered_kind(s.handler.body) });
        assert(m.outcomes == seq![o] + mt.outcomes);
        assert(m.handlers =~= subs);
        assert forall|i: int|
            0 <= i < subs.len() implies #[trigger] m.outcomes[i] == (Outcome {
                tag: subs[i].handler.tag,
                kind: delivered_kind(subs[i].handler.body),
            }) by {
            if i > 0 {
                assert(m.outcomes[i] == mt.outcomes[i - 1]);
                assert(tail[i - 1] == subs[i]);
            }
        }
        assert forall|i: int|
            0 <= i < m.outcomes.len() implies (#[trigger] m.outcomes[i]).kind
            != OutcomeKind::Skipped by {
            assert(m.outcomes[i] == (Outcome {
                tag: subs[i].handler.tag,
                kind: delivered_kind(subs[i].handler.body),
            }));
        }
        lemma_delivered_count_all(m.outcomes);
    }
}

/// A handler that faults during a publish does not prevent the handlers
/// registered after it: under the conditions of ordered delivery, every
/// subscription after a faulting one is still delivered to, never
/// skipped, and the handler list survives for later publishes.
pub proof fn lemma_fault_does_not_stop_later_handlers(
    subs: Seq<Subscription>,
    args: Seq<ArgValue>,
    f: int,
    l: int,
)
    requires
        forall|i: int| 0 <= i < subs.len() ==> (#[trigger] subs[i]).remaining is None,
        forall|i: int| 0 <= i < subs.len() ==> sig_ok((#[trigger] subs[i]).handler.sig@, args),
        0 <= f < l < subs.len(),
        subs[f].handler.body == HandlerBody::Faults,
    ensures
        ({
            let m = dispatch(subs, args);
            &&& m.violation is None
            &&& m.outcomes[f].kind == OutcomeKind::Faulted
            &&& m.outcomes[l] == (Outcome {
                tag: subs[l].handler.tag,
                kind: delivered_kind(subs[l].handler.body),
            })
            &&& m.outcomes[l].kind != OutcomeKind::Skipped
            &&& m.handlers == subs
        }),
{
    lemma_publish_delivers_in_order(subs, args);
}

/// After the entry for an event is gone, publishing it any number of
/// times delivers nothing and leaves it gone.
proof fn lemma_publishes_none(args: Seq<ArgValue>, k: nat)
    ensures
        publishes(Option::None, args, k).fired == 0,
        publishes(Option::None, args, k).entry is None,
    decreases k,
{
    if k > 0 {
        lemma_publishes_none(args, (k - 1) as nat);
    }
}

/// The counted-subscription protocol: a handler registered alone under
/// an event with a budget of `n >= 1` is delivered to exactly once per
/// publish while the budget lasts; the publish that exhausts the budget
/// removes the event entry, so with `k >= n` publishes it is delivered
/// to exactly `n` times and every later publish finds no listeners,
/// while `k < n` publishes deliver `k` times and leave a budget of
/// `n - k`.
pub proof fn lemma_counted_subscription_protocol(
    h: TypedHandler,
    n: u64,
    args: Seq<ArgValue>,
    k: nat,
)
    requires
        n >= 1,
        sig_ok(h.sig@, args),
    ensures
        ({
            let start = Option::Some(seq![Subscription { handler: h, remaining: Some(n) }]);
            let r = publishes(start, args, k);
            &&& (k >= n ==> r.fired == n && r.entry is None)
            &&& (k < n ==> r.fired == k && r.entry == Option::Some(
                seq![Subscription { handler: h, remaining: Some((n - k) as u64) }],
            ))
        }),
    decreases k,
{
    let s = (Subscription { handler: h, remaining: Some(n) });
    let start = Option::Some(seq![s]);
    if k > 0 {
        let m = dispatch(seq![s], args);
        assert(seq![s].len() == 1);
        assert(seq![s][0] == s);
        assert(fires(s));
        assert(seq![s].subrange(1, 1) =~= Seq::<Subscription>::empty());
        let o = (Outcome { tag: h.tag, kind: delivered_kind(h.body) });
        assert(dispatch(Seq::<Subscription>::empty(), args).outcomes == Seq::<Outcome>::empty());
        assert(m.outcomes == seq![o] + dispatch(Seq::empty(), args).outcomes);
        assert(m.outcomes =~= seq![o]);
        assert(m.outcomes[0] == o);
        assert(m.outcomes[0].kind != OutcomeKind::Skipped);
        assert(m.outcomes.subrange(1, 1) =~= Seq::<Outcome>::empty());
        assert(delivered_count(Seq::<Outcome>::empty()) == 0);
        assert(delivered_count(m.outcomes) == 1);
        assert(m.handlers =~= seq![dec_sub(s)]);
        assert(m.removed == (n == 1));
        let one = publish_step(start, args);
        assert(one.fired == 1);
        if n == 1 {
            assert(one.entry is None);
            lemma_publishes_none(args, (k - 1) as nat);
        } else {
            assert(dec_sub(s) == (Subscription { handler: h, remaining: Some((n - 1) as u64) }));
            assert(one.entry == Option::Some(
                seq![Subscription { handler: h, remaining: Some((n - 1) as u64) }],
            ));
            lemma_counted_subscription_protocol(h, (n - 1) as u64, args, (k - 1) as nat);
        }
    }
}

/// A one-shot subscription: registered alone under an event, the first
/// publish delivers to it exactly once and removes the event entry, so
/// the second publish finds no listeners and a run of two publishes
/// still delivers exactly once.
pub proof fn lemma_once_fires_exactly_once(h: TypedHandler, args: Seq<ArgValue>)
    requires
        sig_ok(h.sig@, args),
    ensures
        ({
            let start = Option::Some(seq![Subscription { handler: h, remaining: Some(1u64) }]);
            &&& publishes(start, args, 1).fired == 1
            &&& publishes(start, args, 1).entry is None
            &&& publishes(start, args, 2).fired == 1
            &&& publishes(start, args, 2).entry is None
        }),
{
    lemma_counted_subscription_protocol(h, 1, args, 1);
    lemma_counted_subscription_protocol(h, 1, args, 2);
}

} // verus!
