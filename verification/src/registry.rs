//! The process-wide registry of named emitters and the active-emitter
//! selection.
//!
//! A `Dispatcher` is the explicit context object a caller threads through
//! its modules: it owns the id-to-emitter registry and the currently
//! selected ("active") emitter id. Registration, publishing and
//! unsubscription resolve the active id with get-or-create semantics, so
//! exactly one emitter exists per id and a selection never fails.

use vstd::prelude::*;
use crate::args::ArgValue;
use crate::emitter::{
    EmitError, EventEmitter, Outcome, Subscription, TypedHandler, appended, dispatch, no_listeners,
};

verus! {

pub(crate) struct RegEntry {
    pub id: String,
    pub emitter: EventEmitter,
}

/// The registry of named emitters together with the per-context active
/// selection. The entry for id `"default"` exists from construction;
/// entries are added lazily on first reference and never removed.
pub struct Dispatcher {
    emitters: Vec<RegEntry>,
    active: String,
}

/// First-match lookup of an emitter id in the registry.
pub(crate) open spec fn lookup_reg(entries: Seq<RegEntry>, id: Seq<char>) -> Option<EventEmitter>
    decreases entries.len(),
{
    if entries.len() == 0 {
        None
    } else if entries[0].id@ == id {
        Some(entries[0].emitter)
    } else {
        lookup_reg(entries.subrange(1, entries.len() as int), id)
    }
}

/// No two registry entries carry the same id.
pub(crate) open spec fn ids_unique(entries: Seq<RegEntry>) -> bool {
    forall|i: int, j: int|
        #![trigger entries[i].id@, entries[j].id@]
        0 <= i < j < entries.len() ==> entries[i].id@ != entries[j].id@
}

proof fn lemma_reg_none_iff(entries: Seq<RegEntry>, id: Seq<char>)
    ensures
        lookup_reg(entries, id) is None <==> (forall|k: int|
            0 <= k < entries.len() ==> #[trigger] entries[k].id@ != id),
    decreases entries.len(),
{
    if entries.len() > 0 {
        let tail = entries.subrange(1, entries.len() as int);
        lemma_reg_none_iff(tail, id);
        if entries[0].id@ == id {
            assert(lookup_reg(entries, id) is Some);
        } else {
            assert(lookup_reg(entries, id) == lookup_reg(tail, id));
            if lookup_reg(tail, id) is None {
                assert forall|k: int|
                    0 <= k < entries.len() implies #[trigger] entries[k].id@ != id by {
                    if k > 0 {
                        assert(tail[k - 1] == entries[k]);
                        assert(tail[k - 1].id@ != id);
                    }
                }
            } else {
                assert(!(forall|k: int| 0 <= k < tail.len() ==> #[trigger] tail[k].id@ != id));
                let k0 = choose|k: int| 0 <= k < tail.len() && !(#[trigger] tail[k].id@ != id);
                assert(entries[k0 + 1].id@ == id);
            }
        }
    }
}

proof fn lemma_reg_found(entries: Seq<RegEntry>, id: Seq<char>, k: int)
    requires
        0 <= k < entries.len(),
        entries[k].id@ == id,
        forall|j: int| 0 <= j < k ==> #[trigger] entries[j].id@ != id,
    ensures
        lookup_reg(entries, id) == Some(entries[k].emitter),
    decreases k,
{
    if k > 0 {
        let tail = entries.subrange(1, entries.len() as int);
        assert(forall|j: int| 0 <= j < k - 1 ==> #[trigger] tail[j] == entries[j + 1]);
        lemma_reg_found(tail, id, k - 1);
    }
}

proof fn lemma_reg_update(entries: Seq<RegEntry>, k: int, e2: RegEntry, id: Seq<char>)
    requires
        0 <= k < entries.len(),
        entries[k].id@ == e2.id@,
        forall|j: int| 0 <= j < k ==> #[trigger] entries[j].id@ != e2.id@,
    ensures
        lookup_reg(entries.update(k, e2), id) == if id == e2.id@ {
            Some(e2.emitter)
        } else {
            lookup_reg(entries, id)
        },
    decreases k,
{
    let upd = entries.update(k, e2);
    if k == 0 {
        assert(upd[0] == e2);
        assert(upd.subrange(1, upd.len() as int) =~= entries.subrange(1, entries.len() as int));
    } else {
        let tail = entries.subrange(1, entries.len() as int);
        assert(forall|j: int| 0 <= j < k - 1 ==> #[trigger] tail[j] == entries[j + 1]);
        assert(upd.subrange(1, upd.len() as int) =~= tail.update(k - 1, e2));
        lemma_reg_update(tail, k - 1, e2, id);
        assert(upd[0] == entries[0]);
    }
}

proof fn lemma_reg_push(entries: Seq<RegEntry>, e: RegEntry, id: Seq<char>)
    requires
        lookup_reg(entries, e.id@) is None,
    ensures
        lookup_reg(entries.push(e), id) == if id == e.id@ {
            Some(e.emitter)
        } else {
            lookup_reg(entries, id)
        },
    decreases entries.len(),
{
    let p = entries.push(e);
    if entries.len() == 0 {
        assert(p[0] == e);
        assert(p.subrange(1, p.len() as int) =~= Seq::<RegEntry>::empty());
        if id == e.id@ {
            assert(lookup_reg(p, id) == Some(e.emitter));
        } else {
            assert(lookup_reg(p, id) == lookup_reg(p.subrange(1, p.len() as int), id));
        }
    } else {
        assert(p[0] == entries[0]);
        let tail = entries.subrange(1, entries.len() as int);
        assert(p.subrange(1, p.len() as int) =~= tail.push(e));
        assert(entries[0].id@ != e.id@);
        assert(lookup_reg(tail, e.id@) is None);
        lemma_reg_push(tail, e, id);
        if id == entries[0].id@ {
            assert(lookup_reg(p, id) == Some(entries[0].emitter));
        } else {
            assert(lookup_reg(p, id) == lookup_reg(tail.push(e), id));
            assert(lookup_reg(entries, id) == lookup_reg(tail, id));
        }
    }
}

impl Dispatcher {
    /// The emitter registered under an id, if any.
    pub closed spec fn emitter_of(&self, id: Seq<char>) -> Option<EventEmitter> {
        lookup_reg(self.emitters@, id)
    }

    /// The id that register/publish/unsubscribe calls currently target.
    pub closed spec fn active_id(&self) -> Seq<char> {
        self.active@
    }

    /// Well-formedness: ids are unique and every registered emitter is
    /// well-formed.
    pub closed spec fn wf(&self) -> bool {
        &&& ids_unique(self.emitters@)
        &&& forall|k: int|
            0 <= k < self.emitters@.len() ==> (#[trigger] self.emitters@[k].emitter).wf()
    }

    /// The handler list that a publish of `event` would target: the one
    /// registered for `event` on the active emitter.
    pub open spec fn resolved(&self, event: Seq<char>) -> Option<Seq<Subscription>> {
        match self.emitter_of(self.active_id()) {
            Option::None => Option::None,
            Option::Some(em) => em.handlers_of(event),
        }
    }

    /// A fresh dispatcher: one clear emitter under `"default"`, which is
    /// also the active selection.
    pub fn new() -> (r: Self)
        ensures
            r.wf(),
            r.active_id() == "default"@,
            (r.emitter_of("default"@) matches Some(em) && em.is_clear()),
            forall|n: Seq<char>| n != "default"@ ==> #[trigger] r.emitter_of(n) is None,
    {
        let mut emitters: Vec<RegEntry> = Vec::new();
        let em = EventEmitter::new();
        emitters.push(RegEntry { id: "default".to_owned(), emitter: em });
        let r = Dispatcher { emitters, active: "default".to_owned() };
        proof {
            assert(r.emitters@.len() == 1);
            assert(r.emitters@[0].id@ == "default"@);
            assert forall|n: Seq<char>|
                n != "default"@ implies #[trigger] r.emitter_of(n) is None by {
                assert(r.emitters@[0].id@ != n);
                assert(lookup_reg(r.emitters@, n) == lookup_reg(r.emitters@.subrange(1, 1), n));
                assert(r.emitters@.subrange(1, 1) =~= Seq::<RegEntry>::empty());
                assert(lookup_reg(r.emitters@.subrange(1, 1), n) is None);
            }
        }
        r
    }

    fn find_emitter(&self, id: &String) -> (r: Option<usize>)
        ensures
            match r {
                Some(k) => {
                    &&& k < self.emitters@.len()
                    &&& self.emitters@[k as int].id@ == id@
                    &&& (forall|j: int| 0 <= j < k ==> #[trigger] self.emitters@[j].id@ != id@)
                    &&& self.emitter_of(id@) == Some(self.emitters@[k as int].emitter)
                },
                None => self.emitter_of(id@) is None,
            },
    {
        let mut i: usize = 0;
        while i < self.emitters.len()
            invariant
                i <= self.emitters@.len(),
                forall|j: int| 0 <= j < i ==> #[trigger] self.emitters@[j].id@ != id@,
            decreases self.emitters@.len() - i,
        {
            if self.emitters[i].id == *id {
                proof {
                    lemma_reg_found(self.emitters@, id@, i as int);
                }
                return Some(i);
            }
            i += 1;
        }
        proof {
            lemma_reg_none_iff(self.emitters@, id@);
        }
        None
    }

    /// Get-or-create: after this call the id owns exactly one entry, at
    /// the returned index; a pre-existing emitter is untouched.
    fn ensure(&mut self, id: &String) -> (k: usize)
        requires
            old(self).wf(),
        ensures
            final(self).wf(),
            final(self).active_id() == old(self).active_id(),
            k < final(self).emitters@.len(),
            final(self).emitters@[k as int].id@ == id@,
            forall|j: int| 0 <= j < k ==> #[trigger] final(self).emitters@[j].id@ != id@,
            final(self).emitter_of(id@) == Some(final(self).emitters@[k as int].emitter),
            forall|n: Seq<char>|
                n != id@ ==> #[trigger] final(self).emitter_of(n) == old(self).emitter_of(n),
            old(self).emitter_of(id@) matches Some(em) ==> final(self).emitter_of(id@) == Some(em),
            old(self).emitter_of(id@) is None ==> (final(self).emitter_of(id@) matches Some(em)
                && em.is_clear()),
    {
        let found = self.find_emitter(id);
        match found {
            Some(k) => k,
            None => {
                let ghost pre = self.emitters@;
                let em = EventEmitter::new();
                self.emitters.push(RegEntry { id: id.clone(), emitter: em });
                proof {
                    let e = self.emitters@[pre.len() as int];
                    assert(self.emitters@ =~= pre.push(e));
                    assert(e.id@ == id@);
                    lemma_reg_none_iff(pre, id@);
                    assert forall|i: int, j: int|
                        #![trigger self.emitters@[i].id@, self.emitters@[j].id@]
                        0 <= i < j < self.emitters@.len() implies self.emitters@[i].id@
                        != self.emitters@[j].id@ by {
                        if j < pre.len() {
                            assert(self.emitters@[i].id@ == pre[i].id@);
                            assert(self.emitters@[j].id@ == pre[j].id@);
                        } else {
                            assert(self.emitters@[i].id@ == pre[i].id@);
                            assert(self.emitters@[j].id@ == id@);
                        }
                    }
                    assert forall|n: Seq<char>| #[trigger]
                        lookup_reg(self.emitters@, n) == if n == id@ {
                            Some(e.emitter)
                        } else {
                            lookup_reg(pre, n)
                        } by {
                        lemma_reg_push(pre, e, n);
                    }
                    assert forall|kk: int|
                        0 <= kk < self.emitters@.len() implies (#[trigger] self.emitters@[kk].emitter).wf() by {
                        if kk < pre.len() {
                            assert(self.emitters@[kk] == pre[kk]);
                        }
                    }
                }
                self.emitters.len() - 1
            },
        }
    }

    /// Create the emitter registered under `id` if it does not exist yet;
    /// idempotent, and does not change the active selection.
    pub fn create_emitter(&mut self, id: &str)
        requires
            old(self).wf(),
        ensures
            final(self).wf(),
            final(self).active_id() == old(self).active_id(),
            old(self).emitter_of(id@) matches Some(em) ==> final(self).emitter_of(id@) == Some(em),
            old(self).emitter_of(id@) is None ==> (final(self).emitter_of(id@) matches Some(em)
                && em.is_clear()),
            forall|n: Seq<char>|
                n != id@ ==> #[trigger] final(self).emitter_of(n) == old(self).emitter_of(n),
    {
        let ids: String = id.to_owned();
        self.ensure(&ids);
    }

    /// Select the emitter that subsequent register/publish/unsubscribe
    /// calls target, creating it if absent.
    pub fn select_active_emitter(&mut self, id: &str)
        requires
            old(self).wf(),
        ensures
            final(self).wf(),
            final(self).active_id() == id@,
            old(self).emitter_of(id@) matches Some(em) ==> final(self).emitter_of(id@) == Some(em),
            old(self).emitter_of(id@) is None ==> (final(self).emitter_of(id@) matches Some(em)
                && em.is_clear()),
            forall|n: Seq<char>|
                n != id@ ==> #[trigger] final(self).emitter_of(n) == old(self).emitter_of(n),
    {
        let ids: String = id.to_owned();
        self.active = id.to_owned();
        self.ensure(&ids);
    }

    /// Register a subscription for an event on the active emitter,
    /// creating the emitter if absent.
    fn register(&mut self, event: &str, sub: Subscription)
        requires
            old(self).wf(),
        ensures
            final(self).wf(),
            final(self).active_id() == old(self).active_id(),
            forall|n: Seq<char>|
                n != old(self).active_id() ==> #[trigger] final(self).emitter_of(n) == old(
                    self,
                ).emitter_of(n),
            final(self).resolved(event@) == Some(appended(old(self).resolved(event@), sub)),
            forall|n: Seq<char>|
                n != event@ ==> #[trigger] final(self).resolved(n) == old(self).resolved(n),
    {
        let act: String = self.active.clone();
        let k = self.ensure(&act);
        let ghost mid = *self;
        let ghost em0 = mid.emitters@[k as int].emitter;
        let mut entry = self.emitters.remove(k);
        entry.emitter.on(event, sub);
        self.emitters.insert(k, entry);
        proof {
            self.lemma_after_entry_op(mid, k as int, act@, *old(self));
            let e2 = self.emitters@[k as int];
            assert forall|n: Seq<char>| #[trigger] em0.handlers_of(n) == old(self).resolved(
                n,
            ) by {
                if old(self).emitter_of(act@) is None {
                    assert(em0.handlers_of(n) is None);
                }
            }
            assert(final(self).resolved(event@) == e2.emitter.handlers_of(event@));
        }
    }

    /// The registry and active selection after replacing the active
    /// entry's emitter: ids and the other emitters are untouched.
    proof fn lemma_after_entry_op(&self, mid: Dispatcher, k: int, act: Seq<char>, pre: Dispatcher)
        requires
            mid.wf(),
            0 <= k < mid.emitters@.len(),
            mid.emitters@[k].id@ == act,
            forall|j: int| 0 <= j < k ==> #[trigger] mid.emitters@[j].id@ != act,
            mid.active@ == act,
            self.active@ == act,
            self.emitters@.len() == mid.emitters@.len(),
            self.emitters@ =~= mid.emitters@.update(k, self.emitters@[k]),
            self.emitters@[k].id@ == act,
            self.emitters@[k].emitter.wf(),
            forall|n: Seq<char>|
                n != act ==> #[trigger] mid.emitter_of(n) == pre.emitter_of(n),
            pre.active@ == act,
        ensures
            self.wf(),
            self.active_id() == act,
            self.emitter_of(act) == Some(self.emitters@[k].emitter),
            forall|n: Seq<char>| n != act ==> #[trigger] self.emitter_of(n) == pre.emitter_of(n),
            forall|n: Seq<char>|
                n != act ==> #[trigger] self.emitter_of(n) == mid.emitter_of(n),
    {
        let e2 = self.emitters@[k];
        assert forall|i: int, j: int|
            #![trigger self.emitters@[i].id@, self.emitters@[j].id@]
            0 <= i < j < self.emitters@.len() implies self.emitters@[i].id@
            != self.emitters@[j].id@ by {
            assert(self.emitters@[i].id@ == mid.emitters@[i].id@);
            assert(self.emitters@[j].id@ == mid.emitters@[j].id@);
        }
        assert forall|n: Seq<char>| #[trigger]
            lookup_reg(self.emitters@, n) == if n == act {
                Some(e2.emitter)
            } else {
                lookup_reg(mid.emitters@, n)
            } by {
            lemma_reg_update(mid.emitters@, k, e2, n);
        }
        assert forall|kk: int|
            0 <= kk < self.emitters@.len() implies (#[trigger] self.emitters@[kk].emitter).wf() by {
            if kk != k {
                assert(self.emitters@[kk] == mid.emitters@[kk]);
            }
        }
        assert forall|n: Seq<char>|
            n != act implies #[trigger] self.emitter_of(n) == pre.emitter_of(n) by {
            assert(lookup_reg(self.emitters@, n) == lookup_reg(mid.emitters@, n));
            assert(mid.emitter_of(n) == pre.emitter_of(n));
        }
    }

    /// Register a handler for an event on the active emitter: it is
    /// appended after all previously registered handlers of that event
    /// and fires on every future publish of it.
    pub fn subscribe(&mut self, event: &str, listener: TypedHandler)
        requires
            old(self).wf(),
        ensures
            final(self).wf(),
            final(self).active_id() == old(self).active_id(),
            forall|n: Seq<char>|
                n != old(self).active_id() ==> #[trigger] final(self).emitter_of(n) == old(
                    self,
                ).emitter_of(n),
            final(self).resolved(event@) == Some(
                appended(
                    old(self).resolved(event@),
                    (Subscription { handler: listener, remaining: None }),
                ),
            ),
            forall|n: Seq<char>|
                n != event@ ==> #[trigger] final(self).resolved(n) == old(self).resolved(n),
    {
        self.register(event, Subscription { handler: listener, remaining: None });
    }

    /// Register a counted subscription: the handler fires on up to
    /// `count` publishes of the event, and the publish that exhausts the
    /// budget removes the event's whole handler list.
    pub fn subscribe_times(&mut self, event: &str, count: u64, listener: TypedHandler)
        requires
            old(self).wf(),
        ensures
            final(self).wf(),
            final(self).active_id() == old(self).active_id(),
            forall|n: Seq<char>|
                n != old(self).active_id() ==> #[trigger] final(self).emitter_of(n) == old(
                    self,
                ).emitter_of(n),
            final(self).resolved(event@) == Some(
                appended(
                    old(self).resolved(event@),
                    (Subscription { handler: listener, remaining: Some(count) }),
                ),
            ),
            forall|n: Seq<char>|
                n != event@ ==> #[trigger] final(self).resolved(n) == old(self).resolved(n),
    {
        self.register(event, Subscription { handler: listener, remaining: Some(count) });
    }

    /// Register a one-shot subscription: the same as `subscribe_times`
    /// with a budget of one.
    pub fn subscribe_once(&mut self, event: &str, listener: TypedHandler)
        requires
            old(self).wf(),
        ensures
            final(self).wf(),
            final(self).active_id() == old(self).active_id(),
            forall|n: Seq<char>|
                n != old(self).active_id() ==> #[trigger] final(self).emitter_of(n) == old(
                    self,
                ).emitter_of(n),
            final(self).resolved(event@) == Some(
                appended(
                    old(self).resolved(event@),
                    (Subscription { handler: listener, remaining: Some(1u64) }),
                ),
            ),
            forall|n: Seq<char>|
                n != event@ ==> #[trigger] final(self).resolved(n) == old(self).resolved(n),
    {
        self.subscribe_times(event, 1, listener);
    }

    /// Publish an event with an ordered argument list on the active
    /// emitter (created if absent), as `EventEmitter::emit` states over
    /// `dispatch`.
    pub fn publish(&mut self, event: &str, args: &Vec<ArgValue>) -> (r: Result<
        Vec<Outcome>,
        EmitError,
    >)
        requires
            old(self).wf(),
        ensures
            final(self).wf(),
            final(self).active_id() == old(self).active_id(),
            forall|n: Seq<char>|
                n != old(self).active_id() ==> #[trigger] final(self).emitter_of(n) == old(
                    self,
                ).emitter_of(n),
            forall|n: Seq<char>|
                n != event@ ==> #[trigger] final(self).resolved(n) == old(self).resolved(n),
            no_listeners(old(self).resolved(event@)) ==> (r matches Err(EmitError::NoListeners)
                && final(self).resolved(event@) == old(self).resolved(event@)),
            old(self).resolved(event@) matches Some(subs) ==> subs.len() > 0 ==> ({
                let m = dispatch(subs, args@);
                &&& (m.violation is None ==> (r matches Ok(out) && out@ == m.outcomes))
                &&& (m.violation matches Some(v) ==> (r matches Err(
                    EmitError::ContractViolation { event: e2, position: p2, expected: x2 },
                ) && e2@ == event@ && p2 == v.position && x2 == v.expected))
                &&& final(self).resolved(event@) == (if m.removed {
                    None::<Seq<Subscription>>
                } else {
                    Some(m.handlers)
                })
            }),
    {
        let act: String = self.active.clone();
        let k = self.ensure(&act);
        let ghost mid = *self;
        let ghost em0 = mid.emitters@[k as int].emitter;
        let mut entry = self.emitters.remove(k);
        let r = entry.emitter.emit(event, args);
        self.emitters.insert(k, entry);
        proof {
            self.lemma_after_entry_op(mid, k as int, act@, *old(self));
            let e2 = self.emitters@[k as int];
            assert forall|n: Seq<char>| #[trigger] em0.handlers_of(n) == old(self).resolved(
                n,
            ) by {
                if old(self).emitter_of(act@) is None {
                    assert(em0.handlers_of(n) is None);
                }
            }
            assert forall|n: Seq<char>| #[trigger] final(self).resolved(n)
                == e2.emitter.handlers_of(n) by {}
        }
        r
    }

    /// Remove the entire handler list for an event on the active emitter
    /// (created if absent); idempotent when the event has no handlers.
    pub fn unsubscribe_all(&mut self, event: &str)
        requires
            old(self).wf(),
        ensures
            final(self).wf(),
            final(self).active_id() == old(self).active_id(),
            forall|n: Seq<char>|
                n != old(self).active_id() ==> #[trigger] final(self).emitter_of(n) == old(
                    self,
                ).emitter_of(n),
            final(self).resolved(event@) is None,
            forall|n: Seq<char>|
                n != event@ ==> #[trigger] final(self).resolved(n) == old(self).resolved(n),
    {
        let act: String = self.active.clone();
        let k = self.ensure(&act);
        let ghost mid = *self;
        let ghost em0 = mid.emitters@[k as int].emitter;
        let mut entry = self.emitters.remove(k);
        entry.emitter.off(event);
        self.emitters.insert(k, entry);
        proof {
            self.lemma_after_entry_op(mid, k as int, act@, *old(self));
            let e2 = self.emitters@[k as int];
            assert forall|n: Seq<char>| #[trigger] em0.handlers_of(n) == old(self).resolved(
                n,
            ) by {
                if old(self).emitter_of(act@) is None {
                    assert(em0.handlers_of(n) is None);
                }
            }
            assert(final(self).resolved(event@) == e2.emitter.handlers_of(event@));
        }
    }
}

} // verus!
