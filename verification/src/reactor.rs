//! The poller and the reactor: draining completion queues and dispatching
//! their entries onto the engine's request slots.
//!
//! `poll_once` drains one queue in hardware order; the `Reactor` runs every
//! queue it owns once per cycle, in registration order, and reports whether
//! the caller should continue, back off after an idle cycle, or stop
//! because shutdown was requested. The shutdown flag is consulted between
//! polls, never in the middle of one.

use vstd::prelude::*;
use crate::cq::{CompletionEntry, CompletionQueue};
use crate::engine::{Engine, lemma_engine_dims};
use crate::errors::EngineError;
use crate::slots::{SlotStatus, resolved_status};

verus! {

/// One resolved completion, as handed to the application.
#[derive(Clone, Copy, PartialEq, Eq, Structural, Debug)]
pub struct CompletionEvent {
    /// The request slot the completion resolved.
    pub slot_id: usize,
    /// The native status code it carried; zero means success.
    pub status: i32,
}

/// What the reactor's caller should do after a cycle.
#[derive(Clone, Copy, PartialEq, Eq, Structural, Debug)]
pub enum ReactorAction {
    /// Work was found; poll again at once.
    Continue,
    /// An idle cycle: yield before polling again rather than busy-spinning.
    Backoff,
    /// Shutdown was requested; leave the loop.
    Stop,
}

/// The entry resolves a known, in-flight slot.
pub open spec fn entry_valid(st: Seq<SlotStatus>, e: CompletionEntry) -> bool {
    e.slot_id < st.len() && st[e.slot_id as int] is Submitted
}

/// Slot statuses after dispatching `es` in order, stopping at the first
/// spurious entry.
pub open spec fn drain_statuses(st: Seq<SlotStatus>, es: Seq<CompletionEntry>) -> Seq<SlotStatus>
    decreases es.len(),
{
    if es.len() == 0 {
        st
    } else if entry_valid(st, es[0]) {
        drain_statuses(st.update(es[0].slot_id as int, resolved_status(es[0].status)),
            es.subrange(1, es.len() as int))
    } else {
        st
    }
}

/// Every entry of `es`, dispatched in order, resolves an in-flight slot.
pub open spec fn drain_ok(st: Seq<SlotStatus>, es: Seq<CompletionEntry>) -> bool
    decreases es.len(),
{
    if es.len() == 0 {
        true
    } else {
        entry_valid(st, es[0]) && drain_ok(st.update(es[0].slot_id as int,
            resolved_status(es[0].status)), es.subrange(1, es.len() as int))
    }
}

/// How many entries of `es` are dispatched before the first spurious one.
pub open spec fn drain_applied(st: Seq<SlotStatus>, es: Seq<CompletionEntry>) -> int
    decreases es.len(),
{
    if es.len() == 0 {
        0
    } else if entry_valid(st, es[0]) {
        1 + drain_applied(st.update(es[0].slot_id as int, resolved_status(es[0].status)),
            es.subrange(1, es.len() as int))
    } else {
        0
    }
}

/// The event an entry is delivered as.
pub open spec fn event_of(e: CompletionEntry) -> CompletionEvent {
    CompletionEvent { slot_id: e.slot_id, status: e.status }
}

/// The events a sequence of entries is delivered as, in the same order.
pub open spec fn events_of(es: Seq<CompletionEntry>) -> Seq<CompletionEvent> {
    Seq::new(es.len(), |i: int| event_of(es[i]))
}

/// Draining a concatenation is draining the parts in order; a spurious
/// entry in the first part stops the whole drain there.
pub proof fn lemma_drain_concat(
    st: Seq<SlotStatus>,
    a: Seq<CompletionEntry>,
    b: Seq<CompletionEntry>,
)
    ensures
        drain_ok(st, a + b) == (drain_ok(st, a) && drain_ok(drain_statuses(st, a), b)),
        drain_statuses(st, a + b) == if drain_ok(st, a) {
            drain_statuses(drain_statuses(st, a), b)
        } else {
            drain_statuses(st, a)
        },
        !drain_ok(st, a) ==> drain_applied(st, a + b) == drain_applied(st, a),
        drain_ok(st, a) ==> drain_applied(st, a + b) == a.len() + drain_applied(
            drain_statuses(st, a), b),
    decreases a.len(),
{
    if a.len() == 0 {
        assert(a + b =~= b);
    } else {
        assert((a + b)[0] == a[0]);
        if entry_valid(st, a[0]) {
            let st1 = st.update(a[0].slot_id as int, resolved_status(a[0].status));
            assert((a + b).subrange(1, (a + b).len() as int)
                =~= a.subrange(1, a.len() as int) + b);
            lemma_drain_concat(st1, a.subrange(1, a.len() as int), b);
        } else {
            assert(drain_statuses(st, a + b) == st);
            assert(drain_statuses(st, a) == st);
        }
    }
}

/// Draining a single entry.
proof fn lemma_drain_one(st: Seq<SlotStatus>, e: CompletionEntry)
    ensures
        drain_ok(st, seq![e]) == entry_valid(st, e),
        entry_valid(st, e) ==> drain_statuses(st, seq![e]) == st.update(e.slot_id as int,
            resolved_status(e.status)),
{
    let es = seq![e];
    assert(es.len() == 1);
    assert(es[0] == e);
    assert(es.subrange(1, 1) =~= Seq::<CompletionEntry>::empty());
    if entry_valid(st, e) {
        let st1 = st.update(e.slot_id as int, resolved_status(e.status));
        assert(drain_statuses(st, es) == drain_statuses(st1, es.subrange(1, 1)));
        assert(drain_statuses(st1, es.subrange(1, 1)) == st1);
        assert(drain_ok(st1, es.subrange(1, 1)));
    }
}

/// Drains one completion queue, resolving each entry's slot in hardware
/// order. An empty poll is a cheap no-op returning an empty sequence.
///
/// Fails with `SpuriousCompletion` exactly when some entry, dispatched in
/// order, names a slot that is unknown or not in flight; the entries before
/// it stay dispatched, the offending entry is consumed, and the rest stay
/// pending.
pub fn poll_once(cq: &mut CompletionQueue, engine: &mut Engine) -> (r: Result<
    Vec<CompletionEvent>,
    EngineError,
>)
    requires
        old(cq).wf(),
        old(engine).wf(),
    ensures
        final(cq).wf(),
        final(engine).wf(),
        final(cq).capacity_spec() == old(cq).capacity_spec(),
        final(engine).regions_model() == old(engine).regions_model(),
        final(engine).pinned_spec() == old(engine).pinned_spec(),
        final(engine).slot_region_model() == old(engine).slot_region_model(),
        final(engine).free_model() == old(engine).free_model(),
        final(engine).depth_spec() == old(engine).depth_spec(),
        final(engine).statuses_model() == drain_statuses(old(engine).statuses_model(),
            old(cq).pending()),
        r is Ok <==> drain_ok(old(engine).statuses_model(), old(cq).pending()),
        r matches Ok(evs) ==> {
            &&& evs@ == events_of(old(cq).pending())
            &&& final(cq).pending().len() == 0
        },
        r is Err ==> {
            &&& r == Err::<Vec<CompletionEvent>, EngineError>(EngineError::SpuriousCompletion)
            &&& final(cq).pending() == old(cq).pending().subrange(
                drain_applied(old(engine).statuses_model(), old(cq).pending()) + 1,
                old(cq).pending().len() as int)
        },
{
    let ghost st0 = old(engine).statuses_model();
    let ghost all = old(cq).pending();
    let mut events: Vec<CompletionEvent> = Vec::new();
    let ghost mut i: int = 0;
    while cq.len() > 0
        invariant
            cq.wf(),
            engine.wf(),
            cq.capacity_spec() == old(cq).capacity_spec(),
            engine.regions_model() == old(engine).regions_model(),
            engine.pinned_spec() == old(engine).pinned_spec(),
            engine.slot_region_model() == old(engine).slot_region_model(),
            engine.free_model() == old(engine).free_model(),
            engine.depth_spec() == old(engine).depth_spec(),
            0 <= i <= all.len(),
            cq.pending() == all.subrange(i, all.len() as int),
            drain_ok(st0, all.subrange(0, i)),
            engine.statuses_model() == drain_statuses(st0, all.subrange(0, i)),
            events@ == events_of(all.subrange(0, i)),
            st0 == old(engine).statuses_model(),
            all == old(cq).pending(),
        decreases all.len() - i,
    {
        let eo = cq.pop();
        let e = match eo {
            Some(e) => e,
            None => CompletionEntry { slot_id: 0, status: 0 },
        };
        proof {
            assert(eo is Some);
            assert(e == all[i]);
            assert(all.subrange(i, all.len() as int).subrange(1, all.len() - i)
                =~= all.subrange(i + 1, all.len() as int));
            lemma_engine_dims(*engine);
        }
        let ghost st_pre = engine.statuses_model();
        match engine.resolve(e.slot_id, e.status) {
            Ok(()) => {
                events.push(CompletionEvent { slot_id: e.slot_id, status: e.status });
                proof {
                    let pre = all.subrange(0, i);
                    let pre1 = all.subrange(0, i + 1);
                    assert(entry_valid(st_pre, e));
                    lemma_drain_concat(st0, pre, seq![e]);
                    assert(pre1 =~= pre + seq![e]);
                    lemma_drain_one(st_pre, e);
                    assert(drain_ok(st0, pre1));
                    assert(engine.statuses_model() == drain_statuses(st0, pre1));
                    assert(events@ =~= events_of(pre1));
                    i = i + 1;
                }
            },
            Err(_) => {
                proof {
                    let pre = all.subrange(0, i);
                    let rest = all.subrange(i, all.len() as int);
                    assert(!entry_valid(st_pre, e));
                    lemma_drain_concat(st0, pre, rest);
                    assert(pre + rest =~= all);
                    assert(!drain_ok(st_pre, rest));
                    assert(!drain_ok(st0, all));
                    assert(drain_statuses(st_pre, rest) == st_pre);
                    assert(drain_statuses(st0, all) == drain_statuses(st0, pre));
                    assert(drain_applied(st_pre, rest) == 0);
                    assert(drain_applied(st0, all) == i);
                }
                return Err(EngineError::SpuriousCompletion);
            },
        }
    }
    proof {
        assert(i == all.len());
        assert(all.subrange(0, i) =~= all);
    }
    Ok(events)
}

/// Every reactor cycle polls the queues it owns, in registration order,
/// with the shutdown flag checked between polls.
pub struct Reactor {
    queues: Vec<CompletionQueue>,
    shutdown: bool,
}

/// The entries pending in the first `i` queues, concatenated in queue
/// order.
pub open spec fn pending_upto(qs: Seq<CompletionQueue>, i: int) -> Seq<CompletionEntry>
    decreases i,
{
    if i <= 0 {
        Seq::empty()
    } else {
        pending_upto(qs, i - 1) + qs[i - 1].pending()
    }
}

/// The entries pending from queue `i` on, concatenated in queue order.
pub open spec fn pending_from(qs: Seq<CompletionQueue>, i: int) -> Seq<CompletionEntry>
    decreases qs.len() - i,
{
    if i < 0 || i >= qs.len() {
        Seq::empty()
    } else {
        qs[i].pending() + pending_from(qs, i + 1)
    }
}

/// Splitting the concatenated pending entries at any queue boundary.
pub proof fn lemma_pending_split(qs: Seq<CompletionQueue>, i: int)
    requires
        0 <= i <= qs.len(),
    ensures
        pending_upto(qs, qs.len() as int) == pending_upto(qs, i) + pending_from(qs, i),
    decreases qs.len() - i,
{
    if i == qs.len() {
        assert(pending_upto(qs, i) + pending_from(qs, i) =~= pending_upto(qs, i));
    } else {
        lemma_pending_split(qs, i + 1);
        assert(pending_upto(qs, i + 1) =~= pending_upto(qs, i) + qs[i].pending());
        assert(pending_upto(qs, i) + (qs[i].pending() + pending_from(qs, i + 1))
            =~= (pending_upto(qs, i) + qs[i].pending()) + pending_from(qs, i + 1));
    }
}

impl Reactor {
    /// The owned completion queues, in registration order.
    pub closed spec fn queues_model(self) -> Seq<CompletionQueue> {
        self.queues@
    }

    /// Whether shutdown has been requested.
    pub closed spec fn shutdown_spec(self) -> bool {
        self.shutdown
    }

    /// Every owned queue is well formed.
    pub open spec fn wf(self) -> bool {
        forall|i: int| 0 <= i < self.queues_model().len()
            ==> (#[trigger] self.queues_model()[i]).wf()
    }

    /// A reactor owning no queues, not shutting down.
    pub fn new() -> (r: Self)
        ensures
            r.wf(),
            r.queues_model().len() == 0,
            !r.shutdown_spec(),
    {
        Reactor { queues: Vec::new(), shutdown: false }
    }

    /// Hands a completion queue to this reactor; it is polled after every
    /// queue registered earlier.
    pub fn add_queue(&mut self, cq: CompletionQueue)
        requires
            old(self).wf(),
            cq.wf(),
        ensures
            final(self).wf(),
            final(self).queues_model() == old(self).queues_model().push(cq),
            final(self).shutdown_spec() == old(self).shutdown_spec(),
    {
        self.queues.push(cq);
        proof {
            assert forall|j: int| 0 <= j < final(self).queues_model().len()
                implies (#[trigger] final(self).queues_model()[j]).wf() by {
                if j < old(self).queues_model().len() {
                    assert(final(self).queues_model()[j] == old(self).queues_model()[j]);
                    assert((old(self).queues_model()[j]).wf());
                } else {
                    assert(final(self).queues_model()[j] == cq);
                }
            }
        }
    }

    /// Number of owned queues.
    pub fn queue_count(&self) -> (r: usize)
        ensures
            r == self.queues_model().len(),
    {
        self.queues.len()
    }

    /// Requests shutdown; the next cycle stops before polling anything.
    pub fn request_shutdown(&mut self)
        requires
            old(self).wf(),
        ensures
            final(self).wf(),
            final(self).queues_model() == old(self).queues_model(),
            final(self).shutdown_spec(),
    {
        self.shutdown = true;
        proof {
            assert forall|j: int| 0 <= j < final(self).queues_model().len()
                implies (#[trigger] final(self).queues_model()[j]).wf() by {
                assert((old(self).queues_model()[j]).wf());
            }
        }
    }

    /// Whether shutdown has been requested.
    pub fn is_shutdown(&self) -> (r: bool)
        ensures
            r == self.shutdown_spec(),
    {
        self.shutdown
    }

    /// Pushes an entry onto the queue registered under index `qi`, as the
    /// simulated driver side of that ring would.
    ///
    /// Fails with `UnknownQueue` when no queue has that index, and with
    /// `QueueFull` when the ring is full; nothing changes then.
    pub fn feed(&mut self, qi: usize, e: CompletionEntry) -> (r: Result<(), EngineError>)
        requires
            old(self).wf(),
        ensures
            final(self).wf(),
            final(self).shutdown_spec() == old(self).shutdown_spec(),
            final(self).queues_model().len() == old(self).queues_model().len(),
            r is Ok <==> qi < old(self).queues_model().len()
                && old(self).queues_model()[qi as int].pending().len()
                    < old(self).queues_model()[qi as int].capacity_spec(),
            r is Err ==> final(self).queues_model() == old(self).queues_model() && (
                if qi >= old(self).queues_model().len() {
                    r == Err::<(), EngineError>(EngineError::UnknownQueue)
                } else {
                    r == Err::<(), EngineError>(EngineError::QueueFull)
                }
            ),
            r is Ok ==> {
                &&& final(self).queues_model()[qi as int].pending()
                    == old(self).queues_model()[qi as int].pending().push(e)
                &&& final(self).queues_model()[qi as int].capacity_spec()
                    == old(self).queues_model()[qi as int].capacity_spec()
                &&& forall|j: int| 0 <= j < old(self).queues_model().len() && j != qi
                    ==> #[trigger] final(self).queues_model()[j]
                        == old(self).queues_model()[j]
            },
    {
        if qi >= self.queues.len() {
            return Err(EngineError::UnknownQueue);
        }
        proof {
            assert((self.queues_model()[qi as int]).wf());
        }
        let mut cq = self.queues.remove(qi);
        let r = cq.push(e);
        self.queues.insert(qi, cq);
        proof {
            assert forall|j: int| 0 <= j < old(self).queues_model().len() && j != qi
                implies #[trigger] final(self).queues_model()[j]
                    == old(self).queues_model()[j] by {}
            assert forall|j: int| 0 <= j < final(self).queues_model().len()
                implies (#[trigger] final(self).queues_model()[j]).wf() by {
                if j == qi {
                    assert(final(self).queues_model()[j] == cq);
                } else {
                    assert(final(self).queues_model()[j] == old(self).queues_model()[j]);
                    assert((old(self).queues_model()[j]).wf());
                }
            }
            if r is Err {
                assert(final(self).queues_model() =~= old(self).queues_model());
            }
        }
        match r {
            Ok(()) => Ok(()),
            Err(_) => Err(EngineError::QueueFull),
        }
    }

    /// Runs one reactor cycle: if shutdown was requested, stops before
    /// touching any queue; otherwise polls every owned queue once, in
    /// registration order, and reports `Backoff` after a cycle that found
    /// no work — the caller yields instead of re-polling immediately.
    ///
    /// Fails with `SpuriousCompletion` exactly when some queue holds an
    /// entry for a slot that is not in flight when its turn comes.
    pub fn run_cycle(&mut self, engine: &mut Engine) -> (r: Result<
        (Vec<CompletionEvent>, ReactorAction),
        EngineError,
    >)
        requires
            old(self).wf(),
            old(engine).wf(),
        ensures
            final(self).wf(),
            final(engine).wf(),
            final(self).shutdown_spec() == old(self).shutdown_spec(),
            final(self).queues_model().len() == old(self).queues_model().len(),
            final(engine).regions_model() == old(engine).regions_model(),
            final(engine).pinned_spec() == old(engine).pinned_spec(),
            final(engine).slot_region_model() == old(engine).slot_region_model(),
            final(engine).free_model() == old(engine).free_model(),
            final(engine).depth_spec() == old(engine).depth_spec(),
            old(self).shutdown_spec() ==> {
                &&& r matches Ok(p) && p.0@ == Seq::<CompletionEvent>::empty()
                    && p.1 == ReactorAction::Stop
                &&& *final(self) == *old(self)
                &&& *final(engine) == *old(engine)
            },
            !old(self).shutdown_spec() ==> {
                &&& final(engine).statuses_model() == drain_statuses(
                    old(engine).statuses_model(),
                    pending_upto(old(self).queues_model(),
                        old(self).queues_model().len() as int))
                &&& (r is Ok <==> drain_ok(old(engine).statuses_model(),
                    pending_upto(old(self).queues_model(),
                        old(self).queues_model().len() as int)))
                &&& r is Err ==> r == Err::<(Vec<CompletionEvent>, ReactorAction),
                    EngineError>(EngineError::SpuriousCompletion)
            },
            r matches Ok(p) ==> !old(self).shutdown_spec() ==> {
                &&& p.0@ == events_of(pending_upto(old(self).queues_model(),
                    old(self).queues_model().len() as int))
                &&& forall|j: int| 0 <= j < final(self).queues_model().len()
                    ==> (#[trigger] final(self).queues_model()[j]).pending().len() == 0
                &&& p.1 == if p.0@.len() == 0 {
                    ReactorAction::Backoff
                } else {
                    ReactorAction::Continue
                }
            },
    {
        if self.shutdown {
            return Ok((Vec::new(), ReactorAction::Stop));
        }
        let ghost q0 = old(self).queues_model();
        let ghost st0 = old(engine).statuses_model();
        let n = self.queues.len();
        let mut events: Vec<CompletionEvent> = Vec::new();
        let mut i: usize = 0;
        while i < n
            invariant
                i <= n,
                self.queues@.len() == n,
                q0.len() == n,
                !self.shutdown,
                self.wf(),
                engine.wf(),
                st0 == old(engine).statuses_model(),
                q0 == old(self).queues_model(),
                !old(self).shutdown_spec(),
                engine.regions_model() == old(engine).regions_model(),
                engine.pinned_spec() == old(engine).pinned_spec(),
                engine.slot_region_model() == old(engine).slot_region_model(),
                engine.free_model() == old(engine).free_model(),
                engine.depth_spec() == old(engine).depth_spec(),
                drain_ok(st0, pending_upto(q0, i as int)),
                engine.statuses_model() == drain_statuses(st0, pending_upto(q0, i as int)),
                events@ == events_of(pending_upto(q0, i as int)),
                forall|j: int| 0 <= j < i
                    ==> (#[trigger] self.queues@[j]).pending().len() == 0,
                forall|j: int| i <= j < n ==> #[trigger] self.queues@[j] == q0[j],
            decreases n - i,
        {
            let ghost pre_entries = pending_upto(q0, i as int);
            proof {
                assert((self.queues_model()[i as int]).wf());
                assert(self.queues@[i as int] == q0[i as int]);
            }
            let ghost qs_pre = self.queues@;
            let mut cq = self.queues.remove(i);
            let polled = poll_once(&mut cq, engine);
            let ghost qpend = q0[i as int].pending();
            proof {
                lemma_drain_concat(st0, pre_entries, qpend);
                assert(pending_upto(q0, i + 1) =~= pre_entries + qpend);
            }
            self.queues.insert(i, cq);
            proof {
                assert(self.queues@ =~= qs_pre.update(i as int, cq));
                assert forall|j: int| 0 <= j < self.queues@.len()
                    implies (#[trigger] self.queues@[j]).wf() by {
                    if j != i {
                        assert(self.queues@[j] == qs_pre[j]);
                        assert((qs_pre[j]).wf());
                    }
                }
            }
            match polled {
                Ok(mut evs) => {
                    events.append(&mut evs);
                    proof {
                        assert forall|t: int|
                            0 <= t < (pre_entries + qpend).len()
                            implies #[trigger] events_of(pre_entries + qpend)[t]
                                == (events_of(pre_entries) + events_of(qpend))[t] by {
                            if t < pre_entries.len() {
                                assert((pre_entries + qpend)[t] == pre_entries[t]);
                            } else {
                                assert((pre_entries + qpend)[t]
                                    == qpend[t - pre_entries.len()]);
                            }
                        }
                        assert(events_of(pre_entries + qpend)
                            =~= events_of(pre_entries) + events_of(qpend));
                        assert(events@ =~= events_of(pending_upto(q0, i + 1)));
                    }
                    i = i + 1;
                },
                Err(_) => {
                    proof {
                        assert(!drain_ok(st0, pending_upto(q0, i + 1)));
                        lemma_pending_split(q0, i + 1);
                        lemma_drain_concat(st0, pending_upto(q0, i + 1),
                            pending_from(q0, i + 1));
                        assert(engine.statuses_model() == drain_statuses(st0,
                            pending_upto(q0, n as int)));
                        assert(!drain_ok(st0, pending_upto(q0, n as int)));
                    }
                    return Err(EngineError::SpuriousCompletion);
                },
            }
        }
        let action = if events.len() == 0 {
            ReactorAction::Backoff
        } else {
            ReactorAction::Continue
        };
        Ok((events, action))
    }
}

} // verus!
