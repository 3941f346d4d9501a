//! Bounded request slot allocator: hands out in-flight request slots tied to
//! the configured queue depth, reuses freed slots in FIFO order, and tracks
//! each slot's lifecycle from submission to release.

use vstd::prelude::*;
use crate::errors::{EngineError, ErrorClass};

verus! {

/// The lifecycle of one request slot.
#[derive(Clone, Copy, PartialEq, Eq, Structural, Debug)]
pub enum SlotStatus {
    /// In the free pool, available to `acquire`.
    Free,
    /// Handed out; the request is in flight.
    Submitted,
    /// Resolved by a completion event; the payload is the native status code
    /// (zero).
    Completed(i32),
    /// Resolved by a completion event carrying a nonzero native status code.
    Failed(i32),
}

/// What `acquire` does when the free pool is empty: surface `QueueFull` at
/// once, or have the caller back off and retry.
#[derive(Clone, Copy, PartialEq, Eq, Structural, Debug)]
pub enum AcquirePolicy {
    /// Surface `QueueFull` immediately.
    FailFast,
    /// The caller backs off and retries on resource exhaustion.
    Backpressure,
}

impl AcquirePolicy {
    /// Whether the policy retries the error: exactly resource exhaustion,
    /// and only under backpressure.
    pub fn retries(&self, e: &EngineError) -> (r: bool)
        ensures
            r == (*self == AcquirePolicy::Backpressure
                && e.class_spec() == ErrorClass::ResourceExhaustion),
    {
        matches!(self, AcquirePolicy::Backpressure) && e.is_retryable()
    }
}

/// The slot status a completion event with native status code `code`
/// resolves to: zero completes the request, anything else fails it.
pub open spec fn resolved_status(code: i32) -> SlotStatus {
    if code == 0 {
        SlotStatus::Completed(code)
    } else {
        SlotStatus::Failed(code)
    }
}

/// Number of slots in `Submitted` state.
pub open spec fn count_submitted(s: Seq<SlotStatus>) -> int
    decreases s.len(),
{
    if s.len() == 0 {
        0
    } else {
        count_submitted(s.drop_last()) + if s.last() is Submitted {
            1int
        } else {
            0int
        }
    }
}

/// The submitted count never exceeds the number of slots.
pub proof fn lemma_count_submitted_bounds(s: Seq<SlotStatus>)
    ensures
        0 <= count_submitted(s) <= s.len(),
    decreases s.len(),
{
    if s.len() > 0 {
        lemma_count_submitted_bounds(s.drop_last());
    }
}

/// Owns every request slot. The number of slots is fixed at the queue depth
/// when the allocator is built; slots move `Free -> Submitted ->
/// Completed/Failed -> Free`, and freed slots are reused in FIFO order to
/// bound tail latency.
pub struct SlotAllocator {
    statuses: Vec<SlotStatus>,
    /// The region each slot's request reads or writes; meaningful only while
    /// the slot is not `Free`.
    region_of: Vec<usize>,
    /// Ids of the `Free` slots, oldest first.
    free_list: Vec<usize>,
    policy: AcquirePolicy,
}

impl SlotAllocator {
    /// The status of each slot, by slot id.
    pub closed spec fn statuses_model(self) -> Seq<SlotStatus> {
        self.statuses@
    }

    /// The region each slot references, by slot id.
    pub closed spec fn region_model(self) -> Seq<usize> {
        self.region_of@
    }

    /// The FIFO free pool, oldest entry first.
    pub closed spec fn free_model(self) -> Seq<usize> {
        self.free_list@
    }

    /// The configured acquire policy.
    pub closed spec fn policy_spec(self) -> AcquirePolicy {
        self.policy
    }

    /// The configured queue depth.
    pub open spec fn depth_spec(self) -> int {
        self.statuses_model().len() as int
    }

    /// Slot `s` is live: handed out and not yet released.
    pub open spec fn slot_live(self, s: int) -> bool {
        0 <= s < self.depth_spec() && !(self.statuses_model()[s] is Free)
    }

    /// Internal consistency: the free pool holds exactly the `Free` slots,
    /// each once, and the side tables cover every slot.
    pub open spec fn wf(self) -> bool {
        &&& self.region_model().len() == self.depth_spec()
        &&& self.free_model().no_duplicates()
        &&& forall|i: int| 0 <= i < self.free_model().len()
            ==> #[trigger] self.free_model()[i] < self.depth_spec()
                && self.statuses_model()[self.free_model()[i] as int] is Free
        &&& forall|s: usize| s < self.depth_spec()
            && #[trigger] self.statuses_model()[s as int] is Free
            ==> self.free_model().contains(s)
    }

    /// A fresh allocator: every slot free, FIFO pool in slot-id order.
    pub fn new(queue_depth: usize, policy: AcquirePolicy) -> (r: Self)
        ensures
            r.wf(),
            r.depth_spec() == queue_depth,
            r.policy_spec() == policy,
            forall|s: int| 0 <= s < queue_depth ==> r.statuses_model()[s] is Free,
            r.free_model().len() == queue_depth,
            forall|i: int| 0 <= i < queue_depth ==> #[trigger] r.free_model()[i] == i,
    {
        let mut statuses: Vec<SlotStatus> = Vec::new();
        let mut region_of: Vec<usize> = Vec::new();
        let mut free_list: Vec<usize> = Vec::new();
        let mut i: usize = 0;
        while i < queue_depth
            invariant
                i <= queue_depth,
                statuses@.len() == i,
                region_of@.len() == i,
                free_list@.len() == i,
                forall|s: int| 0 <= s < i ==> statuses@[s] is Free,
                forall|k: int| 0 <= k < i ==> #[trigger] free_list@[k] == k,
            decreases queue_depth - i,
        {
            statuses.push(SlotStatus::Free);
            region_of.push(0);
            free_list.push(i);
            i = i + 1;
        }
        proof {
            assert forall|s: usize| s < queue_depth && #[trigger] statuses@[s as int] is Free
                implies free_list@.contains(s) by {
                assert(free_list@[s as int] == s);
            }
            assert forall|a: int, b: int|
                0 <= a < free_list@.len() && 0 <= b < free_list@.len() && a != b
                implies free_list@[a] != free_list@[b] by {
                assert(free_list@[a] == a as usize);
                assert(free_list@[b] == b as usize);
            }
            assert(free_list@.no_duplicates());
        }
        SlotAllocator { statuses, region_of, free_list, policy }
    }

    /// The configured queue depth.
    pub fn depth(&self) -> (r: usize)
        ensures
            r == self.depth_spec(),
    {
        self.statuses.len()
    }

    /// The configured acquire policy.
    pub fn policy(&self) -> (r: AcquirePolicy)
        ensures
            r == self.policy_spec(),
    {
        self.policy
    }

    /// Number of slots currently in the free pool.
    pub fn free_count(&self) -> (r: usize)
        ensures
            r == self.free_model().len(),
    {
        self.free_list.len()
    }

    /// The status of slot `s`, or `None` for an id beyond the queue depth.
    pub fn status_of(&self, s: usize) -> (r: Option<SlotStatus>)
        ensures
            r is Some <==> s < self.depth_spec(),
            r matches Some(st) ==> st == self.statuses_model()[s as int],
    {
        if s < self.statuses.len() {
            Some(self.statuses[s])
        } else {
            None
        }
    }

    /// Number of slots currently in `Submitted` state.
    pub fn submitted_count(&self) -> (r: usize)
        ensures
            r == count_submitted(self.statuses_model()),
    {
        proof {
            lemma_count_submitted_bounds(self.statuses@);
        }
        let mut count: usize = 0;
        let mut i: usize = 0;
        while i < self.statuses.len()
            invariant
                i <= self.statuses@.len(),
                count == count_submitted(self.statuses@.subrange(0, i as int)),
                count <= i,
            decreases self.statuses@.len() - i,
        {
            proof {
                assert(self.statuses@.subrange(0, i + 1).drop_last()
                    =~= self.statuses@.subrange(0, i as int));
            }
            if matches!(self.statuses[i], SlotStatus::Submitted) {
                count = count + 1;
            }
            i = i + 1;
        }
        proof {
            assert(self.statuses@.subrange(0, self.statuses@.len() as int) =~= self.statuses@);
        }
        count
    }

    /// Takes the oldest free slot for a request on `region` and marks it
    /// `Submitted`.
    ///
    /// Fails with `QueueFull` exactly when every slot is outstanding; the
    /// allocator is then unchanged, and under the fail-fast policy the
    /// caller surfaces the error rather than retrying.
    pub fn acquire(&mut self, region: usize) -> (r: Result<usize, EngineError>)
        requires
            old(self).wf(),
        ensures
            final(self).wf(),
            final(self).depth_spec() == old(self).depth_spec(),
            final(self).policy_spec() == old(self).policy_spec(),
            r is Ok <==> old(self).free_model().len() > 0,
            r is Err ==> r == Err::<usize, EngineError>(EngineError::QueueFull)
                && *final(self) == *old(self),
            r matches Ok(s) ==> {
                &&& s == old(self).free_model()[0]
                &&& old(self).statuses_model()[s as int] is Free
                &&& final(self).free_model() == old(self).free_model().subrange(1,
                    old(self).free_model().len() as int)
                &&& final(self).statuses_model() == old(self).statuses_model().update(s as int,
                    SlotStatus::Submitted)
                &&& final(self).region_model() == old(self).region_model().update(s as int, region)
            },
    {
        if self.free_list.len() == 0 {
            return Err(EngineError::QueueFull);
        }
        let s = self.free_list.remove(0);
        self.statuses[s] = SlotStatus::Submitted;
        self.region_of[s] = region;
        proof {
            assert forall|i: int| 0 <= i < final(self).free_model().len()
                implies #[trigger] final(self).free_model()[i] < final(self).depth_spec()
                    && final(self).statuses_model()[final(self).free_model()[i] as int] is Free
            by {
                assert(final(self).free_model()[i] == old(self).free_model()[i + 1]);
            }
            assert forall|t: usize| t < final(self).depth_spec()
                && #[trigger] final(self).statuses_model()[t as int] is Free
                implies final(self).free_model().contains(t) by {
                assert(old(self).statuses_model()[t as int] is Free);
                assert(old(self).free_model().contains(t));
                let i = choose|i: int| 0 <= i < old(self).free_model().len()
                    && old(self).free_model()[i] == t;
                assert(t != s);
                assert(old(self).free_model()[0] == s);
                assert(i != 0);
                assert(final(self).free_model()[i - 1] == t);
            }
            assert forall|a: int, b: int|
                0 <= a < final(self).free_model().len()
                && 0 <= b < final(self).free_model().len() && a != b
                implies final(self).free_model()[a] != final(self).free_model()[b] by {
                assert(final(self).free_model()[a] == old(self).free_model()[a + 1]);
                assert(final(self).free_model()[b] == old(self).free_model()[b + 1]);
            }
            assert(final(self).free_model().no_duplicates());
        }
        Ok(s)
    }

    /// Resolves an in-flight slot with the native status code a completion
    /// event carried.
    ///
    /// Fails with `SpuriousCompletion` exactly when the slot is unknown or
    /// not in `Submitted` state — a protocol violation by the completion
    /// source; the allocator is then unchanged.
    pub fn resolve(&mut self, s: usize, code: i32) -> (r: Result<(), EngineError>)
        requires
            old(self).wf(),
        ensures
            final(self).wf(),
            final(self).depth_spec() == old(self).depth_spec(),
            final(self).policy_spec() == old(self).policy_spec(),
            r is Ok <==> s < old(self).depth_spec()
                && old(self).statuses_model()[s as int] is Submitted,
            r is Err ==> r == Err::<(), EngineError>(EngineError::SpuriousCompletion)
                && *final(self) == *old(self),
            r is Ok ==> {
                &&& final(self).statuses_model() == old(self).statuses_model().update(s as int,
                    resolved_status(code))
                &&& final(self).region_model() == old(self).region_model()
                &&& final(self).free_model() == old(self).free_model()
            },
    {
        if s >= self.statuses.len() {
            return Err(EngineError::SpuriousCompletion);
        }
        if !matches!(self.statuses[s], SlotStatus::Submitted) {
            return Err(EngineError::SpuriousCompletion);
        }
        self.statuses[s] = if code == 0 {
            SlotStatus::Completed(code)
        } else {
            SlotStatus::Failed(code)
        };
        Ok(())
    }

    /// Returns a resolved slot to the back of the FIFO free pool, handing
    /// back the region id its request referenced.
    ///
    /// Only a `Completed` or `Failed` slot can be released: a free (or
    /// unknown) slot fails with `DoubleRelease`, a still-submitted slot with
    /// `SlotNotResolved`; the allocator is then unchanged.
    pub fn release(&mut self, s: usize) -> (r: Result<usize, EngineError>)
        requires
            old(self).wf(),
        ensures
            final(self).wf(),
            final(self).depth_spec() == old(self).depth_spec(),
            final(self).policy_spec() == old(self).policy_spec(),
            r is Ok <==> s < old(self).depth_spec()
                && (old(self).statuses_model()[s as int] is Completed
                    || old(self).statuses_model()[s as int] is Failed),
            r == Err::<usize, EngineError>(EngineError::SlotNotResolved) <==> s < old(
                self).depth_spec() && old(self).statuses_model()[s as int] is Submitted,
            r == Err::<usize, EngineError>(EngineError::DoubleRelease) <==> (s
                >= old(self).depth_spec() || old(self).statuses_model()[s as int] is Free),
            r is Err ==> *final(self) == *old(self),
            r matches Ok(region) ==> {
                &&& region == old(self).region_model()[s as int]
                &&& final(self).statuses_model() == old(self).statuses_model().update(s as int,
                    SlotStatus::Free)
                &&& final(self).free_model() == old(self).free_model().push(s)
                &&& final(self).region_model() == old(self).region_model()
            },
    {
        if s >= self.statuses.len() {
            return Err(EngineError::DoubleRelease);
        }
        match self.statuses[s] {
            SlotStatus::Free => Err(EngineError::DoubleRelease),
            SlotStatus::Submitted => Err(EngineError::SlotNotResolved),
            SlotStatus::Completed(_) | SlotStatus::Failed(_) => {
                proof {
                    assert(forall|i: int| 0 <= i < old(self).free_model().len()
                        ==> #[trigger] old(self).free_model()[i] != s);
                }
                self.statuses[s] = SlotStatus::Free;
                self.free_list.push(s);
                let region = self.region_of[s];
                proof {
                    assert(final(self).free_model().no_duplicates());
                    assert forall|t: usize| t < final(self).depth_spec()
                        && #[trigger] final(self).statuses_model()[t as int] is Free
                        implies final(self).free_model().contains(t) by {
                        if t == s {
                            assert(final(self).free_model()[old(self).free_model().len() as int]
                                == s);
                        } else {
                            assert(old(self).statuses_model()[t as int] is Free);
                            let i = choose|i: int| 0 <= i < old(self).free_model().len()
                                && old(self).free_model()[i] == t;
                            assert(final(self).free_model()[i] == t);
                        }
                    }
                    assert forall|i: int| 0 <= i < final(self).free_model().len()
                        implies #[trigger] final(self).free_model()[i] < final(self).depth_spec()
                            && final(self).statuses_model()[
                                final(self).free_model()[i] as int] is Free by {
                        if i < old(self).free_model().len() {
                            assert(final(self).free_model()[i] == old(self).free_model()[i]);
                        } else {
                            assert(final(self).free_model()[i] == s);
                        }
                    }
                }
                Ok(region)
            },
        }
    }
}

/// Queue-depth safety: however `acquire`, `resolve` and `release` are
/// interleaved, a well-formed allocator never has more than `queue_depth`
/// slots in `Submitted` state at once.
pub proof fn lemma_inflight_bounded(a: SlotAllocator)
    requires
        a.wf(),
    ensures
        count_submitted(a.statuses_model()) <= a.depth_spec(),
{
    lemma_count_submitted_bounds(a.statuses_model());
}

} // verus!
