//! The engine core: one memory region registry and one slot allocator,
//! kept consistent with each other.
//!
//! The tie between the two is the engine's invariant: a region is marked
//! `in_use` exactly while some outstanding request slot references it, and
//! no two outstanding slots ever share a region. That is what lets
//! `deregister` refuse to free memory out from under an in-flight request.

use vstd::prelude::*;
use crate::errors::EngineError;
use crate::registry::{MemoryRegion, RegionRegistry};
use crate::slots::{AcquirePolicy, SlotAllocator, SlotStatus, resolved_status};

verus! {

/// The engine core; see the module doc.
pub struct Engine {
    registry: RegionRegistry,
    slots: SlotAllocator,
}

impl Engine {
    /// The region table, by region id.
    pub closed spec fn regions_model(self) -> Seq<Option<MemoryRegion>> {
        self.registry.regions_model()
    }

    /// The slot statuses, by slot id.
    pub closed spec fn statuses_model(self) -> Seq<SlotStatus> {
        self.slots.statuses_model()
    }

    /// The region referenced by each slot, by slot id.
    pub closed spec fn slot_region_model(self) -> Seq<usize> {
        self.slots.region_model()
    }

    /// The FIFO free pool of slots.
    pub closed spec fn free_model(self) -> Seq<usize> {
        self.slots.free_model()
    }

    /// The configured queue depth.
    pub closed spec fn depth_spec(self) -> int {
        self.slots.depth_spec()
    }

    /// Bytes currently pinned.
    pub closed spec fn pinned_spec(self) -> u64 {
        self.registry.pinned_total()
    }

    /// Whether a registration with these parameters would succeed.
    pub closed spec fn spec_can_register(self, size: u64, alignment: u64) -> bool {
        self.registry.spec_can_register(size, alignment)
    }

    /// Region id `r` currently names a registered region.
    pub closed spec fn region_live(self, r: int) -> bool {
        self.registry.is_live(r)
    }

    /// The region behind a live id.
    pub closed spec fn region_at(self, r: int) -> MemoryRegion {
        self.registry.region_at(r)
    }

    /// The configured acquire policy.
    pub closed spec fn policy_spec(self) -> AcquirePolicy {
        self.slots.policy_spec()
    }

    /// The registry's byte budget.
    pub closed spec fn budget_spec(self) -> u64 {
        self.registry.budget_spec()
    }

    /// Slot `s` is outstanding and references region `r`.
    pub closed spec fn slot_refs_region(self, s: int, r: usize) -> bool {
        &&& self.slots.slot_live(s)
        &&& self.slots.region_model()[s] == r
    }

    /// The region an outstanding slot references is registered and marked
    /// in use.
    pub closed spec fn slot_backed(self, s: int) -> bool {
        &&& self.slots.region_model()[s] < self.regions_model().len()
        &&& self.registry.is_live(self.slots.region_model()[s] as int)
        &&& self.registry.region_at(self.slots.region_model()[s] as int).in_use
    }

    /// Region `r` is registered and marked in use.
    pub closed spec fn region_busy(self, r: usize) -> bool {
        &&& self.registry.is_live(r as int)
        &&& self.registry.region_at(r as int).in_use
    }

    /// Some outstanding slot still references region `r`.
    pub open spec fn some_slot_refs(self, r: usize) -> bool {
        exists|s: int| #![auto] self.slot_refs_region(s, r)
    }

    /// The engine's invariant: both halves are well formed, every
    /// outstanding slot is backed by a busy region, no two outstanding
    /// slots share a region, and every busy region is referenced by an
    /// outstanding slot.
    pub closed spec fn wf(self) -> bool {
        &&& self.registry.wf()
        &&& self.slots.wf()
        &&& forall|s: int| self.slots.slot_live(s) ==> #[trigger] self.slot_backed(s)
        &&& forall|s1: int, s2: int|
            #![trigger self.slots.region_model()[s1], self.slots.region_model()[s2]]
            self.slots.slot_live(s1) && self.slots.slot_live(s2)
            && self.slots.region_model()[s1] == self.slots.region_model()[s2] ==> s1 == s2
        &&& forall|r: usize| #[trigger] self.region_busy(r) ==> self.some_slot_refs(r)
    }

    /// A fresh engine with the given byte budget, queue depth and acquire
    /// policy.
    pub fn new(budget: u64, queue_depth: usize, policy: AcquirePolicy) -> (r: Self)
        ensures
            r.wf(),
            r.regions_model().len() == 0,
            r.depth_spec() == queue_depth,
            r.pinned_spec() == 0,
            r.free_model().len() == queue_depth,
            forall|s: int| 0 <= s < queue_depth ==> r.statuses_model()[s] is Free,
            r.policy_spec() == policy,
            r.budget_spec() == budget,
    {
        let e = Engine {
            registry: RegionRegistry::new(budget),
            slots: SlotAllocator::new(queue_depth, policy),
        };
        proof {
            assert forall|s: int| e.slots.slot_live(s) implies #[trigger] e.slot_backed(s) by {
                assert(e.slots.statuses_model()[s] is Free);
            }
            assert forall|r: usize| #[trigger] e.region_busy(r)
                implies e.some_slot_refs(r) by {
                assert(!e.registry.is_live(r as int));
            }
        }
        e
    }

    /// Bytes currently pinned by the registry.
    pub fn pinned_bytes(&self) -> (r: u64)
        ensures
            r == self.pinned_spec(),
    {
        self.registry.pinned_bytes()
    }

    /// The configured queue depth.
    pub fn depth(&self) -> (r: usize)
        ensures
            r == self.depth_spec(),
    {
        self.slots.depth()
    }

    /// Number of slots currently free.
    pub fn free_slots(&self) -> (r: usize)
        ensures
            r == self.free_model().len(),
    {
        self.slots.free_count()
    }

    /// Number of slots currently in `Submitted` state.
    pub fn submitted_count(&self) -> (r: usize)
        ensures
            r == crate::slots::count_submitted(self.statuses_model()),
    {
        self.slots.submitted_count()
    }

    /// The status of slot `s`, or `None` beyond the queue depth.
    pub fn slot_status(&self, s: usize) -> (r: Option<SlotStatus>)
        ensures
            r is Some <==> s < self.depth_spec(),
            r matches Some(st) ==> st == self.statuses_model()[s as int],
    {
        self.slots.status_of(s)
    }

    /// Whether region `r` is currently registered.
    pub fn region_registered(&self, r: usize) -> (b: bool)
        ensures
            b == self.region_live(r as int),
    {
        self.registry.is_registered(r)
    }

    /// Pins a new DMA region; see `RegionRegistry::register`.
    pub fn register(&mut self, size: u64, alignment: u64) -> (r: Result<usize, EngineError>)
        requires
            old(self).wf(),
        ensures
            final(self).wf(),
            final(self).statuses_model() == old(self).statuses_model(),
            final(self).slot_region_model() == old(self).slot_region_model(),
            final(self).free_model() == old(self).free_model(),
            final(self).depth_spec() == old(self).depth_spec(),
            r is Ok <==> old(self).spec_can_register(size, alignment),
            r matches Err(e) ==> *final(self) == *old(self) && (
                if !crate::registry::spec_is_pow2(alignment) {
                    e == EngineError::AlignmentUnsupported
                } else {
                    e == EngineError::OutOfMemory
                }
            ),
            r matches Ok(id) ==> {
                &&& id == old(self).regions_model().len()
                &&& final(self).regions_model() == old(self).regions_model().push(
                    Some(final(self).region_at(id as int)))
                &&& final(self).region_at(id as int).length == size
                &&& final(self).region_at(id as int).alignment == alignment
                &&& final(self).region_at(id as int).base_address % alignment == 0
                &&& !final(self).region_at(id as int).in_use
                &&& final(self).pinned_spec() == old(self).pinned_spec() + size
            },
    {
        let r = self.registry.register(size, alignment);
        proof {
            if r is Ok {
                assert forall|s: int| final(self).slots.slot_live(s)
                    implies #[trigger] final(self).slot_backed(s) by {
                    assert(old(self).slot_backed(s));
                }
                assert forall|r2: usize| #[trigger] final(self).region_busy(r2)
                    implies final(self).some_slot_refs(r2) by {
                    assert(old(self).region_busy(r2));
                    let s = choose|s: int| #![auto] old(self).slot_refs_region(s, r2);
                    assert(final(self).slot_refs_region(s, r2));
                }
            }
        }
        r
    }

    /// Submits a request against a registered, idle region: takes the
    /// oldest free slot, marks it `Submitted`, and marks the region in use.
    ///
    /// Fails with `UnknownRegion` when no region has that id, with
    /// `RegionBusy` while another request holds the region, and with
    /// `QueueFull` when every slot is outstanding; each exactly so, and on
    /// failure nothing changes.
    pub fn submit(&mut self, region: usize) -> (r: Result<usize, EngineError>)
        requires
            old(self).wf(),
        ensures
            final(self).wf(),
            final(self).regions_model().len() == old(self).regions_model().len(),
            final(self).pinned_spec() == old(self).pinned_spec(),
            final(self).depth_spec() == old(self).depth_spec(),
            r is Ok <==> old(self).region_live(region as int)
                && !old(self).region_at(region as int).in_use
                && old(self).free_model().len() > 0,
            r == Err::<usize, EngineError>(EngineError::UnknownRegion) <==> !old(
                self).region_live(region as int),
            r == Err::<usize, EngineError>(EngineError::RegionBusy) <==> old(
                self).region_live(region as int)
                && old(self).region_at(region as int).in_use,
            r == Err::<usize, EngineError>(EngineError::QueueFull) <==> old(
                self).region_live(region as int)
                && !old(self).region_at(region as int).in_use
                && old(self).free_model().len() == 0,
            r is Err ==> *final(self) == *old(self),
            r matches Ok(s) ==> {
                &&& s == old(self).free_model()[0]
                &&& final(self).statuses_model() == old(self).statuses_model().update(s as int,
                    SlotStatus::Submitted)
                &&& final(self).slot_region_model() == old(self).slot_region_model().update(
                    s as int, region)
                &&& final(self).free_model() == old(self).free_model().subrange(1,
                    old(self).free_model().len() as int)
                &&& final(self).region_busy(region)
            },
    {
        match self.registry.is_in_use(region) {
            Err(_) => Err(EngineError::UnknownRegion),
            Ok(true) => Err(EngineError::RegionBusy),
            Ok(false) => {
                match self.slots.acquire(region) {
                    Err(_) => Err(EngineError::QueueFull),
                    Ok(s) => {
                        let ghost mid = *self;
                        self.registry.set_in_use(region, true);
                        proof {
                            let ghost f = *self;
                            assert(f.registry.is_live(region as int));
                            assert(f.registry.region_at(region as int).in_use);
                            assert forall|s2: int| f.slots.slot_live(s2)
                                implies #[trigger] f.slot_backed(s2) by {
                                if s2 == s as int {
                                    assert(f.slots.region_model()[s2] == region);
                                } else {
                                    assert(old(self).slots.slot_live(s2));
                                    assert(old(self).slot_backed(s2));
                                    let r2 = old(self).slots.region_model()[s2];
                                    if r2 == region {
                                        assert(old(self).region_busy(region));
                                    }
                                }
                            }
                            assert forall|s1: int, s2: int|
                                f.slots.slot_live(s1) && f.slots.slot_live(s2)
                                && (#[trigger] f.slots.region_model()[s1])
                                    == (#[trigger] f.slots.region_model()[s2])
                                implies s1 == s2 by {
                                if s1 != s2 {
                                    if s1 == s as int || s2 == s as int {
                                        let other = if s1 == s as int { s2 } else { s1 };
                                        assert(old(self).slots.slot_live(other));
                                        assert(old(self).slot_backed(other));
                                        if old(self).slots.region_model()[other] == region {
                                            assert(old(self).region_busy(region));
                                        }
                                    } else {
                                        assert(old(self).slots.slot_live(s1));
                                        assert(old(self).slots.slot_live(s2));
                                    }
                                }
                            }
                            assert forall|r2: usize| #[trigger] f.region_busy(r2)
                                implies f.some_slot_refs(r2) by {
                                if r2 == region {
                                    assert(f.slot_refs_region(s as int, region));
                                } else {
                                    assert(old(self).region_busy(r2));
                                    let s2 = choose|s2: int| #![auto]
                                        old(self).slot_refs_region(s2, r2);
                                    assert(s2 != s as int);
                                    assert(f.slot_refs_region(s2, r2));
                                }
                            }
                        }
                        Ok(s)
                    },
                }
            },
        }
    }

    /// Resolves an outstanding slot with the status code a completion
    /// carried; the slot stays owned (and its region busy) until it is
    /// released.
    ///
    /// Fails with `SpuriousCompletion` exactly when the slot is unknown or
    /// not `Submitted`; nothing changes then.
    pub fn resolve(&mut self, s: usize, code: i32) -> (r: Result<(), EngineError>)
        requires
            old(self).wf(),
        ensures
            final(self).wf(),
            final(self).regions_model() == old(self).regions_model(),
            final(self).pinned_spec() == old(self).pinned_spec(),
            final(self).slot_region_model() == old(self).slot_region_model(),
            final(self).free_model() == old(self).free_model(),
            final(self).depth_spec() == old(self).depth_spec(),
            r is Ok <==> s < old(self).depth_spec()
                && old(self).statuses_model()[s as int] is Submitted,
            r is Err ==> r == Err::<(), EngineError>(EngineError::SpuriousCompletion)
                && *final(self) == *old(self),
            r is Ok ==> final(self).statuses_model() == old(self).statuses_model().update(
                s as int, resolved_status(code)),
    {
        let r = self.slots.resolve(s, code);
        proof {
            if r is Ok {
                let f = *self;
                assert forall|s2: int| f.slots.slot_live(s2)
                    implies #[trigger] f.slot_backed(s2) by {
                    assert(old(self).slots.slot_live(s2));
                    assert(old(self).slot_backed(s2));
                }
                assert forall|s1: int, s2: int|
                    f.slots.slot_live(s1) && f.slots.slot_live(s2)
                    && (#[trigger] f.slots.region_model()[s1])
                        == (#[trigger] f.slots.region_model()[s2])
                    implies s1 == s2 by {
                    assert(old(self).slots.slot_live(s1));
                    assert(old(self).slots.slot_live(s2));
                }
                assert forall|r2: usize| #[trigger] f.region_busy(r2)
                    implies f.some_slot_refs(r2) by {
                    assert(old(self).region_busy(r2));
                    let s2 = choose|s2: int| #![auto] old(self).slot_refs_region(s2, r2);
                    assert(f.slots.slot_live(s2));
                    assert(f.slot_refs_region(s2, r2));
                }
            }
        }
        r
    }

    /// Releases a resolved slot: returns it to the FIFO free pool and marks
    /// its region idle again.
    ///
    /// Only a `Completed` or `Failed` slot can be released: a free or
    /// unknown slot fails with `DoubleRelease`, a still-submitted slot with
    /// `SlotNotResolved`; nothing changes then.
    pub fn release(&mut self, s: usize) -> (r: Result<(), EngineError>)
        requires
            old(self).wf(),
        ensures
            final(self).wf(),
            final(self).regions_model().len() == old(self).regions_model().len(),
            final(self).pinned_spec() == old(self).pinned_spec(),
            final(self).depth_spec() == old(self).depth_spec(),
            final(self).slot_region_model() == old(self).slot_region_model(),
            r is Ok <==> s < old(self).depth_spec()
                && (old(self).statuses_model()[s as int] is Completed
                    || old(self).statuses_model()[s as int] is Failed),
            r == Err::<(), EngineError>(EngineError::SlotNotResolved) <==> s < old(
                self).depth_spec() && old(self).statuses_model()[s as int] is Submitted,
            r == Err::<(), EngineError>(EngineError::DoubleRelease) <==> (s >= old(
                self).depth_spec() || old(self).statuses_model()[s as int] is Free),
            r is Err ==> *final(self) == *old(self),
            r is Ok ==> {
                &&& final(self).statuses_model() == old(self).statuses_model().update(s as int,
                    SlotStatus::Free)
                &&& final(self).free_model() == old(self).free_model().push(s)
                &&& !final(self).region_busy(old(self).slot_region_model()[s as int])
            },
    {
        let ghost pre = *self;
        match self.slots.release(s) {
            Err(e) => Err(e),
            Ok(region) => {
                proof {
                    assert(pre.slots.slot_live(s as int));
                    assert(pre.slot_backed(s as int));
                }
                self.registry.set_in_use(region, false);
                proof {
                    let f = *self;
                    assert forall|s2: int| f.slots.slot_live(s2)
                        implies #[trigger] f.slot_backed(s2) by {
                        assert(pre.slots.slot_live(s2));
                        assert(pre.slot_backed(s2));
                        assert(s2 != s as int);
                        let r2 = pre.slots.region_model()[s2];
                        if r2 == region {
                            assert(pre.slots.region_model()[s as int] == region);
                        }
                    }
                    assert forall|s1: int, s2: int|
                        f.slots.slot_live(s1) && f.slots.slot_live(s2)
                        && (#[trigger] f.slots.region_model()[s1])
                            == (#[trigger] f.slots.region_model()[s2])
                        implies s1 == s2 by {
                        assert(pre.slots.slot_live(s1));
                        assert(pre.slots.slot_live(s2));
                    }
                    assert forall|r2: usize| #[trigger] f.region_busy(r2)
                        implies f.some_slot_refs(r2) by {
                        assert(r2 != region);
                        assert(pre.region_busy(r2));
                        let s2 = choose|s2: int| #![auto] pre.slot_refs_region(s2, r2);
                        assert(s2 != s as int);
                        assert(f.slot_refs_region(s2, r2));
                    }
                }
                Ok(())
            },
        }
    }

    /// Releases a region back to the native allocator.
    ///
    /// Fails with `RegionBusy` exactly when some outstanding slot still
    /// references the region, and with `UnknownRegion` when the id is not
    /// registered; on failure nothing changes.
    pub fn deregister(&mut self, region: usize) -> (r: Result<(), EngineError>)
        requires
            old(self).wf(),
        ensures
            final(self).wf(),
            final(self).statuses_model() == old(self).statuses_model(),
            final(self).slot_region_model() == old(self).slot_region_model(),
            final(self).free_model() == old(self).free_model(),
            final(self).depth_spec() == old(self).depth_spec(),
            r is Ok <==> old(self).region_live(region as int)
                && !old(self).some_slot_refs(region),
            r == Err::<(), EngineError>(EngineError::UnknownRegion) <==> !old(
                self).region_live(region as int),
            r == Err::<(), EngineError>(EngineError::RegionBusy) <==> old(
                self).region_live(region as int) && old(self).some_slot_refs(region),
            r is Err ==> *final(self) == *old(self),
            r is Ok ==> {
                &&& final(self).regions_model() == old(self).regions_model().update(
                    region as int, None)
                &&& final(self).pinned_spec() == old(self).pinned_spec()
                    - old(self).region_at(region as int).length
            },
    {
        proof {
            // The registry's `in_use` mark and "some slot references it"
            // coincide under the engine invariant.
            if old(self).region_busy(region) {
                assert(old(self).some_slot_refs(region));
            }
            if old(self).region_live(region as int) && old(self).some_slot_refs(region) {
                let s = choose|s: int| #![auto] old(self).slot_refs_region(s, region);
                assert(old(self).slot_backed(s));
            }
        }
        let r = self.registry.deregister(region);
        proof {
            if r is Ok {
                let f = *self;
                assert forall|s2: int| f.slots.slot_live(s2)
                    implies #[trigger] f.slot_backed(s2) by {
                    assert(old(self).slots.slot_live(s2));
                    assert(old(self).slot_backed(s2));
                    let r2 = old(self).slots.region_model()[s2];
                    if r2 == region {
                        assert(old(self).slot_refs_region(s2, region));
                    }
                }
                assert forall|s1: int, s2: int|
                    f.slots.slot_live(s1) && f.slots.slot_live(s2)
                    && (#[trigger] f.slots.region_model()[s1])
                        == (#[trigger] f.slots.region_model()[s2])
                    implies s1 == s2 by {
                    assert(old(self).slots.slot_live(s1));
                    assert(old(self).slots.slot_live(s2));
                }
                assert forall|r2: usize| #[trigger] f.region_busy(r2)
                    implies f.some_slot_refs(r2) by {
                    assert(r2 != region);
                    assert(old(self).region_busy(r2));
                    let s2 = choose|s2: int| #![auto] old(self).slot_refs_region(s2, r2);
                    assert(f.slot_refs_region(s2, r2));
                }
            }
        }
        r
    }
}

/// The engine's side tables all have the queue depth as their length.
pub proof fn lemma_engine_dims(e: Engine)
    requires
        e.wf(),
    ensures
        e.statuses_model().len() == e.depth_spec(),
        e.slot_region_model().len() == e.depth_spec(),
{
}

/// The busy mark is truthful: under the engine invariant, `deregister`'s
/// `RegionBusy` condition — the region's `in_use` mark — holds exactly when
/// some outstanding slot still references the region.
pub proof fn lemma_busy_iff_referenced(e: Engine, r: usize)
    requires
        e.wf(),
    ensures
        e.region_busy(r) <==> e.some_slot_refs(r),
{
    if e.some_slot_refs(r) {
        let s = choose|s: int| #![auto] e.slot_refs_region(s, r);
        assert(e.slot_backed(s));
    }
}

} // verus!
