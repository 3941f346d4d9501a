//! Memory region registry: tracks DMA-capable buffers, their simulated
//! pinned addresses and their in-use marks, under a fixed byte budget.
//!
//! A region is created by [`RegionRegistry::register`] and destroyed by an
//! explicit [`RegionRegistry::deregister`]; a region that is still referenced
//! by an outstanding request (`in_use`) can never be freed.

use vstd::prelude::*;
use crate::errors::EngineError;

verus! {

/// A DMA-capable buffer pinned by the registry.
pub struct MemoryRegion {
    /// Handle under which the native allocator knows this buffer.
    pub native_handle: u64,
    /// First byte of the pinned range; always a multiple of `alignment`.
    pub base_address: u64,
    /// Number of pinned bytes.
    pub length: u64,
    /// The alignment the region was requested with; a power of two.
    pub alignment: u64,
    /// Whether an outstanding request slot still references the region.
    pub in_use: bool,
}

/// Whether `a` is a power of two, the only alignments the DMA engine honours.
pub open spec fn spec_is_pow2(a: u64) -> bool {
    a > 0 && (a & (a - 1) as u64) == 0
}

/// Total bytes of all still-registered regions in `s`.
pub open spec fn sum_bytes(s: Seq<Option<MemoryRegion>>) -> int
    decreases s.len(),
{
    if s.len() == 0 {
        0
    } else {
        sum_bytes(s.drop_last()) + match s.last() {
            Some(r) => r.length as int,
            None => 0int,
        }
    }
}

/// `sum_bytes` is never negative.
pub proof fn lemma_sum_bytes_nonneg(s: Seq<Option<MemoryRegion>>)
    ensures
        sum_bytes(s) >= 0,
    decreases s.len(),
{
    if s.len() > 0 {
        lemma_sum_bytes_nonneg(s.drop_last());
    }
}

/// A registered region's length is bounded by the total.
pub proof fn lemma_sum_bytes_element(s: Seq<Option<MemoryRegion>>, i: int)
    requires
        0 <= i < s.len(),
        s[i] is Some,
    ensures
        s[i]->Some_0.length <= sum_bytes(s),
    decreases s.len(),
{
    lemma_sum_bytes_nonneg(s.drop_last());
    if i == s.len() - 1 {
    } else {
        lemma_sum_bytes_element(s.drop_last(), i);
    }
}

/// Removing one region subtracts exactly its length from the total.
pub proof fn lemma_sum_bytes_remove(s: Seq<Option<MemoryRegion>>, i: int)
    requires
        0 <= i < s.len(),
        s[i] is Some,
    ensures
        sum_bytes(s.update(i, None)) == sum_bytes(s) - s[i]->Some_0.length,
    decreases s.len(),
{
    if i == s.len() - 1 {
        assert(s.update(i, None).drop_last() =~= s.drop_last());
    } else {
        assert(s.update(i, None).drop_last() =~= s.drop_last().update(i, None));
        lemma_sum_bytes_remove(s.drop_last(), i);
    }
}

/// Appending a region adds exactly its length to the total.
pub proof fn lemma_sum_bytes_push(s: Seq<Option<MemoryRegion>>, r: MemoryRegion)
    ensures
        sum_bytes(s.push(Some(r))) == sum_bytes(s) + r.length,
{
    assert(s.push(Some(r)).drop_last() =~= s);
}

/// Owns every pinned region. Region ids are indices into an append-only
/// table; a deregistered id is never reused, so a stale id can never reach a
/// later region.
pub struct RegionRegistry {
    regions: Vec<Option<MemoryRegion>>,
    /// Byte budget the native allocator gave this registry.
    budget: u64,
    /// Bytes currently pinned; always `sum_bytes` of the table.
    pinned_bytes: u64,
    /// Bump pointer of the simulated pinning arena.
    next_base: u64,
}

impl RegionRegistry {
    /// The table of regions by id; `None` marks a deregistered id.
    pub closed spec fn regions_model(self) -> Seq<Option<MemoryRegion>> {
        self.regions@
    }

    /// Bytes currently pinned.
    pub closed spec fn pinned_total(self) -> u64 {
        self.pinned_bytes
    }

    /// The registry's byte budget.
    pub closed spec fn budget_spec(self) -> u64 {
        self.budget
    }

    /// The next base address the pinning arena would hand out.
    pub closed spec fn arena_next(self) -> u64 {
        self.next_base
    }

    /// Id `id` currently names a registered region.
    pub open spec fn is_live(self, id: int) -> bool {
        0 <= id < self.regions_model().len() && self.regions_model()[id] is Some
    }

    /// The region behind a live id.
    pub open spec fn region_at(self, id: int) -> MemoryRegion
        recommends
            self.is_live(id),
    {
        self.regions_model()[id]->Some_0
    }

    /// The registry's internal consistency: the byte counter equals the sum
    /// over the table, and stays within the budget.
    pub open spec fn wf(self) -> bool {
        &&& self.pinned_total() == sum_bytes(self.regions_model())
        &&& self.pinned_total() <= self.budget_spec()
    }

    /// The aligned base the arena would pin a new region at.
    pub open spec fn spec_aligned_base(self, alignment: u64) -> int
        recommends
            alignment > 0,
    {
        if self.arena_next() as int % alignment as int == 0 {
            self.arena_next() as int
        } else {
            self.arena_next() + alignment - self.arena_next() as int % alignment as int
        }
    }

    /// Registration succeeds exactly when the alignment is a power of two,
    /// the budget has room, and the arena has address space left.
    pub open spec fn spec_can_register(self, size: u64, alignment: u64) -> bool {
        &&& spec_is_pow2(alignment)
        &&& self.pinned_total() + size <= self.budget_spec()
        &&& self.spec_aligned_base(alignment) + size <= u64::MAX
    }

    /// A fresh registry with the given byte budget and nothing pinned.
    pub fn new(budget: u64) -> (r: Self)
        ensures
            r.wf(),
            r.regions_model().len() == 0,
            r.pinned_total() == 0,
            r.budget_spec() == budget,
            r.arena_next() == 0,
    {
        RegionRegistry { regions: Vec::new(), budget, pinned_bytes: 0, next_base: 0 }
    }

    /// Bytes currently pinned.
    pub fn pinned_bytes(&self) -> (r: u64)
        ensures
            r == self.pinned_total(),
    {
        self.pinned_bytes
    }

    /// Number of ids ever handed out.
    pub fn id_count(&self) -> (r: usize)
        ensures
            r == self.regions_model().len(),
    {
        self.regions.len()
    }

    /// Whether `id` names a registered region.
    pub fn is_registered(&self, id: usize) -> (r: bool)
        ensures
            r == self.is_live(id as int),
    {
        id < self.regions.len() && self.regions[id].is_some()
    }

    /// Pins a new region of `size` bytes at the requested alignment.
    ///
    /// Fails with `AlignmentUnsupported` when the alignment is not a power
    /// of two, and with `OutOfMemory` when the budget or the arena's address
    /// space is exhausted; on failure the registry is unchanged.
    pub fn register(&mut self, size: u64, alignment: u64) -> (r: Result<usize, EngineError>)
        requires
            old(self).wf(),
        ensures
            final(self).wf(),
            final(self).budget_spec() == old(self).budget_spec(),
            r is Ok <==> old(self).spec_can_register(size, alignment),
            r matches Err(e) ==> *final(self) == *old(self) && (
                if !spec_is_pow2(alignment) {
                    e == EngineError::AlignmentUnsupported
                } else {
                    e == EngineError::OutOfMemory
                }
            ),
            r matches Ok(id) ==> {
                &&& id == old(self).regions_model().len()
                &&& final(self).regions_model() == old(self).regions_model().push(
                    Some(final(self).region_at(id as int)))
                &&& final(self).region_at(id as int).length == size
                &&& final(self).region_at(id as int).alignment == alignment
                &&& final(self).region_at(id as int).base_address % alignment == 0
                &&& !final(self).region_at(id as int).in_use
                &&& final(self).pinned_total() == old(self).pinned_total() + size
            },
    {
        if !(alignment != 0 && (alignment & (alignment - 1)) == 0) {
            return Err(EngineError::AlignmentUnsupported);
        }
        if size > self.budget - self.pinned_bytes {
            proof {
                lemma_sum_bytes_nonneg(self.regions@);
            }
            return Err(EngineError::OutOfMemory);
        }
        // Advance the arena to the next aligned base.
        let rem: u64 = self.next_base % alignment;
        let pad: u64 = if rem == 0 { 0 } else { alignment - rem };
        if pad > u64::MAX - self.next_base {
            return Err(EngineError::OutOfMemory);
        }
        let base: u64 = self.next_base + pad;
        if size > u64::MAX - base {
            return Err(EngineError::OutOfMemory);
        }
        proof {
            if rem != 0 {
                vstd::arithmetic::div_mod::lemma_fundamental_div_mod(
                    self.next_base as int, alignment as int);
                assert(base as int == alignment as int * (self.next_base as int / alignment as int + 1))
                    by (nonlinear_arith)
                    requires
                        base as int == self.next_base as int
                            + (alignment - self.next_base as int % alignment as int),
                        self.next_base as int == alignment as int
                            * (self.next_base as int / alignment as int)
                            + self.next_base as int % alignment as int,
                ;
                vstd::arithmetic::div_mod::lemma_mod_multiples_basic(
                    self.next_base as int / alignment as int + 1, alignment as int);
            } else {
                assert(base % alignment == 0);
            }
            lemma_sum_bytes_push(self.regions@, MemoryRegion {
                native_handle: self.regions@.len() as u64,
                base_address: base,
                length: size,
                alignment,
                in_use: false,
            });
        }
        let id = self.regions.len();
        self.regions.push(Some(MemoryRegion {
            native_handle: id as u64,
            base_address: base,
            length: size,
            alignment,
            in_use: false,
        }));
        self.pinned_bytes = self.pinned_bytes + size;
        self.next_base = base + size;
        Ok(id)
    }

    /// Releases a region back to the native allocator.
    ///
    /// Fails with `RegionBusy` exactly when the region is still marked in
    /// use, and with `UnknownRegion` when the id never named a region or was
    /// already deregistered; on failure the registry is unchanged.
    pub fn deregister(&mut self, id: usize) -> (r: Result<(), EngineError>)
        requires
            old(self).wf(),
        ensures
            final(self).wf(),
            final(self).budget_spec() == old(self).budget_spec(),
            r is Ok <==> old(self).is_live(id as int) && !old(self).region_at(id as int).in_use,
            r == Err::<(), EngineError>(EngineError::UnknownRegion) <==> !old(self).is_live(id as int),
            r == Err::<(), EngineError>(EngineError::RegionBusy) <==> old(self).is_live(id as int)
                && old(self).region_at(id as int).in_use,
            r is Err ==> *final(self) == *old(self),
            r is Ok ==> {
                &&& final(self).regions_model() == old(self).regions_model().update(id as int, None)
                &&& final(self).pinned_total() == old(self).pinned_total() - old(self).region_at(id as int).length
                &&& final(self).arena_next() == old(self).arena_next()
            },
    {
        if id >= self.regions.len() {
            return Err(EngineError::UnknownRegion);
        }
        match &self.regions[id] {
            None => Err(EngineError::UnknownRegion),
            Some(region) => {
                if region.in_use {
                    Err(EngineError::RegionBusy)
                } else {
                    let length = region.length;
                    proof {
                        lemma_sum_bytes_element(self.regions@, id as int);
                        lemma_sum_bytes_nonneg(self.regions@);
                        lemma_sum_bytes_remove(self.regions@, id as int);
                    }
                    self.regions[id] = None;
                    self.pinned_bytes = self.pinned_bytes - length;
                    Ok(())
                }
            },
        }
    }

    /// Marks whether an outstanding request references the region.
    pub(crate) fn set_in_use(&mut self, id: usize, flag: bool)
        requires
            old(self).wf(),
            old(self).is_live(id as int),
        ensures
            final(self).wf(),
            final(self).budget_spec() == old(self).budget_spec(),
            final(self).arena_next() == old(self).arena_next(),
            final(self).pinned_total() == old(self).pinned_total(),
            final(self).regions_model() == old(self).regions_model().update(id as int,
                Some(MemoryRegion { in_use: flag, ..old(self).region_at(id as int) })),
    {
        let region = MemoryRegion {
            native_handle: self.regions[id].as_ref().unwrap().native_handle,
            base_address: self.regions[id].as_ref().unwrap().base_address,
            length: self.regions[id].as_ref().unwrap().length,
            alignment: self.regions[id].as_ref().unwrap().alignment,
            in_use: flag,
        };
        proof {
            lemma_sum_bytes_same_lengths(self.regions@,
                self.regions@.update(id as int, Some(region)));
        }
        self.regions[id] = Some(region);
    }

    /// Whether a live region is marked in use.
    pub fn is_in_use(&self, id: usize) -> (r: Result<bool, EngineError>)
        ensures
            r matches Ok(b) ==> self.is_live(id as int) && b == self.region_at(id as int).in_use,
            r is Err <==> !self.is_live(id as int),
            r is Err ==> r == Err::<bool, EngineError>(EngineError::UnknownRegion),
    {
        if id < self.regions.len() {
            match &self.regions[id] {
                Some(region) => Ok(region.in_use),
                None => Err(EngineError::UnknownRegion),
            }
        } else {
            Err(EngineError::UnknownRegion)
        }
    }
}

/// Two tables that agree on which ids are live and on every length have the
/// same byte total.
proof fn lemma_sum_bytes_same_lengths(a: Seq<Option<MemoryRegion>>, b: Seq<Option<MemoryRegion>>)
    requires
        a.len() == b.len(),
        forall|i: int| 0 <= i < a.len() ==> (a[i] is Some <==> b[i] is Some),
        forall|i: int| 0 <= i < a.len() && a[i] is Some ==> a[i]->Some_0.length == b[i]->Some_0.length,
    ensures
        sum_bytes(a) == sum_bytes(b),
    decreases a.len(),
{
    if a.len() > 0 {
        assert(a.drop_last().len() == b.drop_last().len());
        lemma_sum_bytes_same_lengths(a.drop_last(), b.drop_last());
    }
}

/// No leak and no double count: a register whose region is handed back by a
/// deregister of the fresh id leaves the pinned-byte count exactly where it
/// was, on the counter and on the model alike.
pub proof fn lemma_register_deregister_roundtrip(
    r0: RegionRegistry,
    r1: RegionRegistry,
    r2: RegionRegistry,
    reg: MemoryRegion,
    id: int,
)
    requires
        // `r1` is `r0` after a successful `register` that created `reg`:
        id == r0.regions_model().len(),
        r1.regions_model() == r0.regions_model().push(Some(reg)),
        r1.pinned_total() == r0.pinned_total() + reg.length,
        // `r2` is `r1` after a successful `deregister(id)`:
        r2.regions_model() == r1.regions_model().update(id, None),
        r2.pinned_total() == r1.pinned_total() - r1.region_at(id).length,
    ensures
        r2.pinned_total() == r0.pinned_total(),
        sum_bytes(r2.regions_model()) == sum_bytes(r0.regions_model()),
{
    lemma_sum_bytes_push(r0.regions_model(), reg);
    lemma_sum_bytes_remove(r1.regions_model(), id);
}

} // verus!
