//! Completion queue: a bounded ring of completion entries, produced by the
//! native driver side and drained in hardware order by the reactor.
//!
//! Entries within one queue are delivered strictly in the order they were
//! produced; the engine makes no ordering promise across queues.

use vstd::prelude::*;
use crate::errors::EngineError;

verus! {

/// One raw completion produced by the driver: which slot finished, and the
/// native status code (zero for success).
#[derive(Clone, Copy, PartialEq, Eq, Structural, Debug)]
pub struct CompletionEntry {
    /// The request slot this completion resolves.
    pub slot_id: usize,
    /// The native status code; zero means success.
    pub status: i32,
}

/// A bounded ring buffer of completion entries with consumer head and
/// producer tail. Polled exclusively by the reactor that owns it.
pub struct CompletionQueue {
    ring: Vec<CompletionEntry>,
    /// Index of the oldest pending entry.
    head: usize,
    /// Number of pending entries.
    count: usize,
}

/// Largest ring capacity the queue accepts; keeps all index arithmetic
/// comfortably inside `usize`.
pub const MAX_CQ_CAPACITY: usize = 0x7fff_ffff;

impl CompletionQueue {
    /// The ring storage; its length is the capacity.
    pub closed spec fn ring_model(self) -> Seq<CompletionEntry> {
        self.ring@
    }

    /// The ring capacity.
    pub open spec fn capacity_spec(self) -> int {
        self.ring_model().len() as int
    }

    /// Index of the oldest pending entry.
    pub closed spec fn head_spec(self) -> int {
        self.head as int
    }

    /// Number of pending entries.
    pub closed spec fn count_spec(self) -> int {
        self.count as int
    }

    /// Structural consistency of the ring indices.
    pub open spec fn wf(self) -> bool {
        &&& 1 <= self.capacity_spec() <= MAX_CQ_CAPACITY
        &&& 0 <= self.head_spec() < self.capacity_spec()
        &&& 0 <= self.count_spec() <= self.capacity_spec()
    }

    /// The pending entries, oldest first: the slice of the ring from the
    /// head, wrapping at the capacity.
    pub open spec fn pending(self) -> Seq<CompletionEntry> {
        if self.head_spec() + self.count_spec() <= self.capacity_spec() {
            self.ring_model().subrange(self.head_spec(), self.head_spec() + self.count_spec())
        } else {
            self.ring_model().subrange(self.head_spec(), self.capacity_spec())
                + self.ring_model().subrange(0,
                    self.head_spec() + self.count_spec() - self.capacity_spec())
        }
    }

    /// An empty ring of the given capacity.
    pub fn new(capacity: usize) -> (r: Self)
        requires
            1 <= capacity <= MAX_CQ_CAPACITY,
        ensures
            r.wf(),
            r.capacity_spec() == capacity,
            r.pending().len() == 0,
    {
        let mut ring: Vec<CompletionEntry> = Vec::new();
        let mut i: usize = 0;
        while i < capacity
            invariant
                i <= capacity,
                ring@.len() == i,
            decreases capacity - i,
        {
            ring.push(CompletionEntry { slot_id: 0, status: 0 });
            i = i + 1;
        }
        CompletionQueue { ring, head: 0, count: 0 }
    }

    /// Number of pending entries.
    pub fn len(&self) -> (r: usize)
        requires
            self.wf(),
        ensures
            r == self.pending().len(),
    {
        self.count
    }

    /// Whether a poll right now would find nothing.
    pub fn is_empty(&self) -> (r: bool)
        requires
            self.wf(),
        ensures
            r == (self.pending().len() == 0),
    {
        self.count == 0
    }

    /// The ring capacity.
    pub fn capacity(&self) -> (r: usize)
        ensures
            r == self.capacity_spec(),
    {
        self.ring.len()
    }

    /// Produces one entry at the tail, as the driver side of the ring does.
    ///
    /// Fails with `QueueFull` exactly when the ring already holds `capacity`
    /// pending entries; the queue is then unchanged.
    pub fn push(&mut self, e: CompletionEntry) -> (r: Result<(), EngineError>)
        requires
            old(self).wf(),
        ensures
            final(self).wf(),
            final(self).capacity_spec() == old(self).capacity_spec(),
            r is Ok <==> old(self).pending().len() < old(self).capacity_spec(),
            r is Err ==> r == Err::<(), EngineError>(EngineError::QueueFull)
                && *final(self) == *old(self),
            r is Ok ==> final(self).pending() == old(self).pending().push(e),
    {
        if self.count >= self.ring.len() {
            return Err(EngineError::QueueFull);
        }
        let cap = self.ring.len();
        let tail = if self.head >= cap - self.count {
            self.head - (cap - self.count)
        } else {
            self.head + self.count
        };
        self.ring[tail] = e;
        self.count = self.count + 1;
        proof {
            assert(final(self).pending() =~= old(self).pending().push(e));
        }
        Ok(())
    }

    /// Consumes the oldest pending entry, or reports an empty poll with
    /// `None`.
    pub fn pop(&mut self) -> (r: Option<CompletionEntry>)
        requires
            old(self).wf(),
        ensures
            final(self).wf(),
            final(self).capacity_spec() == old(self).capacity_spec(),
            r is Some <==> old(self).pending().len() > 0,
            r is None ==> *final(self) == *old(self),
            r matches Some(e) ==> {
                &&& e == old(self).pending()[0]
                &&& final(self).pending() == old(self).pending().subrange(1,
                    old(self).pending().len() as int)
            },
    {
        if self.count == 0 {
            return None;
        }
        let e = self.ring[self.head];
        self.head = if self.head + 1 == self.ring.len() {
            0
        } else {
            self.head + 1
        };
        self.count = self.count - 1;
        proof {
            assert(final(self).pending() =~= old(self).pending().subrange(1,
                old(self).pending().len() as int));
        }
        Some(e)
    }
}

} // verus!
