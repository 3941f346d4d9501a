use io_engine::errors::{EngineError, ErrorClass};
use io_engine::registry::RegionRegistry;
use io_engine::slots::{AcquirePolicy, SlotAllocator, SlotStatus};
use io_engine::engine::Engine;

#[test]
fn error_classes_follow_taxonomy() {
    assert_eq!(EngineError::QueueFull.class(), ErrorClass::ResourceExhaustion);
    assert_eq!(EngineError::OutOfMemory.class(), ErrorClass::ResourceExhaustion);
    assert_eq!(EngineError::RegionBusy.class(), ErrorClass::ResourceExhaustion);
    assert_eq!(EngineError::AlignmentUnsupported.class(), ErrorClass::HardwareFailure);
    assert_eq!(EngineError::UnknownRegion.class(), ErrorClass::ProtocolViolation);
    assert_eq!(EngineError::UnknownQueue.class(), ErrorClass::ProtocolViolation);
    assert_eq!(EngineError::SpuriousCompletion.class(), ErrorClass::ProtocolViolation);
    assert_eq!(EngineError::DoubleRelease.class(), ErrorClass::ProtocolViolation);
    assert_eq!(EngineError::SlotNotResolved.class(), ErrorClass::ProtocolViolation);
    assert_eq!(EngineError::InvalidTransition.class(), ErrorClass::ProtocolViolation);
    assert_eq!(EngineError::DependencyCycle.class(), ErrorClass::DependencyFailure);
    assert_eq!(EngineError::DependencyFailed.class(), ErrorClass::DependencyFailure);
    assert_eq!(EngineError::HardwareFault(-5).class(), ErrorClass::HardwareFailure);
}

#[test]
fn only_resource_exhaustion_is_retryable() {
    assert!(EngineError::QueueFull.is_retryable());
    assert!(EngineError::OutOfMemory.is_retryable());
    assert!(EngineError::RegionBusy.is_retryable());
    assert!(!EngineError::SpuriousCompletion.is_retryable());
    assert!(!EngineError::DependencyCycle.is_retryable());
    assert!(!EngineError::HardwareFault(7).is_retryable());
}

#[test]
fn backpressure_policy_retries_exhaustion_only() {
    assert!(AcquirePolicy::Backpressure.retries(&EngineError::QueueFull));
    assert!(!AcquirePolicy::Backpressure.retries(&EngineError::DoubleRelease));
    assert!(!AcquirePolicy::FailFast.retries(&EngineError::QueueFull));
}

#[test]
fn register_returns_aligned_region() {
    let mut reg = RegionRegistry::new(1 << 20);
    let a = reg.register(4096, 4096).unwrap();
    let b = reg.register(100, 64).unwrap();
    assert_eq!(a, 0);
    assert_eq!(b, 1);
    assert_eq!(reg.pinned_bytes(), 4196);
    assert!(reg.is_registered(a));
    assert!(reg.is_registered(b));
    assert_eq!(reg.is_in_use(a), Ok(false));
}

#[test]
fn register_rejects_bad_alignment() {
    let mut reg = RegionRegistry::new(1 << 20);
    assert_eq!(reg.register(64, 0), Err(EngineError::AlignmentUnsupported));
    assert_eq!(reg.register(64, 3), Err(EngineError::AlignmentUnsupported));
    assert_eq!(reg.register(64, 48), Err(EngineError::AlignmentUnsupported));
    assert_eq!(reg.pinned_bytes(), 0);
}

#[test]
fn register_rejects_exhausted_budget() {
    let mut reg = RegionRegistry::new(1000);
    let a = reg.register(800, 8).unwrap();
    assert_eq!(reg.register(300, 8), Err(EngineError::OutOfMemory));
    assert_eq!(reg.pinned_bytes(), 800);
    reg.deregister(a).unwrap();
    let b = reg.register(300, 8);
    assert!(b.is_ok());
}

#[test]
fn deregister_roundtrip_keeps_byte_count() {
    let mut reg = RegionRegistry::new(1 << 20);
    let before = reg.pinned_bytes();
    let a = reg.register(512, 64).unwrap();
    assert_eq!(reg.pinned_bytes(), before + 512);
    reg.deregister(a).unwrap();
    assert_eq!(reg.pinned_bytes(), before);
    // The id is spent: a second deregister is reported, not double counted.
    assert_eq!(reg.deregister(a), Err(EngineError::UnknownRegion));
    assert_eq!(reg.pinned_bytes(), before);
}

#[test]
fn unknown_region_is_reported() {
    let mut reg = RegionRegistry::new(1024);
    assert_eq!(reg.deregister(3), Err(EngineError::UnknownRegion));
    assert!(reg.is_in_use(3).is_err());
}

#[test]
fn five_acquires_at_depth_four_fail_fast() {
    let mut alloc = SlotAllocator::new(4, AcquirePolicy::FailFast);
    let s0 = alloc.acquire(0).unwrap();
    let s1 = alloc.acquire(1).unwrap();
    let s2 = alloc.acquire(2).unwrap();
    let s3 = alloc.acquire(3).unwrap();
    assert_eq!((s0, s1, s2, s3), (0, 1, 2, 3));
    // Exactly four succeed; the fifth fails with QueueFull immediately.
    assert_eq!(alloc.acquire(4), Err(EngineError::QueueFull));
    assert_eq!(alloc.submitted_count(), 4);
}

#[test]
fn submitted_never_exceeds_depth() {
    let mut alloc = SlotAllocator::new(3, AcquirePolicy::FailFast);
    let depth = alloc.depth();
    for round in 0..5u32 {
        let mut taken = Vec::new();
        loop {
            match alloc.acquire(0) {
                Ok(s) => taken.push(s),
                Err(e) => {
                    assert_eq!(e, EngineError::QueueFull);
                    break;
                }
            }
            assert!(alloc.submitted_count() <= depth);
        }
        assert_eq!(taken.len(), depth);
        for s in taken {
            alloc.resolve(s, round as i32 % 2).unwrap();
            alloc.release(s).unwrap();
            assert!(alloc.submitted_count() <= depth);
        }
    }
}

#[test]
fn slot_reuse_is_fifo() {
    let mut alloc = SlotAllocator::new(2, AcquirePolicy::FailFast);
    let a = alloc.acquire(0).unwrap();
    let b = alloc.acquire(0).unwrap();
    assert_eq!((a, b), (0, 1));
    // Release in reverse order: the pool replays them oldest-released first.
    alloc.resolve(b, 0).unwrap();
    alloc.release(b).unwrap();
    alloc.resolve(a, 0).unwrap();
    alloc.release(a).unwrap();
    assert_eq!(alloc.acquire(0).unwrap(), 1);
    assert_eq!(alloc.acquire(0).unwrap(), 0);
}

#[test]
fn release_demands_resolution() {
    let mut alloc = SlotAllocator::new(2, AcquirePolicy::FailFast);
    let s = alloc.acquire(0).unwrap();
    assert_eq!(alloc.release(s), Err(EngineError::SlotNotResolved));
    alloc.resolve(s, 0).unwrap();
    assert_eq!(alloc.status_of(s), Some(SlotStatus::Completed(0)));
    alloc.release(s).unwrap();
    assert_eq!(alloc.release(s), Err(EngineError::DoubleRelease));
    assert_eq!(alloc.release(9), Err(EngineError::DoubleRelease));
}

#[test]
fn resolve_rejects_spurious_slots() {
    let mut alloc = SlotAllocator::new(2, AcquirePolicy::FailFast);
    assert_eq!(alloc.resolve(0, 0), Err(EngineError::SpuriousCompletion));
    assert_eq!(alloc.resolve(7, 0), Err(EngineError::SpuriousCompletion));
    let s = alloc.acquire(0).unwrap();
    alloc.resolve(s, -1).unwrap();
    assert_eq!(alloc.status_of(s), Some(SlotStatus::Failed(-1)));
    // A second completion for the same slot is spurious.
    assert_eq!(alloc.resolve(s, 0), Err(EngineError::SpuriousCompletion));
}

#[test]
fn deregister_fails_busy_iff_slot_outstanding() {
    let mut engine = Engine::new(1 << 20, 4, AcquirePolicy::FailFast);
    let region = engine.register(4096, 4096).unwrap();
    // No outstanding slot references the region: deregister would succeed,
    // so first check the busy path.
    let slot = engine.submit(region).unwrap();
    assert_eq!(engine.deregister(region), Err(EngineError::RegionBusy));
    engine.resolve(slot, 0).unwrap();
    // Still resolved-but-unreleased: the slot keeps its claim on the region.
    assert_eq!(engine.deregister(region), Err(EngineError::RegionBusy));
    engine.release(slot).unwrap();
    // No slot references it any more: deregister succeeds.
    assert_eq!(engine.deregister(region), Ok(()));
}

#[test]
fn submit_respects_region_exclusivity() {
    let mut engine = Engine::new(1 << 20, 4, AcquirePolicy::FailFast);
    let region = engine.register(512, 64).unwrap();
    let slot = engine.submit(region).unwrap();
    assert_eq!(engine.submit(region), Err(EngineError::RegionBusy));
    assert_eq!(engine.submit(17), Err(EngineError::UnknownRegion));
    engine.resolve(slot, 0).unwrap();
    engine.release(slot).unwrap();
    assert!(engine.submit(region).is_ok());
}

#[test]
fn submit_fails_fast_when_queue_exhausted() {
    let mut engine = Engine::new(1 << 20, 2, AcquirePolicy::FailFast);
    let r0 = engine.register(64, 8).unwrap();
    let r1 = engine.register(64, 8).unwrap();
    let r2 = engine.register(64, 8).unwrap();
    engine.submit(r0).unwrap();
    engine.submit(r1).unwrap();
    assert_eq!(engine.submit(r2), Err(EngineError::QueueFull));
    assert_eq!(engine.free_slots(), 0);
    assert_eq!(engine.submitted_count(), 2);
}

#[test]
fn engine_roundtrip_leaves_pinned_bytes_unchanged() {
    let mut engine = Engine::new(1 << 16, 2, AcquirePolicy::FailFast);
    assert_eq!(engine.pinned_bytes(), 0);
    let r = engine.register(1024, 128).unwrap();
    assert_eq!(engine.pinned_bytes(), 1024);
    let s = engine.submit(r).unwrap();
    engine.resolve(s, 0).unwrap();
    engine.release(s).unwrap();
    engine.deregister(r).unwrap();
    assert_eq!(engine.pinned_bytes(), 0);
    assert!(!engine.region_registered(r));
}
