use io_engine::cq::{CompletionEntry, CompletionQueue};
use io_engine::engine::Engine;
use io_engine::errors::EngineError;
use io_engine::lifecycle::{LifecycleManager, SubsystemState};
use io_engine::reactor::{poll_once, Reactor, ReactorAction};
use io_engine::slots::{AcquirePolicy, SlotStatus};

#[test]
fn ring_delivers_in_hardware_order() {
    let mut cq = CompletionQueue::new(3);
    assert!(cq.is_empty());
    for k in 0..3 {
        cq.push(CompletionEntry { slot_id: k, status: k as i32 }).unwrap();
    }
    assert_eq!(
        cq.push(CompletionEntry { slot_id: 9, status: 9 }),
        Err(EngineError::QueueFull)
    );
    // Wrap around: consume one, produce one, order stays first-in first-out.
    let e = cq.pop().unwrap();
    assert_eq!((e.slot_id, e.status), (0, 0));
    cq.push(CompletionEntry { slot_id: 3, status: 3 }).unwrap();
    let order: Vec<usize> = [cq.pop(), cq.pop(), cq.pop()]
        .into_iter()
        .map(|e| e.unwrap().slot_id)
        .collect();
    assert_eq!(order, vec![1, 2, 3]);
    assert!(cq.pop().is_none());
}

#[test]
fn poll_resolves_slots_in_order() {
    let mut engine = Engine::new(1 << 16, 4, AcquirePolicy::FailFast);
    let r0 = engine.register(64, 8).unwrap();
    let r1 = engine.register(64, 8).unwrap();
    let s0 = engine.submit(r0).unwrap();
    let s1 = engine.submit(r1).unwrap();
    let mut cq = CompletionQueue::new(8);
    cq.push(CompletionEntry { slot_id: s0, status: 0 }).unwrap();
    cq.push(CompletionEntry { slot_id: s1, status: -7 }).unwrap();
    let events = poll_once(&mut cq, &mut engine).unwrap();
    assert_eq!(events.len(), 2);
    assert_eq!((events[0].slot_id, events[0].status), (s0, 0));
    assert_eq!((events[1].slot_id, events[1].status), (s1, -7));
    assert_eq!(engine.slot_status(s0), Some(SlotStatus::Completed(0)));
    assert_eq!(engine.slot_status(s1), Some(SlotStatus::Failed(-7)));
    assert!(cq.is_empty());
}

#[test]
fn spurious_completion_is_fatal_to_the_poll() {
    let mut engine = Engine::new(1 << 16, 2, AcquirePolicy::FailFast);
    let r = engine.register(64, 8).unwrap();
    let s = engine.submit(r).unwrap();
    let mut cq = CompletionQueue::new(4);
    cq.push(CompletionEntry { slot_id: s, status: 0 }).unwrap();
    // The same slot again: resolved once, the second event is spurious.
    cq.push(CompletionEntry { slot_id: s, status: 0 }).unwrap();
    assert_eq!(
        poll_once(&mut cq, &mut engine),
        Err(EngineError::SpuriousCompletion)
    );
    // The first event was dispatched before the poll died.
    assert_eq!(engine.slot_status(s), Some(SlotStatus::Completed(0)));
}

#[test]
fn empty_poll_cycle_backs_off() {
    let mut engine = Engine::new(1 << 16, 2, AcquirePolicy::FailFast);
    let mut reactor = Reactor::new();
    reactor.add_queue(CompletionQueue::new(4));
    reactor.add_queue(CompletionQueue::new(4));
    let (events, action) = reactor.run_cycle(&mut engine).unwrap();
    // Zero ready completions: an empty sequence, and the reactor yields
    // rather than re-polling immediately.
    assert!(events.is_empty());
    assert_eq!(action, ReactorAction::Backoff);
}

#[test]
fn reactor_cycle_gathers_queue_events_in_registration_order() {
    let mut engine = Engine::new(1 << 16, 4, AcquirePolicy::FailFast);
    let r0 = engine.register(64, 8).unwrap();
    let r1 = engine.register(64, 8).unwrap();
    let s0 = engine.submit(r0).unwrap();
    let s1 = engine.submit(r1).unwrap();
    let mut reactor = Reactor::new();
    reactor.add_queue(CompletionQueue::new(4));
    reactor.add_queue(CompletionQueue::new(4));
    reactor.feed(1, CompletionEntry { slot_id: s1, status: 0 }).unwrap();
    reactor.feed(0, CompletionEntry { slot_id: s0, status: 0 }).unwrap();
    assert_eq!(
        reactor.feed(5, CompletionEntry { slot_id: 0, status: 0 }),
        Err(EngineError::UnknownQueue)
    );
    let (events, action) = reactor.run_cycle(&mut engine).unwrap();
    let ids: Vec<usize> = events.iter().map(|e| e.slot_id).collect();
    // Queue 0 is polled before queue 1, whatever order the entries arrived.
    assert_eq!(ids, vec![s0, s1]);
    assert_eq!(action, ReactorAction::Continue);
    let (again, idle) = reactor.run_cycle(&mut engine).unwrap();
    assert!(again.is_empty());
    assert_eq!(idle, ReactorAction::Backoff);
}

#[test]
fn shutdown_stops_before_polling() {
    let mut engine = Engine::new(1 << 16, 2, AcquirePolicy::FailFast);
    let r = engine.register(64, 8).unwrap();
    let s = engine.submit(r).unwrap();
    let mut reactor = Reactor::new();
    reactor.add_queue(CompletionQueue::new(4));
    reactor.feed(0, CompletionEntry { slot_id: s, status: 0 }).unwrap();
    reactor.request_shutdown();
    assert!(reactor.is_shutdown());
    let (events, action) = reactor.run_cycle(&mut engine).unwrap();
    assert!(events.is_empty());
    assert_eq!(action, ReactorAction::Stop);
    // The pending entry was never touched: the slot is still in flight.
    assert_eq!(engine.slot_status(s), Some(SlotStatus::Submitted));
}

#[test]
fn cycle_is_rejected_at_registration_without_side_effects() {
    let mut mgr = LifecycleManager::new();
    let a = mgr.register_subsystem("a".to_string(), vec![1]).unwrap();
    assert_eq!(a, 0);
    // Registering "b" with a dependency back on "a" closes a cycle.
    assert_eq!(
        mgr.register_subsystem("b".to_string(), vec![0]),
        Err(EngineError::DependencyCycle)
    );
    assert_eq!(mgr.subsystem_count(), 1);
    // Detection is idempotent: the same attempt fails the same way.
    assert_eq!(
        mgr.register_subsystem("b".to_string(), vec![0]),
        Err(EngineError::DependencyCycle)
    );
    assert_eq!(mgr.subsystem_count(), 1);
    assert_eq!(mgr.state_of(0), Some(SubsystemState::Unstarted));
}

#[test]
fn self_dependency_is_a_cycle() {
    let mut mgr = LifecycleManager::new();
    assert_eq!(
        mgr.register_subsystem("selfish".to_string(), vec![0]),
        Err(EngineError::DependencyCycle)
    );
    assert_eq!(mgr.subsystem_count(), 0);
}

#[test]
fn start_all_walks_dependencies_first() {
    let mut mgr = LifecycleManager::new();
    let a = mgr.register_subsystem("a".to_string(), vec![]).unwrap();
    let b = mgr.register_subsystem("b".to_string(), vec![a]).unwrap();
    let c = mgr.register_subsystem("c".to_string(), vec![a, b]).unwrap();
    let order = mgr.start_all().unwrap();
    assert_eq!(order, vec![a, b, c]);
    for v in [a, b, c] {
        assert_eq!(mgr.state_of(v), Some(SubsystemState::Running));
    }
    assert_eq!(mgr.name_of(b).map(|n| n.as_str()), Some("b"));
}

#[test]
fn dependents_never_initialize_before_dependency_runs() {
    let mut mgr = LifecycleManager::new();
    let a = mgr.register_subsystem("a".to_string(), vec![]).unwrap();
    let b = mgr.register_subsystem("b".to_string(), vec![a]).unwrap();
    let c = mgr.register_subsystem("c".to_string(), vec![a, b]).unwrap();
    // B and C cannot begin initializing while A is not Running.
    assert_eq!(mgr.begin_init(b), Err(EngineError::DependencyFailed));
    assert_eq!(mgr.begin_init(c), Err(EngineError::DependencyFailed));
    mgr.begin_init(a).unwrap();
    assert_eq!(mgr.state_of(a), Some(SubsystemState::Initializing));
    // Still not Running: B keeps waiting.
    assert_eq!(mgr.begin_init(b), Err(EngineError::DependencyFailed));
    mgr.finish_init(a, 0).unwrap();
    assert_eq!(mgr.state_of(a), Some(SubsystemState::Running));
    mgr.begin_init(b).unwrap();
    // C depends on B as well, which is only Initializing.
    assert_eq!(mgr.begin_init(c), Err(EngineError::DependencyFailed));
    mgr.finish_init(b, 0).unwrap();
    mgr.begin_init(c).unwrap();
    mgr.finish_init(c, 0).unwrap();
    assert_eq!(mgr.state_of(c), Some(SubsystemState::Running));
}

#[test]
fn failed_init_marks_subsystem_failed() {
    let mut mgr = LifecycleManager::new();
    let a = mgr.register_subsystem("a".to_string(), vec![]).unwrap();
    mgr.begin_init(a).unwrap();
    mgr.finish_init(a, -19).unwrap();
    assert_eq!(mgr.state_of(a), Some(SubsystemState::Failed));
    // A failed subsystem never satisfies its dependents.
    let b = mgr.register_subsystem("b".to_string(), vec![a]).unwrap();
    assert_eq!(mgr.begin_init(b), Err(EngineError::DependencyFailed));
}

#[test]
fn mark_failed_only_from_live_states() {
    let mut mgr = LifecycleManager::new();
    let a = mgr.register_subsystem("a".to_string(), vec![]).unwrap();
    assert_eq!(mgr.mark_failed(a), Err(EngineError::InvalidTransition));
    mgr.begin_init(a).unwrap();
    mgr.finish_init(a, 0).unwrap();
    mgr.mark_failed(a).unwrap();
    assert_eq!(mgr.state_of(a), Some(SubsystemState::Failed));
    assert_eq!(mgr.mark_failed(9), Err(EngineError::InvalidTransition));
}

#[test]
fn dangling_dependency_fails_startup_before_any_start() {
    let mut mgr = LifecycleManager::new();
    let a = mgr.register_subsystem("a".to_string(), vec![2]).unwrap();
    let b = mgr.register_subsystem("b".to_string(), vec![]).unwrap();
    assert!(!mgr.deps_known());
    assert_eq!(mgr.start_all(), Err(EngineError::DependencyFailed));
    assert_eq!(mgr.state_of(a), Some(SubsystemState::Unstarted));
    assert_eq!(mgr.state_of(b), Some(SubsystemState::Unstarted));
    // Register the missing dependency and startup goes through.
    let c = mgr.register_subsystem("c".to_string(), vec![]).unwrap();
    assert_eq!(c, 2);
    let order = mgr.start_all().unwrap();
    assert_eq!(order, vec![b, c, a]);
}

#[test]
fn stop_all_walks_strict_reverse_order() {
    let mut mgr = LifecycleManager::new();
    let a = mgr.register_subsystem("a".to_string(), vec![]).unwrap();
    let b = mgr.register_subsystem("b".to_string(), vec![a]).unwrap();
    let c = mgr.register_subsystem("c".to_string(), vec![a, b]).unwrap();
    mgr.start_all().unwrap();
    let stop_order = mgr.stop_all();
    assert_eq!(stop_order, vec![c, b, a]);
    for v in [a, b, c] {
        assert_eq!(mgr.state_of(v), Some(SubsystemState::Stopped));
    }
}

#[test]
fn stop_all_leaves_unstarted_and_failed_alone() {
    let mut mgr = LifecycleManager::new();
    let a = mgr.register_subsystem("a".to_string(), vec![]).unwrap();
    let b = mgr.register_subsystem("b".to_string(), vec![]).unwrap();
    let c = mgr.register_subsystem("c".to_string(), vec![]).unwrap();
    mgr.begin_init(a).unwrap();
    mgr.finish_init(a, 0).unwrap();
    mgr.begin_init(b).unwrap();
    mgr.finish_init(b, -1).unwrap();
    mgr.stop_all();
    assert_eq!(mgr.state_of(a), Some(SubsystemState::Stopped));
    assert_eq!(mgr.state_of(b), Some(SubsystemState::Failed));
    assert_eq!(mgr.state_of(c), Some(SubsystemState::Unstarted));
}

#[test]
fn full_request_lifecycle_through_the_reactor() {
    // Lifecycle up, submit against a pinned region, completion through the
    // reactor, teardown: the data flow of the whole engine in one pass.
    let mut mgr = LifecycleManager::new();
    let nvme = mgr.register_subsystem("nvme".to_string(), vec![]).unwrap();
    mgr.start_all().unwrap();
    assert_eq!(mgr.state_of(nvme), Some(SubsystemState::Running));

    let mut engine = Engine::new(1 << 20, 4, AcquirePolicy::Backpressure);
    let region = engine.register(4096, 4096).unwrap();
    let slot = engine.submit(region).unwrap();

    let mut reactor = Reactor::new();
    reactor.add_queue(CompletionQueue::new(16));
    reactor.feed(0, CompletionEntry { slot_id: slot, status: 0 }).unwrap();
    let (events, action) = reactor.run_cycle(&mut engine).unwrap();
    assert_eq!(events.len(), 1);
    assert_eq!(action, ReactorAction::Continue);

    engine.release(slot).unwrap();
    engine.deregister(region).unwrap();
    assert_eq!(engine.pinned_bytes(), 0);

    reactor.request_shutdown();
    let (_, stop) = reactor.run_cycle(&mut engine).unwrap();
    assert_eq!(stop, ReactorAction::Stop);
    let stopped = mgr.stop_all();
    assert_eq!(stopped, vec![nvme]);
    assert_eq!(mgr.state_of(nvme), Some(SubsystemState::Stopped));
}
