//! The engine's error taxonomy: every failure an engine operation can report,
//! and the class that decides how a caller reacts to it.

use vstd::prelude::*;

verus! {

/// Every failure the engine surfaces. Each variant belongs to exactly one
/// [`ErrorClass`]; see [`EngineError::class`].
#[derive(Clone, Copy, PartialEq, Eq, Structural, Debug)]
pub enum EngineError {
    /// All request slots are outstanding; the queue depth is exhausted.
    QueueFull,
    /// Registering a region would exceed the registry's byte budget or the
    /// address space left for pinning.
    OutOfMemory,
    /// The region is still referenced by an outstanding request slot.
    RegionBusy,
    /// The requested alignment is not a power of two, so the DMA engine
    /// cannot honour it.
    AlignmentUnsupported,
    /// No registered region has this id.
    UnknownRegion,
    /// No completion queue is registered under this index.
    UnknownQueue,
    /// A completion event named a slot that is unknown or not in flight.
    SpuriousCompletion,
    /// The slot is already free; releasing it again is a protocol violation.
    DoubleRelease,
    /// The slot is still in flight; it can be released only once it has
    /// completed or failed.
    SlotNotResolved,
    /// A lifecycle operation was applied to a subsystem in the wrong
    /// state, or to an unknown id.
    InvalidTransition,
    /// Registering the subsystem would close a dependency cycle.
    DependencyCycle,
    /// A subsystem depends on something that is not registered or did not
    /// reach `Running`.
    DependencyFailed,
    /// A native call reported the contained status code.
    HardwareFault(i32),
}

/// The four classes the engine's error policy distinguishes: only resource
/// exhaustion is retried; everything else is surfaced.
#[derive(Clone, Copy, PartialEq, Eq, Structural, Debug)]
pub enum ErrorClass {
    /// Recoverable; the caller retries or backs off.
    ResourceExhaustion,
    /// Fatal to the owning subsystem, never to the process.
    ProtocolViolation,
    /// Fatal to startup; surfaced before any subsystem runs.
    DependencyFailure,
    /// A native status code, propagated as a tagged result.
    HardwareFailure,
}

impl EngineError {
    /// The class a variant belongs to, as a spec-level mapping.
    pub open spec fn class_spec(self) -> ErrorClass {
        match self {
            EngineError::QueueFull => ErrorClass::ResourceExhaustion,
            EngineError::OutOfMemory => ErrorClass::ResourceExhaustion,
            EngineError::RegionBusy => ErrorClass::ResourceExhaustion,
            EngineError::AlignmentUnsupported => ErrorClass::HardwareFailure,
            EngineError::UnknownRegion => ErrorClass::ProtocolViolation,
            EngineError::UnknownQueue => ErrorClass::ProtocolViolation,
            EngineError::SpuriousCompletion => ErrorClass::ProtocolViolation,
            EngineError::DoubleRelease => ErrorClass::ProtocolViolation,
            EngineError::SlotNotResolved => ErrorClass::ProtocolViolation,
            EngineError::InvalidTransition => ErrorClass::ProtocolViolation,
            EngineError::DependencyCycle => ErrorClass::DependencyFailure,
            EngineError::DependencyFailed => ErrorClass::DependencyFailure,
            EngineError::HardwareFault(_) => ErrorClass::HardwareFailure,
        }
    }

    /// Classifies the error.
    pub fn class(&self) -> (c: ErrorClass)
        ensures
            c == self.class_spec(),
    {
        match self {
            EngineError::QueueFull => ErrorClass::ResourceExhaustion,
            EngineError::OutOfMemory => ErrorClass::ResourceExhaustion,
            EngineError::RegionBusy => ErrorClass::ResourceExhaustion,
            EngineError::AlignmentUnsupported => ErrorClass::HardwareFailure,
            EngineError::UnknownRegion => ErrorClass::ProtocolViolation,
            EngineError::UnknownQueue => ErrorClass::ProtocolViolation,
            EngineError::SpuriousCompletion => ErrorClass::ProtocolViolation,
            EngineError::DoubleRelease => ErrorClass::ProtocolViolation,
            EngineError::SlotNotResolved => ErrorClass::ProtocolViolation,
            EngineError::InvalidTransition => ErrorClass::ProtocolViolation,
            EngineError::DependencyCycle => ErrorClass::DependencyFailure,
            EngineError::DependencyFailed => ErrorClass::DependencyFailure,
            EngineError::HardwareFault(_) => ErrorClass::HardwareFailure,
        }
    }

    /// Whether the engine's retry policy applies: exactly the resource
    /// exhaustion class is retried automatically.
    pub fn is_retryable(&self) -> (r: bool)
        ensures
            r == (self.class_spec() == ErrorClass::ResourceExhaustion),
    {
        matches!(self.class(), ErrorClass::ResourceExhaustion)
    }

    /// A short human-readable label for reporting.
    pub fn label(&self) -> (r: &'static str)
    {
        match self {
            EngineError::QueueFull => "queue full",
            EngineError::OutOfMemory => "out of memory",
            EngineError::RegionBusy => "region busy",
            EngineError::AlignmentUnsupported => "alignment unsupported",
            EngineError::UnknownRegion => "unknown region",
            EngineError::UnknownQueue => "unknown queue",
            EngineError::SpuriousCompletion => "spurious completion",
            EngineError::DoubleRelease => "double release",
            EngineError::SlotNotResolved => "slot not resolved",
            EngineError::InvalidTransition => "invalid transition",
            EngineError::DependencyCycle => "dependency cycle",
            EngineError::DependencyFailed => "dependency failed",
            EngineError::HardwareFault(_) => "hardware fault",
        }
    }
}

} // verus!
