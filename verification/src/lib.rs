//! A safe, verified ownership and lifecycle model for a userspace I/O polling
//! engine: DMA-registered memory regions, bounded request slots, completion
//! queues, subsystem startup ordering, and a cooperative reactor loop.

pub mod errors;
pub mod registry;
pub mod slots;
pub mod cq;
pub mod lifecycle;
pub mod engine;
pub mod reactor;
