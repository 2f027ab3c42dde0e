//! Fixed-capacity in-process channels, verified.
//!
//! Each variant realizes a ring-buffer protocol as a state machine over a
//! shared core: single-producer/single-consumer (`spsc`), multi-producer/
//! single-consumer (`mpsc`) with a reservation/publication split on the
//! producer side, multi-producer/multi-consumer (`mpmc`) with a per-cell
//! epoch marker, and a sharded variant (`sharded_mpsc`) that fans a single
//! consumer out over many independent single-producer lanes.
//!
//! Handles (`Sender`, `Receiver`) carry the per-endpoint cached counters and
//! act on the shared core, which is passed explicitly to every operation.
//! A wait that a concurrent execution would express by spinning is expressed
//! here as a precondition: blocking `send` asks for a free slot, blocking
//! `recv` for a pending value, and the `try_` forms never ask for either.

pub mod mpmc;
pub mod mpsc;
pub mod ring;
pub mod sharded_mpsc;
pub mod spsc;
