//! A delta-state CRDT built around a recursive map-or-value tree called a
//! shelf. Replicas advertise compact state vectors, answer with minimal
//! deltas, and converge through an idempotent, commutative, associative
//! merge; a tamper-checking variant binds each leaf to a hash so corrupted
//! writes are dropped rather than absorbed.

pub mod awareness;
pub mod clock;
pub mod codec;
pub mod laws;
pub mod protocol;
pub mod shelf;
pub mod state_vector;
pub mod temporal;
pub mod traits;
pub mod value;

pub use awareness::Awareness;
pub use clock::{DotClock, LamportTimestamp, SecureClock, ShelfClock};
pub use shelf::Shelf;
pub use state_vector::StateVector;
pub use value::Value;
