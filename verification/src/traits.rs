//! The capability surface of the library: counters that advance, states
//! that join, values ranked by kind, and replicas that exchange state
//! vectors and deltas.

use vstd::prelude::*;

verus! {

use core::cmp::Ordering;
use crate::clock::{LamportTimestamp, DotClock, SecureClock, ShelfClock};
use crate::value::{Value, spec_type_rank, spec_cmp_int};

/// A clock with a logical counter.
pub trait LogicalClock {
    /// The logical counter.
    spec fn spec_logical_clock(&self) -> u64;

    /// The logical counter.
    fn get_logical_clock(&self) -> (r: u64)
        ensures
            r == self.spec_logical_clock(),
    ;
}

impl LogicalClock for LamportTimestamp {
    open spec fn spec_logical_clock(&self) -> u64 {
        self.0
    }

    fn get_logical_clock(&self) -> u64 {
        self.0
    }
}

impl LogicalClock for DotClock {
    open spec fn spec_logical_clock(&self) -> u64 {
        self.clock
    }

    fn get_logical_clock(&self) -> u64 {
        self.clock
    }
}

impl LogicalClock for SecureClock {
    open spec fn spec_logical_clock(&self) -> u64 {
        self.clock
    }

    fn get_logical_clock(&self) -> u64 {
        self.clock
    }
}

impl LogicalClock for ShelfClock {
    open spec fn spec_logical_clock(&self) -> u64 {
        self.spec_logical()
    }

    fn get_logical_clock(&self) -> u64 {
        match self {
            ShelfClock::MapClock(l) => l.0,
            ShelfClock::ValueClock(v) => v.get_logical_clock(),
        }
    }
}

/// A counter that can move strictly forward.
pub trait Incrementable {
    /// Whether another tick fits in the counter's range.
    spec fn can_increment(&self) -> bool;

    /// Advances the counter.
    fn increment(&mut self)
        requires
            old(self).can_increment(),
    ;
}

impl Incrementable for LamportTimestamp {
    open spec fn can_increment(&self) -> bool {
        self.0 < u64::MAX
    }

    fn increment(&mut self) {
        self.0 = self.0 + 1;
    }
}

impl Incrementable for usize {
    open spec fn can_increment(&self) -> bool {
        *self < usize::MAX
    }

    fn increment(&mut self) {
        *self = *self + 1;
    }
}

/// A state that can absorb another of the same shape.
pub trait Mergeable<Other>: Sized {
    fn merge(self, other: Other) -> Self;
}

impl Mergeable<usize> for usize {
    /// The join of two plain counters is the greater one.
    fn merge(self, other: usize) -> (r: usize)
        ensures
            r == (if self >= other {
                self
            } else {
                other
            }),
    {
        if self >= other {
            self
        } else {
            other
        }
    }
}

/// A value ordered by the rank of its variant.
pub trait TypeOrd {
    fn type_cmp(&self, other: &Self) -> Ordering;
}

impl TypeOrd for Value {
    /// Compares variants by rank alone, ignoring the payloads.
    fn type_cmp(&self, other: &Self) -> (r: Ordering)
        ensures
            r == spec_cmp_int(spec_type_rank(self@), spec_type_rank(other@)),
    {
        let ra = self.type_rank();
        let rb = other.type_rank();
        if ra < rb {
            Ordering::Less
        } else if ra == rb {
            Ordering::Equal
        } else {
            Ordering::Greater
        }
    }
}

/// A replicated state that can summarize itself as a state vector and
/// answer a peer's summary with a delta.
pub trait DeltaCRDT {
    type Delta;

    type StateVector;

    fn get_state_vector(&self) -> Self::StateVector;

    fn get_state_delta(&self, sv: &Self::StateVector) -> Option<Self::Delta>;
}

/// A source of replicated state: a value with an associated replica type
/// that tracks it.
pub trait CRDTBackend: Clone {
    type Backend: DeltaCRDT;

    fn new_crdt(&self) -> Self::Backend;
}

/// A policy for applying keyed updates to a target state.
pub trait UpdateStrategy {
    type Target;

    type Update;

    fn process_update(target: &mut Self::Target, update: Self::Update);

    fn set(&mut self, target: &mut Self::Target, key: String, value: Self::Target) -> Option<
        Self::Target,
    >;
}

/// A source of clocks for one replica: fresh clocks, and successors that
/// are strictly greater.
pub trait ClockGenerator {
    type Clock;

    fn new_clock(&mut self) -> Self::Clock;

    fn next_clock(&mut self, clock: Self::Clock) -> Self::Clock;
}

} // verus!
