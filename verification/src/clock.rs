//! Logical clocks: the Lamport, per-client dot, and authenticated secure
//! variants, together with the lifted clock that a shelf node carries.
//!
//! Every clock exposes a logical counter. Two clocks are first compared by
//! counter; at equal counters they are equal exactly when the underlying
//! clocks coincide (same variant, same fields), and incomparable otherwise.

use vstd::prelude::*;

verus! {

use core::cmp::Ordering;
use crate::value::{Value, spec_hash_pair, mix, HASH_BASIS};

/// A Lamport timestamp: a single monotonically increasing counter with a
/// total order.
#[derive(Clone, Copy, Debug, PartialEq, Eq, Structural)]
pub struct LamportTimestamp(pub u64);

impl LamportTimestamp {
    /// The next timestamp, strictly greater than this one.
    pub fn increment(self) -> (r: Self)
        requires
            self.0 < u64::MAX,
        ensures
            r.0 == self.0 + 1,
    {
        LamportTimestamp(self.0 + 1)
    }
}

impl PartialOrd for LamportTimestamp {
    fn partial_cmp(&self, other: &Self) -> (r: Option<Ordering>) {
        if self.0 < other.0 {
            Some(Ordering::Less)
        } else if self.0 == other.0 {
            Some(Ordering::Equal)
        } else {
            Some(Ordering::Greater)
        }
    }
}

impl vstd::std_specs::cmp::PartialOrdSpecImpl for LamportTimestamp {
    open spec fn obeys_partial_cmp_spec() -> bool {
        true
    }

    open spec fn partial_cmp_spec(&self, other: &Self) -> Option<Ordering> {
        if self.0 < other.0 {
            Some(Ordering::Less)
        } else if self.0 == other.0 {
            Some(Ordering::Equal)
        } else {
            Some(Ordering::Greater)
        }
    }
}

/// Hands out Lamport timestamps, starting at zero.
pub struct LamportTimestampGenerator;

impl LamportTimestampGenerator {
    /// A fresh clock at counter zero.
    pub fn new_clock(&mut self) -> (r: LamportTimestamp)
        ensures
            r.0 == 0,
    {
        LamportTimestamp(0)
    }

    /// A clock strictly greater than `clock`.
    pub fn next_clock(&mut self, clock: LamportTimestamp) -> (r: LamportTimestamp)
        requires
            clock.0 < u64::MAX,
        ensures
            r.0 == clock.0 + 1,
    {
        LamportTimestamp(clock.0 + 1)
    }
}

/// A dot clock: a counter paired with the writing client. Clocks of
/// different clients with equal counters are concurrent, which lets two
/// replicas that independently reached the same counter be recognized as
/// such.
#[derive(Clone, Copy, Debug, PartialEq, Eq, Structural)]
pub struct DotClock {
    pub client_id: u64,
    pub clock: u64,
}

impl DotClock {
    /// The zero clock of the given client.
    pub fn new(client_id: u64) -> (r: Self)
        ensures
            r.client_id == client_id,
            r.clock == 0,
    {
        DotClock { client_id, clock: 0 }
    }

    /// The next counter, stamped with the writing client.
    pub fn increment(&self, client_id: u64) -> (r: Self)
        requires
            self.clock < u64::MAX,
        ensures
            r.client_id == client_id,
            r.clock == self.clock + 1,
    {
        DotClock { client_id, clock: self.clock + 1 }
    }
}

impl PartialOrd for DotClock {
    fn partial_cmp(&self, other: &Self) -> (r: Option<Ordering>) {
        if self.clock < other.clock {
            Some(Ordering::Less)
        } else if self.clock > other.clock {
            Some(Ordering::Greater)
        } else if self.client_id == other.client_id {
            Some(Ordering::Equal)
        } else {
            None
        }
    }
}

impl vstd::std_specs::cmp::PartialOrdSpecImpl for DotClock {
    open spec fn obeys_partial_cmp_spec() -> bool {
        true
    }

    open spec fn partial_cmp_spec(&self, other: &Self) -> Option<Ordering> {
        if self.clock < other.clock {
            Some(Ordering::Less)
        } else if self.clock > other.clock {
            Some(Ordering::Greater)
        } else if self.client_id == other.client_id {
            Some(Ordering::Equal)
        } else {
            None
        }
    }
}

/// Hands out dot clocks for one client.
pub struct DotClockGenerator {
    pub client_id: u64,
}

impl DotClockGenerator {
    pub fn new(client_id: u64) -> (r: Self)
        ensures
            r.client_id == client_id,
    {
        DotClockGenerator { client_id }
    }

    /// A fresh clock at counter zero.
    pub fn new_clock(&mut self) -> (r: DotClock)
        ensures
            r.client_id == old(self).client_id,
            r.clock == 0,
            *final(self) == *old(self),
    {
        DotClock { client_id: self.client_id, clock: 0 }
    }

    /// A clock strictly greater than `clock`, stamped with this client.
    pub fn next_clock(&mut self, clock: DotClock) -> (r: DotClock)
        requires
            clock.clock < u64::MAX,
        ensures
            r.client_id == old(self).client_id,
            r.clock == clock.clock + 1,
            *final(self) == *old(self),
    {
        DotClock { client_id: self.client_id, clock: clock.clock + 1 }
    }
}

/// A secure clock: a counter bound to a hash of the pair of the counter and
/// the value it stamps. A leaf whose hash does not match its value is
/// detected as tampered and never merged over honest state.
#[derive(Clone, Copy, Debug, PartialEq, Eq, Structural)]
pub struct SecureClock {
    pub clock: u64,
    pub hash: u64,
}

impl SecureClock {
    /// The clock at the given counter, bound to `value`.
    pub fn new(value: &Value, clock: u64) -> (r: Self)
        ensures
            r.clock == clock,
            r.hash == spec_hash_pair(clock, value@),
    {
        let hash = value.hash_into(mix(HASH_BASIS, clock));
        SecureClock { clock, hash }
    }

    /// Whether this clock's hash matches `value`.
    pub fn verify(&self, value: &Value) -> (r: bool)
        ensures
            r == (self.hash == spec_hash_pair(self.clock, value@)),
    {
        let hash = value.hash_into(mix(HASH_BASIS, self.clock));
        self.hash == hash
    }

    /// The clock one counter higher, bound to `value`. Strictly greater
    /// than this one, and it verifies against `value`.
    pub fn next(&self, value: &Value) -> (r: Self)
        requires
            self.clock < u64::MAX,
        ensures
            r.clock == self.clock + 1,
            r.hash == spec_hash_pair(r.clock, value@),
    {
        SecureClock::new(value, self.clock + 1)
    }
}

impl PartialOrd for SecureClock {
    fn partial_cmp(&self, other: &Self) -> (r: Option<Ordering>) {
        if self.clock < other.clock {
            Some(Ordering::Less)
        } else if self.clock > other.clock {
            Some(Ordering::Greater)
        } else if self.hash == other.hash {
            Some(Ordering::Equal)
        } else {
            None
        }
    }
}

impl vstd::std_specs::cmp::PartialOrdSpecImpl for SecureClock {
    open spec fn obeys_partial_cmp_spec() -> bool {
        true
    }

    open spec fn partial_cmp_spec(&self, other: &Self) -> Option<Ordering> {
        if self.clock < other.clock {
            Some(Ordering::Less)
        } else if self.clock > other.clock {
            Some(Ordering::Greater)
        } else if self.hash == other.hash {
            Some(Ordering::Equal)
        } else {
            None
        }
    }
}

/// The clock a value leaf carries: one of the three variants.
#[derive(Clone, Copy, Debug, PartialEq, Eq, Structural)]
pub enum LeafClock {
    Lamport(LamportTimestamp),
    Dot(DotClock),
    Secure(SecureClock),
}

impl LeafClock {
    /// The logical counter of this clock.
    pub open spec fn spec_logical(self) -> u64 {
        match self {
            LeafClock::Lamport(l) => l.0,
            LeafClock::Dot(d) => d.clock,
            LeafClock::Secure(s) => s.clock,
        }
    }

    /// The logical counter of this clock.
    pub fn get_logical_clock(&self) -> (r: u64)
        ensures
            r == self.spec_logical(),
    {
        match self {
            LeafClock::Lamport(l) => l.0,
            LeafClock::Dot(d) => d.clock,
            LeafClock::Secure(s) => s.clock,
        }
    }
}

/// The clock at a shelf node: the map clock of a map, or the value clock
/// of a leaf. This is the type on which the shelf order compares clocks of
/// nodes of either shape.
#[derive(Clone, Copy, Debug, PartialEq, Eq, Structural)]
pub enum ShelfClock {
    MapClock(LamportTimestamp),
    ValueClock(LeafClock),
}

impl ShelfClock {
    /// The clock with the map and value sides forgotten: a map clock is a
    /// Lamport clock.
    pub open spec fn spec_underlying(self) -> LeafClock {
        match self {
            ShelfClock::MapClock(l) => LeafClock::Lamport(l),
            ShelfClock::ValueClock(v) => v,
        }
    }

    /// The logical counter of this clock.
    pub open spec fn spec_logical(self) -> u64 {
        self.spec_underlying().spec_logical()
    }

    /// The logical counter of this clock.
    pub fn get_logical_clock(&self) -> (r: u64)
        ensures
            r == self.spec_logical(),
    {
        match self {
            ShelfClock::MapClock(l) => l.0,
            ShelfClock::ValueClock(v) => v.get_logical_clock(),
        }
    }
}

/// The partial order on node clocks: by logical counter first; at equal
/// counters the clocks are equal exactly when the underlying clocks
/// coincide, and incomparable otherwise.
pub open spec fn spec_cmp_clock(a: ShelfClock, b: ShelfClock) -> Option<Ordering> {
    if a.spec_logical() < b.spec_logical() {
        Some(Ordering::Less)
    } else if a.spec_logical() > b.spec_logical() {
        Some(Ordering::Greater)
    } else if a.spec_underlying() == b.spec_underlying() {
        Some(Ordering::Equal)
    } else {
        None
    }
}

/// Compares two node clocks under the partial order.
pub fn cmp_clock(a: &ShelfClock, b: &ShelfClock) -> (r: Option<Ordering>)
    ensures
        r == spec_cmp_clock(*a, *b),
{
    let la = a.get_logical_clock();
    let lb = b.get_logical_clock();
    if la < lb {
        Some(Ordering::Less)
    } else if la > lb {
        Some(Ordering::Greater)
    } else {
        let ua = match a {
            ShelfClock::MapClock(l) => LeafClock::Lamport(*l),
            ShelfClock::ValueClock(v) => *v,
        };
        let ub = match b {
            ShelfClock::MapClock(l) => LeafClock::Lamport(*l),
            ShelfClock::ValueClock(v) => *v,
        };
        if ua == ub {
            Some(Ordering::Equal)
        } else {
            None
        }
    }
}

/// A deterministic total tiebreak among distinct clocks with equal
/// counters, used only to settle which of two concurrent equal-valued
/// leaves is stored: the serialized form of the clock, compared by variant
/// and then by the client or hash field.
pub open spec fn spec_clock_tiebreak_less(a: LeafClock, b: LeafClock) -> bool {
    let ra = match a {
        LeafClock::Lamport(_) => 0int,
        LeafClock::Dot(_) => 1int,
        LeafClock::Secure(_) => 2int,
    };
    let rb = match b {
        LeafClock::Lamport(_) => 0int,
        LeafClock::Dot(_) => 1int,
        LeafClock::Secure(_) => 2int,
    };
    if ra != rb {
        ra < rb
    } else {
        match (a, b) {
            (LeafClock::Lamport(x), LeafClock::Lamport(y)) => x.0 < y.0,
            (LeafClock::Dot(x), LeafClock::Dot(y)) => x.client_id < y.client_id,
            (LeafClock::Secure(x), LeafClock::Secure(y)) => x.hash < y.hash,
            _ => false,
        }
    }
}

/// Compares two leaf clocks under the storage tiebreak.
pub fn clock_tiebreak_less(a: &LeafClock, b: &LeafClock) -> (r: bool)
    ensures
        r == spec_clock_tiebreak_less(*a, *b),
{
    match (a, b) {
        (LeafClock::Lamport(x), LeafClock::Lamport(y)) => x.0 < y.0,
        (LeafClock::Lamport(_), _) => true,
        (_, LeafClock::Lamport(_)) => false,
        (LeafClock::Dot(x), LeafClock::Dot(y)) => x.client_id < y.client_id,
        (LeafClock::Dot(_), _) => true,
        (_, LeafClock::Dot(_)) => false,
        (LeafClock::Secure(x), LeafClock::Secure(y)) => x.hash < y.hash,
    }
}

} // verus!
