//! The per-peer delta protocol: a replica periodically advertises its
//! state vector, answers an incoming state vector with a delta, and merges
//! an incoming delta. Duplicate or dropped messages are harmless: merging
//! is idempotent and advertisements repeat. The transport that carries the
//! messages, and the clock that fires the timers, live outside the
//! library; this module makes the decisions.

use vstd::prelude::*;

verus! {

use crate::shelf::{Shelf, wf_shelf, spec_secure_merge};
use crate::state_vector::{StateVector, wf_sv, spec_state_delta, spec_state_vector};

/// One wire message of the protocol.
#[derive(Debug)]
pub enum Payload {
    /// A replica's advertisement of what it already knows.
    StateVector(StateVector),
    /// The least update that advances the recipient.
    Delta(Shelf),
    /// An explicit shutdown.
    Terminate,
}

/// Whether the shelf or state vector a payload carries is well-formed.
pub open spec fn wf_payload(p: Payload) -> bool {
    match p {
        Payload::StateVector(sv) => wf_sv(sv),
        Payload::Delta(d) => wf_shelf(d),
        Payload::Terminate => true,
    }
}

/// What a replica does with one incoming message: the shelf it holds
/// afterwards, the delta it sends back to the sender if one is owed, and
/// whether it shuts down.
///
/// A state vector is answered with this replica's delta against it and
/// changes nothing. A delta is merged through the tamper-checking merge,
/// so a corrupted leaf never displaces honest state. A shutdown changes
/// nothing and stops the replica.
pub fn process_message(shelf: Shelf, msg: Payload) -> (r: (Shelf, Option<Shelf>, bool))
    requires
        wf_shelf(shelf),
        wf_payload(msg),
    ensures
        wf_shelf(r.0),
        match msg {
            Payload::StateVector(sv) => r.0@ == shelf@ && r.2 == false && (match r.1 {
                Some(d) => spec_state_delta(shelf@, sv@) == Some(d@) && wf_shelf(d),
                None => spec_state_delta(shelf@, sv@) is None,
            }),
            Payload::Delta(d) => r.0@ == spec_secure_merge(shelf@, d@) && r.1 is None && r.2
                == false,
            Payload::Terminate => r.0@ == shelf@ && r.1 is None && r.2 == true,
        },
{
    match msg {
        Payload::StateVector(sv) => {
            let delta = shelf.get_state_delta(&sv);
            (shelf, delta, false)
        },
        Payload::Delta(d) => {
            let merged = shelf.secure_merge(d);
            (merged, None, false)
        },
        Payload::Terminate => (shelf, None, true),
    }
}

/// The advertisement a replica broadcasts on its timer: its state vector.
pub fn advertise(shelf: &Shelf) -> (r: Payload)
    requires
        wf_shelf(*shelf),
    ensures
        r is StateVector,
        r->StateVector_0@ == spec_state_vector(shelf@),
        wf_payload(r),
{
    Payload::StateVector(shelf.get_state_vector())
}

/// What a simulated replica does on its turn.
#[derive(Clone, Copy, Debug, PartialEq, Eq, Structural)]
pub enum Action {
    /// Drain and answer the inbox.
    CheckInbox,
    /// Write a fresh entry into the own subtree.
    RandomEdit,
    /// Broadcast the state vector.
    SendUpdate,
    /// Byzantine: clobber a stored clock.
    CorruptClock,
    /// Byzantine: clobber a stored value.
    CorruptValue,
    /// Honest: check every stored leaf against its hash.
    CheckForCorruption,
    /// Shut down.
    Terminate,
}

/// A recurring action with its schedule, in milliseconds of some outside
/// clock that the caller reads.
pub struct ClientAction {
    /// How long to wait between runs.
    pub interval_ms: u64,
    /// When the action last ran.
    pub last_performed_ms: u64,
    /// What to do.
    pub action: Action,
}

impl ClientAction {
    /// A schedule that has never run.
    pub fn new(action: Action, interval_ms: u64) -> (r: Self)
        ensures
            r.action == action,
            r.interval_ms == interval_ms,
            r.last_performed_ms == 0,
    {
        ClientAction { interval_ms, last_performed_ms: 0, action }
    }

    /// Whether the action is due at the given instant: strictly more than
    /// one interval has passed since it last ran.
    pub fn should_run(&self, now_ms: u64) -> (r: bool)
        ensures
            r == (now_ms >= self.last_performed_ms && now_ms - self.last_performed_ms
                > self.interval_ms),
    {
        now_ms >= self.last_performed_ms && now_ms - self.last_performed_ms > self.interval_ms
    }

    /// Records that the action ran at the given instant.
    pub fn mark_performed(&mut self, now_ms: u64)
        ensures
            final(self).last_performed_ms == now_ms,
            final(self).interval_ms == old(self).interval_ms,
            final(self).action == old(self).action,
    {
        self.last_performed_ms = now_ms;
    }
}

} // verus!
