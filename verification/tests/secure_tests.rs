use shelf_crdt::clock::{LamportTimestamp, LeafClock, SecureClock};
use shelf_crdt::protocol::{process_message, Payload};
use shelf_crdt::shelf::Shelf;
use shelf_crdt::value::Value;

fn sleaf(value: Value) -> Shelf {
    let clock = LeafClock::Secure(SecureClock::new(&value, 0));
    Shelf::Leaf { value, clock }
}

fn smap(contents: Vec<(&str, Shelf)>, c: u64) -> Shelf {
    let shelves = contents
        .into_iter()
        .map(|(k, s)| (k.to_string(), s))
        .collect();
    Shelf::Node { shelves, clock: LamportTimestamp(c) }
}

#[test]
fn test_secure_shelf() {
    // Verify basic merge
    let first = smap(vec![("val1", sleaf(Value::Str("foo".to_string())))], 0);
    let second = smap(vec![("val2", sleaf(Value::Str("bar".to_string())))], 0);
    let together = first.merge(second);
    let expected = smap(
        vec![
            ("val1", sleaf(Value::Str("foo".to_string()))),
            ("val2", sleaf(Value::Str("bar".to_string()))),
        ],
        0,
    );
    assert_eq!(together, expected);

    // Verify that false elements aren't merged
    let first = sleaf(Value::Int(1));
    let second = sleaf(Value::Int(2));
    assert_eq!(first.secure_merge(second.clone()), second.clone());

    // Clocks don't match
    let hash_at_one = SecureClock::new(&Value::Int(1), 1).hash;
    let clock = SecureClock { clock: 2, hash: hash_at_one };
    let first = Shelf::Leaf { value: Value::Int(1), clock: LeafClock::Secure(clock) };
    assert_eq!(second.clone().secure_merge(first), second.clone());

    // Contents don't match
    let clock = SecureClock { clock: 1, hash: hash_at_one };
    let first = Shelf::Leaf { value: Value::Int(5), clock: LeafClock::Secure(clock) };
    assert_eq!(second.clone().secure_merge(first), second.clone());

    // Recursive map verification. Don't merge map unless children are actually valid.
    let first = smap(vec![("val1", sleaf(Value::Str("foo".to_string())))], 0);
    let clock = SecureClock { clock: 2, hash: hash_at_one };
    let inner = Shelf::Leaf { value: Value::Int(1), clock: LeafClock::Secure(clock) };
    let second = smap(vec![("inner", inner)], 0);
    let result = first.clone().secure_merge(second);
    assert_eq!(first, result);
}

/// A tiny deterministic generator for the simulation below.
struct Lcg(u64);

impl Lcg {
    fn next(&mut self) -> u64 {
        self.0 = self
            .0
            .wrapping_mul(6364136223846793005)
            .wrapping_add(1442695040888963407);
        self.0 >> 16
    }
}

/// Ten replicas, four of them corrupting hashes, exchanging deltas for a
/// bounded number of rounds: every honest replica's shelf still verifies
/// in full at the end, and the honest replicas agree.
#[test]
fn byzantine_rounds_converge() {
    let n = 10usize;
    let byzantine = 4usize;
    let rounds = 6usize;
    let mut rng = Lcg(42);

    let mut shelves: Vec<Shelf> = (0..n).map(|_| smap(vec![], 0)).collect();

    for round in 0..rounds {
        // Every replica writes one entry into its own shelf.
        for id in 0..n {
            let key = format!("r{}k{}", id, round);
            let value = Value::Int(rng.next() as i64 % 1000);
            let leaf = if id < byzantine {
                // A corrupted leaf: the hash does not match the value.
                let bogus = SecureClock { clock: round as u64, hash: rng.next() };
                Shelf::Leaf { value, clock: LeafClock::Secure(bogus) }
            } else {
                let clock = LeafClock::Secure(SecureClock::new(&value, round as u64));
                Shelf::Leaf { value, clock }
            };
            if let Shelf::Node { shelves: entries, .. } = &mut shelves[id] {
                entries.push((key, leaf));
            }
        }
        // Every replica advertises; every peer answers with a delta, which
        // is merged through the tamper-checking path.
        for sender in 0..n {
            for receiver in 0..n {
                if sender == receiver {
                    continue;
                }
                let sv = shelves[receiver].get_state_vector();
                if let Some(delta) = shelves[sender].get_state_delta(&sv) {
                    let taken = std::mem::replace(&mut shelves[receiver], smap(vec![], 0));
                    let (merged, reply, stop) = process_message(taken, Payload::Delta(delta));
                    assert!(reply.is_none() && !stop);
                    shelves[receiver] = merged;
                }
            }
        }
    }

    for id in byzantine..n {
        assert!(shelves[id].verify_contents(), "honest replica {} corrupted", id);
    }
    // The honest replicas converge on the verified entries.
    for id in (byzantine + 1)..n {
        let honest_entries = |s: &Shelf| -> usize {
            if let Shelf::Node { shelves, .. } = s {
                shelves.len()
            } else {
                0
            }
        };
        assert_eq!(honest_entries(&shelves[id]), honest_entries(&shelves[byzantine]));
    }
    // A terminate message stops a replica without touching its state.
    let before = shelves[n - 1].clone();
    let taken = std::mem::replace(&mut shelves[n - 1], smap(vec![], 0));
    let (after, reply, stop) = process_message(taken, Payload::Terminate);
    assert!(stop && reply.is_none());
    assert_eq!(after, before);
}
