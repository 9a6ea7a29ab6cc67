use shelf_crdt::clock::{
    DotClock, DotClockGenerator, LamportTimestamp, LamportTimestampGenerator, SecureClock,
};
use shelf_crdt::value::Value;

#[test]
fn test_secure_clock() {
    // Basic equality
    assert_eq!(
        SecureClock::new(&Value::Int(1), 5),
        SecureClock::new(&Value::Int(1), 5)
    );

    // Gt/lt clock
    // Same val
    assert!(SecureClock::new(&Value::Int(1), 6) > SecureClock::new(&Value::Int(1), 5));
    assert!(SecureClock::new(&Value::Int(1), 5) < SecureClock::new(&Value::Int(1), 6));
    // Different val
    assert!(SecureClock::new(&Value::Int(2), 6) > SecureClock::new(&Value::Int(1), 5));
    assert!(SecureClock::new(&Value::Int(2), 5) < SecureClock::new(&Value::Int(1), 6));

    // Inequality with different content
    assert_ne!(
        SecureClock::new(&Value::Int(2), 6),
        SecureClock::new(&Value::Int(1), 6)
    );
}

#[test]
fn lamport_increment_strictly_grows() {
    let mut c = LamportTimestamp(0);
    for expected in 1..50u64 {
        let next = c.increment();
        assert!(next > c);
        assert_eq!(next.0, expected);
        c = next;
    }
}

#[test]
fn lamport_generator_chain() {
    let mut g = LamportTimestampGenerator;
    let c0 = g.new_clock();
    assert_eq!(c0, LamportTimestamp(0));
    let c1 = g.next_clock(c0);
    let c2 = g.next_clock(c1);
    assert!(c0 < c1 && c1 < c2);
}

#[test]
fn dot_clock_orders_by_counter_and_client() {
    let a = DotClock::new(0);
    let b = DotClock::new(1);
    // Equal counters of different clients are concurrent.
    assert_eq!(a.partial_cmp(&b), None);
    // Equal counters of the same client are equal.
    assert_eq!(a.partial_cmp(&DotClock::new(0)), Some(std::cmp::Ordering::Equal));
    // A higher counter wins regardless of client.
    let a2 = a.increment(7);
    assert_eq!(a2.client_id, 7);
    assert_eq!(a2.clock, 1);
    assert!(a2 > b);
}

#[test]
fn dot_generator_chain() {
    let mut g = DotClockGenerator::new(3);
    let c0 = g.new_clock();
    assert_eq!(c0, DotClock { client_id: 3, clock: 0 });
    let c1 = g.next_clock(c0);
    assert!(c1 > c0);
    assert_eq!(c1, DotClock { client_id: 3, clock: 1 });
}

#[test]
fn secure_next_verifies_and_grows() {
    let v = Value::Str("hello".to_string());
    let c0 = SecureClock::new(&v, 0);
    assert!(c0.verify(&v));
    let c1 = c0.next(&v);
    assert!(c1 > c0);
    assert!(c1.verify(&v));
    assert!(!c1.verify(&Value::Str("hellp".to_string())));
}

#[test]
fn secure_clock_detects_bit_flips() {
    let v = Value::Int(0x1234);
    let c = SecureClock::new(&v, 9);
    assert!(c.verify(&v));
    // Flip each low bit of the value in turn.
    for bit in 0..16 {
        let flipped = Value::Int(0x1234 ^ (1 << bit));
        assert!(!c.verify(&flipped), "bit {} undetected", bit);
    }
    // Tamper with the counter.
    let shifted = SecureClock { clock: 10, hash: c.hash };
    assert!(!shifted.verify(&v));
    // Tamper with the hash.
    for bit in 0..16 {
        let corrupt = SecureClock { clock: c.clock, hash: c.hash ^ (1 << bit) };
        assert!(!corrupt.verify(&v), "hash bit {} undetected", bit);
    }
}
