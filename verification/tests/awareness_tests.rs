use shelf_crdt::awareness::{u64_to_string, Awareness, ClockKind};
use shelf_crdt::clock::{DotClock, LamportTimestamp, LeafClock};
use shelf_crdt::codec::{Decoder, Encoder};
use shelf_crdt::protocol::{advertise, Action, ClientAction, Payload};
use shelf_crdt::shelf::{Shelf, ShelfError};
use shelf_crdt::state_vector::StateVectorContext;
use shelf_crdt::temporal::Temporal;
use shelf_crdt::traits::{Mergeable, TypeOrd};
use shelf_crdt::value::Value;

fn leaf(v: i64, client: u64, c: u64) -> Shelf {
    Shelf::Leaf { value: Value::Int(v), clock: LeafClock::Dot(DotClock { client_id: client, clock: c }) }
}

fn node(contents: Vec<(&str, Shelf)>, c: u64) -> Shelf {
    let shelves = contents
        .into_iter()
        .map(|(k, s)| (k.to_string(), s))
        .collect();
    Shelf::Node { shelves, clock: LamportTimestamp(c) }
}

#[test]
fn decimal_keys() {
    assert_eq!(u64_to_string(0), "0");
    assert_eq!(u64_to_string(7), "7");
    assert_eq!(u64_to_string(17), "17");
    assert_eq!(u64_to_string(90710), "90710");
    assert_eq!(u64_to_string(u64::MAX), format!("{}", u64::MAX));
}

#[test]
fn set_state_writes_under_own_id() {
    let mut aw = Awareness::new_for_client(17, StateVectorContext);
    assert!(aw.get_own_state().is_none());

    // The first write creates this replica's subtree.
    let old = aw.set_state(&vec![], node(vec![], 0)).unwrap();
    assert!(old.is_none());
    let own = aw.get_own_state().unwrap().clone();
    if let Shelf::Node { shelves, clock } = &own {
        assert!(shelves.is_empty());
        // Strictly above the root clock of zero.
        assert_eq!(*clock, LamportTimestamp(1));
    } else {
        panic!("expected own subtree to be a map");
    }

    // A deeper write lands under the id and bumps past what it shadows.
    let old = aw
        .set_state(&vec!["cursor".to_string()], leaf(5, 0, 0))
        .unwrap();
    assert!(old.is_none());
    let own = aw.get_own_state().unwrap();
    let cursor = own.get("cursor").unwrap();
    if let Shelf::Leaf { value, clock } = cursor {
        assert_eq!(*value, Value::Int(5));
        // Stamped as a bare counter strictly above the parent's one.
        assert_eq!(*clock, LeafClock::Lamport(LamportTimestamp(2)));
    } else {
        panic!("expected a leaf");
    }

    // Replacing it again climbs strictly.
    let old = aw
        .set_state(&vec!["cursor".to_string()], leaf(6, 0, 0))
        .unwrap()
        .unwrap();
    assert!(matches!(old, Shelf::Leaf { .. }));
    let own = aw.get_own_state().unwrap();
    if let Shelf::Leaf { clock, .. } = own.get("cursor").unwrap() {
        assert_eq!(*clock, LeafClock::Lamport(LamportTimestamp(3)));
    } else {
        panic!("expected a leaf");
    }

    assert!(aw.get_peer_state("17").is_some());
    assert!(aw.get_peer_state("18").is_none());
}

#[test]
fn set_path_reports_each_error() {
    let mut root = node(vec![("a", leaf(1, 0, 0))], 0);

    let r = root.set_path(&vec![], node(vec![], 0), ClockKind::Lamport);
    assert_eq!(r, Err(ShelfError::EmptyPath));

    let r = root.set_path(
        &vec!["missing".to_string(), "x".to_string()],
        node(vec![], 0),
        ClockKind::Lamport,
    );
    assert_eq!(r, Err(ShelfError::KeyMissing));

    let r = root.set_path(
        &vec!["a".to_string(), "x".to_string()],
        node(vec![], 0),
        ClockKind::Lamport,
    );
    assert_eq!(r, Err(ShelfError::PathTraversesValue));

    let mut value_root = leaf(1, 0, 0);
    let r = value_root.set_path(&vec!["a".to_string()], node(vec![], 0), ClockKind::Lamport);
    assert_eq!(r, Err(ShelfError::InvalidSetTarget));
}

#[test]
fn set_path_stamps_each_clock_kind() {
    let mut root = node(vec![], 4);
    root.set_path(&vec!["d".to_string()], leaf(1, 0, 0), ClockKind::Dot(9))
        .unwrap();
    if let Shelf::Leaf { clock, .. } = root.get("d").unwrap() {
        assert_eq!(*clock, LeafClock::Dot(DotClock { client_id: 9, clock: 5 }));
    } else {
        panic!("expected a leaf");
    }

    root.set_path(&vec!["s".to_string()], leaf(2, 0, 0), ClockKind::Secure)
        .unwrap();
    if let Shelf::Leaf { value, clock } = root.get("s").unwrap() {
        if let LeafClock::Secure(sc) = clock {
            assert_eq!(sc.clock, 5);
            assert!(sc.verify(value));
        } else {
            panic!("expected a secure clock");
        }
    } else {
        panic!("expected a leaf");
    }
}

#[test]
fn awareness_merge_joins_roots() {
    let mut a = Awareness::new_for_client(1, StateVectorContext);
    a.set_state(&vec![], node(vec![], 0)).unwrap();
    let mut b = Awareness::new_for_client(2, StateVectorContext);
    b.set_state(&vec![], node(vec![], 0)).unwrap();

    let delta = b.clients.clone();
    a.merge(delta);
    assert!(a.get_peer_state("1").is_some());
    assert!(a.get_peer_state("2").is_some());
}

#[test]
fn protocol_answers_state_vectors() {
    // The delta path merges through the tamper-checking merge, so the
    // replicated leaf carries a secure clock.
    let x_value = Value::Int(3);
    let x_clock = LeafClock::Secure(shelf_crdt::clock::SecureClock::new(&x_value, 2));
    let replica = node(vec![("x", Shelf::Leaf { value: x_value, clock: x_clock })], 0);
    let peer = node(vec![], 0);

    let ad = advertise(&peer);
    let sv = match ad {
        Payload::StateVector(sv) => sv,
        _ => panic!("expected a state vector"),
    };
    let (unchanged, reply, stop) =
        shelf_crdt::protocol::process_message(replica.clone(), Payload::StateVector(sv));
    assert_eq!(unchanged, replica);
    assert!(!stop);
    let delta = reply.expect("the peer is behind, a delta is owed");
    let (merged, _, _) = shelf_crdt::protocol::process_message(peer, Payload::Delta(delta));
    assert_eq!(merged, replica);
}

#[test]
fn client_action_schedule() {
    let mut act = ClientAction::new(Action::SendUpdate, 10);
    assert_eq!(act.last_performed_ms, 0);
    assert!(!act.should_run(5));
    assert!(!act.should_run(10));
    assert!(act.should_run(11));
    act.mark_performed(11);
    assert!(!act.should_run(20));
    assert!(act.should_run(22));
}

#[test]
fn encoder_decoder_round_trip() {
    let mut enc = Encoder::new();
    enc.write_u8(7);
    enc.write(&[1, 2, 3]);
    enc.write_u8(9);
    let bytes = enc.into_bytes();
    assert_eq!(bytes, vec![7, 1, 2, 3, 9]);

    let mut dec = Decoder::new(&bytes);
    assert_eq!(dec.read_u8(), 7);
    assert_eq!(dec.read(3), &[1, 2, 3]);
    assert_eq!(dec.read_u8(), 9);
}

#[test]
fn temporal_orders_and_merges() {
    let a = Temporal::LamportTS(3);
    let b = Temporal::LamportTS(5);
    assert_eq!(a.partial_cmp_temporal(&b), Some(std::cmp::Ordering::Less));
    if let Temporal::LamportTS(x) = a.merge(b) {
        assert_eq!(x, 5);
    } else {
        panic!("expected a counter");
    }

    let vc = |pairs: Vec<(&str, u32)>, me: &str| Temporal::VectorClock {
        clocks: pairs.into_iter().map(|(k, v)| (k.to_string(), v)).collect(),
        user_id: me.to_string(),
    };
    // One-sided lead on a shared key decides.
    let x = vc(vec![("a", 2), ("b", 1)], "a");
    let y = vc(vec![("a", 1), ("b", 1)], "b");
    assert_eq!(x.partial_cmp_temporal(&y), Some(std::cmp::Ordering::Greater));
    assert_eq!(y.partial_cmp_temporal(&x), Some(std::cmp::Ordering::Less));
    // Opposite leads are concurrent.
    let z = vc(vec![("a", 1), ("b", 2)], "b");
    assert_eq!(x.partial_cmp_temporal(&z), None);
    // No shared key: concurrent.
    let w = vc(vec![("c", 9)], "c");
    assert_eq!(x.partial_cmp_temporal(&w), None);
    // All shared keys agree: equal.
    let y2 = vc(vec![("a", 2), ("b", 1), ("c", 7)], "b");
    assert_eq!(x.partial_cmp_temporal(&y2), Some(std::cmp::Ordering::Equal));

    // Merge takes the entry-wise maximum over the union.
    let m = x.merge(z);
    if let Temporal::VectorClock { clocks, user_id } = m {
        assert_eq!(user_id, "a");
        let get = |k: &str| clocks.iter().find(|(kk, _)| kk == k).unwrap().1;
        assert_eq!(get("a"), 2);
        assert_eq!(get("b"), 2);
    } else {
        panic!("expected a vector clock");
    }

    // Increment ticks the owner's entry.
    let mut t = vc(vec![("a", 2)], "a");
    t.increment();
    if let Temporal::VectorClock { clocks, .. } = t {
        assert_eq!(clocks[0].1, 3);
    } else {
        panic!("expected a vector clock");
    }
}

#[test]
fn small_trait_impls() {
    assert_eq!(3usize.merge(5usize), 5);
    assert_eq!(9usize.merge(5usize), 9);
    assert_eq!(
        Value::Null.type_cmp(&Value::Bool(false)),
        std::cmp::Ordering::Less
    );
    assert_eq!(
        Value::Str("z".to_string()).type_cmp(&Value::Str("a".to_string())),
        std::cmp::Ordering::Equal
    );
    assert_eq!(
        Value::Array(vec![]).type_cmp(&Value::Int(3)),
        std::cmp::Ordering::Greater
    );
}

#[test]
fn get_path_descends() {
    let inner = node(vec![("leaf", leaf(5, 0, 1))], 0);
    let root = node(vec![("inner", inner)], 0);
    let found = root.get_path(&["inner", "leaf"]).unwrap();
    assert!(matches!(found, Shelf::Leaf { .. }));
    assert!(root.get_path(&["inner", "nope"]).is_err());
    assert_eq!(
        root.get_path(&["inner", "leaf", "deeper"]),
        Err(ShelfError::KeyMissing)
    );
}
