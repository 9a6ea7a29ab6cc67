use shelf_crdt::clock::{DotClock, LamportTimestamp, LeafClock};
use shelf_crdt::shelf::Shelf;
use shelf_crdt::value::Value;

fn dleaf(v: i64, client: u64, c: u64) -> Shelf {
    Shelf::Leaf {
        value: Value::Int(v),
        clock: LeafClock::Dot(DotClock { client_id: client, clock: c }),
    }
}

fn node(contents: Vec<(&str, Shelf)>, c: u64) -> Shelf {
    let shelves = contents
        .into_iter()
        .map(|(k, s)| (k.to_string(), s))
        .collect();
    Shelf::Node { shelves, clock: LamportTimestamp(c) }
}

fn sample_a() -> Shelf {
    node(
        vec![
            ("shared", dleaf(10, 1, 3)),
            ("mine", dleaf(1, 1, 1)),
            ("nested", node(vec![("x", dleaf(7, 1, 2))], 1)),
        ],
        0,
    )
}

fn sample_b() -> Shelf {
    node(
        vec![
            ("shared", dleaf(20, 2, 3)),
            ("yours", dleaf(2, 2, 1)),
            ("nested", node(vec![("y", dleaf(8, 2, 2))], 1)),
        ],
        0,
    )
}

fn sample_c() -> Shelf {
    node(
        vec![
            ("shared", dleaf(30, 3, 4)),
            ("theirs", dleaf(3, 3, 1)),
            ("nested", node(vec![("x", dleaf(9, 3, 5))], 1)),
        ],
        0,
    )
}

#[test]
fn merge_is_idempotent() {
    let a = sample_a();
    assert_eq!(a.clone().merge(a.clone()), a);
}

#[test]
fn merge_is_commutative() {
    let (a, b) = (sample_a(), sample_b());
    assert_eq!(a.clone().merge(b.clone()), b.merge(a));
}

#[test]
fn merge_is_associative() {
    let (a, b, c) = (sample_a(), sample_b(), sample_c());
    let left = a.clone().merge(b.clone()).merge(c.clone());
    let right = a.merge(b.merge(c));
    assert_eq!(left, right);
}

#[test]
fn delta_matches_full_merge() {
    let (a, b) = (sample_a(), sample_b());
    let sv = a.get_state_vector();
    let delta = b.clone().get_state_delta(&sv).expect("b knows more than a");
    let via_delta = a.clone().merge(delta);
    let via_full = a.merge(b);
    assert_eq!(via_delta, via_full);
}

#[test]
fn delta_applies_once() {
    let (a, b) = (sample_a(), sample_b());
    let sv = a.get_state_vector();
    let delta = b.get_state_delta(&sv).expect("b knows more than a");
    let once = a.merge(delta.clone());
    let twice = once.clone().merge(delta);
    assert_eq!(once, twice);
}

#[test]
fn merged_values_follow_the_type_order() {
    // At equal counters across clients, ranks break the tie:
    // null < bool < int < string < array.
    let mk = |v: Value, client: u64| Shelf::Leaf {
        value: v,
        clock: LeafClock::Dot(DotClock { client_id: client, clock: 5 }),
    };
    let lo = mk(Value::Bool(true), 1);
    let hi = mk(Value::Str("s".to_string()), 2);
    let winner = lo.clone().merge(hi.clone());
    assert_eq!(winner, hi.clone().merge(lo));
    if let Shelf::Leaf { value, .. } = winner {
        assert_eq!(value, Value::Str("s".to_string()));
    } else {
        panic!("expected a leaf");
    }
}
