use shelf_crdt::awareness::ClockKind;
use shelf_crdt::clock::{DotClock, LamportTimestamp, LeafClock};
use shelf_crdt::shelf::Shelf;
use shelf_crdt::state_vector::StateVector;
use shelf_crdt::value::Value;

fn clock(c: u64) -> DotClock {
    DotClock { client_id: 0, clock: c }
}

fn dot(client_id: u64, c: u64) -> LeafClock {
    LeafClock::Dot(DotClock { client_id, clock: c })
}

fn val(value: i64, c: u64) -> Shelf {
    Shelf::Leaf { value: Value::Int(value), clock: dot(0, c) }
}

fn sval(s: &str, clock: LeafClock) -> Shelf {
    Shelf::Leaf { value: Value::Str(s.to_string()), clock }
}

fn array(items: Vec<i64>, c: u64) -> Shelf {
    let arr: Vec<Value> = items.into_iter().map(Value::Int).collect();
    Shelf::Leaf { value: Value::Array(arr), clock: dot(0, c) }
}

fn shelf_map(contents: Vec<(&str, Shelf)>, c: u64) -> Shelf {
    let shelves = contents
        .into_iter()
        .map(|(k, s)| (k.to_string(), s))
        .collect();
    Shelf::Node { shelves, clock: LamportTimestamp(c) }
}

/// Sends `branch`'s delta against `main`'s state vector and merges it.
fn merge(branch: Shelf, main: Shelf) -> Shelf {
    let sv = main.get_state_vector();
    if let Some(delta) = branch.get_state_delta(&sv) {
        return main.merge(delta);
    }
    main
}

/// Checks that one delta exchange is commutative and idempotent, and
/// returns the converged shelf.
fn validate_crdt_properties(shelf: Shelf, shelf2: Shelf) -> Shelf {
    // Forwards
    let mut receiver = shelf.clone();
    let sender = shelf2.clone();
    let sv = receiver.get_state_vector();
    let delta = sender.get_state_delta(&sv);
    let cached_delta = delta.clone();
    if let Some(delta) = delta {
        receiver = receiver.merge(delta);
    }

    // Backwards
    let mut receiver_back = shelf2.clone();
    let sender_back = shelf.clone();
    let sv_back = receiver_back.get_state_vector();
    let delta_back = sender_back.get_state_delta(&sv_back);
    if let Some(delta) = delta_back {
        receiver_back = receiver_back.merge(delta);
    }

    assert_eq!(receiver, receiver_back, "not commutative");
    if let Some(delta) = cached_delta {
        receiver = receiver.merge(delta);
        assert_eq!(receiver, receiver_back, "not idempotent");
    }
    receiver
}

#[test]
fn test_init() {
    let _v = Shelf::Leaf { value: Value::Bool(true), clock: dot(0, 0) };
    let _m = Shelf::Node { shelves: Vec::new(), clock: LamportTimestamp(1) };
}

#[test]
fn test_clock() {
    let shelf = val(1, 1);
    let shelf2 = val(2, 2);
    let result = shelf.merge(shelf2);

    if let Shelf::Leaf { value, clock: c } = result {
        assert_eq!(c, LeafClock::Dot(clock(2)));
        assert_eq!(value, Value::Int(2));
    } else {
        panic!("Should be a value");
    }
}

#[test]
fn test_object_override() {
    let shelf = shelf_map(vec![("foo", val(1, 0))], 0);
    let shelf2 = val(2, 0);
    let shelf = merge(shelf, shelf2);

    if let Shelf::Node { .. } = shelf {
    } else {
        panic!("Expected map to override the integer value");
    }
}

#[test]
fn test_vec_diff() {
    let shelf = array(vec![1], 0);
    let shelf2 = array(vec![2], 2);
    let shelf = merge(shelf2, shelf);

    if let Shelf::Leaf { value: Value::Array(list), .. } = shelf {
        if let Value::Int(n) = list[0] {
            assert_eq!(n, 2);
        } else {
            panic!("not an int {:?}", list[0]);
        }
    } else {
        panic!("Didn't find list");
    }
}

#[test]
fn test_recursive_diff() {
    let shelf = shelf_map(vec![("a", val(1, 0))], 0);
    let shelf2 = shelf_map(
        vec![("b", Shelf::Leaf { value: Value::Int(2), clock: dot(1, 0) })],
        0,
    );

    let shelf = merge(shelf2, shelf);

    if let Shelf::Node { shelves, .. } = shelf {
        assert!(shelves.len() == 2);
    }
}

#[test]
fn test_get() {
    let cursor = shelf_map(
        vec![("left", sval("a", dot(0, 0))), ("right", sval("b", dot(0, 0)))],
        0,
    );
    let user = shelf_map(
        vec![
            ("mouse_position", array(vec![0, 1], 0)),
            ("cursor", cursor),
        ],
        0,
    );
    let shelf = shelf_map(vec![("user", user)], 0);

    let res = shelf
        .get("user")
        .unwrap()
        .get("cursor")
        .unwrap()
        .get("left")
        .unwrap();
    if let Shelf::Leaf { value: Value::Str(s), .. } = res {
        assert_eq!(s, "a");
    } else {
        panic!("Unexpected value {:?}", res);
    }

    assert!(shelf.get("BOOM/goes/the/path").is_none());
}

#[test]
fn test_adding_user() {
    let mut shelf1 = shelf_map(
        vec![(
            "1",
            shelf_map(vec![("mouse_position", array(vec![1, 2], 2))], 2),
        )],
        1,
    );
    let shelf2 = shelf_map(
        vec![(
            "2",
            shelf_map(
                vec![(
                    "mouse_position",
                    Shelf::Leaf {
                        value: Value::Array(vec![Value::Int(3), Value::Int(4)]),
                        clock: dot(1, 1),
                    },
                )],
                1,
            ),
        )],
        1,
    );

    let expected = shelf_map(
        vec![
            (
                "1",
                shelf_map(vec![("mouse_position", array(vec![1, 2], 2))], 2),
            ),
            (
                "2",
                shelf_map(
                    vec![(
                        "mouse_position",
                        Shelf::Leaf {
                            value: Value::Array(vec![Value::Int(3), Value::Int(4)]),
                            clock: dot(1, 1),
                        },
                    )],
                    1,
                ),
            ),
        ],
        1,
    );
    let sv = shelf1.get_state_vector();
    let diff = shelf2.get_state_delta(&sv).unwrap();
    shelf1 = shelf1.merge(diff);
    assert_eq!(shelf1, expected);
}

#[test]
fn test_empty_replacement() {
    let shelf_map_with_value = shelf_map(vec![("value", val(1, 0))], 0);
    let empty_shelf_map = shelf_map(vec![], 0);
    let shelf_with_value = val(1, 0);

    let shelves = vec![shelf_with_value, empty_shelf_map, shelf_map_with_value];
    for i in 0..shelves.len() {
        for j in (i + 1)..shelves.len() {
            let shelf1 = shelves[i].clone();
            let shelf2 = shelves[j].clone();
            let shelf2 = match shelf2 {
                Shelf::Leaf { value, clock } => {
                    let bumped = match clock {
                        LeafClock::Dot(d) => LeafClock::Dot(d.increment(1)),
                        other => other,
                    };
                    Shelf::Leaf { value, clock: bumped }
                }
                Shelf::Node { shelves, clock } => Shelf::Node {
                    shelves,
                    clock: clock.increment(),
                },
            };

            let _res = validate_crdt_properties(shelf2, shelf1);
        }
    }
}

#[test]
fn test_state_vector() {
    let cursor = shelf_map(
        vec![("left", sval("a", dot(0, 0))), ("right", sval("b", dot(0, 0)))],
        0,
    );
    let user = shelf_map(
        vec![
            ("mouse_position", array(vec![0, 1], 0)),
            ("cursor", cursor),
        ],
        0,
    );
    let shelf = shelf_map(vec![("user", user)], 0);

    let state_vector = shelf.get_state_vector();
    match state_vector {
        StateVector::Node(map, c) => {
            assert_eq!(c, LamportTimestamp(0));
            let user_sv = &map.iter().find(|(k, _)| k == "user").unwrap().1;
            match user_sv {
                StateVector::Node(map, c) => {
                    assert_eq!(*c, LamportTimestamp(0));
                    let mouse = &map.iter().find(|(k, _)| k == "mouse_position").unwrap().1;
                    match mouse {
                        StateVector::Node(_, _) => panic!("Array should not be a node"),
                        StateVector::Leaf(i) => assert_eq!(*i, LeafClock::Dot(clock(0))),
                    }

                    let cursor_sv = &map.iter().find(|(k, _)| k == "cursor").unwrap().1;
                    match cursor_sv {
                        StateVector::Node(map, c) => {
                            assert_eq!(*c, LamportTimestamp(0));
                            if let StateVector::Leaf(i) =
                                &map.iter().find(|(k, _)| k == "left").unwrap().1
                            {
                                assert_eq!(*i, LeafClock::Dot(clock(0)));
                            } else {
                                panic!("left isn't a leaf");
                            }
                            if let StateVector::Leaf(i) =
                                &map.iter().find(|(k, _)| k == "right").unwrap().1
                            {
                                assert_eq!(*i, LeafClock::Dot(clock(0)));
                            } else {
                                panic!("right isn't a leaf");
                            }
                        }
                        StateVector::Leaf(_) => panic!("Should be a cursor map"),
                    }
                }
                StateVector::Leaf(_) => panic!("User should be an object"),
            }
        }
        StateVector::Leaf(_) => panic!("Top level should be a map"),
    }
}

#[test]
fn test_delta_update() {
    let shelf1 = shelf_map(
        vec![("user1", shelf_map(vec![("username", sval("waidhoferj", dot(0, 0)))], 0))],
        0,
    );
    let mut shelf2 = shelf_map(
        vec![("user2", shelf_map(vec![("username", sval("jwaidhof", dot(1, 0)))], 0))],
        0,
    );
    let state_vec = shelf2.get_state_vector();
    let diff = shelf1.get_state_delta(&state_vec).unwrap();

    shelf2 = shelf2.merge(diff);

    let expected = shelf_map(
        vec![
            ("user1", shelf_map(vec![("username", sval("waidhoferj", dot(0, 0)))], 0)),
            ("user2", shelf_map(vec![("username", sval("jwaidhof", dot(1, 0)))], 0)),
        ],
        0,
    );
    assert_eq!(shelf2, expected);
}

#[test]
fn test_overwrite_propagates_empty_map() {
    // One entry under "k", then replaced by an empty map on replica A.
    let start = shelf_map(vec![("k", val(1, 0))], 0);
    let mut replica_a = start.clone();
    let replica_b = start.clone();

    let path = vec!["k".to_string()];
    let empty = shelf_map(vec![], 0);
    replica_a
        .set_path(&path, empty, ClockKind::Lamport)
        .unwrap();

    // After one exchange the peer sees "k" as an empty map.
    let converged = merge(replica_a.clone(), replica_b);
    let k = converged.get("k").unwrap();
    match k {
        Shelf::Node { shelves, clock } => {
            assert!(shelves.is_empty());
            assert_eq!(*clock, LamportTimestamp(1));
        }
        Shelf::Leaf { .. } => panic!("expected the empty map to win"),
    }
    // And the writer itself holds the same.
    assert_eq!(converged, replica_a);
}

#[test]
fn test_concurrent_writes_same_counter() {
    let a = shelf_map(vec![("x", sval("apple", dot(1, 5)))], 0);
    let b = shelf_map(vec![("x", sval("banana", dot(2, 5)))], 0);

    let ab = a.clone().merge(b.clone());
    let ba = b.clone().merge(a.clone());
    assert_eq!(ab, ba);
    if let Shelf::Leaf { value, clock } = ab.get("x").unwrap() {
        assert_eq!(*value, Value::Str("banana".to_string()));
        assert_eq!(*clock, dot(2, 5));
    } else {
        panic!("expected a leaf");
    }
}

#[test]
fn test_prune_discards_overtaken_children() {
    // A map at counter five whose only child sits at counter one.
    let mut m = shelf_map(vec![("old", val(7, 1))], 5);
    m.prune();
    if let Shelf::Node { shelves, clock } = &m {
        assert!(shelves.is_empty());
        assert_eq!(*clock, LamportTimestamp(5));
    } else {
        panic!("expected a map");
    }

    // Children that are newer or concurrent survive.
    let mut m2 = shelf_map(vec![("new", val(7, 9)), ("tied", val(8, 5))], 5);
    m2.prune();
    if let Shelf::Node { shelves, .. } = &m2 {
        assert_eq!(shelves.len(), 2);
    } else {
        panic!("expected a map");
    }
}

#[test]
fn test_garbage_collect_recurses() {
    let inner = shelf_map(vec![("stale", val(1, 0)), ("fresh", val(2, 9))], 4);
    let root = shelf_map(vec![("inner", inner), ("dead", val(3, 0))], 2);
    let mut gc = root;
    gc.garbage_collect();
    let inner_after = gc.get("inner").unwrap();
    if let Shelf::Node { shelves, .. } = inner_after {
        assert_eq!(shelves.len(), 1);
        assert_eq!(shelves[0].0, "fresh");
    } else {
        panic!("expected inner map to survive");
    }
    assert!(gc.get("dead").is_none());
}
