//! The awareness layer: a root map keyed by replica identity, mediating
//! every local write so that the written clock strictly exceeds the parent
//! clock, the clock of any entry it replaces, and the clocks of that
//! entry's children. This strict monotonicity is what makes an overwrite,
//! including replacing a value with an empty map, propagate to every peer.

use vstd::prelude::*;

verus! {

use crate::clock::{LamportTimestamp, DotClock, SecureClock, LeafClock, ShelfClock};
use crate::value::spec_hash_pair;
use crate::shelf::{Shelf, ShelfView, ShelfError, wf_shelf, view_of_entries, entries_unique,
    view_of_shelf, lemma_view_entries_dom, lemma_view_entries_at, lemma_view_entries_push,
    lemma_view_entries_update};
use crate::state_vector::StateVectorContext;

/// Which clock variant a write stamps onto the written shelf.
#[derive(Clone, Copy, Debug, PartialEq, Eq, Structural)]
pub enum ClockKind {
    /// A bare counter.
    Lamport,
    /// A counter stamped with the writing client.
    Dot(u64),
    /// A counter bound to the hash of the written value.
    Secure,
}

/// The character of one decimal digit.
pub open spec fn spec_digit_char(d: u64) -> char {
    if d == 0 {
        '0'
    } else if d == 1 {
        '1'
    } else if d == 2 {
        '2'
    } else if d == 3 {
        '3'
    } else if d == 4 {
        '4'
    } else if d == 5 {
        '5'
    } else if d == 6 {
        '6'
    } else if d == 7 {
        '7'
    } else if d == 8 {
        '8'
    } else {
        '9'
    }
}

/// The decimal digits of a number, most significant first.
pub open spec fn spec_u64_chars(n: u64) -> Seq<char>
    decreases n,
{
    if n < 10 {
        seq![spec_digit_char(n)]
    } else {
        spec_u64_chars(n / 10).push(spec_digit_char(n % 10))
    }
}

fn digit_str(d: u64) -> (s: &'static str)
    requires
        d < 10,
    ensures
        s@ =~= seq![spec_digit_char(d)],
{
    proof {
        reveal_strlit("0");
        reveal_strlit("1");
        reveal_strlit("2");
        reveal_strlit("3");
        reveal_strlit("4");
        reveal_strlit("5");
        reveal_strlit("6");
        reveal_strlit("7");
        reveal_strlit("8");
        reveal_strlit("9");
    }
    if d == 0 {
        "0"
    } else if d == 1 {
        "1"
    } else if d == 2 {
        "2"
    } else if d == 3 {
        "3"
    } else if d == 4 {
        "4"
    } else if d == 5 {
        "5"
    } else if d == 6 {
        "6"
    } else if d == 7 {
        "7"
    } else if d == 8 {
        "8"
    } else {
        "9"
    }
}

/// The decimal form of a number; replica identifiers key the root map in
/// this form.
pub fn u64_to_string(n: u64) -> (s: String)
    ensures
        s@ == spec_u64_chars(n),
    decreases n,
{
    if n < 10 {
        String::from_str(digit_str(n))
    } else {
        let mut s = u64_to_string(n / 10);
        s.append(digit_str(n % 10));
        proof {
            assert(spec_u64_chars(n / 10) + seq![spec_digit_char(n % 10)] =~= spec_u64_chars(n));
        }
        s
    }
}

/// The logical counter at the root of a shape.
pub open spec fn spec_logical(v: ShelfView) -> u64 {
    v.node_clock().spec_logical()
}

/// The written shelf with its root restamped at the new timestamp: a leaf
/// takes a clock of the chosen variant, a map takes the bare counter.
pub open spec fn spec_stamped(content: ShelfView, ts: u64, kind: ClockKind) -> ShelfView {
    match content {
        ShelfView::Leaf { value, .. } => ShelfView::Leaf {
            value,
            clock: match kind {
                ClockKind::Lamport => LeafClock::Lamport(LamportTimestamp(ts)),
                ClockKind::Dot(cid) => LeafClock::Dot(DotClock { client_id: cid, clock: ts }),
                ClockKind::Secure => LeafClock::Secure(
                    SecureClock { clock: ts, hash: spec_hash_pair(ts, value) },
                ),
            },
        },
        ShelfView::Node { shelves, .. } => ShelfView::Node { shelves, clock: ts },
    }
}

/// A valid write timestamp at key `k` of a map with children `m` and clock
/// `c`: strictly above the map clock, above the entry it replaces, and
/// above every child of that entry — and exactly one more than the
/// greatest of those, so the write is as small as monotonicity allows.
pub open spec fn spec_ts_valid(m: Map<Seq<char>, ShelfView>, c: u64, k: Seq<char>, ts: u64) -> bool {
    &&& ts > c
    &&& (m.dom().contains(k) ==> ts > spec_logical(m[k]))
    &&& (m.dom().contains(k) && m[k] is Node ==> forall|j: Seq<char>|
        m[k]->Node_shelves.dom().contains(j) ==> ts > spec_logical(
            #[trigger] m[k]->Node_shelves[j],
        ))
    &&& (ts == c + 1 || (m.dom().contains(k) && (ts == spec_logical(m[k]) + 1 || (m[k] is Node
        && exists|j: Seq<char>| #[trigger] m[k]->Node_shelves.dom().contains(j) && ts
        == spec_logical(m[k]->Node_shelves[j]) + 1))))
}

/// Whether the counters a write at the tail of `path` must exceed leave
/// room for one more tick.
pub open spec fn spec_ts_room(m: Map<Seq<char>, ShelfView>, c: u64, k: Seq<char>) -> bool {
    &&& c < u64::MAX
    &&& (m.dom().contains(k) ==> spec_logical(m[k]) < u64::MAX)
    &&& (m.dom().contains(k) && m[k] is Node ==> forall|j: Seq<char>|
        m[k]->Node_shelves.dom().contains(j) ==> spec_logical(#[trigger] m[k]->Node_shelves[j])
            < u64::MAX)
}

/// The error a write through `path` runs into, if any.
pub open spec fn spec_set_err(v: ShelfView, path: Seq<Seq<char>>) -> Option<ShelfError>
    decreases path.len(),
{
    if path.len() == 0 {
        Some(ShelfError::EmptyPath)
    } else if v is Leaf {
        Some(ShelfError::PathTraversesValue)
    } else {
        let m = v->Node_shelves;
        let c = v->Node_clock;
        if path.len() == 1 {
            if spec_ts_room(m, c, path[0]) {
                None
            } else {
                Some(ShelfError::ClockOverflow)
            }
        } else if !m.dom().contains(path[0]) {
            Some(ShelfError::KeyMissing)
        } else {
            spec_set_err(m[path[0]], path.drop_first())
        }
    }
}

/// The timestamp a write at key `k` takes: the unique counter that is
/// valid there.
pub open spec fn spec_new_ts(m: Map<Seq<char>, ShelfView>, c: u64, k: Seq<char>) -> u64 {
    choose|ts: u64| spec_ts_valid(m, c, k, ts)
}

/// A valid write timestamp is unique: it is exactly one more than the
/// greatest counter it must exceed.
pub proof fn lemma_ts_unique(m: Map<Seq<char>, ShelfView>, c: u64, k: Seq<char>, t1: u64, t2: u64)
    requires
        spec_ts_valid(m, c, k, t1),
        spec_ts_valid(m, c, k, t2),
    ensures
        t1 == t2,
{
    assert(t2 >= t1) by {
        if t1 == c + 1 {
        } else if m.dom().contains(k) && t1 == spec_logical(m[k]) + 1 {
        } else {
            let j = choose|j: Seq<char>|
                #[trigger] m[k]->Node_shelves.dom().contains(j) && t1 == spec_logical(
                    m[k]->Node_shelves[j],
                ) + 1;
            assert(t2 > spec_logical(m[k]->Node_shelves[j]));
        }
    }
    assert(t1 >= t2) by {
        if t2 == c + 1 {
        } else if m.dom().contains(k) && t2 == spec_logical(m[k]) + 1 {
        } else {
            let j = choose|j: Seq<char>|
                #[trigger] m[k]->Node_shelves.dom().contains(j) && t2 == spec_logical(
                    m[k]->Node_shelves[j],
                ) + 1;
            assert(t1 > spec_logical(m[k]->Node_shelves[j]));
        }
    }
}

/// A successful write: the shelf after setting `content` at `path`, and
/// the entry it replaced. The new entry carries the unique fresh timestamp
/// that is valid at its parent.
pub open spec fn spec_set(
    v: ShelfView,
    path: Seq<Seq<char>>,
    content: ShelfView,
    kind: ClockKind,
) -> (ShelfView, Option<ShelfView>)
    decreases path.len(),
{
    if path.len() <= 1 {
        let m = v->Node_shelves;
        let c = v->Node_clock;
        let k = path[0];
        let ts = spec_new_ts(m, c, k);
        (
            ShelfView::Node { shelves: m.insert(k, spec_stamped(content, ts, kind)), clock: c },
            if m.dom().contains(k) {
                Some(m[k])
            } else {
                None
            },
        )
    } else {
        let m = v->Node_shelves;
        let c = v->Node_clock;
        let k = path[0];
        let inner = spec_set(m[k], path.drop_first(), content, kind);
        (ShelfView::Node { shelves: m.insert(k, inner.0), clock: c }, inner.1)
    }
}

/// Restamps the root of a written shelf at the new timestamp.
fn stamp_shelf(content: Shelf, ts: u64, kind: ClockKind) -> (r: Shelf)
    requires
        wf_shelf(content),
    ensures
        r@ == spec_stamped(content@, ts, kind),
        wf_shelf(r),
{
    match content {
        Shelf::Leaf { value, .. } => {
            let clock = match kind {
                ClockKind::Lamport => LeafClock::Lamport(LamportTimestamp(ts)),
                ClockKind::Dot(cid) => LeafClock::Dot(DotClock { client_id: cid, clock: ts }),
                ClockKind::Secure => LeafClock::Secure(SecureClock::new(&value, ts)),
            };
            Shelf::Leaf { value, clock }
        },
        Shelf::Node { shelves, .. } => Shelf::Node { shelves, clock: LamportTimestamp(ts) },
    }
}

/// The view of a replaced entry.
pub open spec fn view_opt(o: Option<Shelf>) -> Option<ShelfView> {
    match o {
        Some(s) => Some(view_of_shelf(s)),
        None => None,
    }
}

/// Writes `content` directly under `key` of a map: computes the least
/// timestamp strictly above the map clock, the replaced entry, and that
/// entry's children, stamps the content with it, and replaces or inserts.
#[verifier::rlimit(100)]
fn set_here(s: Shelf, key: &String, content: Shelf, kind: ClockKind) -> (res: (
    Shelf,
    Result<Option<Shelf>, ShelfError>,
))
    requires
        wf_shelf(s),
        wf_shelf(content),
        s@ is Node,
    ensures
        wf_shelf(res.0),
        match res.1 {
            Ok(old_entry) => spec_set_err(s@, seq![key@]) is None && res.0@ == spec_set(
                s@,
                seq![key@],
                content@,
                kind,
            ).0 && view_opt(old_entry) == spec_set(s@, seq![key@], content@, kind).1 && (
            old_entry is Some ==> wf_shelf(old_entry->0)),
            Err(e) => spec_set_err(s@, seq![key@]) == Some(e) && res.0@ == s@,
        },
{
    let ghost s0 = s;
    let ghost content0 = content;
    let ghost rem: Seq<Seq<char>> = seq![key@];
    match s {
        leaf @ Shelf::Leaf { .. } => {
            proof {
                assert(false);
            }
            (leaf, Err(ShelfError::PathTraversesValue))
        },
        Shelf::Node { shelves: mut sa, clock: ca } => {
            let ghost es0 = sa@;
            let ghost m0 = view_of_entries(es0);
            let ghost c = ca.0;
            proof {
                lemma_view_entries_dom(es0);
                assert(s0 is Node && s0->Node_shelves@ == es0 && s0->Node_clock == ca);
                assert(s0@ == (ShelfView::Node { shelves: m0, clock: c }));
            }
            let k = key;
            let ghost kv = k@;
            let found = crate::shelf::find_key(&sa, k.as_str());
            proof {
                match found {
                    Some(idx) => {
                        lemma_view_entries_at(es0, idx as int);
                        assert(m0.dom().contains(kv));
                        assert(m0[kv] == view_of_shelf(es0[idx as int].1));
                    },
                    None => {
                        assert(!m0.dom().contains(kv));
                    },
                }
            }
                // Compute the least timestamp strictly above the map
                // clock, the replaced entry, and that entry's children.
                let mut base: u64 = ca.0;
                let ghost inner: Map<Seq<char>, ShelfView> = if m0.dom().contains(kv) && m0[kv]
                    is Node {
                    m0[kv]->Node_shelves
                } else {
                    Map::empty()
                };
                match found {
                    Some(idx) => {
                        let e = &sa[idx];
                        proof {
                            assert(*e == es0[idx as int]);
                        }
                        let exl = e.1.get_clock().get_logical_clock();
                        if exl > base {
                            base = exl;
                        }
                        proof {
                            assert(base == c || base == spec_logical(m0[kv]));
                            assert(base >= c && base >= spec_logical(m0[kv]));
                        }
                        match &e.1 {
                            Shelf::Node { shelves: exs, .. } => {
                                let ghost exes = exs@;
                                proof {
                                    assert(view_of_shelf(es0[idx as int].1)->Node_shelves
                                        == view_of_entries(exes));
                                    assert(inner == view_of_entries(exes));
                                    lemma_view_entries_dom(exes);
                                    assert(wf_shelf(es0[idx as int].1));
                                }
                                let mut j: usize = 0;
                                while j < exs.len()
                                    invariant
                                        j <= exes.len(),
                                        exes == exs@,
                                        inner == view_of_entries(exes),
                                        entries_unique(exes),
                                        base == c || base == spec_logical(m0[kv]) || (exists|
                                            x: Seq<char>,
                                        |
                                            #[trigger] inner.dom().contains(x) && base
                                                == spec_logical(inner[x])),
                                        base >= c,
                                        m0.dom().contains(kv) ==> base >= spec_logical(m0[kv]),
                                        forall|x: int|
                                            0 <= x < j as int ==> base >= spec_logical(
                                                view_of_shelf((#[trigger] exes[x]).1),
                                            ),
                                    decreases exes.len() - j,
                                {
                                    let f = &exs[j];
                                    proof {
                                        assert(*f == exes[j as int]);
                                        lemma_view_entries_dom(exes);
                                        lemma_view_entries_at(exes, j as int);
                                        assert(inner.dom().contains(exes[j as int].0@));
                                        assert(inner[exes[j as int].0@] == view_of_shelf(
                                            exes[j as int].1,
                                        ));
                                    }
                                    let l = f.1.get_clock().get_logical_clock();
                                    if l > base {
                                        base = l;
                                    }
                                    j = j + 1;
                                }
                                proof {
                                    lemma_view_entries_dom(exes);
                                    assert forall|x: Seq<char>|
                                        inner.dom().contains(x) implies base >= spec_logical(
                                        #[trigger] inner[x],
                                    ) by {
                                        let xi = choose|xi: int|
                                            0 <= xi < exes.len() && (#[trigger] exes[xi]).0@ == x;
                                        lemma_view_entries_at(exes, xi);
                                    }
                                }
                            },
                            Shelf::Leaf { .. } => {
                                proof {
                                    assert(inner =~= Map::<Seq<char>, ShelfView>::empty());
                                }
                            },
                        }
                    },
                    None => {},
                }
                proof {
                    assert(base == c || (m0.dom().contains(kv) && (base == spec_logical(m0[kv])
                        || (m0[kv] is Node && exists|x: Seq<char>|
                        #[trigger] inner.dom().contains(x) && base == spec_logical(inner[x])))));
                    assert forall|x: Seq<char>| inner.dom().contains(x) implies base
                        >= spec_logical(#[trigger] inner[x]) by {}
                }
                if base == u64::MAX {
                    proof {
                        assert(!spec_ts_room(m0, c, kv));
                        assert(rem.len() == 1);
                        assert(rem[0] == kv);
                        assert(spec_set_err(s0@, rem) == Some(ShelfError::ClockOverflow));
                    }
                    return (Shelf::Node { shelves: sa, clock: ca }, Err(ShelfError::ClockOverflow));
                }
                let ts = base + 1;
                proof {
                    assert(spec_ts_valid(m0, c, kv, ts));
                    assert(spec_ts_room(m0, c, kv));
                }
                let stamped = stamp_shelf(content, ts, kind);
                let ghost stg = stamped;
                match found {
                    Some(idx) => {
                        let ghost sapre = sa@;
                        let (ks, old_entry) = sa.remove(idx);
                        let ghost ksg = ks;
                        sa.insert(idx, (ks, stamped));
                        proof {
                            assert(sapre[idx as int] == (ksg, old_entry));
                            assert(sa@ =~= sapre.update(idx as int, (ksg, stg)));
                            lemma_view_entries_update(sapre, idx as int, stg);
                            assert(entries_unique(sa@)) by {
                                assert(forall|x: int|
                                    0 <= x < sa@.len() ==> (#[trigger] sa@[x]).0@ == sapre[x].0@);
                            }
                            assert(view_of_entries(sa@) == m0.insert(kv, view_of_shelf(stg)));
                            assert(view_opt(Some(old_entry)) == Some(m0[kv]));
                            assert(rem.len() == 1 && rem[0] == kv);
                            assert(spec_set_err(s0@, rem) is None);
                            assert(spec_new_ts(m0, c, kv) == ts) by {
                                assert(spec_ts_valid(m0, c, kv, ts));
                                assert(spec_ts_valid(m0, c, kv, spec_new_ts(m0, c, kv)));
                                lemma_ts_unique(m0, c, kv, spec_new_ts(m0, c, kv), ts);
                            }
                            assert(view_of_shelf(Shelf::Node { shelves: sa, clock: ca })
                                == spec_set(s0@, rem, content0@, kind).0);
                            assert(Some(m0[kv]) == spec_set(s0@, rem, content0@, kind).1);
                        }
                        (Shelf::Node { shelves: sa, clock: ca }, Ok(Some(old_entry)))
                    },
                    None => {
                        let ghost sapre = sa@;
                        let kc = k.clone();
                        let ghost kcg = kc;
                        sa.push((kc, stamped));
                        proof {
                            assert(sa@ == sapre.push((kcg, stg)));
                            lemma_view_entries_push(sapre, kcg, stg);
                            assert(entries_unique(sa@)) by {
                                assert(forall|x: int| 0 <= x < sapre.len() ==> sa@[x] == sapre[x]);
                                assert(sa@[sa@.len() - 1].0@ == kv);
                                assert(forall|x: int|
                                    0 <= x < sapre.len() ==> (#[trigger] sapre[x]).0@ != kv);
                            }
                            assert(view_of_entries(sa@) == m0.insert(kv, view_of_shelf(stg)));
                            assert(rem.len() == 1 && rem[0] == kv);
                            assert(spec_set_err(s0@, rem) is None);
                            assert(spec_new_ts(m0, c, kv) == ts) by {
                                assert(spec_ts_valid(m0, c, kv, ts));
                                assert(spec_ts_valid(m0, c, kv, spec_new_ts(m0, c, kv)));
                                lemma_ts_unique(m0, c, kv, spec_new_ts(m0, c, kv), ts);
                            }
                            assert(view_of_shelf(Shelf::Node { shelves: sa, clock: ca })
                                == spec_set(s0@, rem, content0@, kind).0);
                            assert(Option::<ShelfView>::None == spec_set(
                                s0@,
                                rem,
                                content0@,
                                kind,
                            ).1);
                        }
                        (Shelf::Node { shelves: sa, clock: ca }, Ok(None))
                    },
                }
        },
    }
}

/// The recursive worker of a write: descends the maps along the path and
/// replaces or inserts the stamped content at the last segment.
#[verifier::rlimit(100)]
fn set_rec(s: Shelf, path: &Vec<String>, i: usize, content: Shelf, kind: ClockKind) -> (res: (
    Shelf,
    Result<Option<Shelf>, ShelfError>,
))
    requires
        wf_shelf(s),
        wf_shelf(content),
        i < path@.len(),
    ensures
        wf_shelf(res.0),
        ({
            let pv = Seq::new(path@.len(), |j: int| path@[j]@);
            match res.1 {
                Ok(old_entry) => spec_set_err(s@, pv.skip(i as int)) is None && res.0@
                    == spec_set(s@, pv.skip(i as int), content@, kind).0 && view_opt(old_entry)
                    == spec_set(s@, pv.skip(i as int), content@, kind).1 && (old_entry is Some
                    ==> wf_shelf(old_entry->0)),
                Err(e) => spec_set_err(s@, pv.skip(i as int)) == Some(e) && res.0@ == s@,
            }
        }),
    decreases path@.len() - i,
{
    let ghost pv = Seq::new(path@.len(), |j: int| path@[j]@);
    let ghost rem = pv.skip(i as int);
    let ghost s0 = s;
    let ghost content0 = content;
    proof {
        assert(rem[0] == path@[i as int]@);
        assert(rem.len() == path@.len() - i);
    }
    match s {
        leaf @ Shelf::Leaf { .. } => {
            proof {
                assert(leaf == s0);
                assert(s0@ is Leaf);
                assert(spec_set_err(s0@, rem) == Some(ShelfError::PathTraversesValue));
            }
            (leaf, Err(ShelfError::PathTraversesValue))
        },
        Shelf::Node { shelves: mut sa, clock: ca } => {
            let ghost es0 = sa@;
            let ghost m0 = view_of_entries(es0);
            let ghost c = ca.0;
            proof {
                lemma_view_entries_dom(es0);
                assert(s0 is Node && s0->Node_shelves@ == es0 && s0->Node_clock == ca);
                assert(s0@ == (ShelfView::Node { shelves: m0, clock: c }));
            }
            let k = &path[i];
            let ghost kv = k@;
            proof {
                assert(*k == path@[i as int]);
                assert(kv == path@[i as int]@);
                assert(kv == rem[0]);
            }
            let found = crate::shelf::find_key(&sa, k.as_str());
            proof {
                match found {
                    Some(idx) => {
                        lemma_view_entries_at(es0, idx as int);
                        assert(m0.dom().contains(kv));
                        assert(m0[kv] == view_of_shelf(es0[idx as int].1));
                    },
                    None => {
                        assert(!m0.dom().contains(kv));
                    },
                }
            }
            if i == path.len() - 1 {
                proof {
                    assert(rem.len() == 1);
                    assert(rem =~= seq![kv]);
                    assert(rem == seq![k@]);
                }
                let (node, r) = set_here(Shelf::Node { shelves: sa, clock: ca }, k, content, kind);
                (node, r)
            } else {
                match found {
                    None => {
                        proof {
                            assert(rem.len() > 1);
                            assert(spec_set_err(s0@, rem) == Some(ShelfError::KeyMissing));
                        }
                        (Shelf::Node { shelves: sa, clock: ca }, Err(ShelfError::KeyMissing))
                    },
                    Some(idx) => {
                        let ghost sapre = sa@;
                        let (ks, child) = sa.remove(idx);
                        let ghost ksg = ks;
                        proof {
                            assert(sapre[idx as int] == (ksg, child));
                            assert(wf_shelf(child));
                            assert(rem.drop_first() =~= pv.skip(i as int + 1));
                        }
                        let (child2, r) = set_rec(child, path, i + 1, content, kind);
                        let ghost c2g = child2;
                        sa.insert(idx, (ks, child2));
                        proof {
                            assert(sa@ =~= sapre.update(idx as int, (ksg, c2g)));
                            lemma_view_entries_update(sapre, idx as int, c2g);
                            assert(entries_unique(sa@)) by {
                                assert(forall|x: int|
                                    0 <= x < sa@.len() ==> (#[trigger] sa@[x]).0@ == sapre[x].0@);
                            }
                            assert(view_of_entries(sa@) == m0.insert(kv, view_of_shelf(c2g)));
                            assert(rem.drop_first() == pv.skip(i as int + 1));
                            match &r {
                                Ok(old_entry) => {
                                    assert(view_of_shelf(c2g) == spec_set(
                                        m0[kv],
                                        rem.drop_first(),
                                        content0@,
                                        kind,
                                    ).0);
                                    assert(view_opt(*old_entry) == spec_set(
                                        m0[kv],
                                        rem.drop_first(),
                                        content0@,
                                        kind,
                                    ).1);
                                    assert(spec_set_err(s0@, rem) is None);
                                    assert(rem.len() >= 2);
                                    assert(view_of_shelf(Shelf::Node { shelves: sa, clock: ca })
                                        == spec_set(s0@, rem, content0@, kind).0);
                                    assert(view_opt(*old_entry) == spec_set(
                                        s0@,
                                        rem,
                                        content0@,
                                        kind,
                                    ).1);
                                },
                                Err(e) => {
                                    assert(view_of_shelf(c2g) == view_of_shelf(child));
                                    assert(view_of_shelf(child) == m0[kv]);
                                    assert(m0.insert(kv, m0[kv]) =~= m0);
                                    assert(spec_set_err(s0@, rem) == Some(*e));
                                    assert(view_of_shelf(Shelf::Node { shelves: sa, clock: ca })
                                        == s0@);
                                },
                            }
                        }
                        (Shelf::Node { shelves: sa, clock: ca }, r)
                    },
                }
            }
        },
    }
}

impl Shelf {
    /// Writes `content` under `path`, stamping it with a clock of the
    /// given kind whose counter strictly exceeds the parent map's clock,
    /// the clock of any entry it replaces, and the clocks of that entry's
    /// children. Returns the replaced entry, if one was there.
    pub fn set_path(&mut self, path: &Vec<String>, content: Shelf, kind: ClockKind) -> (r: Result<
        Option<Shelf>,
        ShelfError,
    >)
        requires
            wf_shelf(*old(self)),
            wf_shelf(content),
        ensures
            wf_shelf(*final(self)),
            ({
                let pv = Seq::new(path@.len(), |j: int| path@[j]@);
                match r {
                    Ok(old_entry) => spec_set_err(old(self)@, pv) is None && final(self)@
                        == spec_set(old(self)@, pv, content@, kind).0 && view_opt(old_entry)
                        == spec_set(old(self)@, pv, content@, kind).1 && (old_entry is Some
                        ==> wf_shelf(old_entry->0)),
                    Err(e) => final(self)@ == old(self)@ && (if old(self)@ is Leaf && path@.len()
                        > 0 {
                        e == ShelfError::InvalidSetTarget
                    } else {
                        spec_set_err(old(self)@, pv) == Some(e)
                    }),
                }
            }),
    {
        let ghost pv = Seq::new(path@.len(), |j: int| path@[j]@);
        if path.len() == 0 {
            return Err(ShelfError::EmptyPath);
        }
        if !self.contains_shelves() {
            return Err(ShelfError::InvalidSetTarget);
        }
        let mut tmp = Shelf::Node { shelves: Vec::new(), clock: LamportTimestamp(0) };
        core::mem::swap(self, &mut tmp);
        proof {
            assert(pv.skip(0) =~= pv);
        }
        let (root, r) = set_rec(tmp, path, 0, content, kind);
        *self = root;
        r
    }
}

/// A replica's room: a root map keyed by replica identity, together with
/// this replica's own identifier. Every local write goes through
/// [`Awareness::set_state`], which prepends the identifier and advances
/// the clock monotonically.
pub struct Awareness {
    /// The root map, one subtree per replica.
    pub clients: Shelf,
    /// The update strategy marker carried alongside the root.
    pub update_context: StateVectorContext,
    /// This replica's identifier.
    pub client_id: u64,
}

impl Awareness {
    /// A fresh awareness for the given replica: an empty root map at
    /// counter zero.
    pub fn new_for_client(client_id: u64, update_context: StateVectorContext) -> (r: Self)
        ensures
            r.client_id == client_id,
            r.clients@ == (ShelfView::Node {
                shelves: Map::<Seq<char>, ShelfView>::empty(),
                clock: 0,
            }),
            wf_shelf(r.clients),
    {
        let clients = Shelf::Node { shelves: Vec::new(), clock: LamportTimestamp(0) };
        proof {
            assert(view_of_entries(Seq::<(String, Shelf)>::empty()) =~= Map::<
                Seq<char>,
                ShelfView,
            >::empty());
        }
        Awareness { clients, update_context, client_id }
    }

    /// The subtree of the given peer, if one is known.
    pub fn get_peer_state(&self, key: &str) -> (r: Option<&Shelf>)
        requires
            wf_shelf(self.clients),
        ensures
            match r {
                Some(s) => self.clients@ is Node && self.clients@->Node_shelves.dom().contains(
                    key@,
                ) && s@ == self.clients@->Node_shelves[key@],
                None => !(self.clients@ is Node && self.clients@->Node_shelves.dom().contains(
                    key@,
                )),
            },
    {
        self.clients.get(key)
    }

    /// This replica's own subtree, if it has written anything yet.
    pub fn get_own_state(&self) -> (r: Option<&Shelf>)
        requires
            wf_shelf(self.clients),
        ensures
            match r {
                Some(s) => self.clients@ is Node && self.clients@->Node_shelves.dom().contains(
                    spec_u64_chars(self.client_id),
                ) && s@ == self.clients@->Node_shelves[spec_u64_chars(self.client_id)],
                None => !(self.clients@ is Node && self.clients@->Node_shelves.dom().contains(
                    spec_u64_chars(self.client_id),
                )),
            },
    {
        let key = u64_to_string(self.client_id);
        self.clients.get(key.as_str())
    }

    /// Writes `value` under this replica's own subtree: the path is the
    /// replica identifier followed by the caller's segments. The write is
    /// stamped with a bare counter strictly above everything it shadows.
    pub fn set_state(&mut self, path: &Vec<String>, value: Shelf) -> (r: Result<
        Option<Shelf>,
        ShelfError,
    >)
        requires
            wf_shelf(old(self).clients),
            wf_shelf(value),
        ensures
            wf_shelf(final(self).clients),
            final(self).client_id == old(self).client_id,
            ({
                let pv = Seq::new(
                    path@.len() + 1,
                    |j: int|
                        if j == 0 {
                            spec_u64_chars(old(self).client_id)
                        } else {
                            path@[j - 1]@
                        },
                );
                match r {
                    Ok(old_entry) => spec_set_err(old(self).clients@, pv) is None
                        && final(self).clients@ == spec_set(old(self).clients@, pv, value@, ClockKind::Lamport).0
                        && view_opt(old_entry) == spec_set(
                        old(self).clients@,
                        pv,
                        value@,
                        ClockKind::Lamport,
                    ).1,
                    Err(e) => final(self).clients@ == old(self).clients@ && (if old(self).clients@ is Leaf {
                        e == ShelfError::InvalidSetTarget
                    } else {
                        spec_set_err(old(self).clients@, pv) == Some(e)
                    }),
                }
            }),
    {
        let mut full: Vec<String> = Vec::new();
        full.push(u64_to_string(self.client_id));
        let mut i: usize = 0;
        while i < path.len()
            invariant
                i <= path@.len(),
                full@.len() == i as int + 1,
                full@[0]@ == spec_u64_chars(self.client_id),
                forall|j: int| 0 <= j < i as int ==> full@[j + 1]@ == path@[j]@,
                *self == *old(self),
            decreases path@.len() - i,
        {
            full.push(path[i].clone());
            i = i + 1;
        }
        proof {
            let pv = Seq::new(
                path@.len() + 1,
                |j: int|
                    if j == 0 {
                        spec_u64_chars(old(self).client_id)
                    } else {
                        path@[j - 1]@
                    },
            );
            assert(Seq::new(full@.len(), |j: int| full@[j]@) =~= pv);
        }
        self.clients.set_path(&full, value, ClockKind::Lamport)
    }

    /// Merges a delta into the root map.
    pub fn merge(&mut self, delta: Shelf)
        requires
            wf_shelf(old(self).clients),
            wf_shelf(delta),
        ensures
            final(self).clients@ == crate::shelf::spec_merge(old(self).clients@, delta@),
            wf_shelf(final(self).clients),
            final(self).client_id == old(self).client_id,
    {
        let mut tmp = Shelf::Node { shelves: Vec::new(), clock: LamportTimestamp(0) };
        core::mem::swap(&mut self.clients, &mut tmp);
        let merged = tmp.merge(delta);
        self.clients = merged;
    }
}

} // verus!