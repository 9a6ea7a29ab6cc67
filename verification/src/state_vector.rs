//! State vectors and deltas: a state vector mirrors a shelf's shape with
//! clocks only, and a delta is the smallest sub-tree of a sender that can
//! advance a receiver holding a given state vector.

use vstd::prelude::*;

verus! {

use core::cmp::Ordering;
use crate::clock::{LamportTimestamp, LeafClock, ShelfClock, spec_cmp_clock, cmp_clock};
use crate::shelf::{Shelf, ShelfView, view_of_entries, view_of_shelf, entries_unique, wf_shelf,
    lemma_view_entries_dom, lemma_view_entries_at, lemma_view_entries_push, lemma_wf_shelf_view,
    str_eq};

/// A shelf's shape with the values stripped: clocks only.
#[derive(Debug)]
pub enum StateVector {
    Node(Vec<(String, StateVector)>, LamportTimestamp),
    Leaf(LeafClock),
}

/// The mathematical shape of a [`StateVector`].
#[verifier::ext_equal]
pub enum StateVectorView {
    Node(Map<Seq<char>, StateVectorView>, u64),
    Leaf(LeafClock),
}

pub open spec fn sv_view_of_entries(es: Seq<(String, StateVector)>) -> Map<
    Seq<char>,
    StateVectorView,
>
    decreases es,
{
    if es.len() == 0 {
        Map::empty()
    } else {
        sv_view_of_entries(es.drop_last()).insert(es.last().0@, view_of_sv(es.last().1))
    }
}

pub open spec fn view_of_sv(sv: StateVector) -> StateVectorView
    decreases sv,
{
    match sv {
        StateVector::Node(es, clock) => StateVectorView::Node(sv_view_of_entries(es@), clock.0),
        StateVector::Leaf(clock) => StateVectorView::Leaf(clock),
    }
}

impl View for StateVector {
    type V = StateVectorView;

    open spec fn view(&self) -> StateVectorView {
        view_of_sv(*self)
    }
}

pub open spec fn sv_entries_unique(es: Seq<(String, StateVector)>) -> bool {
    forall|i: int, j: int| 0 <= i < j < es.len() ==> es[i].0@ != es[j].0@
}

/// A well-formed state vector: at every node the keys are distinct.
pub open spec fn wf_sv(sv: StateVector) -> bool
    decreases sv,
{
    match sv {
        StateVector::Leaf(_) => true,
        StateVector::Node(es, _) => sv_entries_unique(es@) && (forall|i: int|
            0 <= i < es@.len() ==> wf_sv(#[trigger] es@[i].1)),
    }
}

impl StateVectorView {
    /// The clock at the root of this state vector.
    pub open spec fn node_clock(self) -> ShelfClock {
        match self {
            StateVectorView::Node(_, clock) => ShelfClock::MapClock(LamportTimestamp(clock)),
            StateVectorView::Leaf(clock) => ShelfClock::ValueClock(clock),
        }
    }
}

impl StateVector {
    /// The clock at the root of this state vector.
    pub fn get_clock(&self) -> (r: ShelfClock)
        ensures
            r == self@.node_clock(),
    {
        match self {
            StateVector::Node(_, clock) => ShelfClock::MapClock(*clock),
            StateVector::Leaf(clock) => ShelfClock::ValueClock(*clock),
        }
    }
}

/// The state vector of a shelf: the same shape, clocks only.
pub open spec fn spec_state_vector(v: ShelfView) -> StateVectorView
    decreases v,
    when v.wf()
    via spec_state_vector_dec
{
    match v {
        ShelfView::Leaf { value, clock } => StateVectorView::Leaf(clock),
        ShelfView::Node { shelves, clock } => StateVectorView::Node(
            Map::new(
                |k: Seq<char>| shelves.dom().contains(k),
                |k: Seq<char>|
                    if shelves.dom().contains(k) {
                        spec_state_vector(shelves[k])
                    } else {
                        StateVectorView::Leaf(LeafClock::Lamport(LamportTimestamp(0)))
                    },
            ),
            clock,
        ),
    }
}

/// The delta of a sender's shelf against a peer's state vector: the least
/// sub-tree that advances the peer, or nothing when the peer already knows
/// everything the sender knows.
///
/// A node sends itself wholesale when its clock is strictly greater, sends
/// nothing when it is strictly less or equal, and otherwise walks its
/// children: a child that the peer also holds contributes its recursive
/// delta; a child the peer lacks is sent wholesale unless the peer's map
/// clock has already pruned it. An empty collection means no delta.
pub open spec fn spec_state_delta(b: ShelfView, sv: StateVectorView) -> Option<ShelfView>
    decreases b, 0int,
    when b.wf()
    via spec_state_delta_dec
{
    let co = spec_cmp_clock(b.node_clock(), sv.node_clock());
    if co == Some(Ordering::Less) {
        None
    } else if co == Some(Ordering::Greater) {
        Some(b)
    } else {
        match (b, sv) {
            (ShelfView::Node { shelves, clock }, StateVectorView::Node(svm, svc)) => {
                let kept = spec_delta_kids(shelves, svm, svc);
                if kept.dom() == Set::<Seq<char>>::empty() {
                    None
                } else {
                    Some(ShelfView::Node { shelves: kept, clock })
                }
            },
            _ => {
                if co == Some(Ordering::Equal) {
                    None
                } else if b is Leaf && sv is Node {
                    None
                } else {
                    Some(b)
                }
            },
        }
    }
}

/// The children of a delta: for every child of the sender's map, what it
/// contributes against the peer's state vector, keeping only the children
/// that contribute something.
pub open spec fn spec_delta_kids(
    shelves: Map<Seq<char>, ShelfView>,
    svm: Map<Seq<char>, StateVectorView>,
    svc: u64,
) -> Map<Seq<char>, ShelfView>
    decreases shelves, 2int,
    when shelves.dom().finite() && (forall|k: Seq<char>|
        shelves.dom().contains(k) ==> (#[trigger] shelves[k]).wf())
    via spec_delta_kids_dec
{
    Map::new(
        |k: Seq<char>|
            if shelves.dom().contains(k) {
                spec_child_delta(shelves[k], k, svm, svc) is Some
            } else {
                false
            },
        |k: Seq<char>|
            if shelves.dom().contains(k) {
                spec_child_delta(shelves[k], k, svm, svc)->0
            } else {
                ShelfView::Leaf {
                    value: crate::value::ValueView::Null,
                    clock: LeafClock::Lamport(LamportTimestamp(0)),
                }
            },
    )
}

#[via_fn]
proof fn spec_delta_kids_dec(
    shelves: Map<Seq<char>, ShelfView>,
    svm: Map<Seq<char>, StateVectorView>,
    svc: u64,
) {
    assert forall|k: Seq<char>| shelves.dom().contains(k) implies decreases_to!(
        shelves => shelves[k]
    ) by {
        assert(decreases_to!(shelves => shelves[k]));
    }
}

/// What one child of a map contributes to a delta: its recursive delta
/// when the peer also holds the key, nothing when the peer's map clock has
/// already pruned it, and the whole child otherwise.
pub open spec fn spec_child_delta(
    child: ShelfView,
    k: Seq<char>,
    svm: Map<Seq<char>, StateVectorView>,
    svc: u64,
) -> Option<ShelfView>
    decreases child, 1int,
    when child.wf()
{
    if svm.dom().contains(k) {
        spec_state_delta(child, svm[k])
    } else if spec_cmp_clock(child.node_clock(), ShelfClock::MapClock(LamportTimestamp(svc)))
        == Some(Ordering::Less) {
        None
    } else {
        Some(child)
    }
}

#[via_fn]
proof fn spec_state_vector_dec(v: ShelfView) {
    match v {
        ShelfView::Node { shelves, .. } => {
            assert(decreases_to!(v => v->Node_shelves));
            let m = v->Node_shelves;
            assert forall|k: Seq<char>| m.dom().contains(k) implies decreases_to!(v => m[k]) by {
                assert(decreases_to!(m => m[k]));
            }
        },
        _ => {},
    }
}

#[via_fn]
proof fn spec_state_delta_dec(b: ShelfView, sv: StateVectorView) {
    match b {
        ShelfView::Node { shelves, .. } => {
            assert(decreases_to!(b => b->Node_shelves));
            let m = b->Node_shelves;
            assert forall|k: Seq<char>| m.dom().contains(k) implies decreases_to!(b => m[k]) by {
                assert(decreases_to!(m => m[k]));
            }
        },
        _ => {},
    }
}

/// The update-strategy marker of an awareness built on the delta
/// protocol: its writes advance state vectors rather than operations.
pub struct StateVectorContext;

pub proof fn lemma_sv_entries_dom(es: Seq<(String, StateVector)>)
    ensures
        sv_view_of_entries(es).dom().finite(),
        forall|k: Seq<char>|
            sv_view_of_entries(es).dom().contains(k) <==> exists|i: int|
                0 <= i < es.len() && (#[trigger] es[i]).0@ == k,
    decreases es,
{
    if es.len() > 0 {
        lemma_sv_entries_dom(es.drop_last());
        assert forall|k: Seq<char>| sv_view_of_entries(es).dom().contains(k) implies exists|i: int|
            0 <= i < es.len() && (#[trigger] es[i]).0@ == k by {
            if k == es.last().0@ {
                assert(es[es.len() - 1].0@ == k);
            } else {
                let i = choose|i: int|
                    0 <= i < es.drop_last().len() && (#[trigger] es.drop_last()[i]).0@ == k;
                assert(es[i].0@ == k);
            }
        }
        assert forall|k: Seq<char>|
            (exists|i: int| 0 <= i < es.len() && (#[trigger] es[i]).0@ == k)
            implies sv_view_of_entries(es).dom().contains(k) by {
            let i = choose|i: int| 0 <= i < es.len() && (#[trigger] es[i]).0@ == k;
            if i < es.len() - 1 {
                assert(es.drop_last()[i].0@ == k);
            }
        }
    }
}

pub proof fn lemma_sv_entries_at(es: Seq<(String, StateVector)>, i: int)
    requires
        sv_entries_unique(es),
        0 <= i < es.len(),
    ensures
        sv_view_of_entries(es)[es[i].0@] == view_of_sv(es[i].1),
    decreases es,
{
    if i < es.len() - 1 {
        assert(sv_entries_unique(es.drop_last())) by {
            assert(forall|x: int, y: int|
                0 <= x < y < es.drop_last().len() ==> es.drop_last()[x] == es[x]
                    && es.drop_last()[y] == es[y]);
        }
        assert(es.drop_last()[i] == es[i]);
        lemma_sv_entries_at(es.drop_last(), i);
        assert(es[i].0@ != es.last().0@);
    }
}

pub proof fn lemma_sv_entries_push(es: Seq<(String, StateVector)>, k: String, x: StateVector)
    ensures
        sv_view_of_entries(es.push((k, x))) == sv_view_of_entries(es).insert(k@, view_of_sv(x)),
{
    assert(es.push((k, x)).drop_last() =~= es);
}

impl Shelf {
    /// The state vector of this shelf: its shape with clocks only.
    pub fn get_state_vector(&self) -> (sv: StateVector)
        requires
            wf_shelf(*self),
        ensures
            sv@ == spec_state_vector(self@),
            wf_sv(sv),
        decreases self,
    {
        proof {
            lemma_wf_shelf_view(*self);
        }
        match self {
            Shelf::Leaf { clock, .. } => StateVector::Leaf(*clock),
            Shelf::Node { shelves, clock } => {
                let ghost es = shelves@;
                let ghost m0 = view_of_entries(es);
                proof {
                    lemma_view_entries_dom(es);
                }
                let mut out: Vec<(String, StateVector)> = Vec::new();
                let mut i: usize = 0;
                while i < shelves.len()
                    invariant
                        i <= es.len(),
                        *self == (Shelf::Node { shelves: *shelves, clock: *clock }),
                        es == shelves@,
                        wf_shelf(*self),
                        out@.len() == i as int,
                        forall|j: int|
                            0 <= j < i as int ==> (#[trigger] out@[j]).0 == es[j].0 && out@[j].1@
                                == spec_state_vector(view_of_shelf(es[j].1)) && wf_sv(out@[j].1),
                    decreases es.len() - i,
                {
                    proof {
                        let g: Shelf = *self;
                        assert(decreases_to!(g => g->Node_shelves));
                        assert(decreases_to!(g->Node_shelves => g->Node_shelves@));
                        assert(g->Node_shelves@ == es);
                        assert(decreases_to!(es => es[i as int]));
                        assert(decreases_to!(es[i as int] => es[i as int].1));
                        assert(decreases_to!(g => es[i as int].1));
                        assert(wf_shelf(es[i as int].1));
                    }
                    let e = &shelves[i];
                    let child_sv = e.1.get_state_vector();
                    out.push((e.0.clone(), child_sv));
                    i = i + 1;
                }
                proof {
                    lemma_sv_entries_dom(out@);
                    assert(sv_entries_unique(out@)) by {
                        assert(forall|x: int|
                            0 <= x < out@.len() ==> (#[trigger] out@[x]).0@ == es[x].0@);
                    }
                    let target = spec_state_vector(view_of_shelf(*self));
                    assert(sv_view_of_entries(out@) =~= target->Node_0) by {
                        assert forall|k: Seq<char>|
                            sv_view_of_entries(out@).dom().contains(k)
                            <==> m0.dom().contains(k) by {
                            lemma_view_entries_dom(es);
                            if exists|j: int| 0 <= j < out@.len() && (#[trigger] out@[j]).0@ == k {
                                let j = choose|j: int|
                                    0 <= j < out@.len() && (#[trigger] out@[j]).0@ == k;
                                assert(es[j].0@ == k);
                            }
                            if exists|j: int| 0 <= j < es.len() && (#[trigger] es[j]).0@ == k {
                                let j = choose|j: int|
                                    0 <= j < es.len() && (#[trigger] es[j]).0@ == k;
                                assert(out@[j].0@ == k);
                            }
                        }
                        assert forall|k: Seq<char>|
                            sv_view_of_entries(out@).dom().contains(k) implies sv_view_of_entries(
                            out@,
                        )[k] == target->Node_0[k] by {
                            let j = choose|j: int|
                                0 <= j < out@.len() && (#[trigger] out@[j]).0@ == k;
                            lemma_sv_entries_at(out@, j);
                            lemma_view_entries_at(es, j);
                        }
                    }
                }
                StateVector::Node(out, *clock)
            },
        }
    }
}

/// The position of the entry holding `key`, if one exists.
fn find_sv_key(es: &Vec<(String, StateVector)>, key: &str) -> (r: Option<usize>)
    ensures
        match r {
            Some(i) => i < es@.len() && es@[i as int].0@ == key@,
            None => forall|i: int| 0 <= i < es@.len() ==> (#[trigger] es@[i]).0@ != key@,
        },
{
    let mut i: usize = 0;
    while i < es.len()
        invariant
            i <= es@.len(),
            forall|j: int| 0 <= j < i as int ==> (#[trigger] es@[j]).0@ != key@,
        decreases es@.len() - i,
    {
        if str_eq(es[i].0.as_str(), key) {
            return Some(i);
        }
        i = i + 1;
    }
    None
}

/// The contribution of one child to a delta, against the peer's child
/// state vectors and map clock.
fn child_delta_exec(
    child: &Shelf,
    key: &String,
    svs: &Vec<(String, StateVector)>,
    svclock: LamportTimestamp,
) -> (r: Option<Shelf>)
    requires
        wf_shelf(*child),
        sv_entries_unique(svs@),
        forall|j: int| 0 <= j < svs@.len() ==> wf_sv(#[trigger] svs@[j].1),
    ensures
        match r {
            Some(d) => spec_child_delta(child@, key@, sv_view_of_entries(svs@), svclock.0)
                == Some(d@) && wf_shelf(d),
            None => spec_child_delta(child@, key@, sv_view_of_entries(svs@), svclock.0) is None,
        },
    decreases child, 1int,
{
    proof {
        lemma_wf_shelf_view(*child);
        lemma_sv_entries_dom(svs@);
    }
    match find_sv_key(svs, key.as_str()) {
        Some(j) => {
            let f = &svs[j];
            proof {
                assert(*f == svs@[j as int]);
                lemma_sv_entries_at(svs@, j as int);
            }
            child.get_state_delta(&f.1)
        },
        None => {
            let ccmp = cmp_clock(&child.get_clock(), &ShelfClock::MapClock(svclock));
            if matches!(ccmp, Some(Ordering::Less)) {
                None
            } else {
                Some(child.clone())
            }
        },
    }
}

impl Shelf {
    /// The delta of this shelf against a peer's state vector: the least
    /// sub-tree that advances the peer, or nothing when the peer already
    /// knows everything this shelf knows.
    #[verifier::rlimit(50)]
    pub fn get_state_delta(&self, sv: &StateVector) -> (r: Option<Shelf>)
        requires
            wf_shelf(*self),
            wf_sv(*sv),
        ensures
            match r {
                Some(d) => spec_state_delta(self@, sv@) == Some(d@) && wf_shelf(d),
                None => spec_state_delta(self@, sv@) is None,
            },
        decreases self, 0int,
    {
        proof {
            lemma_wf_shelf_view(*self);
        }
        let co = cmp_clock(&self.get_clock(), &sv.get_clock());
        if matches!(co, Some(Ordering::Less)) {
            return None;
        }
        if matches!(co, Some(Ordering::Greater)) {
            return Some(self.clone());
        }
        match (self, sv) {
            (Shelf::Node { shelves, clock }, StateVector::Node(svs, svclock)) => {
                let ghost es = shelves@;
                let ghost m0 = view_of_entries(es);
                let ghost svm = sv_view_of_entries(svs@);
                let ghost svc = svclock.0;
                proof {
                    lemma_view_entries_dom(es);
                    lemma_sv_entries_dom(svs@);
                }
                let mut out: Vec<(String, Shelf)> = Vec::new();
                let mut i: usize = 0;
                while i < shelves.len()
                    invariant
                        i <= es.len(),
                        *self == (Shelf::Node { shelves: *shelves, clock: *clock }),
                        *sv == StateVector::Node(*svs, *svclock),
                        es == shelves@,
                        m0 == view_of_entries(es),
                        svm == sv_view_of_entries(svs@),
                        svc == svclock.0,
                        wf_shelf(*self),
                        wf_sv(*sv),
                        forall|x: int|
                            0 <= x < out@.len() ==> exists|j: int|
                                0 <= j < i as int && (#[trigger] out@[x]).0@ == es[j].0@,
                        forall|x: int|
                            0 <= x < out@.len() ==> m0.dom().contains((#[trigger] out@[x]).0@)
                                && spec_child_delta(m0[out@[x].0@], out@[x].0@, svm, svc) == Some(
                                out@[x].1@,
                            ) && wf_shelf(out@[x].1),
                        forall|j: int|
                            0 <= j < i as int && spec_child_delta(
                                m0[(#[trigger] es[j]).0@],
                                es[j].0@,
                                svm,
                                svc,
                            ) is Some ==> exists|x: int|
                                0 <= x < out@.len() && (#[trigger] out@[x]).0@ == es[j].0@,
                        entries_unique(out@),
                    decreases es.len() - i,
                {
                    let e = &shelves[i];
                    let ghost k = e.0@;
                    proof {
                        assert(*e == es[i as int]);
                        assert(k == es[i as int].0@);
                        assert(entries_unique(es));
                        let g: Shelf = *self;
                        assert(decreases_to!(g => g->Node_shelves));
                        assert(decreases_to!(g->Node_shelves => g->Node_shelves@));
                        assert(g->Node_shelves@ == es);
                        assert(decreases_to!(es => es[i as int]));
                        assert(decreases_to!(es[i as int] => es[i as int].1));
                        assert(decreases_to!(g => es[i as int].1));
                        assert(wf_shelf(es[i as int].1));
                        lemma_view_entries_at(es, i as int);
                        assert(m0[k] == view_of_shelf(es[i as int].1));
                        lemma_wf_shelf_view(es[i as int].1);
                        lemma_view_entries_dom(es);
                    }
                    let child_delta: Option<Shelf> = child_delta_exec(
                        &e.1,
                        &e.0,
                        svs,
                        *svclock,
                    );
                    proof {
                        assert(match child_delta {
                            Some(d) => spec_child_delta(m0[k], k, svm, svc) == Some(d@)
                                && wf_shelf(d),
                            None => spec_child_delta(m0[k], k, svm, svc) is None,
                        });
                    }
                    match child_delta {
                        Some(d) => {
                            let ghost outpre = out@;
                            proof {
                                assert(forall|x: int|
                                    0 <= x < outpre.len() ==> (#[trigger] outpre[x]).0@ != k);
                            }
                            out.push((e.0.clone(), d));
                            proof {
                                assert(forall|x: int|
                                    0 <= x < outpre.len() ==> out@[x] == outpre[x]);
                                assert(out@[out@.len() - 1].0@ == k);
                                assert(out@[out@.len() - 1].0@ == es[i as int].0@);
                            }
                        },
                        None => {},
                    }
                    i = i + 1;
                }
                proof {
                    lemma_view_entries_dom(out@);
                }
                let ghost kept = spec_delta_kids(m0, svm, svc);
                if out.len() == 0 {
                    proof {
                        assert(kept.dom() =~= Set::<Seq<char>>::empty()) by {
                            assert forall|k: Seq<char>| !kept.dom().contains(k) by {
                                if m0.dom().contains(k) && spec_child_delta(
                                    m0[k],
                                    k,
                                    svm,
                                    svc,
                                ) is Some {
                                    let j = choose|j: int|
                                        0 <= j < es.len() && (#[trigger] es[j]).0@ == k;
                                }
                            }
                        }
                    }
                    None
                } else {
                    proof {
                        assert(view_of_entries(out@) =~= kept) by {
                            assert forall|k: Seq<char>|
                                view_of_entries(out@).dom().contains(k) <==> kept.dom().contains(
                                k,
                            ) by {
                                if view_of_entries(out@).dom().contains(k) {
                                    let x = choose|x: int|
                                        0 <= x < out@.len() && (#[trigger] out@[x]).0@ == k;
                                }
                                if m0.dom().contains(k) && spec_child_delta(
                                    m0[k],
                                    k,
                                    svm,
                                    svc,
                                ) is Some {
                                    let j = choose|j: int|
                                        0 <= j < es.len() && (#[trigger] es[j]).0@ == k;
                                    assert(exists|x: int|
                                        0 <= x < out@.len() && (#[trigger] out@[x]).0@ == k);
                                }
                            }
                            assert forall|k: Seq<char>|
                                view_of_entries(out@).dom().contains(k) implies view_of_entries(
                                out@,
                            )[k] == kept[k] by {
                                let x = choose|x: int|
                                    0 <= x < out@.len() && (#[trigger] out@[x]).0@ == k;
                                lemma_view_entries_at(out@, x);
                            }
                        }
                        assert(kept.dom().contains(out@[0].0@));
                        assert(kept.dom() != Set::<Seq<char>>::empty());
                        assert(spec_state_delta(self@, sv@) == Some(
                            ShelfView::Node { shelves: kept, clock: clock.0 },
                        ));
                        assert(forall|j: int|
                            0 <= j < out@.len() ==> wf_shelf(#[trigger] out@[j].1));
                    }
                    Some(Shelf::Node { shelves: out, clock: *clock })
                }
            },
            (Shelf::Node { .. }, StateVector::Leaf(_)) => {
                if matches!(co, Some(Ordering::Equal)) {
                    None
                } else {
                    Some(self.clone())
                }
            },
            (Shelf::Leaf { .. }, StateVector::Node(..)) => None,
            (Shelf::Leaf { .. }, StateVector::Leaf(_)) => {
                if matches!(co, Some(Ordering::Equal)) {
                    None
                } else {
                    Some(self.clone())
                }
            },
        }
    }
}

} // verus!
