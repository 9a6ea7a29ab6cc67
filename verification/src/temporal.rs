//! An earlier generation of the logical clock: either a bare Lamport
//! counter or a per-replica vector clock, compared entry-wise on the keys
//! the two sides share.

use vstd::prelude::*;

verus! {

use core::cmp::Ordering;
use crate::shelf::str_eq;

/// A logical timestamp: a bare counter, or a vector of counters keyed by
/// replica, owned by the replica named in it.
#[derive(Debug)]
pub enum Temporal {
    LamportTS(u32),
    VectorClock { clocks: Vec<(String, u32)>, user_id: String },
}

/// The entries of a vector clock, as a mathematical map. A later entry
/// with the same key wins; well-formed clocks have no such entries.
pub open spec fn view_of_clock_entries(es: Seq<(String, u32)>) -> Map<Seq<char>, u32>
    decreases es,
{
    if es.len() == 0 {
        Map::empty()
    } else {
        view_of_clock_entries(es.drop_last()).insert(es.last().0@, es.last().1)
    }
}

pub open spec fn clock_entries_unique(es: Seq<(String, u32)>) -> bool {
    forall|i: int, j: int| 0 <= i < j < es.len() ==> es[i].0@ != es[j].0@
}

/// A well-formed temporal clock: the keys of a vector clock are distinct.
pub open spec fn wf_temporal(t: Temporal) -> bool {
    match t {
        Temporal::LamportTS(_) => true,
        Temporal::VectorClock { clocks, .. } => clock_entries_unique(clocks@),
    }
}

/// The order on two vector clocks: if some shared key is strictly ahead on
/// one side and some other on the other side, the clocks are concurrent;
/// one-sided strict leads decide; clocks that share no key at all are
/// concurrent; and otherwise every shared key agrees.
pub open spec fn spec_vc_cmp(a: Map<Seq<char>, u32>, b: Map<Seq<char>, u32>) -> Option<Ordering> {
    let some_greater = exists|k: Seq<char>|
        a.dom().contains(k) && #[trigger] b.dom().contains(k) && a[k] > b[k];
    let some_less = exists|k: Seq<char>|
        a.dom().contains(k) && #[trigger] b.dom().contains(k) && a[k] < b[k];
    let intersects = exists|k: Seq<char>| a.dom().contains(k) && #[trigger] b.dom().contains(k);
    if some_greater && some_less {
        None
    } else if some_greater {
        Some(Ordering::Greater)
    } else if some_less {
        Some(Ordering::Less)
    } else if !intersects {
        None
    } else {
        Some(Ordering::Equal)
    }
}

/// The order on two temporal clocks: counters compare totally, a vector
/// clock dominates a bare counter, and vector clocks compare entry-wise.
pub open spec fn spec_temporal_cmp(a: Temporal, b: Temporal) -> Option<Ordering> {
    match (a, b) {
        (Temporal::LamportTS(x), Temporal::LamportTS(y)) => if x < y {
            Some(Ordering::Less)
        } else if x == y {
            Some(Ordering::Equal)
        } else {
            Some(Ordering::Greater)
        },
        (Temporal::LamportTS(_), Temporal::VectorClock { .. }) => Some(Ordering::Less),
        (Temporal::VectorClock { .. }, Temporal::LamportTS(_)) => Some(Ordering::Greater),
        (
            Temporal::VectorClock { clocks: ca, .. },
            Temporal::VectorClock { clocks: cb, .. },
        ) => spec_vc_cmp(view_of_clock_entries(ca@), view_of_clock_entries(cb@)),
    }
}

pub proof fn lemma_clock_entries_dom(es: Seq<(String, u32)>)
    ensures
        view_of_clock_entries(es).dom().finite(),
        forall|k: Seq<char>|
            view_of_clock_entries(es).dom().contains(k) <==> exists|i: int|
                0 <= i < es.len() && (#[trigger] es[i]).0@ == k,
    decreases es,
{
    if es.len() > 0 {
        lemma_clock_entries_dom(es.drop_last());
        assert forall|k: Seq<char>|
            view_of_clock_entries(es).dom().contains(k) implies exists|i: int|
            0 <= i < es.len() && (#[trigger] es[i]).0@ == k by {
            if k == es.last().0@ {
                assert(es[es.len() - 1].0@ == k);
            } else {
                let i = choose|i: int|
                    0 <= i < es.drop_last().len() && (#[trigger] es.drop_last()[i]).0@ == k;
                assert(es[i].0@ == k);
            }
        }
        assert forall|k: Seq<char>|
            (exists|i: int| 0 <= i < es.len() && (#[trigger] es[i]).0@ == k)
            implies view_of_clock_entries(es).dom().contains(k) by {
            let i = choose|i: int| 0 <= i < es.len() && (#[trigger] es[i]).0@ == k;
            if i < es.len() - 1 {
                assert(es.drop_last()[i].0@ == k);
            }
        }
    }
}

pub proof fn lemma_clock_entries_at(es: Seq<(String, u32)>, i: int)
    requires
        clock_entries_unique(es),
        0 <= i < es.len(),
    ensures
        view_of_clock_entries(es)[es[i].0@] == es[i].1,
    decreases es,
{
    if i < es.len() - 1 {
        assert(clock_entries_unique(es.drop_last())) by {
            assert(forall|x: int, y: int|
                0 <= x < y < es.drop_last().len() ==> es.drop_last()[x] == es[x]
                    && es.drop_last()[y] == es[y]);
        }
        assert(es.drop_last()[i] == es[i]);
        lemma_clock_entries_at(es.drop_last(), i);
        assert(es[i].0@ != es.last().0@);
    }
}

/// The position of the entry holding `key`, if one exists.
fn find_clock_key(es: &Vec<(String, u32)>, key: &str) -> (r: Option<usize>)
    ensures
        match r {
            Some(i) => i < es@.len() && es@[i as int].0@ == key@,
            None => forall|i: int| 0 <= i < es@.len() ==> (#[trigger] es@[i]).0@ != key@,
        },
{
    let mut i: usize = 0;
    while i < es.len()
        invariant
            i <= es@.len(),
            forall|j: int| 0 <= j < i as int ==> (#[trigger] es@[j]).0@ != key@,
        decreases es@.len() - i,
    {
        if str_eq(es[i].0.as_str(), key) {
            return Some(i);
        }
        i = i + 1;
    }
    None
}

impl Temporal {
    /// Advances this clock: a counter ticks, and a vector clock ticks its
    /// own replica's entry.
    pub fn increment(&mut self)
        requires
            wf_temporal(*old(self)),
            match *old(self) {
                Temporal::LamportTS(x) => x < u32::MAX,
                Temporal::VectorClock { clocks, user_id } => view_of_clock_entries(
                    clocks@,
                ).dom().contains(user_id@) && view_of_clock_entries(clocks@)[user_id@] < u32::MAX,
            },
        ensures
            wf_temporal(*final(self)),
            match (*old(self), *final(self)) {
                (Temporal::LamportTS(x), Temporal::LamportTS(y)) => y == x + 1,
                (
                    Temporal::VectorClock { clocks: ca, user_id: ua },
                    Temporal::VectorClock { clocks: cb, user_id: ub },
                ) => ub@ == ua@ && view_of_clock_entries(cb@) == view_of_clock_entries(
                    ca@,
                ).insert(ua@, (view_of_clock_entries(ca@)[ua@] + 1) as u32),
                _ => false,
            },
    {
        match self {
            Temporal::LamportTS(x) => {
                *x = *x + 1;
            },
            Temporal::VectorClock { clocks, user_id } => {
                let ghost es0 = clocks@;
                proof {
                    lemma_clock_entries_dom(es0);
                }
                match find_clock_key(clocks, user_id.as_str()) {
                    Some(i) => {
                        proof {
                            lemma_clock_entries_at(es0, i as int);
                        }
                        let (k, v) = clocks.remove(i);
                        let ghost kg = k;
                        clocks.insert(i, (k, v + 1));
                        proof {
                            assert(clocks@ =~= es0.update(i as int, (kg, (v + 1) as u32)));
                            lemma_clock_entries_update(es0, i as int, (v + 1) as u32);
                            assert(clock_entries_unique(clocks@)) by {
                                assert(forall|x: int|
                                    0 <= x < clocks@.len() ==> (#[trigger] clocks@[x]).0@
                                        == es0[x].0@);
                            }
                        }
                    },
                    None => {
                        proof {
                            assert(false);
                        }
                    },
                }
            },
        }
    }
}

pub proof fn lemma_clock_entries_update(es: Seq<(String, u32)>, i: int, x: u32)
    requires
        clock_entries_unique(es),
        0 <= i < es.len(),
    ensures
        view_of_clock_entries(es.update(i, (es[i].0, x))) == view_of_clock_entries(es).insert(
            es[i].0@,
            x,
        ),
    decreases es,
{
    let es2 = es.update(i, (es[i].0, x));
    if i == es.len() - 1 {
        assert(es2.drop_last() =~= es.drop_last());
        assert(view_of_clock_entries(es2) =~= view_of_clock_entries(es).insert(es[i].0@, x));
    } else {
        assert(clock_entries_unique(es.drop_last())) by {
            assert(forall|a: int, b: int|
                0 <= a < b < es.drop_last().len() ==> es.drop_last()[a] == es[a]
                    && es.drop_last()[b] == es[b]);
        }
        assert(es.drop_last()[i] == es[i]);
        lemma_clock_entries_update(es.drop_last(), i, x);
        assert(es2.drop_last() =~= es.drop_last().update(i, (es[i].0, x)));
        assert(es2.last() == es.last());
        assert(es[i].0@ != es.last().0@);
        assert(view_of_clock_entries(es2) =~= view_of_clock_entries(es).insert(es[i].0@, x));
    }
}

pub proof fn lemma_clock_entries_push(es: Seq<(String, u32)>, k: String, x: u32)
    ensures
        view_of_clock_entries(es.push((k, x))) == view_of_clock_entries(es).insert(k@, x),
{
    assert(es.push((k, x)).drop_last() =~= es);
}

impl Temporal {
    /// Compares two temporal clocks under the partial order.
    pub fn partial_cmp_temporal(&self, other: &Temporal) -> (r: Option<Ordering>)
        requires
            wf_temporal(*self),
            wf_temporal(*other),
        ensures
            r == spec_temporal_cmp(*self, *other),
    {
        match (self, other) {
            (Temporal::LamportTS(x), Temporal::LamportTS(y)) => {
                if *x < *y {
                    Some(Ordering::Less)
                } else if *x == *y {
                    Some(Ordering::Equal)
                } else {
                    Some(Ordering::Greater)
                }
            },
            (Temporal::LamportTS(_), Temporal::VectorClock { .. }) => Some(Ordering::Less),
            (Temporal::VectorClock { .. }, Temporal::LamportTS(_)) => Some(Ordering::Greater),
            (
                Temporal::VectorClock { clocks: ca, .. },
                Temporal::VectorClock { clocks: cb, .. },
            ) => {
                let ghost va = view_of_clock_entries(ca@);
                let ghost vb = view_of_clock_entries(cb@);
                let mut seen_greater = false;
                let mut seen_less = false;
                let mut intersected = false;
                let mut i: usize = 0;
                while i < ca.len()
                    invariant
                        i <= ca@.len(),
                        va == view_of_clock_entries(ca@),
                        vb == view_of_clock_entries(cb@),
                        clock_entries_unique(ca@),
                        clock_entries_unique(cb@),
                        seen_greater == exists|x: int|
                            0 <= x < i as int && vb.dom().contains((#[trigger] ca@[x]).0@)
                                && ca@[x].1 > vb[ca@[x].0@],
                        seen_less == exists|x: int|
                            0 <= x < i as int && vb.dom().contains((#[trigger] ca@[x]).0@)
                                && ca@[x].1 < vb[ca@[x].0@],
                        intersected == exists|x: int|
                            0 <= x < i as int && vb.dom().contains((#[trigger] ca@[x]).0@),
                    decreases ca@.len() - i,
                {
                    let e = &ca[i];
                    proof {
                        assert(*e == ca@[i as int]);
                        lemma_clock_entries_dom(ca@);
                        lemma_clock_entries_dom(cb@);
                        lemma_clock_entries_at(ca@, i as int);
                    }
                    match find_clock_key(cb, e.0.as_str()) {
                        Some(j) => {
                            proof {
                                lemma_clock_entries_at(cb@, j as int);
                            }
                            let bv = cb[j].1;
                            intersected = true;
                            if e.1 > bv {
                                seen_greater = true;
                            }
                            if e.1 < bv {
                                seen_less = true;
                            }
                        },
                        None => {},
                    }
                    i = i + 1;
                }
                proof {
                    lemma_clock_entries_dom(ca@);
                    lemma_clock_entries_dom(cb@);
                    assert(seen_greater == exists|k: Seq<char>|
                        va.dom().contains(k) && #[trigger] vb.dom().contains(k) && va[k]
                            > vb[k]) by {
                        if seen_greater {
                            let x = choose|x: int|
                                0 <= x < ca@.len() && vb.dom().contains((#[trigger] ca@[x]).0@)
                                    && ca@[x].1 > vb[ca@[x].0@];
                            lemma_clock_entries_at(ca@, x);
                        }
                        if exists|k: Seq<char>|
                            va.dom().contains(k) && #[trigger] vb.dom().contains(k) && va[k]
                                > vb[k] {
                            let k = choose|k: Seq<char>|
                                va.dom().contains(k) && #[trigger] vb.dom().contains(k) && va[k]
                                    > vb[k];
                            let x = choose|x: int|
                                0 <= x < ca@.len() && (#[trigger] ca@[x]).0@ == k;
                            lemma_clock_entries_at(ca@, x);
                        }
                    }
                    assert(seen_less == exists|k: Seq<char>|
                        va.dom().contains(k) && #[trigger] vb.dom().contains(k) && va[k]
                            < vb[k]) by {
                        if seen_less {
                            let x = choose|x: int|
                                0 <= x < ca@.len() && vb.dom().contains((#[trigger] ca@[x]).0@)
                                    && ca@[x].1 < vb[ca@[x].0@];
                            lemma_clock_entries_at(ca@, x);
                        }
                        if exists|k: Seq<char>|
                            va.dom().contains(k) && #[trigger] vb.dom().contains(k) && va[k]
                                < vb[k] {
                            let k = choose|k: Seq<char>|
                                va.dom().contains(k) && #[trigger] vb.dom().contains(k) && va[k]
                                    < vb[k];
                            let x = choose|x: int|
                                0 <= x < ca@.len() && (#[trigger] ca@[x]).0@ == k;
                            lemma_clock_entries_at(ca@, x);
                        }
                    }
                    assert(intersected == exists|k: Seq<char>|
                        va.dom().contains(k) && #[trigger] vb.dom().contains(k)) by {
                        if intersected {
                            let x = choose|x: int|
                                0 <= x < ca@.len() && vb.dom().contains((#[trigger] ca@[x]).0@);
                        }
                        if exists|k: Seq<char>|
                            va.dom().contains(k) && #[trigger] vb.dom().contains(k) {
                            let k = choose|k: Seq<char>|
                                va.dom().contains(k) && #[trigger] vb.dom().contains(k);
                            let x = choose|x: int|
                                0 <= x < ca@.len() && (#[trigger] ca@[x]).0@ == k;
                        }
                    }
                }
                if seen_greater && seen_less {
                    None
                } else if seen_greater {
                    Some(Ordering::Greater)
                } else if seen_less {
                    Some(Ordering::Less)
                } else if !intersected {
                    None
                } else {
                    Some(Ordering::Equal)
                }
            },
        }
    }

    /// Merges another clock of the same variant into this one: counters
    /// take the maximum, vector clocks take the entry-wise maximum over
    /// the union of their keys, keeping this side's owner.
    pub fn merge(self, other: Temporal) -> (r: Temporal)
        requires
            wf_temporal(self),
            wf_temporal(other),
            self is LamportTS <==> other is LamportTS,
        ensures
            wf_temporal(r),
            match (self, other, r) {
                (Temporal::LamportTS(x), Temporal::LamportTS(y), Temporal::LamportTS(z)) => z == (
                if x >= y {
                    x
                } else {
                    y
                }),
                (
                    Temporal::VectorClock { clocks: ca, user_id: ua },
                    Temporal::VectorClock { clocks: cb, .. },
                    Temporal::VectorClock { clocks: cr, user_id: ur },
                ) => ur@ == ua@ && view_of_clock_entries(cr@) == Map::<Seq<char>, u32>::new(
                    |k: Seq<char>|
                        view_of_clock_entries(ca@).dom().contains(k) || view_of_clock_entries(
                            cb@,
                        ).dom().contains(k),
                    |k: Seq<char>|
                        {
                            let va = view_of_clock_entries(ca@);
                            let vb = view_of_clock_entries(cb@);
                            if va.dom().contains(k) && vb.dom().contains(k) {
                                if va[k] >= vb[k] {
                                    va[k]
                                } else {
                                    vb[k]
                                }
                            } else if va.dom().contains(k) {
                                va[k]
                            } else {
                                vb[k]
                            }
                        },
                ),
                _ => false,
            },
    {
        match (self, other) {
            (Temporal::LamportTS(x), Temporal::LamportTS(y)) => {
                if x >= y {
                    Temporal::LamportTS(x)
                } else {
                    Temporal::LamportTS(y)
                }
            },
            (
                Temporal::VectorClock { clocks: mut ca, user_id },
                Temporal::VectorClock { clocks: cb, .. },
            ) => {
                let ghost aes0 = ca@;
                let ghost obes = cb@;
                let ghost va0 = view_of_clock_entries(aes0);
                let ghost vb0 = view_of_clock_entries(obes);
                let ghost target = Map::<Seq<char>, u32>::new(
                    |k: Seq<char>| va0.dom().contains(k) || vb0.dom().contains(k),
                    |k: Seq<char>|
                        if va0.dom().contains(k) && vb0.dom().contains(k) {
                            if va0[k] >= vb0[k] {
                                va0[k]
                            } else {
                                vb0[k]
                            }
                        } else if va0.dom().contains(k) {
                            va0[k]
                        } else {
                            vb0[k]
                        },
                );
                let mut i: usize = 0;
                proof {
                    assert(obes.skip(0) =~= obes);
                }
                while i < cb.len()
                    invariant
                        0 <= i as int <= obes.len(),
                        obes == cb@,
                        clock_entries_unique(obes),
                        clock_entries_unique(ca@),
                        spec_vc_merged(view_of_clock_entries(ca@), obes.skip(i as int))
                            == spec_vc_merged(va0, obes),
                    decreases obes.len() - i,
                {
                    let ghost p = i as int;
                    let ghost rem = obes.skip(p);
                    let ghost vapre = view_of_clock_entries(ca@);
                    proof {
                        lemma_clock_entries_dom(ca@);
                        assert(forall|x: int, y: int|
                            0 <= x < y < rem.len() ==> rem[x] == obes[x + p] && rem[y] == obes[y
                                + p]);
                        assert(rem[0] == obes[p]);
                        assert(rem.drop_first() =~= obes.skip(p + 1));
                    }
                    let kb = &cb[i].0;
                    let bv = cb[i].1;
                    proof {
                        assert((*kb, bv) == obes[p]);
                    }
                    match find_clock_key(&ca, kb.as_str()) {
                        Some(idx) => {
                            let ghost sapre = ca@;
                            proof {
                                lemma_clock_entries_at(sapre, idx as int);
                            }
                            let (ks, av) = ca.remove(idx);
                            let ghost kg = ks;
                            let m = if av >= bv {
                                av
                            } else {
                                bv
                            };
                            ca.insert(idx, (ks, m));
                            proof {
                                assert(ca@ =~= sapre.update(idx as int, (kg, m)));
                                lemma_clock_entries_update(sapre, idx as int, m);
                                assert(clock_entries_unique(ca@)) by {
                                    assert(forall|x: int|
                                        0 <= x < ca@.len() ==> (#[trigger] ca@[x]).0@
                                            == sapre[x].0@);
                                }
                                assert(spec_vc_merged(view_of_clock_entries(ca@), obes.skip(p + 1))
                                    == spec_vc_merged(vapre, rem));
                            }
                        },
                        None => {
                            let ghost sapre = ca@;
                            let kc = kb.clone();
                            let ghost kcg = kc;
                            ca.push((kc, bv));
                            proof {
                                assert(ca@ == sapre.push((kcg, bv)));
                                lemma_clock_entries_push(sapre, kcg, bv);
                                assert(clock_entries_unique(ca@)) by {
                                    assert(forall|x: int|
                                        0 <= x < sapre.len() ==> ca@[x] == sapre[x]);
                                    assert(ca@[ca@.len() - 1].0@ == kb@);
                                }
                                assert(spec_vc_merged(view_of_clock_entries(ca@), obes.skip(p + 1))
                                    == spec_vc_merged(vapre, rem));
                            }
                        },
                    }
                    i = i + 1;
                }
                proof {
                    assert(obes.skip(i as int) =~= Seq::<(String, u32)>::empty());
                    assert(spec_vc_merged(view_of_clock_entries(ca@), obes.skip(i as int))
                        == view_of_clock_entries(ca@));
                    lemma_vc_merged_pointwise(va0, obes);
                    assert(view_of_clock_entries(ca@) =~= target);
                }
                Temporal::VectorClock { clocks: ca, user_id }
            },
            _ => {
                proof {
                    assert(false);
                }
                Temporal::LamportTS(0)
            },
        }
    }
}

/// A vector clock with a run of remote entries folded in front to back:
/// each remote entry raises its key to the maximum of the two sides.
pub open spec fn spec_vc_merged(va: Map<Seq<char>, u32>, rest: Seq<(String, u32)>) -> Map<
    Seq<char>,
    u32,
>
    decreases rest,
{
    if rest.len() == 0 {
        va
    } else {
        let k = rest[0].0@;
        let v = rest[0].1;
        spec_vc_merged(
            va.insert(
                k,
                if va.dom().contains(k) && va[k] >= v {
                    va[k]
                } else {
                    v
                },
            ),
            rest.drop_first(),
        )
    }
}

/// Removing the first entry of a vector clock removes exactly its key.
pub proof fn lemma_clock_entries_drop_first(es: Seq<(String, u32)>)
    requires
        clock_entries_unique(es),
        es.len() > 0,
    ensures
        view_of_clock_entries(es) == view_of_clock_entries(es.drop_first()).insert(
            es[0].0@,
            es[0].1,
        ),
        clock_entries_unique(es.drop_first()),
        !view_of_clock_entries(es.drop_first()).dom().contains(es[0].0@),
    decreases es,
{
    assert(forall|x: int, y: int|
        0 <= x < y < es.drop_first().len() ==> es.drop_first()[x] == es[x + 1]
            && es.drop_first()[y] == es[y + 1]);
    lemma_clock_entries_dom(es.drop_first());
    if es.len() == 1 {
        assert(es.drop_first() =~= es.drop_last());
        assert(view_of_clock_entries(es) =~= view_of_clock_entries(es.drop_first()).insert(
            es[0].0@,
            es[0].1,
        ));
    } else {
        assert(clock_entries_unique(es.drop_last())) by {
            assert(forall|x: int, y: int|
                0 <= x < y < es.drop_last().len() ==> es.drop_last()[x] == es[x]
                    && es.drop_last()[y] == es[y]);
        }
        lemma_clock_entries_drop_first(es.drop_last());
        assert(es.drop_last()[0] == es[0]);
        assert(es.drop_first().drop_last() =~= es.drop_last().drop_first());
        assert(es.drop_first().last() == es.last());
        assert(es[0].0@ != es.last().0@);
        assert(view_of_clock_entries(es) =~= view_of_clock_entries(es.drop_first()).insert(
            es[0].0@,
            es[0].1,
        ));
    }
}

/// Folding a run of distinct remote entries into a clock yields the
/// entry-wise maximum over the union of the keys.
pub proof fn lemma_vc_merged_pointwise(va: Map<Seq<char>, u32>, rest: Seq<(String, u32)>)
    requires
        clock_entries_unique(rest),
    ensures
        spec_vc_merged(va, rest) == Map::<Seq<char>, u32>::new(
            |k: Seq<char>| va.dom().contains(k) || view_of_clock_entries(rest).dom().contains(k),
            |k: Seq<char>|
                {
                    let vb = view_of_clock_entries(rest);
                    if va.dom().contains(k) && vb.dom().contains(k) {
                        if va[k] >= vb[k] {
                            va[k]
                        } else {
                            vb[k]
                        }
                    } else if va.dom().contains(k) {
                        va[k]
                    } else {
                        vb[k]
                    }
                },
        ),
    decreases rest,
{
    lemma_clock_entries_dom(rest);
    if rest.len() == 0 {
        assert(view_of_clock_entries(rest) =~= Map::<Seq<char>, u32>::empty());
        assert(spec_vc_merged(va, rest) =~= Map::<Seq<char>, u32>::new(
            |k: Seq<char>| va.dom().contains(k) || view_of_clock_entries(rest).dom().contains(k),
            |k: Seq<char>|
                {
                    let vb = view_of_clock_entries(rest);
                    if va.dom().contains(k) && vb.dom().contains(k) {
                        if va[k] >= vb[k] {
                            va[k]
                        } else {
                            vb[k]
                        }
                    } else if va.dom().contains(k) {
                        va[k]
                    } else {
                        vb[k]
                    }
                },
        ));
    } else {
        let k0 = rest[0].0@;
        let v0 = rest[0].1;
        let va2 = va.insert(
            k0,
            if va.dom().contains(k0) && va[k0] >= v0 {
                va[k0]
            } else {
                v0
            },
        );
        lemma_clock_entries_drop_first(rest);
        lemma_clock_entries_dom(rest.drop_first());
        lemma_vc_merged_pointwise(va2, rest.drop_first());
        assert(spec_vc_merged(va, rest) =~= Map::<Seq<char>, u32>::new(
            |k: Seq<char>| va.dom().contains(k) || view_of_clock_entries(rest).dom().contains(k),
            |k: Seq<char>|
                {
                    let vb = view_of_clock_entries(rest);
                    if va.dom().contains(k) && vb.dom().contains(k) {
                        if va[k] >= vb[k] {
                            va[k]
                        } else {
                            vb[k]
                        }
                    } else if va.dom().contains(k) {
                        va[k]
                    } else {
                        vb[k]
                    }
                },
        ));
    }
}

} // verus!
