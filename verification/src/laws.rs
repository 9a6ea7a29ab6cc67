//! The algebraic laws of the merge: idempotence, commutativity, delta
//! correctness, and delta idempotence, each proved over the shelf shapes.

use vstd::prelude::*;

verus! {

use core::cmp::Ordering;
use crate::clock::{LamportTimestamp, LeafClock, ShelfClock, spec_cmp_clock,
    spec_clock_tiebreak_less};
use crate::value::{ValueView, spec_cmp_value, spec_cmp_value_seq, spec_cmp_chars, spec_cmp_char,
    spec_type_rank, lemma_cmp_value_eq};
use crate::shelf::{ShelfView, spec_merge, spec_merge_kids, spec_gc, spec_gc_kids,
    spec_secure_merge, spec_secure_kids, spec_verify_contents};
use crate::state_vector::{StateVectorView, spec_state_vector, spec_state_delta, spec_child_delta,
    spec_delta_kids};

/// Comparing in the other order reverses the outcome.
pub proof fn lemma_cmp_chars_antisym(a: Seq<char>, b: Seq<char>)
    ensures
        spec_cmp_chars(a, b) == Ordering::Less <==> spec_cmp_chars(b, a) == Ordering::Greater,
        spec_cmp_chars(a, b) == Ordering::Equal <==> spec_cmp_chars(b, a) == Ordering::Equal,
    decreases a.len(),
{
    if a.len() > 0 && b.len() > 0 {
        lemma_cmp_chars_antisym(a.drop_first(), b.drop_first());
    }
}

/// Comparing in the other order reverses the outcome.
pub proof fn lemma_cmp_value_antisym(a: ValueView, b: ValueView)
    ensures
        spec_cmp_value(a, b) == Ordering::Less <==> spec_cmp_value(b, a) == Ordering::Greater,
        spec_cmp_value(a, b) == Ordering::Equal <==> spec_cmp_value(b, a) == Ordering::Equal,
    decreases a, b,
{
    if spec_type_rank(a) == spec_type_rank(b) {
        match (a, b) {
            (ValueView::Str(x), ValueView::Str(y)) => {
                lemma_cmp_chars_antisym(x, y);
            },
            (ValueView::Array(x), ValueView::Array(y)) => {
                lemma_cmp_value_seq_antisym(x, y);
            },
            _ => {},
        }
    }
}

pub proof fn lemma_cmp_value_seq_antisym(a: Seq<ValueView>, b: Seq<ValueView>)
    ensures
        spec_cmp_value_seq(a, b) == Ordering::Less <==> spec_cmp_value_seq(b, a)
            == Ordering::Greater,
        spec_cmp_value_seq(a, b) == Ordering::Equal <==> spec_cmp_value_seq(b, a)
            == Ordering::Equal,
    decreases a, b,
{
    if a.len() > 0 && b.len() > 0 {
        lemma_cmp_value_antisym(a[0], b[0]);
        lemma_cmp_value_seq_antisym(a.drop_first(), b.drop_first());
    }
}

/// The character order chains: a lead over a leader is a lead.
pub proof fn lemma_cmp_chars_trans(a: Seq<char>, b: Seq<char>, c: Seq<char>)
    requires
        spec_cmp_chars(a, b) != Ordering::Greater,
        spec_cmp_chars(b, c) != Ordering::Greater,
    ensures
        spec_cmp_chars(a, c) != Ordering::Greater,
        spec_cmp_chars(a, c) == Ordering::Equal ==> spec_cmp_chars(a, b) == Ordering::Equal
            && spec_cmp_chars(b, c) == Ordering::Equal,
    decreases a.len(),
{
    if a.len() > 0 && b.len() > 0 && c.len() > 0 && spec_cmp_char(a[0], b[0]) == Ordering::Equal
        && spec_cmp_char(b[0], c[0]) == Ordering::Equal {
        lemma_cmp_chars_trans(a.drop_first(), b.drop_first(), c.drop_first());
    }
}

/// The value order chains: a lead over a leader is a lead.
pub proof fn lemma_cmp_value_trans(a: ValueView, b: ValueView, c: ValueView)
    requires
        spec_cmp_value(a, b) != Ordering::Greater,
        spec_cmp_value(b, c) != Ordering::Greater,
    ensures
        spec_cmp_value(a, c) != Ordering::Greater,
        spec_cmp_value(a, c) == Ordering::Equal ==> spec_cmp_value(a, b) == Ordering::Equal
            && spec_cmp_value(b, c) == Ordering::Equal,
    decreases a, b, c,
{
    if spec_type_rank(a) == spec_type_rank(b) && spec_type_rank(b) == spec_type_rank(c) {
        match (a, b, c) {
            (ValueView::Str(x), ValueView::Str(y), ValueView::Str(z)) => {
                lemma_cmp_chars_trans(x, y, z);
            },
            (ValueView::Array(x), ValueView::Array(y), ValueView::Array(z)) => {
                lemma_cmp_value_seq_trans(x, y, z);
            },
            _ => {},
        }
    }
}

pub proof fn lemma_cmp_value_seq_trans(a: Seq<ValueView>, b: Seq<ValueView>, c: Seq<ValueView>)
    requires
        spec_cmp_value_seq(a, b) != Ordering::Greater,
        spec_cmp_value_seq(b, c) != Ordering::Greater,
    ensures
        spec_cmp_value_seq(a, c) != Ordering::Greater,
        spec_cmp_value_seq(a, c) == Ordering::Equal ==> spec_cmp_value_seq(a, b)
            == Ordering::Equal && spec_cmp_value_seq(b, c) == Ordering::Equal,
    decreases a, b, c,
{
    if a.len() > 0 && b.len() > 0 && c.len() > 0 {
        lemma_cmp_value_trans(a[0], b[0], c[0]);
        lemma_cmp_value_antisym(a[0], b[0]);
        lemma_cmp_value_antisym(b[0], c[0]);
        lemma_cmp_value_antisym(a[0], c[0]);
        if spec_cmp_value(a[0], b[0]) == Ordering::Equal && spec_cmp_value(b[0], c[0])
            == Ordering::Equal {
            lemma_cmp_value_seq_trans(a.drop_first(), b.drop_first(), c.drop_first());
        }
    }
}

/// Two replicas never disagree on a write: wherever two shelves hold
/// leaves under the very same clock, the values agree. Every pair of
/// honest replicas satisfies this, since a clock identifies one write.
pub open spec fn spec_compatible(a: ShelfView, b: ShelfView) -> bool
    decreases a, b,
    when a.wf() && b.wf()
    via spec_compatible_dec
{
    match (a, b) {
        (ShelfView::Leaf { value: va, clock: la }, ShelfView::Leaf { value: vb, clock: lb }) => la
            == lb ==> va == vb,
        (ShelfView::Node { shelves: ma, .. }, ShelfView::Node { shelves: mb, .. }) => forall|
            k: Seq<char>,
        |
            ma.dom().contains(k) && mb.dom().contains(k) ==> spec_compatible(
                #[trigger] ma[k],
                mb[k],
            ),
        _ => true,
    }
}

#[via_fn]
proof fn spec_compatible_dec(a: ShelfView, b: ShelfView) {
    match (a, b) {
        (ShelfView::Node { shelves: ma, .. }, ShelfView::Node { shelves: mb, .. }) => {
            assert(decreases_to!(a => a->Node_shelves));
            assert forall|k: Seq<char>|
                ma.dom().contains(k) && mb.dom().contains(k) implies decreases_to!(
                a, b => ma[k], mb[k]
            ) by {
                assert(decreases_to!(ma => ma[k]));
                assert(a->Node_shelves == ma);
            }
        },
        _ => {},
    }
}

/// Merging a shelf with itself changes nothing.
pub proof fn lemma_merge_idempotent(a: ShelfView)
    requires
        a.wf(),
    ensures
        spec_merge(a, a) == a,
    decreases a,
{
    match a {
        ShelfView::Leaf { .. } => {},
        ShelfView::Node { shelves: ma, clock: ca } => {
            assert forall|k: Seq<char>| ma.dom().contains(k) implies spec_merge(
                #[trigger] ma[k],
                ma[k],
            ) == ma[k] by {
                assert(decreases_to!(ma => ma[k]));
                assert(a->Node_shelves == ma);
                assert(decreases_to!(a => a->Node_shelves));
                lemma_merge_idempotent(ma[k]);
            }
            assert(spec_merge_kids(ma, ma) =~= ma);
        },
    }
}

/// Merging is commutative: on compatible shelves the two orders agree.
pub proof fn lemma_merge_commutative(a: ShelfView, b: ShelfView)
    requires
        a.wf(),
        b.wf(),
        spec_compatible(a, b),
    ensures
        spec_merge(a, b) == spec_merge(b, a),
    decreases a, b,
{
    match (a, b) {
        (ShelfView::Node { shelves: ma, clock: ca }, ShelfView::Node { shelves: mb, clock: cb }) => {
            if ca == cb {
                assert forall|k: Seq<char>|
                    ma.dom().contains(k) && mb.dom().contains(k) implies spec_merge(
                    #[trigger] ma[k],
                    mb[k],
                ) == spec_merge(mb[k], ma[k]) by {
                    assert(decreases_to!(ma => ma[k]));
                    assert(a->Node_shelves == ma);
                    assert(decreases_to!(a => a->Node_shelves));
                    lemma_merge_commutative(ma[k], mb[k]);
                }
                assert(spec_merge_kids(ma, mb) =~= spec_merge_kids(mb, ma));
            }
        },
        (
            ShelfView::Leaf { value: va, clock: la },
            ShelfView::Leaf { value: vb, clock: lb },
        ) => {
            let c = spec_cmp_clock(a.node_clock(), b.node_clock());
            if c == Some(Ordering::Equal) {
                assert(la == lb);
                assert(va == vb);
            } else if c is None {
                lemma_cmp_value_antisym(va, vb);
                if spec_cmp_value(va, vb) == Ordering::Equal {
                    lemma_cmp_value_eq(va, vb);
                    assert(va == vb);
                    assert(la != lb);
                }
            }
        },
        _ => {},
    }
}

/// The merge of two well-formed shapes is well-formed.
pub proof fn lemma_merge_wf(a: ShelfView, b: ShelfView)
    requires
        a.wf(),
        b.wf(),
    ensures
        spec_merge(a, b).wf(),
    decreases a, b,
{
    match (a, b) {
        (ShelfView::Node { shelves: ma, clock: ca }, ShelfView::Node { shelves: mb, clock: cb }) => {
            if ca == cb {
                let kk = spec_merge_kids(ma, mb);
                assert(kk.dom() =~= ma.dom().union(mb.dom()));
                assert forall|k: Seq<char>| kk.dom().contains(k) implies (#[trigger] kk[k]).wf()
                    by {
                    if ma.dom().contains(k) && mb.dom().contains(k) {
                        assert(decreases_to!(ma => ma[k]));
                        assert(a->Node_shelves == ma);
                        assert(decreases_to!(a => a->Node_shelves));
                        lemma_merge_wf(ma[k], mb[k]);
                    }
                }
            }
        },
        _ => {},
    }
}

/// Applying the same update twice is a no-op after the first.
pub proof fn lemma_merge_absorb(a: ShelfView, d: ShelfView)
    requires
        a.wf(),
        d.wf(),
    ensures
        spec_merge(spec_merge(a, d), d) == spec_merge(a, d),
    decreases a, d,
{
    match (a, d) {
        (ShelfView::Node { shelves: ma, clock: ca }, ShelfView::Node { shelves: md, clock: cd }) => {
            if ca == cd {
                let kk = spec_merge_kids(ma, md);
                assert(ma.dom().finite());
                assert(md.dom().finite());
                assert(kk.dom() =~= ma.dom().union(md.dom()));
                assert(kk.dom().finite());
                assert forall|k: Seq<char>| kk.dom().contains(k) implies (#[trigger] kk[k]).wf()
                    by {
                    if ma.dom().contains(k) && md.dom().contains(k) {
                        lemma_merge_wf(ma[k], md[k]);
                    }
                }
                assert forall|k: Seq<char>| md.dom().contains(k) implies spec_merge(
                    #[trigger] kk[k],
                    md[k],
                ) == kk[k] by {
                    assert(decreases_to!(md => md[k]));
                    assert(d->Node_shelves == md);
                    assert(decreases_to!(d => d->Node_shelves));
                    if ma.dom().contains(k) {
                        assert(decreases_to!(ma => ma[k]));
                        assert(a->Node_shelves == ma);
                        assert(decreases_to!(a => a->Node_shelves));
                        lemma_merge_absorb(ma[k], md[k]);
                    } else {
                        lemma_merge_idempotent(md[k]);
                    }
                }
                assert(spec_merge_kids(kk, md) =~= kk);
                assert(spec_merge(spec_merge(a, d), d) == spec_merge(a, d));
            } else if ca < cd {
                lemma_merge_idempotent(d);
            }
        },
        _ => {
            let m = spec_merge(a, d);
            if m == d {
                lemma_merge_idempotent(d);
            }
        },
    }
}

/// Merging three leaves associates: the winner is the greatest leaf under
/// the clock order, settled among concurrent writes by the value order
/// and the clock tiebreak, whatever the grouping.
proof fn lemma_leaf_merge_assoc(a: ShelfView, b: ShelfView, c: ShelfView)
    requires
        a is Leaf,
        b is Leaf,
        c is Leaf,
        spec_compatible(a, b),
        spec_compatible(b, c),
        spec_compatible(a, c),
    ensures
        spec_merge(spec_merge(a, b), c) == spec_merge(a, spec_merge(b, c)),
{
    let va = a->Leaf_value;
    let vb = b->Leaf_value;
    let vc = c->Leaf_value;
    lemma_cmp_value_antisym(va, vb);
    lemma_cmp_value_antisym(vb, vc);
    lemma_cmp_value_antisym(va, vc);
    lemma_cmp_value_eq(va, vb);
    lemma_cmp_value_eq(vb, vc);
    lemma_cmp_value_eq(va, vc);
    if spec_cmp_value(va, vb) != Ordering::Greater && spec_cmp_value(vb, vc)
        != Ordering::Greater {
        lemma_cmp_value_trans(va, vb, vc);
    }
    if spec_cmp_value(vb, vc) != Ordering::Greater && spec_cmp_value(vc, va)
        != Ordering::Greater {
        lemma_cmp_value_trans(vb, vc, va);
    }
    if spec_cmp_value(vc, va) != Ordering::Greater && spec_cmp_value(va, vb)
        != Ordering::Greater {
        lemma_cmp_value_trans(vc, va, vb);
    }
    if spec_cmp_value(vb, va) != Ordering::Greater && spec_cmp_value(va, vc)
        != Ordering::Greater {
        lemma_cmp_value_trans(vb, va, vc);
    }
    if spec_cmp_value(va, vc) != Ordering::Greater && spec_cmp_value(vc, vb)
        != Ordering::Greater {
        lemma_cmp_value_trans(va, vc, vb);
    }
    if spec_cmp_value(vc, vb) != Ordering::Greater && spec_cmp_value(vb, va)
        != Ordering::Greater {
        lemma_cmp_value_trans(vc, vb, va);
    }
}

/// Merging associates: the three shelves converge to one joint state,
/// whatever the grouping of the merges.
pub proof fn lemma_merge_associative(a: ShelfView, b: ShelfView, c: ShelfView)
    requires
        a.wf(),
        b.wf(),
        c.wf(),
        spec_compatible(a, b),
        spec_compatible(b, c),
        spec_compatible(a, c),
    ensures
        spec_merge(spec_merge(a, b), c) == spec_merge(a, spec_merge(b, c)),
    decreases a, b, c,
{
    match (a, b, c) {
        (
            ShelfView::Node { shelves: ma, clock: ca },
            ShelfView::Node { shelves: mb, clock: cb },
            ShelfView::Node { shelves: mc, clock: cc },
        ) => {
            if ca == cb && cb == cc {
                let kab = spec_merge_kids(ma, mb);
                let kbc = spec_merge_kids(mb, mc);
                assert(kab.dom() =~= ma.dom().union(mb.dom()));
                assert(kbc.dom() =~= mb.dom().union(mc.dom()));
                assert forall|k: Seq<char>|
                    kab.dom().contains(k) || mc.dom().contains(k) implies spec_merge_kids(
                    kab,
                    mc,
                )[k] == spec_merge_kids(ma, kbc)[k] by {
                    assert(decreases_to!(a => a->Node_shelves));
                    assert(a->Node_shelves == ma);
                    if ma.dom().contains(k) {
                        assert(decreases_to!(ma => ma[k]));
                    }
                    if ma.dom().contains(k) && mb.dom().contains(k) && mc.dom().contains(k) {
                        lemma_merge_associative(ma[k], mb[k], mc[k]);
                    }
                }
                assert(spec_merge_kids(kab, mc) =~= spec_merge_kids(ma, kbc));
                assert(spec_merge(spec_merge(a, b), c) == spec_merge(a, spec_merge(b, c)));
            }
        },
        (ShelfView::Leaf { .. }, ShelfView::Leaf { .. }, ShelfView::Leaf { .. }) => {
            lemma_leaf_merge_assoc(a, b, c);
        },
        _ => {},
    }
}

/// The tamper-checking merge never lets an unverified leaf displace
/// verified state: a shelf whose every leaf verifies still verifies in
/// full after absorbing any remote shelf.
pub proof fn lemma_secure_merge_preserves_verified(a: ShelfView, b: ShelfView)
    requires
        a.wf(),
        b.wf(),
        spec_verify_contents(a),
    ensures
        spec_verify_contents(spec_secure_merge(a, b)),
        spec_secure_merge(a, b).wf(),
    decreases a, b,
{
    match (a, b) {
        (
            ShelfView::Node { shelves: ma, clock: ca },
            ShelfView::Node { shelves: mb, clock: cb },
        ) => {
            if ca == cb {
                let kk = spec_secure_kids(ma, mb);
                assert forall|j: Seq<char>| mb.dom().contains(j) implies (#[trigger] mb[j]).wf()
                    by {}
                assert forall|k: Seq<char>| kk.dom().contains(k) implies spec_verify_contents(
                    #[trigger] kk[k],
                ) && kk[k].wf() by {
                    assert(decreases_to!(a => a->Node_shelves));
                    assert(a->Node_shelves == ma);
                    if ma.dom().contains(k) {
                        assert(decreases_to!(ma => ma[k]));
                        if mb.dom().contains(k) {
                            lemma_secure_merge_preserves_verified(ma[k], mb[k]);
                        }
                    }
                }
                assert(kk.dom().finite()) by {
                    broadcast use vstd::set_lib::lemma_set_subset_finite;

                    assert(kk.dom().subset_of(ma.dom().union(mb.dom())));
                }
                assert(spec_verify_contents(spec_secure_merge(a, b)));
            }
        },
        _ => {},
    }
}

/// The pruning invariant: no map holds a child whose clock its own clock
/// has strictly overtaken.
pub open spec fn spec_inv2(v: ShelfView) -> bool
    decreases v,
    when v.wf()
    via spec_inv2_dec
{
    match v {
        ShelfView::Leaf { .. } => true,
        ShelfView::Node { shelves, clock } => forall|k: Seq<char>|
            shelves.dom().contains(k) ==> spec_cmp_clock(
                (#[trigger] shelves[k]).node_clock(),
                ShelfClock::MapClock(LamportTimestamp(clock)),
            ) != Some(Ordering::Less) && spec_inv2(shelves[k]),
    }
}

#[via_fn]
proof fn spec_inv2_dec(v: ShelfView) {
    match v {
        ShelfView::Node { shelves, .. } => {
            assert(decreases_to!(v => v->Node_shelves));
            let m = v->Node_shelves;
            assert forall|k: Seq<char>| m.dom().contains(k) implies decreases_to!(v => m[k]) by {
                assert(decreases_to!(m => m[k]));
            }
        },
        _ => {},
    }
}

/// Two shelves are aligned when nowhere do a map and a leaf meet under
/// equal clocks: each node clock identifies the shape it was written on.
pub open spec fn spec_aligned(a: ShelfView, b: ShelfView) -> bool
    decreases a, b,
    when a.wf() && b.wf()
    via spec_aligned_dec
{
    match (a, b) {
        (ShelfView::Node { shelves: ma, .. }, ShelfView::Node { shelves: mb, .. }) => forall|
            k: Seq<char>,
        |
            ma.dom().contains(k) && mb.dom().contains(k) ==> spec_aligned(
                #[trigger] ma[k],
                mb[k],
            ),
        (ShelfView::Leaf { .. }, ShelfView::Leaf { .. }) => true,
        _ => spec_cmp_clock(a.node_clock(), b.node_clock()) != Some(Ordering::Equal),
    }
}

#[via_fn]
proof fn spec_aligned_dec(a: ShelfView, b: ShelfView) {
    match (a, b) {
        (ShelfView::Node { shelves: ma, .. }, ShelfView::Node { shelves: mb, .. }) => {
            assert(decreases_to!(a => a->Node_shelves));
            assert forall|k: Seq<char>|
                ma.dom().contains(k) && mb.dom().contains(k) implies decreases_to!(
                a, b => ma[k], mb[k]
            ) by {
                assert(decreases_to!(ma => ma[k]));
                assert(a->Node_shelves == ma);
            }
        },
        _ => {},
    }
}

/// A recursive prune leaves exactly the tree the pruning invariant asks
/// for: afterwards no map holds a child its clock has overtaken, and a
/// tree already in that state is left untouched — so the result is the
/// least shelf that keeps everything the invariant allows.
pub proof fn lemma_gc_establishes_inv2(v: ShelfView)
    requires
        v.wf(),
    ensures
        spec_inv2(spec_gc(v)),
        spec_gc(v).wf(),
        spec_inv2(v) ==> spec_gc(v) == v,
    decreases v,
{
    match v {
        ShelfView::Leaf { .. } => {},
        ShelfView::Node { shelves: m, clock: c } => {
            let kept = spec_gc_kids(m, c);
            assert forall|k: Seq<char>| kept.dom().contains(k) implies spec_inv2(
                #[trigger] kept[k],
            ) && kept[k].wf() && spec_cmp_clock(
                kept[k].node_clock(),
                ShelfClock::MapClock(LamportTimestamp(c)),
            ) != Some(Ordering::Less) by {
                assert(decreases_to!(v => v->Node_shelves));
                assert(decreases_to!(m => m[k]));
                assert(v->Node_shelves == m);
                lemma_gc_establishes_inv2(m[k]);
                assert(kept[k] == spec_gc(m[k]));
                assert(spec_gc(m[k]).node_clock() == m[k].node_clock());
            }
            assert(kept.dom().finite()) by {
                broadcast use vstd::set_lib::lemma_set_subset_finite;

                assert(kept.dom().subset_of(m.dom()));
            }
            assert(spec_inv2(spec_gc(v)));
            if spec_inv2(v) {
                assert forall|k: Seq<char>| m.dom().contains(k) implies kept.dom().contains(k)
                    && #[trigger] kept[k] == m[k] by {
                    assert(decreases_to!(v => v->Node_shelves));
                    assert(decreases_to!(m => m[k]));
                    assert(v->Node_shelves == m);
                    lemma_gc_establishes_inv2(m[k]);
                }
                assert(kept =~= m);
            }
        },
    }
}

/// When a sender has no delta against a receiver's state vector, merging
/// the sender's whole shelf into the receiver changes nothing: the
/// receiver already knows everything the sender knows.
pub proof fn lemma_delta_none_merge_noop(a: ShelfView, b: ShelfView)
    requires
        a.wf(),
        b.wf(),
        spec_inv2(b),
        spec_aligned(a, b),
        spec_state_delta(b, spec_state_vector(a)) is None,
    ensures
        spec_merge(a, b) == a,
    decreases a, b,
{
    let sva = spec_state_vector(a);
    let co = spec_cmp_clock(b.node_clock(), sva.node_clock());
    assert(sva.node_clock() == a.node_clock());
    if co == Some(Ordering::Less) {
        assert(spec_cmp_clock(a.node_clock(), b.node_clock()) == Some(Ordering::Greater));
    } else if co == Some(Ordering::Equal) {
        match (a, b) {
            (
                ShelfView::Node { shelves: ma, clock: ca },
                ShelfView::Node { shelves: mb, clock: cb },
            ) => {
                let svm = sva->Node_0;
                let svc = sva->Node_1;
                assert(svc == ca);
                assert(ca == cb);
                assert(svm.dom() =~= ma.dom());
                let kept = spec_delta_kids(mb, svm, svc);
                assert(kept.dom() == Set::<Seq<char>>::empty());
                assert forall|k: Seq<char>|
                    ma.dom().contains(k) && mb.dom().contains(k) implies spec_merge(
                    #[trigger] ma[k],
                    mb[k],
                ) == ma[k] by {
                    assert(decreases_to!(ma => ma[k]));
                    assert(a->Node_shelves == ma);
                    assert(decreases_to!(a => a->Node_shelves));
                    assert(!kept.dom().contains(k));
                    assert(spec_child_delta(mb[k], k, svm, svc) is None);
                    assert(svm[k] == spec_state_vector(ma[k]));
                    lemma_delta_none_merge_noop(ma[k], mb[k]);
                }
                assert forall|k: Seq<char>| mb.dom().contains(k) implies ma.dom().contains(k) by {
                    if !ma.dom().contains(k) {
                        assert(!kept.dom().contains(k));
                        assert(!svm.dom().contains(k));
                        assert(spec_child_delta(mb[k], k, svm, svc) is None);
                        assert(spec_cmp_clock(
                            mb[k].node_clock(),
                            ShelfClock::MapClock(LamportTimestamp(svc)),
                        ) == Some(Ordering::Less));
                        assert(spec_cmp_clock(
                            mb[k].node_clock(),
                            ShelfClock::MapClock(LamportTimestamp(cb)),
                        ) != Some(Ordering::Less));
                    }
                }
                assert(spec_merge_kids(ma, mb) =~= ma);
                assert(spec_merge(a, b) == a);
            },
            (ShelfView::Leaf { .. }, ShelfView::Leaf { .. }) => {},
            _ => {
                assert(spec_cmp_clock(a.node_clock(), b.node_clock()) == Some(Ordering::Equal));
                assert(false);
            },
        }
    } else {
        match (a, b) {
            (ShelfView::Node { .. }, ShelfView::Leaf { .. }) => {},
            _ => {},
        }
    }
}

/// Delta correctness: merging the delta that a sender computes against a
/// receiver's state vector advances the receiver exactly as merging the
/// sender's whole shelf would.
pub proof fn lemma_delta_correct(a: ShelfView, b: ShelfView)
    requires
        a.wf(),
        b.wf(),
        spec_inv2(b),
        spec_aligned(a, b),
        spec_state_delta(b, spec_state_vector(a)) is Some,
    ensures
        spec_merge(a, spec_state_delta(b, spec_state_vector(a))->0) == spec_merge(a, b),
    decreases a, b,
{
    broadcast use vstd::set_lib::lemma_set_subset_finite;

    let sva = spec_state_vector(a);
    let co = spec_cmp_clock(b.node_clock(), sva.node_clock());
    assert(sva.node_clock() == a.node_clock());
    let d = spec_state_delta(b, sva)->0;
    if co == Some(Ordering::Greater) {
        assert(d == b);
    } else {
        match (b, sva) {
            (ShelfView::Node { shelves: mb, clock: cb }, StateVectorView::Node(svm, svc)) => {
                let a_ma = a->Node_shelves;
                let ca = a->Node_clock;
                assert(a is Node);
                assert(svc == ca);
                assert(ca == cb);
                assert(svm.dom() =~= a_ma.dom());
                let kept = spec_delta_kids(mb, svm, svc);
                assert(kept.dom() != Set::<Seq<char>>::empty());
                assert(d == (ShelfView::Node { shelves: kept, clock: cb }));
                assert(kept.dom().subset_of(mb.dom())) by {
                    assert forall|k: Seq<char>| kept.dom().contains(k) implies mb.dom().contains(
                        k,
                    ) by {}
                }
                assert(kept.dom().finite());
                assert forall|k: Seq<char>|
                    a_ma.dom().contains(k) || kept.dom().contains(k) implies spec_merge_kids(
                    a_ma,
                    kept,
                )[k] == spec_merge_kids(a_ma, mb)[k] by {
                    assert(decreases_to!(a => a->Node_shelves));
                    if a_ma.dom().contains(k) {
                        assert(decreases_to!(a_ma => a_ma[k]));
                    }
                    if kept.dom().contains(k) && a_ma.dom().contains(k) {
                        assert(svm[k] == spec_state_vector(a_ma[k]));
                        assert(spec_child_delta(mb[k], k, svm, svc) is Some);
                        assert(kept[k] == spec_state_delta(mb[k], spec_state_vector(a_ma[k]))->0);
                        lemma_delta_correct(a_ma[k], mb[k]);
                    } else if kept.dom().contains(k) {
                        assert(!svm.dom().contains(k));
                        assert(kept[k] == mb[k]);
                    } else {
                        if mb.dom().contains(k) {
                            assert(spec_child_delta(mb[k], k, svm, svc) is None);
                            assert(svm.dom().contains(k));
                            assert(svm[k] == spec_state_vector(a_ma[k]));
                            lemma_delta_none_merge_noop(a_ma[k], mb[k]);
                        }
                    }
                }
                assert forall|k: Seq<char>| mb.dom().contains(k) implies a_ma.dom().contains(k)
                    || kept.dom().contains(k) by {
                    if !a_ma.dom().contains(k) && !kept.dom().contains(k) {
                        assert(!svm.dom().contains(k));
                        assert(spec_child_delta(mb[k], k, svm, svc) is None);
                        assert(spec_cmp_clock(
                            mb[k].node_clock(),
                            ShelfClock::MapClock(LamportTimestamp(svc)),
                        ) == Some(Ordering::Less));
                        assert(spec_cmp_clock(
                            mb[k].node_clock(),
                            ShelfClock::MapClock(LamportTimestamp(cb)),
                        ) != Some(Ordering::Less));
                    }
                }
                assert(spec_merge_kids(a_ma, kept) =~= spec_merge_kids(a_ma, mb));
                assert(spec_merge(a, d) == spec_merge(a, b));
            },
            _ => {
                assert(d == b);
            },
        }
    }
}

} // verus!