//! The shelf: a recursive tree that is either a clock-stamped value leaf or
//! a clock-stamped map of named child shelves. Merging two shelves is a
//! join: the greater clock wins outright, maps at equal clocks merge child
//! by child, and concurrent leaves are settled by the type order on values.

use vstd::prelude::*;

verus! {

use core::cmp::Ordering;
use crate::clock::{LamportTimestamp, LeafClock, ShelfClock, spec_cmp_clock, cmp_clock,
    spec_clock_tiebreak_less, clock_tiebreak_less};
use crate::value::{Value, ValueView, spec_cmp_value};

/// A shelf: a value leaf with a value clock, or a map of child shelves
/// with a map clock.
#[derive(Debug)]
pub enum Shelf {
    Leaf { value: Value, clock: LeafClock },
    Node { shelves: Vec<(String, Shelf)>, clock: LamportTimestamp },
}

/// The mathematical shape of a [`Shelf`]: maps become mathematical maps
/// from key strings to child shapes, and a map clock is its counter.
#[verifier::ext_equal]
pub enum ShelfView {
    Leaf { value: ValueView, clock: LeafClock },
    Node { shelves: Map<Seq<char>, ShelfView>, clock: u64 },
}

/// The children of an entry list, as a mathematical map. A later entry
/// with the same key wins; well-formed shelves have no such entries.
pub open spec fn view_of_entries(es: Seq<(String, Shelf)>) -> Map<Seq<char>, ShelfView>
    decreases es,
{
    if es.len() == 0 {
        Map::empty()
    } else {
        view_of_entries(es.drop_last()).insert(es.last().0@, view_of_shelf(es.last().1))
    }
}

pub open spec fn view_of_shelf(s: Shelf) -> ShelfView
    decreases s,
{
    match s {
        Shelf::Leaf { value, clock } => ShelfView::Leaf { value: value@, clock },
        Shelf::Node { shelves, clock } => ShelfView::Node {
            shelves: view_of_entries(shelves@),
            clock: clock.0,
        },
    }
}

impl View for Shelf {
    type V = ShelfView;

    open spec fn view(&self) -> ShelfView {
        view_of_shelf(*self)
    }
}

/// No two entries share a key.
pub open spec fn entries_unique(es: Seq<(String, Shelf)>) -> bool {
    forall|i: int, j: int| 0 <= i < j < es.len() ==> es[i].0@ != es[j].0@
}

/// A well-formed shelf: at every map node the keys are distinct.
pub open spec fn wf_shelf(s: Shelf) -> bool
    decreases s,
{
    match s {
        Shelf::Leaf { .. } => true,
        Shelf::Node { shelves, clock } => entries_unique(shelves@) && (forall|i: int|
            0 <= i < shelves@.len() ==> wf_shelf(#[trigger] shelves@[i].1)),
    }
}

impl ShelfView {
    /// The clock at the root of this shape.
    pub open spec fn node_clock(self) -> ShelfClock {
        match self {
            ShelfView::Leaf { clock, .. } => ShelfClock::ValueClock(clock),
            ShelfView::Node { clock, .. } => ShelfClock::MapClock(LamportTimestamp(clock)),
        }
    }

    /// A well-formed shape: every map's domain is finite.
    pub open spec fn wf(self) -> bool
        decreases self,
    {
        match self {
            ShelfView::Leaf { .. } => true,
            ShelfView::Node { shelves, .. } => shelves.dom().finite() && (forall|k: Seq<char>|
                shelves.dom().contains(k) ==> (#[trigger] shelves[k]).wf()),
        }
    }
}

/// The merge of the children of two maps whose clocks are equal: the union
/// of the keys, where a key present on both sides carries the merge of the
/// two subtrees.
pub open spec fn spec_merge_kids(
    ma: Map<Seq<char>, ShelfView>,
    mb: Map<Seq<char>, ShelfView>,
) -> Map<Seq<char>, ShelfView>
    decreases ma, mb,
    when ma.dom().finite() && mb.dom().finite()
{
    Map::new(
        |k: Seq<char>| ma.dom().contains(k) || mb.dom().contains(k),
        |k: Seq<char>|
            if ma.dom().contains(k) && mb.dom().contains(k) {
                spec_merge(ma[k], mb[k])
            } else if ma.dom().contains(k) {
                ma[k]
            } else {
                mb[k]
            },
    )
}

/// The merge of two shelves: the join under the clock order.
///
/// The side with the strictly greater clock wins outright. Two maps with
/// equal clocks merge child by child. A map beats a leaf unless the leaf's
/// clock is strictly greater. Two leaves with equal clocks are the same
/// write, and the receiver keeps its own; concurrent leaves are settled by
/// the type order on values, and between equal values by the deterministic
/// clock tiebreak, so that both replicas store the same leaf.
pub open spec fn spec_merge(a: ShelfView, b: ShelfView) -> ShelfView
    decreases a, b,
{
    match (a, b) {
        (ShelfView::Node { shelves: ma, clock: ca }, ShelfView::Node { shelves: mb, clock: cb }) => {
            if ca < cb {
                b
            } else if ca > cb {
                a
            } else {
                ShelfView::Node { shelves: spec_merge_kids(ma, mb), clock: ca }
            }
        },
        (ShelfView::Node { .. }, ShelfView::Leaf { .. }) => {
            if spec_cmp_clock(a.node_clock(), b.node_clock()) == Some(Ordering::Less) {
                b
            } else {
                a
            }
        },
        (ShelfView::Leaf { .. }, ShelfView::Node { .. }) => {
            if spec_cmp_clock(a.node_clock(), b.node_clock()) == Some(Ordering::Greater) {
                a
            } else {
                b
            }
        },
        (
            ShelfView::Leaf { value: va, clock: la },
            ShelfView::Leaf { value: vb, clock: lb },
        ) => {
            let c = spec_cmp_clock(a.node_clock(), b.node_clock());
            if c == Some(Ordering::Less) {
                b
            } else if c == Some(Ordering::Greater) {
                a
            } else if c == Some(Ordering::Equal) {
                a
            } else {
                let vc = spec_cmp_value(va, vb);
                if vc == Ordering::Less {
                    b
                } else if vc == Ordering::Greater {
                    a
                } else if spec_clock_tiebreak_less(la, lb) {
                    b
                } else {
                    a
                }
            }
        },
    }
}

/// The domain of the children map is exactly the set of entry keys, and it
/// is finite.
pub proof fn lemma_view_entries_dom(es: Seq<(String, Shelf)>)
    ensures
        view_of_entries(es).dom().finite(),
        forall|k: Seq<char>|
            view_of_entries(es).dom().contains(k) <==> exists|i: int|
                0 <= i < es.len() && (#[trigger] es[i]).0@ == k,
    decreases es,
{
    if es.len() > 0 {
        lemma_view_entries_dom(es.drop_last());
        assert forall|k: Seq<char>| view_of_entries(es).dom().contains(k) implies exists|i: int|
            0 <= i < es.len() && (#[trigger] es[i]).0@ == k by {
            if k == es.last().0@ {
                assert(es[es.len() - 1].0@ == k);
            } else {
                let i = choose|i: int| 0 <= i < es.drop_last().len() && (#[trigger] es.drop_last()[i]).0@ == k;
                assert(es[i].0@ == k);
            }
        }
        assert forall|k: Seq<char>|
            (exists|i: int| 0 <= i < es.len() && (#[trigger] es[i]).0@ == k) implies view_of_entries(
            es,
        ).dom().contains(k) by {
            let i = choose|i: int| 0 <= i < es.len() && (#[trigger] es[i]).0@ == k;
            if i < es.len() - 1 {
                assert(es.drop_last()[i].0@ == k);
            }
        }
    }
}

/// With distinct keys, the child at an entry's key is that entry's shelf.
pub proof fn lemma_view_entries_at(es: Seq<(String, Shelf)>, i: int)
    requires
        entries_unique(es),
        0 <= i < es.len(),
    ensures
        view_of_entries(es)[es[i].0@] == view_of_shelf(es[i].1),
    decreases es,
{
    if i < es.len() - 1 {
        assert(entries_unique(es.drop_last())) by {
            assert(forall|x: int, y: int|
                0 <= x < y < es.drop_last().len() ==> es.drop_last()[x] == es[x] && es.drop_last()[y]
                    == es[y]);
        }
        assert(es.drop_last()[i] == es[i]);
        lemma_view_entries_at(es.drop_last(), i);
        assert(es[i].0@ != es.last().0@);
    }
}

/// Dropping the last entry keeps the keys distinct.
pub proof fn lemma_unique_drop_last(es: Seq<(String, Shelf)>)
    requires
        entries_unique(es),
        es.len() > 0,
    ensures
        entries_unique(es.drop_last()),
{
    assert(forall|x: int, y: int|
        0 <= x < y < es.drop_last().len() ==> es.drop_last()[x] == es[x] && es.drop_last()[y]
            == es[y]);
}

/// A well-formed shelf has a well-formed shape.
pub proof fn lemma_wf_shelf_view(s: Shelf)
    requires
        wf_shelf(s),
    ensures
        view_of_shelf(s).wf(),
    decreases s,
{
    match s {
        Shelf::Leaf { .. } => {},
        Shelf::Node { shelves, clock } => {
            let es = shelves@;
            lemma_view_entries_dom(es);
            assert forall|k: Seq<char>|
                view_of_entries(es).dom().contains(k) implies (#[trigger] view_of_entries(
                es,
            )[k]).wf() by {
                let i = choose|i: int| 0 <= i < es.len() && (#[trigger] es[i]).0@ == k;
                lemma_view_entries_at(es, i);
                lemma_wf_shelf_view(es[i].1);
            }
        },
    }
}

/// Appending an entry with a fresh key adds that child to the map.
pub proof fn lemma_view_entries_push(es: Seq<(String, Shelf)>, k: String, x: Shelf)
    ensures
        view_of_entries(es.push((k, x))) == view_of_entries(es).insert(k@, view_of_shelf(x)),
{
    assert(es.push((k, x)).drop_last() =~= es);
}

/// Replacing the shelf of entry `i` updates that key's child and no other.
pub proof fn lemma_view_entries_update(es: Seq<(String, Shelf)>, i: int, x: Shelf)
    requires
        entries_unique(es),
        0 <= i < es.len(),
    ensures
        view_of_entries(es.update(i, (es[i].0, x))) == view_of_entries(es).insert(
            es[i].0@,
            view_of_shelf(x),
        ),
    decreases es,
{
    let es2 = es.update(i, (es[i].0, x));
    if i == es.len() - 1 {
        assert(es2.drop_last() =~= es.drop_last());
        assert(view_of_entries(es2) =~= view_of_entries(es).insert(es[i].0@, view_of_shelf(x)));
    } else {
        lemma_unique_drop_last(es);
        assert(es.drop_last()[i] == es[i]);
        lemma_view_entries_update(es.drop_last(), i, x);
        assert(es2.drop_last() =~= es.drop_last().update(i, (es[i].0, x)));
        assert(es2.last() == es.last());
        assert(es[i].0@ != es.last().0@);
        assert(view_of_entries(es2) =~= view_of_entries(es).insert(es[i].0@, view_of_shelf(x)));
    }
}

/// Removing the first entry removes exactly its key from the map.
pub proof fn lemma_view_entries_drop_first(es: Seq<(String, Shelf)>)
    requires
        entries_unique(es),
        es.len() > 0,
    ensures
        view_of_entries(es) == view_of_entries(es.drop_first()).insert(
            es[0].0@,
            view_of_shelf(es[0].1),
        ),
        view_of_entries(es.drop_first()) == view_of_entries(es).remove(es[0].0@),
        entries_unique(es.drop_first()),
    decreases es,
{
    assert(forall|x: int, y: int|
        0 <= x < y < es.drop_first().len() ==> es.drop_first()[x] == es[x + 1]
            && es.drop_first()[y] == es[y + 1]);
    if es.len() == 1 {
        assert(es.drop_first() =~= es.drop_last());
        assert(view_of_entries(es.drop_first()) =~= view_of_entries(es).remove(es[0].0@));
        assert(view_of_entries(es) =~= view_of_entries(es.drop_first()).insert(
            es[0].0@,
            view_of_shelf(es[0].1),
        ));
    } else {
        lemma_unique_drop_last(es);
        lemma_view_entries_drop_first(es.drop_last());
        assert(es.drop_last()[0] == es[0]);
        assert(es.drop_first().drop_last() =~= es.drop_last().drop_first());
        assert(es.drop_first().last() == es.last());
        assert(es[0].0@ != es.last().0@);
        lemma_view_entries_dom(es.drop_first().drop_last());
        assert(view_of_entries(es) =~= view_of_entries(es.drop_first()).insert(
            es[0].0@,
            view_of_shelf(es[0].1),
        ));
        assert(view_of_entries(es.drop_first()) =~= view_of_entries(es).remove(es[0].0@));
    }
}

/// Two entry lists with equal keys and equal child shapes, in order, have
/// the same children map.
pub proof fn lemma_view_entries_congruence(es: Seq<(String, Shelf)>, fs: Seq<(String, Shelf)>)
    requires
        es.len() == fs.len(),
        forall|i: int|
            0 <= i < es.len() ==> (#[trigger] es[i]).0@ == fs[i].0@ && view_of_shelf(es[i].1)
                == view_of_shelf(fs[i].1),
    ensures
        view_of_entries(es) == view_of_entries(fs),
    decreases es,
{
    if es.len() > 0 {
        assert(forall|i: int|
            0 <= i < es.drop_last().len() ==> es.drop_last()[i] == es[i] && fs.drop_last()[i]
                == fs[i]);
        lemma_view_entries_congruence(es.drop_last(), fs.drop_last());
        assert(es[es.len() - 1].0@ == fs[es.len() - 1].0@);
        assert(view_of_entries(es) =~= view_of_entries(fs));
    }
}

/// Whether two strings hold the same characters.
pub fn str_eq(a: &str, b: &str) -> (r: bool)
    ensures
        r == (a@ == b@),
{
    let na = a.unicode_len();
    let nb = b.unicode_len();
    if na != nb {
        return false;
    }
    let mut i: usize = 0;
    while i < na
        invariant
            i <= na,
            na == a@.len() && na == b@.len(),
            forall|j: int| 0 <= j < i as int ==> a@[j] == b@[j],
        decreases na - i,
    {
        let ca = a.get_char(i);
        let cb = b.get_char(i);
        if ca != cb {
            return false;
        }
        i = i + 1;
    }
    proof {
        assert(a@ =~= b@);
    }
    true
}

/// The position of the entry holding `key`, if one exists.
pub(crate) fn find_key(es: &Vec<(String, Shelf)>, key: &str) -> (r: Option<usize>)
    ensures
        match r {
            Some(i) => i < es@.len() && es@[i as int].0@ == key@,
            None => forall|i: int| 0 <= i < es@.len() ==> (#[trigger] es@[i]).0@ != key@,
        },
{
    let mut i: usize = 0;
    while i < es.len()
        invariant
            i <= es@.len(),
            forall|j: int| 0 <= j < i as int ==> (#[trigger] es@[j]).0@ != key@,
        decreases es@.len() - i,
    {
        if str_eq(es[i].0.as_str(), key) {
            return Some(i);
        }
        i = i + 1;
    }
    None
}

impl Shelf {
    /// The clock at the root of this shelf.
    pub fn get_clock(&self) -> (r: ShelfClock)
        ensures
            r == self@.node_clock(),
    {
        match self {
            Shelf::Leaf { clock, .. } => ShelfClock::ValueClock(*clock),
            Shelf::Node { clock, .. } => ShelfClock::MapClock(*clock),
        }
    }

    /// Whether more shelves are nested inside this one.
    pub fn contains_shelves(&self) -> (r: bool)
        ensures
            r == (self@ is Node),
    {
        match self {
            Shelf::Node { .. } => true,
            Shelf::Leaf { .. } => false,
        }
    }

    /// The child shelf under `key`, if this shelf is a map and holds one.
    pub fn get(&self, key: &str) -> (r: Option<&Shelf>)
        requires
            wf_shelf(*self),
        ensures
            match r {
                Some(c) => self@ is Node && self@->Node_shelves.dom().contains(key@)
                    && c@ == self@->Node_shelves[key@] && wf_shelf(*c),
                None => !(self@ is Node && self@->Node_shelves.dom().contains(key@)),
            },
    {
        match self {
            Shelf::Leaf { .. } => None,
            Shelf::Node { shelves, .. } => {
                proof {
                    lemma_view_entries_dom(shelves@);
                }
                match find_key(shelves, key) {
                    Some(i) => {
                        proof {
                            lemma_view_entries_at(shelves@, i as int);
                        }
                        Some(&shelves[i].1)
                    },
                    None => None,
                }
            },
        }
    }
}

pub proof fn lemma_merge_kids_empty(m: Map<Seq<char>, ShelfView>)
    requires
        m.dom().finite(),
    ensures
        spec_merge_kids(m, Map::empty()) == m,
{
    assert(spec_merge_kids(m, Map::empty()) =~= m);
}

/// Merging one child of `vb` into `va` and removing it from `vb` leaves
/// the merged children unchanged.
pub proof fn lemma_merge_kids_step(
    va: Map<Seq<char>, ShelfView>,
    vb: Map<Seq<char>, ShelfView>,
    k: Seq<char>,
    x: ShelfView,
)
    requires
        va.dom().finite(),
        vb.dom().finite(),
        vb.dom().contains(k),
        x == if va.dom().contains(k) {
            spec_merge(va[k], vb[k])
        } else {
            vb[k]
        },
    ensures
        spec_merge_kids(va.insert(k, x), vb.remove(k)) == spec_merge_kids(va, vb),
{
    assert(spec_merge_kids(va.insert(k, x), vb.remove(k)) =~= spec_merge_kids(va, vb));
}

impl Clone for Shelf {
    fn clone(&self) -> (res: Self)
        ensures
            res@ == self@,
            wf_shelf(*self) ==> wf_shelf(res),
        decreases self,
    {
        match self {
            Shelf::Leaf { value, clock } => Shelf::Leaf { value: value.clone(), clock: *clock },
            Shelf::Node { shelves, clock } => {
                let mut out: Vec<(String, Shelf)> = Vec::new();
                let mut i: usize = 0;
                while i < shelves.len()
                    invariant
                        i <= shelves@.len(),
                        *self == (Shelf::Node { shelves: *shelves, clock: *clock }),
                        out@.len() == i as int,
                        forall|j: int|
                            0 <= j < i as int ==> (#[trigger] out@[j]).0 == shelves@[j].0
                                && out@[j].1@ == shelves@[j].1@ && (wf_shelf(shelves@[j].1)
                                ==> wf_shelf(out@[j].1)),
                    decreases shelves@.len() - i,
                {
                    proof {
                        let g: Shelf = *self;
                        assert(decreases_to!(g => g->Node_shelves));
                        assert(decreases_to!(g->Node_shelves => g->Node_shelves@));
                        assert(g->Node_shelves@ == shelves@);
                        assert(decreases_to!(shelves@ => shelves@[i as int]));
                        assert(decreases_to!(shelves@[i as int] => shelves@[i as int].1));
                        assert(decreases_to!(g => shelves@[i as int].1));
                    }
                    let e = &shelves[i];
                    out.push((e.0.clone(), e.1.clone()));
                    i = i + 1;
                }
                proof {
                    lemma_view_entries_congruence(out@, shelves@);
                    if wf_shelf(*self) {
                        assert(entries_unique(out@)) by {
                            assert(forall|x: int|
                                0 <= x < out@.len() ==> (#[trigger] out@[x]).0@ == shelves@[x].0@);
                        }
                        assert(forall|j: int|
                            0 <= j < out@.len() ==> wf_shelf(#[trigger] out@[j].1));
                    }
                }
                Shelf::Node { shelves: out, clock: *clock }
            },
        }
    }
}

impl Shelf {
    /// Merges another shelf into this one and returns the join.
    pub fn merge(self, other: Self) -> (r: Self)
        requires
            wf_shelf(self),
            wf_shelf(other),
        ensures
            r@ == spec_merge(self@, other@),
            wf_shelf(r),
    {
        merge_rec(self, &other)
    }
}

/// The recursive worker of the merge: consumes the receiver's tree and
/// reads the incoming one.
fn merge_rec(a: Shelf, b: &Shelf) -> (r: Shelf)
    requires
        wf_shelf(a),
        wf_shelf(*b),
    ensures
        r@ == spec_merge(a@, b@),
        wf_shelf(r),
    decreases b,
{
    let ghost a0 = a;
    let c = cmp_clock(&a.get_clock(), &b.get_clock());
    if matches!(c, Some(Ordering::Less)) {
        return b.clone();
    }
    if matches!(c, Some(Ordering::Greater)) {
        return a;
    }
    match (a, b) {
        (s @ Shelf::Node { .. }, Shelf::Leaf { .. }) => s,
        (Shelf::Leaf { .. }, Shelf::Node { .. }) => b.clone(),
        (Shelf::Leaf { value: va, clock: la }, Shelf::Leaf { value: vb, clock: lb }) => {
            if matches!(c, Some(Ordering::Equal)) {
                Shelf::Leaf { value: va, clock: la }
            } else {
                match va.cmp_value(vb) {
                    Ordering::Less => Shelf::Leaf { value: vb.clone(), clock: *lb },
                    Ordering::Greater => Shelf::Leaf { value: va, clock: la },
                    Ordering::Equal => {
                        if clock_tiebreak_less(&la, lb) {
                            Shelf::Leaf { value: vb.clone(), clock: *lb }
                        } else {
                            Shelf::Leaf { value: va, clock: la }
                        }
                    },
                }
            }
        },
        (Shelf::Node { shelves: mut sa, clock: ca }, Shelf::Node { shelves: sb, clock: cb }) => {
            let ghost aes0 = sa@;
            let ghost obes = sb@;
            let ghost va0 = view_of_entries(aes0);
            let ghost vb0 = view_of_entries(obes);
            let ghost target = spec_merge_kids(va0, vb0);
            let mut i: usize = 0;
            proof {
                assert(ca.0 == cb.0);
                assert(a0 is Node && a0->Node_shelves@ == aes0);
                assert(obes.skip(0) =~= obes);
            }
            while i < sb.len()
                invariant
                    wf_shelf(*b),
                    *b == (Shelf::Node { shelves: *sb, clock: *cb }),
                    obes == sb@,
                    0 <= i as int <= obes.len(),
                    entries_unique(sa@),
                    forall|j: int| 0 <= j < sa@.len() ==> wf_shelf(#[trigger] sa@[j].1),
                    spec_merge_kids(view_of_entries(sa@), view_of_entries(obes.skip(i as int)))
                        == target,
                decreases obes.len() - i,
            {
                let ghost p = i as int;
                let ghost rem = obes.skip(p);
                proof {
                    lemma_view_entries_dom(sa@);
                    lemma_view_entries_dom(rem);
                    assert(forall|x: int, y: int|
                        0 <= x < y < rem.len() ==> rem[x] == obes[x + p] && rem[y] == obes[y + p]);
                    assert(entries_unique(rem));
                    assert(rem[0] == obes[p]);
                    assert(wf_shelf(obes[p].1));
                    lemma_view_entries_drop_first(rem);
                    assert(rem.drop_first() =~= obes.skip(p + 1));
                }
                let ghost vbpre = view_of_entries(rem);
                let ghost vapre = view_of_entries(sa@);
                let kb = &sb[i].0;
                let bv = &sb[i].1;
                proof {
                    assert((*kb, *bv) == obes[p]);
                    lemma_view_entries_at(rem, 0);
                    assert(vbpre[kb@] == view_of_shelf(*bv));
                    let g: Shelf = *b;
                    assert(decreases_to!(g => g->Node_shelves));
                    assert(decreases_to!(g->Node_shelves => g->Node_shelves@));
                    assert(g->Node_shelves@ == obes);
                    assert(decreases_to!(obes => obes[p]));
                    assert(decreases_to!(obes[p] => obes[p].1));
                    assert(obes[p].1 == *bv);
                    assert(decreases_to!(g => *bv));
                }
                match find_key(&sa, kb.as_str()) {
                    Some(idx) => {
                        let ghost sapre = sa@;
                        let (ks, av) = sa.remove(idx);
                        let ghost ksg = ks;
                        proof {
                            assert(sapre[idx as int] == (ksg, av));
                            lemma_view_entries_at(sapre, idx as int);
                            assert(vapre[kb@] == view_of_shelf(av));
                            assert(wf_shelf(av));
                        }
                        let merged = merge_rec(av, bv);
                        let ghost mg = merged;
                        sa.insert(idx, (ks, merged));
                        proof {
                            assert(sa@ =~= sapre.update(idx as int, (ksg, mg)));
                            lemma_view_entries_update(sapre, idx as int, mg);
                            assert(entries_unique(sa@)) by {
                                assert(forall|x: int|
                                    0 <= x < sa@.len() ==> (#[trigger] sa@[x]).0@ == sapre[x].0@);
                            }
                            lemma_merge_kids_step(vapre, vbpre, kb@, view_of_shelf(mg));
                            assert(view_of_entries(obes.skip(p + 1)) == vbpre.remove(kb@));
                            assert(view_of_entries(sa@) == vapre.insert(kb@, view_of_shelf(mg)));
                        }
                    },
                    None => {
                        let ghost sapre = sa@;
                        proof {
                            assert(forall|x: int|
                                0 <= x < sapre.len() ==> (#[trigger] sapre[x]).0@ != kb@);
                            assert(!vapre.dom().contains(kb@));
                        }
                        let kc = kb.clone();
                        let bc = bv.clone();
                        let ghost kcg = kc;
                        let ghost bcg = bc;
                        sa.push((kc, bc));
                        proof {
                            assert(sa@ == sapre.push((kcg, bcg)));
                            lemma_view_entries_push(sapre, kcg, bcg);
                            assert(entries_unique(sa@)) by {
                                assert(forall|x: int|
                                    0 <= x < sapre.len() ==> sa@[x] == sapre[x]);
                                assert(sa@[sa@.len() - 1].0@ == kb@);
                            }
                            lemma_merge_kids_step(vapre, vbpre, kb@, view_of_shelf(bcg));
                            assert(view_of_entries(obes.skip(p + 1)) == vbpre.remove(kb@));
                            assert(view_of_entries(sa@) == vapre.insert(kb@, view_of_shelf(bcg)));
                        }
                    },
                }
                i = i + 1;
            }
            proof {
                lemma_view_entries_dom(sa@);
                lemma_view_entries_dom(aes0);
                lemma_view_entries_dom(obes);
                assert(obes.skip(i as int) =~= Seq::<(String, Shelf)>::empty());
                assert(view_of_entries(obes.skip(i as int)) =~= Map::<Seq<char>, ShelfView>::empty());
                lemma_merge_kids_empty(view_of_entries(sa@));
                assert(view_of_entries(sa@) == target);
                assert(a0@ == (ShelfView::Node { shelves: va0, clock: ca.0 }));
                assert(b@ == (ShelfView::Node { shelves: vb0, clock: cb.0 }));
            }
            let r = Shelf::Node { shelves: sa, clock: ca };
            proof {
                assert(spec_merge(a0@, b@) == (ShelfView::Node { shelves: target, clock: ca.0 }))
                    by {
                    reveal_with_fuel(spec_merge, 2);
                    assert(a0@ is Node && b@ is Node);
                    assert(a0@->Node_clock == ca.0 && b@->Node_clock == cb.0);
                    assert(a0@->Node_shelves == va0 && b@->Node_shelves == vb0);
                };
                assert(r@ == (ShelfView::Node { shelves: target, clock: ca.0 }));
            }
            r
        },
    }
}

/// The children that survive a prune against the map clock `c`: those
/// whose clock is not strictly less than the map's.
pub open spec fn spec_prune_kids(
    m: Map<Seq<char>, ShelfView>,
    c: u64,
) -> Map<Seq<char>, ShelfView> {
    Map::new(
        |k: Seq<char>| m.dom().contains(k) && spec_cmp_clock(
            (if m.dom().contains(k) {
                m[k]
            } else {
                ShelfView::Node { shelves: Map::empty(), clock: 0 }
            }).node_clock(),
            ShelfClock::MapClock(LamportTimestamp(c)),
        ) != Some(Ordering::Less),
        |k: Seq<char>| m[k],
    )
}

/// One pruning step: a map discards every child whose clock is strictly
/// less than its own; a leaf is unchanged.
pub open spec fn spec_prune(v: ShelfView) -> ShelfView {
    match v {
        ShelfView::Leaf { .. } => v,
        ShelfView::Node { shelves, clock } => ShelfView::Node {
            shelves: spec_prune_kids(shelves, clock),
            clock,
        },
    }
}

/// A recursive prune: every map in the tree discards its out-of-date
/// children. The result is the least shelf that keeps all children whose
/// clocks are not behind their parent's.
pub open spec fn spec_gc(v: ShelfView) -> ShelfView
    decreases v, 0int,
    when v.wf()
    via spec_gc_dec
{
    match v {
        ShelfView::Leaf { .. } => v,
        ShelfView::Node { shelves, clock } => ShelfView::Node {
            shelves: spec_gc_kids(shelves, clock),
            clock,
        },
    }
}

/// The children that survive a recursive prune, each recursively pruned.
pub open spec fn spec_gc_kids(m: Map<Seq<char>, ShelfView>, c: u64) -> Map<Seq<char>, ShelfView>
    decreases m, 1int,
    when m.dom().finite() && (forall|k: Seq<char>|
        m.dom().contains(k) ==> (#[trigger] m[k]).wf())
    via spec_gc_kids_dec
{
    Map::new(
        |k: Seq<char>|
            if m.dom().contains(k) {
                spec_cmp_clock(m[k].node_clock(), ShelfClock::MapClock(LamportTimestamp(c)))
                    != Some(Ordering::Less)
            } else {
                false
            },
        |k: Seq<char>|
            if m.dom().contains(k) {
                spec_gc(m[k])
            } else {
                ShelfView::Node { shelves: Map::empty(), clock: 0 }
            },
    )
}

#[via_fn]
proof fn spec_gc_dec(v: ShelfView) {
    match v {
        ShelfView::Node { shelves, .. } => {
            assert(decreases_to!(v => v->Node_shelves));
        },
        _ => {},
    }
}

#[via_fn]
proof fn spec_gc_kids_dec(m: Map<Seq<char>, ShelfView>, c: u64) {
    assert forall|k: Seq<char>| m.dom().contains(k) implies decreases_to!(m => m[k]) by {
        assert(decreases_to!(m => m[k]));
    }
}

impl Shelf {
    /// Discards every child whose clock is strictly less than this map's
    /// clock. Children that are newer, equal, or concurrent are kept. A
    /// leaf is unchanged.
    pub fn prune(&mut self)
        requires
            wf_shelf(*old(self)),
        ensures
            final(self)@ == spec_prune(old(self)@),
            wf_shelf(*final(self)),
    {
        match self {
            Shelf::Leaf { .. } => {},
            Shelf::Node { shelves, clock } => {
                let ghost es = shelves@;
                let ghost m0 = view_of_entries(es);
                let ghost c = clock.0;
                proof {
                    lemma_view_entries_dom(es);
                }
                let mut out: Vec<(String, Shelf)> = Vec::new();
                let mut i: usize = 0;
                while i < shelves.len()
                    invariant
                        i <= es.len(),
                        es == shelves@,
                        m0 == view_of_entries(es),
                        c == clock.0,
                        entries_unique(es),
                        forall|j: int| 0 <= j < es.len() ==> wf_shelf(#[trigger] es[j].1),
                        forall|x: int|
                            0 <= x < out@.len() ==> exists|j: int|
                                0 <= j < i as int && (#[trigger] out@[x]).0 == es[j].0
                                    && out@[x].1@ == es[j].1@ && wf_shelf(out@[x].1),
                        forall|j: int|
                            0 <= j < i as int && spec_cmp_clock(
                                view_of_shelf((#[trigger] es[j]).1).node_clock(),
                                ShelfClock::MapClock(LamportTimestamp(c)),
                            ) != Some(Ordering::Less) ==> exists|x: int|
                                0 <= x < out@.len() && (#[trigger] out@[x]).0@ == es[j].0@,
                        forall|x: int|
                            0 <= x < out@.len() ==> spec_cmp_clock(
                                view_of_shelf((#[trigger] out@[x]).1).node_clock(),
                                ShelfClock::MapClock(LamportTimestamp(c)),
                            ) != Some(Ordering::Less),
                        entries_unique(out@),
                    decreases es.len() - i,
                {
                    let e = &shelves[i];
                    proof {
                        assert(*e == es[i as int]);
                    }
                    let ccmp = cmp_clock(&e.1.get_clock(), &ShelfClock::MapClock(*clock));
                    proof {
                        assert(LamportTimestamp(c) == *clock);
                        assert(ccmp == spec_cmp_clock(
                            view_of_shelf(es[i as int].1).node_clock(),
                            ShelfClock::MapClock(LamportTimestamp(c)),
                        ));
                    }
                    if !matches!(ccmp, Some(Ordering::Less)) {
                        let ghost outpre = out@;
                        proof {
                            assert(forall|x: int|
                                0 <= x < outpre.len() ==> (#[trigger] outpre[x]).0@
                                    != es[i as int].0@);
                        }
                        out.push((e.0.clone(), e.1.clone()));
                        proof {
                            assert(forall|x: int|
                                0 <= x < outpre.len() ==> out@[x] == outpre[x]);
                            assert(out@[out@.len() - 1].0 == es[i as int].0);
                            assert(out@[out@.len() - 1].0@ == es[i as int].0@);
                            assert(out@[out@.len() - 1].1@ == es[i as int].1@);
                        }
                    }
                    proof {
                        assert forall|j: int|
                            0 <= j < i as int + 1 && spec_cmp_clock(
                                view_of_shelf((#[trigger] es[j]).1).node_clock(),
                                ShelfClock::MapClock(LamportTimestamp(c)),
                            ) != Some(Ordering::Less) implies exists|x: int|
                            0 <= x < out@.len() && (#[trigger] out@[x]).0@ == es[j].0@ by {
                            if j == i as int {
                                assert(out@[out@.len() - 1].0@ == es[j].0@);
                            }
                        }
                    }
                    i = i + 1;
                }
                proof {
                    lemma_view_entries_dom(out@);
                    assert(view_of_entries(out@) =~= spec_prune_kids(m0, c)) by {
                        assert forall|k: Seq<char>|
                            view_of_entries(out@).dom().contains(k) <==> spec_prune_kids(
                            m0,
                            c,
                        ).dom().contains(k) by {
                            if view_of_entries(out@).dom().contains(k) {
                                let x = choose|x: int|
                                    0 <= x < out@.len() && (#[trigger] out@[x]).0@ == k;
                                let j = choose|j: int|
                                    0 <= j < es.len() && (#[trigger] out@[x]).0 == es[j].0
                                        && out@[x].1@ == es[j].1@ && wf_shelf(out@[x].1);
                                lemma_view_entries_at(es, j);
                            }
                            if m0.dom().contains(k) {
                                let j = choose|j: int|
                                    0 <= j < es.len() && (#[trigger] es[j]).0@ == k;
                                lemma_view_entries_at(es, j);
                            }
                        }
                        assert forall|k: Seq<char>|
                            view_of_entries(out@).dom().contains(k) implies view_of_entries(
                            out@,
                        )[k] == spec_prune_kids(m0, c)[k] by {
                            let x = choose|x: int|
                                0 <= x < out@.len() && (#[trigger] out@[x]).0@ == k;
                            lemma_view_entries_at(out@, x);
                            let j = choose|j: int|
                                0 <= j < es.len() && (#[trigger] out@[x]).0 == es[j].0
                                    && out@[x].1@ == es[j].1@ && wf_shelf(out@[x].1);
                            lemma_view_entries_at(es, j);
                        }
                    }
                    assert(forall|j: int| 0 <= j < out@.len() ==> wf_shelf(#[trigger] out@[j].1));
                }
                *shelves = out;
            },
        }
    }
}

/// The recursive worker of the garbage collection: builds the pruned tree.
fn gc_of(s: &Shelf) -> (r: Shelf)
    requires
        wf_shelf(*s),
    ensures
        r@ == spec_gc(s@),
        wf_shelf(r),
    decreases s,
{
    proof {
        lemma_wf_shelf_view(*s);
    }
    match s {
        Shelf::Leaf { .. } => s.clone(),
        Shelf::Node { shelves, clock } => {
            let ghost es = shelves@;
            let ghost m0 = view_of_entries(es);
            let ghost c = clock.0;
            proof {
                lemma_view_entries_dom(es);
            }
            let mut out: Vec<(String, Shelf)> = Vec::new();
            let mut i: usize = 0;
            while i < shelves.len()
                invariant
                    i <= es.len(),
                    *s == (Shelf::Node { shelves: *shelves, clock: *clock }),
                    es == shelves@,
                    m0 == view_of_entries(es),
                    c == clock.0,
                    entries_unique(es),
                    forall|j: int| 0 <= j < es.len() ==> wf_shelf(#[trigger] es[j].1),
                    forall|x: int|
                        0 <= x < out@.len() ==> exists|j: int|
                            0 <= j < i as int && (#[trigger] out@[x]).0 == es[j].0 && out@[x].1@
                                == spec_gc(es[j].1@) && wf_shelf(out@[x].1),
                    forall|j: int|
                        0 <= j < i as int && spec_cmp_clock(
                            view_of_shelf((#[trigger] es[j]).1).node_clock(),
                            ShelfClock::MapClock(LamportTimestamp(c)),
                        ) != Some(Ordering::Less) ==> exists|x: int|
                            0 <= x < out@.len() && (#[trigger] out@[x]).0@ == es[j].0@,
                    forall|x: int|
                        0 <= x < out@.len() ==> spec_cmp_clock(
                            view_of_shelf((#[trigger] out@[x]).1).node_clock(),
                            ShelfClock::MapClock(LamportTimestamp(c)),
                        ) != Some(Ordering::Less),
                    entries_unique(out@),
                decreases es.len() - i,
            {
                let e = &shelves[i];
                proof {
                    assert(*e == es[i as int]);
                    let g: Shelf = *s;
                    assert(decreases_to!(g => g->Node_shelves));
                    assert(decreases_to!(g->Node_shelves => g->Node_shelves@));
                    assert(g->Node_shelves@ == es);
                    assert(decreases_to!(es => es[i as int]));
                    assert(decreases_to!(es[i as int] => es[i as int].1));
                    assert(decreases_to!(g => es[i as int].1));
                    lemma_wf_shelf_view(es[i as int].1);
                }
                let ccmp = cmp_clock(&e.1.get_clock(), &ShelfClock::MapClock(*clock));
                proof {
                    assert(LamportTimestamp(c) == *clock);
                    assert(ccmp == spec_cmp_clock(
                        view_of_shelf(es[i as int].1).node_clock(),
                        ShelfClock::MapClock(LamportTimestamp(c)),
                    ));
                }
                if !matches!(ccmp, Some(Ordering::Less)) {
                    let child = gc_of(&e.1);
                    let ghost outpre = out@;
                    proof {
                        assert(forall|x: int|
                            0 <= x < outpre.len() ==> (#[trigger] outpre[x]).0@
                                != es[i as int].0@);
                    }
                    out.push((e.0.clone(), child));
                    proof {
                        assert(forall|x: int| 0 <= x < outpre.len() ==> out@[x] == outpre[x]);
                        assert(out@[out@.len() - 1].0 == es[i as int].0);
                        assert(out@[out@.len() - 1].0@ == es[i as int].0@);
                        assert(out@[out@.len() - 1].1@ == spec_gc(es[i as int].1@));
                    }
                }
                proof {
                    assert forall|j: int|
                        0 <= j < i as int + 1 && spec_cmp_clock(
                            view_of_shelf((#[trigger] es[j]).1).node_clock(),
                            ShelfClock::MapClock(LamportTimestamp(c)),
                        ) != Some(Ordering::Less) implies exists|x: int|
                        0 <= x < out@.len() && (#[trigger] out@[x]).0@ == es[j].0@ by {
                        if j == i as int {
                            assert(out@[out@.len() - 1].0@ == es[j].0@);
                        }
                    }
                }
                i = i + 1;
            }
            proof {
                lemma_view_entries_dom(out@);
                assert(view_of_entries(out@) =~= spec_gc_kids(m0, c)) by {
                    assert forall|k: Seq<char>|
                        view_of_entries(out@).dom().contains(k) <==> spec_gc_kids(
                        m0,
                        c,
                    ).dom().contains(k) by {
                        if view_of_entries(out@).dom().contains(k) {
                            let x = choose|x: int|
                                0 <= x < out@.len() && (#[trigger] out@[x]).0@ == k;
                            let j = choose|j: int|
                                0 <= j < es.len() && (#[trigger] out@[x]).0 == es[j].0 && out@[x].1@
                                    == spec_gc(es[j].1@) && wf_shelf(out@[x].1);
                            lemma_view_entries_at(es, j);
                        }
                        if m0.dom().contains(k) {
                            let j = choose|j: int|
                                0 <= j < es.len() && (#[trigger] es[j]).0@ == k;
                            lemma_view_entries_at(es, j);
                        }
                    }
                    assert forall|k: Seq<char>|
                        view_of_entries(out@).dom().contains(k) implies view_of_entries(out@)[k]
                        == spec_gc_kids(m0, c)[k] by {
                        let x = choose|x: int|
                            0 <= x < out@.len() && (#[trigger] out@[x]).0@ == k;
                        lemma_view_entries_at(out@, x);
                        let j = choose|j: int|
                            0 <= j < es.len() && (#[trigger] out@[x]).0 == es[j].0 && out@[x].1@
                                == spec_gc(es[j].1@) && wf_shelf(out@[x].1);
                        lemma_view_entries_at(es, j);
                    }
                }
                assert(forall|j: int| 0 <= j < out@.len() ==> wf_shelf(#[trigger] out@[j].1));
            }
            Shelf::Node { shelves: out, clock: *clock }
        },
    }
}

impl Shelf {
    /// Recursively prunes the whole tree: every map discards the children
    /// whose clocks its own clock has overtaken.
    pub fn garbage_collect(&mut self)
        requires
            wf_shelf(*old(self)),
        ensures
            final(self)@ == spec_gc(old(self)@),
            wf_shelf(*final(self)),
    {
        let pruned = gc_of(self);
        *self = pruned;
    }
}

/// Whether every leaf of this shape is bound to its value: each leaf
/// carries a secure clock whose hash matches the pair of its counter and
/// its value.
pub open spec fn spec_verify_contents(v: ShelfView) -> bool
    decreases v,
    when v.wf()
    via spec_verify_contents_dec
{
    match v {
        ShelfView::Leaf { value, clock } => match clock {
            LeafClock::Secure(sc) => sc.hash == crate::value::spec_hash_pair(sc.clock, value),
            _ => false,
        },
        ShelfView::Node { shelves, .. } => forall|k: Seq<char>|
            shelves.dom().contains(k) ==> spec_verify_contents(#[trigger] shelves[k]),
    }
}

#[via_fn]
proof fn spec_verify_contents_dec(v: ShelfView) {
    match v {
        ShelfView::Node { shelves, .. } => {
            assert(decreases_to!(v => v->Node_shelves));
            let m = v->Node_shelves;
            assert forall|k: Seq<char>| m.dom().contains(k) implies decreases_to!(v => m[k]) by {
                assert(decreases_to!(m => m[k]));
            }
        },
        _ => {},
    }
}

/// The children of a tamper-checking merge of two maps with equal clocks:
/// a key on both sides carries the tamper-checking merge of the subtrees;
/// a key only the remote side holds is admitted only if every leaf under
/// it verifies.
pub open spec fn spec_secure_kids(
    ma: Map<Seq<char>, ShelfView>,
    mb: Map<Seq<char>, ShelfView>,
) -> Map<Seq<char>, ShelfView>
    decreases ma, mb,
    when ma.dom().finite() && mb.dom().finite() && (forall|k: Seq<char>|
        mb.dom().contains(k) ==> (#[trigger] mb[k]).wf())
{
    Map::new(
        |k: Seq<char>| ma.dom().contains(k) || (mb.dom().contains(k) && spec_verify_contents(
            mb[k],
        )),
        |k: Seq<char>|
            if ma.dom().contains(k) && mb.dom().contains(k) {
                spec_secure_merge(ma[k], mb[k])
            } else if ma.dom().contains(k) {
                ma[k]
            } else {
                mb[k]
            },
    )
}

/// The tamper-checking merge: as the plain merge, except that wherever the
/// remote side would replace local state, the arriving subtree must verify
/// first; a failing subtree is silently dropped and the local state kept.
pub open spec fn spec_secure_merge(a: ShelfView, b: ShelfView) -> ShelfView
    decreases a, b,
    when b.wf()
{
    match (a, b) {
        (ShelfView::Node { shelves: ma, clock: ca }, ShelfView::Node { shelves: mb, clock: cb }) => {
            if ca < cb {
                if spec_verify_contents(b) {
                    b
                } else {
                    a
                }
            } else if ca > cb {
                a
            } else {
                ShelfView::Node { shelves: spec_secure_kids(ma, mb), clock: ca }
            }
        },
        (ShelfView::Node { .. }, ShelfView::Leaf { .. }) => {
            if spec_cmp_clock(a.node_clock(), b.node_clock()) == Some(Ordering::Less)
                && spec_verify_contents(b) {
                b
            } else {
                a
            }
        },
        (ShelfView::Leaf { .. }, ShelfView::Node { .. }) => {
            if spec_cmp_clock(a.node_clock(), b.node_clock()) == Some(Ordering::Greater) {
                a
            } else if spec_verify_contents(b) {
                b
            } else {
                a
            }
        },
        (
            ShelfView::Leaf { value: va, clock: la },
            ShelfView::Leaf { value: vb, clock: lb },
        ) => {
            let c = spec_cmp_clock(a.node_clock(), b.node_clock());
            if c == Some(Ordering::Less) {
                if spec_verify_contents(b) {
                    b
                } else {
                    a
                }
            } else if c == Some(Ordering::Greater) {
                a
            } else if c == Some(Ordering::Equal) {
                a
            } else {
                let vc = spec_cmp_value(va, vb);
                let b_wins = vc == Ordering::Less || (vc == Ordering::Equal
                    && spec_clock_tiebreak_less(la, lb));
                if b_wins && spec_verify_contents(b) {
                    b
                } else {
                    a
                }
            }
        },
    }
}

impl Shelf {
    /// Whether every leaf of this shelf verifies against its clock's hash.
    pub fn verify_contents(&self) -> (r: bool)
        requires
            wf_shelf(*self),
        ensures
            r == spec_verify_contents(self@),
        decreases self,
    {
        proof {
            lemma_wf_shelf_view(*self);
        }
        match self {
            Shelf::Leaf { value, clock } => match clock {
                LeafClock::Secure(sc) => sc.verify(value),
                _ => false,
            },
            Shelf::Node { shelves, .. } => {
                let ghost es = shelves@;
                let ghost m0 = view_of_entries(es);
                proof {
                    lemma_view_entries_dom(es);
                }
                let mut i: usize = 0;
                while i < shelves.len()
                    invariant
                        i <= es.len(),
                        es == shelves@,
                        m0 == view_of_entries(es),
                        wf_shelf(*self),
                        self@.wf(),
                        *self is Node,
                        (*self)->Node_shelves@ == es,
                        forall|j: int|
                            0 <= j < i as int ==> spec_verify_contents(view_of_shelf(
                                (#[trigger] es[j]).1,
                            )),
                    decreases es.len() - i,
                {
                    let e = &shelves[i];
                    proof {
                        assert(*e == es[i as int]);
                        let g: Shelf = *self;
                        assert(decreases_to!(g => g->Node_shelves));
                        assert(decreases_to!(g->Node_shelves => g->Node_shelves@));
                        assert(g->Node_shelves@ == es);
                        assert(decreases_to!(es => es[i as int]));
                        assert(decreases_to!(es[i as int] => es[i as int].1));
                        assert(decreases_to!(g => es[i as int].1));
                        assert(wf_shelf(es[i as int].1));
                    }
                    if !e.1.verify_contents() {
                        proof {
                            lemma_view_entries_dom(es);
                            lemma_view_entries_at(es, i as int);
                            assert(m0.dom().contains(es[i as int].0@));
                            assert(!spec_verify_contents(m0[es[i as int].0@]));
                        }
                        return false;
                    }
                    i = i + 1;
                }
                proof {
                    assert forall|k: Seq<char>| m0.dom().contains(k) implies spec_verify_contents(
                        #[trigger] m0[k],
                    ) by {
                        let j = choose|j: int| 0 <= j < es.len() && (#[trigger] es[j]).0@ == k;
                        lemma_view_entries_at(es, j);
                    }
                }
                true
            },
        }
    }

    /// Merges another shelf into this one, dropping any arriving subtree
    /// that fails verification, and returns the join.
    pub fn secure_merge(self, other: Self) -> (r: Self)
        requires
            wf_shelf(self),
            wf_shelf(other),
        ensures
            r@ == spec_secure_merge(self@, other@),
            wf_shelf(r),
    {
        secure_merge_rec(self, &other)
    }
}

pub proof fn lemma_secure_kids_empty(m: Map<Seq<char>, ShelfView>)
    requires
        m.dom().finite(),
    ensures
        spec_secure_kids(m, Map::empty()) == m,
{
    assert(spec_secure_kids(m, Map::empty()) =~= m);
}

/// One step of the tamper-checking merge of two child maps: handling the
/// child at `k` and removing it from the remote side changes nothing.
pub proof fn lemma_secure_kids_step(
    va: Map<Seq<char>, ShelfView>,
    vb: Map<Seq<char>, ShelfView>,
    k: Seq<char>,
    x: Option<ShelfView>,
)
    requires
        va.dom().finite(),
        vb.dom().finite(),
        forall|j: Seq<char>| vb.dom().contains(j) ==> (#[trigger] vb[j]).wf(),
        vb.dom().contains(k),
        match x {
            Some(v) => (va.dom().contains(k) && v == spec_secure_merge(va[k], vb[k])) || (
            !va.dom().contains(k) && spec_verify_contents(vb[k]) && v == vb[k]),
            None => !va.dom().contains(k) && !spec_verify_contents(vb[k]),
        },
    ensures
        spec_secure_kids(
            match x {
                Some(v) => va.insert(k, v),
                None => va,
            },
            vb.remove(k),
        ) == spec_secure_kids(va, vb),
{
    match x {
        Some(v) => {
            assert(spec_secure_kids(va.insert(k, v), vb.remove(k)) =~= spec_secure_kids(va, vb));
        },
        None => {
            assert(spec_secure_kids(va, vb.remove(k)) =~= spec_secure_kids(va, vb));
        },
    }
}

/// The recursive worker of the tamper-checking merge.
fn secure_merge_rec(a: Shelf, b: &Shelf) -> (r: Shelf)
    requires
        wf_shelf(a),
        wf_shelf(*b),
    ensures
        r@ == spec_secure_merge(a@, b@),
        wf_shelf(r),
    decreases b,
{
    let ghost a0 = a;
    proof {
        lemma_wf_shelf_view(*b);
    }
    let c = cmp_clock(&a.get_clock(), &b.get_clock());
    if matches!(c, Some(Ordering::Less)) {
        if b.verify_contents() {
            return b.clone();
        } else {
            return a;
        }
    }
    if matches!(c, Some(Ordering::Greater)) {
        return a;
    }
    match (a, b) {
        (s @ Shelf::Node { .. }, Shelf::Leaf { .. }) => s,
        (s @ Shelf::Leaf { .. }, Shelf::Node { .. }) => {
            if b.verify_contents() {
                b.clone()
            } else {
                s
            }
        },
        (Shelf::Leaf { value: va, clock: la }, Shelf::Leaf { value: vb, clock: lb }) => {
            if matches!(c, Some(Ordering::Equal)) {
                Shelf::Leaf { value: va, clock: la }
            } else {
                let vc = va.cmp_value(vb);
                let b_wins = matches!(vc, Ordering::Less) || (matches!(vc, Ordering::Equal)
                    && clock_tiebreak_less(&la, lb));
                if b_wins && b.verify_contents() {
                    b.clone()
                } else {
                    Shelf::Leaf { value: va, clock: la }
                }
            }
        },
        (Shelf::Node { shelves: mut sa, clock: ca }, Shelf::Node { shelves: sb, clock: cb }) => {
            let ghost aes0 = sa@;
            let ghost obes = sb@;
            let ghost va0 = view_of_entries(aes0);
            let ghost vb0 = view_of_entries(obes);
            let ghost target = spec_secure_kids(va0, vb0);
            let mut i: usize = 0;
            proof {
                assert(ca.0 == cb.0);
                assert(a0 is Node && a0->Node_shelves@ == aes0);
                assert(obes.skip(0) =~= obes);
            }
            while i < sb.len()
                invariant
                    wf_shelf(*b),
                    b@.wf(),
                    *b == (Shelf::Node { shelves: *sb, clock: *cb }),
                    obes == sb@,
                    0 <= i as int <= obes.len(),
                    entries_unique(sa@),
                    forall|j: int| 0 <= j < sa@.len() ==> wf_shelf(#[trigger] sa@[j].1),
                    spec_secure_kids(view_of_entries(sa@), view_of_entries(obes.skip(i as int)))
                        == target,
                decreases obes.len() - i,
            {
                let ghost p = i as int;
                let ghost rem = obes.skip(p);
                proof {
                    lemma_view_entries_dom(sa@);
                    lemma_view_entries_dom(rem);
                    assert(forall|x: int, y: int|
                        0 <= x < y < rem.len() ==> rem[x] == obes[x + p] && rem[y] == obes[y + p]);
                    assert(entries_unique(rem));
                    assert(rem[0] == obes[p]);
                    assert(wf_shelf(obes[p].1));
                    lemma_view_entries_drop_first(rem);
                    assert(rem.drop_first() =~= obes.skip(p + 1));
                    assert forall|j: Seq<char>|
                        view_of_entries(rem).dom().contains(j) implies (#[trigger] view_of_entries(
                        rem,
                    )[j]).wf() by {
                        let x = choose|x: int| 0 <= x < rem.len() && (#[trigger] rem[x]).0@ == j;
                        lemma_view_entries_at(rem, x);
                        lemma_wf_shelf_view(rem[x].1);
                    }
                }
                let ghost vbpre = view_of_entries(rem);
                let ghost vapre = view_of_entries(sa@);
                let kb = &sb[i].0;
                let bv = &sb[i].1;
                proof {
                    assert((*kb, *bv) == obes[p]);
                    lemma_view_entries_at(rem, 0);
                    assert(vbpre[kb@] == view_of_shelf(*bv));
                    let g: Shelf = *b;
                    assert(decreases_to!(g => g->Node_shelves));
                    assert(decreases_to!(g->Node_shelves => g->Node_shelves@));
                    assert(g->Node_shelves@ == obes);
                    assert(decreases_to!(obes => obes[p]));
                    assert(decreases_to!(obes[p] => obes[p].1));
                    assert(obes[p].1 == *bv);
                    assert(decreases_to!(g => *bv));
                }
                match find_key(&sa, kb.as_str()) {
                    Some(idx) => {
                        let ghost sapre = sa@;
                        let (ks, av) = sa.remove(idx);
                        let ghost ksg = ks;
                        proof {
                            assert(sapre[idx as int] == (ksg, av));
                            lemma_view_entries_at(sapre, idx as int);
                            assert(vapre[kb@] == view_of_shelf(av));
                            assert(wf_shelf(av));
                        }
                        let merged = secure_merge_rec(av, bv);
                        let ghost mg = merged;
                        sa.insert(idx, (ks, merged));
                        proof {
                            assert(sa@ =~= sapre.update(idx as int, (ksg, mg)));
                            lemma_view_entries_update(sapre, idx as int, mg);
                            assert(entries_unique(sa@)) by {
                                assert(forall|x: int|
                                    0 <= x < sa@.len() ==> (#[trigger] sa@[x]).0@ == sapre[x].0@);
                            }
                            lemma_secure_kids_step(vapre, vbpre, kb@, Some(view_of_shelf(mg)));
                            assert(view_of_entries(obes.skip(p + 1)) == vbpre.remove(kb@));
                            assert(view_of_entries(sa@) == vapre.insert(kb@, view_of_shelf(mg)));
                        }
                    },
                    None => {
                        let ghost sapre = sa@;
                        proof {
                            assert(forall|x: int|
                                0 <= x < sapre.len() ==> (#[trigger] sapre[x]).0@ != kb@);
                            assert(!vapre.dom().contains(kb@));
                            assert(wf_shelf(*bv));
                        }
                        if bv.verify_contents() {
                            let kc = kb.clone();
                            let bc = bv.clone();
                            let ghost kcg = kc;
                            let ghost bcg = bc;
                            sa.push((kc, bc));
                            proof {
                                assert(sa@ == sapre.push((kcg, bcg)));
                                lemma_view_entries_push(sapre, kcg, bcg);
                                assert(entries_unique(sa@)) by {
                                    assert(forall|x: int|
                                        0 <= x < sapre.len() ==> sa@[x] == sapre[x]);
                                    assert(sa@[sa@.len() - 1].0@ == kb@);
                                }
                                lemma_secure_kids_step(
                                    vapre,
                                    vbpre,
                                    kb@,
                                    Some(view_of_shelf(bcg)),
                                );
                                assert(view_of_entries(obes.skip(p + 1)) == vbpre.remove(kb@));
                                assert(view_of_entries(sa@) == vapre.insert(
                                    kb@,
                                    view_of_shelf(bcg),
                                ));
                            }
                        } else {
                            proof {
                                lemma_secure_kids_step(vapre, vbpre, kb@, None);
                                assert(view_of_entries(obes.skip(p + 1)) == vbpre.remove(kb@));
                            }
                        }
                    },
                }
                i = i + 1;
            }
            proof {
                lemma_view_entries_dom(sa@);
                lemma_view_entries_dom(aes0);
                lemma_view_entries_dom(obes);
                assert forall|j: Seq<char>| vb0.dom().contains(j) implies (#[trigger] vb0[j]).wf()
                    by {
                    let x = choose|x: int| 0 <= x < obes.len() && (#[trigger] obes[x]).0@ == j;
                    lemma_view_entries_at(obes, x);
                    lemma_wf_shelf_view(obes[x].1);
                }
                assert(obes.skip(i as int) =~= Seq::<(String, Shelf)>::empty());
                assert(view_of_entries(obes.skip(i as int)) =~= Map::<Seq<char>, ShelfView>::empty());
                lemma_secure_kids_empty(view_of_entries(sa@));
                assert(view_of_entries(sa@) == target);
                assert(a0@ == (ShelfView::Node { shelves: va0, clock: ca.0 }));
                assert(b@ == (ShelfView::Node { shelves: vb0, clock: cb.0 }));
            }
            let r = Shelf::Node { shelves: sa, clock: ca };
            proof {
                assert(spec_secure_merge(a0@, b@) == (ShelfView::Node {
                    shelves: target,
                    clock: ca.0,
                }));
                assert(r@ == (ShelfView::Node { shelves: target, clock: ca.0 }));
            }
            r
        },
    }
}

/// What can go wrong when reading or writing through a path.
#[derive(Debug, Clone, Copy, PartialEq, Eq, Structural)]
pub enum ShelfError {
    /// A path segment named a child that the map does not hold.
    KeyMissing,
    /// A path segment landed on a value leaf instead of a map.
    PathTraversesValue,
    /// A write was attempted on a shelf whose root is a value leaf.
    InvalidSetTarget,
    /// A write was attempted with an empty path.
    EmptyPath,
    /// A write would need a timestamp beyond the clock's range.
    ClockOverflow,
}

/// The shelf under a path of keys: descend one map per segment.
pub open spec fn spec_get_path(v: ShelfView, path: Seq<Seq<char>>) -> Option<ShelfView>
    decreases path.len(),
{
    if path.len() == 0 {
        Some(v)
    } else {
        match v {
            ShelfView::Node { shelves, .. } => {
                if shelves.dom().contains(path[0]) {
                    spec_get_path(shelves[path[0]], path.drop_first())
                } else {
                    None
                }
            },
            ShelfView::Leaf { .. } => None,
        }
    }
}

impl Shelf {
    /// The shelf under the given path, or the error naming the missing
    /// key when a segment is absent or a value is hit midway.
    pub fn get_path(&self, path: &[&str]) -> (r: Result<&Shelf, ShelfError>)
        requires
            wf_shelf(*self),
        ensures
            match r {
                Ok(s) => spec_get_path(self@, Seq::new(path@.len(), |i: int| path@[i]@)) == Some(
                    s@,
                ) && wf_shelf(*s),
                Err(e) => spec_get_path(self@, Seq::new(path@.len(), |i: int| path@[i]@)) is None
                    && e == ShelfError::KeyMissing,
            },
    {
        let ghost full: Seq<Seq<char>> = Seq::new(path@.len(), |i: int| path@[i]@);
        let mut cur: &Shelf = self;
        let mut i: usize = 0;
        proof {
            assert(full.skip(0) =~= full);
        }
        while i < path.len()
            invariant
                i <= path@.len(),
                full == Seq::new(path@.len(), |i: int| path@[i]@),
                wf_shelf(*cur),
                spec_get_path(self@, full) == spec_get_path(cur@, full.skip(i as int)),
            decreases path@.len() - i,
        {
            proof {
                assert(full.skip(i as int)[0] == full[i as int]);
                assert(full.skip(i as int).drop_first() =~= full.skip(i as int + 1));
            }
            match cur.get(path[i]) {
                Some(child) => {
                    cur = child;
                },
                None => {
                    return Err(ShelfError::KeyMissing);
                },
            }
            i = i + 1;
        }
        proof {
            assert(full.skip(i as int) =~= Seq::<Seq<char>>::empty());
        }
        Ok(cur)
    }
}

/// The position of the last entry holding `key`, if one exists.
fn find_key_last(es: &Vec<(String, Shelf)>, key: &str) -> (r: Option<usize>)
    ensures
        match r {
            Some(i) => i < es@.len() && es@[i as int].0@ == key@ && (forall|j: int|
                i < j < es@.len() ==> (#[trigger] es@[j]).0@ != key@),
            None => forall|i: int| 0 <= i < es@.len() ==> (#[trigger] es@[i]).0@ != key@,
        },
{
    let mut i: usize = es.len();
    while i > 0
        invariant
            i <= es@.len(),
            forall|j: int| i <= j < es@.len() ==> (#[trigger] es@[j]).0@ != key@,
        decreases i,
    {
        i = i - 1;
        if str_eq(es[i].0.as_str(), key) {
            return Some(i);
        }
    }
    None
}

/// The child at a key is the view of the last entry holding that key.
pub proof fn lemma_view_entries_last_at(es: Seq<(String, Shelf)>, i: int)
    requires
        0 <= i < es.len(),
        forall|j: int| i < j < es.len() ==> (#[trigger] es[j]).0@ != es[i].0@,
    ensures
        view_of_entries(es).dom().contains(es[i].0@),
        view_of_entries(es)[es[i].0@] == view_of_shelf(es[i].1),
    decreases es,
{
    if i < es.len() - 1 {
        assert(forall|j: int|
            i < j < es.drop_last().len() ==> (#[trigger] es.drop_last()[j]).0@ == es[j].0@);
        assert(es.drop_last()[i] == es[i]);
        lemma_view_entries_last_at(es.drop_last(), i);
        assert(es[i].0@ != es.last().0@);
    }
}

/// Whether two entry lists hold equal children maps.
fn entries_eq(sa: &Vec<(String, Shelf)>, sb: &Vec<(String, Shelf)>) -> (r: bool)
    ensures
        r == (view_of_entries(sa@) == view_of_entries(sb@)),
    decreases sa, 0int,
{
    let ghost va = view_of_entries(sa@);
    let ghost vb = view_of_entries(sb@);
    proof {
        lemma_view_entries_dom(sa@);
        lemma_view_entries_dom(sb@);
    }
    let mut i: usize = 0;
    while i < sa.len()
        invariant
            i <= sa@.len(),
            va == view_of_entries(sa@),
            vb == view_of_entries(sb@),
            forall|x: int|
                0 <= x < i as int ==> vb.dom().contains((#[trigger] sa@[x]).0@) && va[sa@[x].0@]
                    == vb[sa@[x].0@],
        decreases sa@.len() - i,
    {
        let k = &sa[i].0;
        proof {
            lemma_view_entries_dom(sa@);
            lemma_view_entries_dom(sb@);
            assert(sa@[i as int].0@ == k@);
        }
        let la = match find_key_last(sa, k.as_str()) {
            Some(x) => x,
            None => {
                proof {
                    assert(false);
                }
                0
            },
        };
        match find_key_last(sb, k.as_str()) {
            Some(lb) => {
                proof {
                    lemma_view_entries_last_at(sa@, la as int);
                    lemma_view_entries_last_at(sb@, lb as int);
                    assert(decreases_to!(sa => sa@));
                    assert(decreases_to!(sa@ => sa@[la as int]));
                    assert(decreases_to!(sa@[la as int] => sa@[la as int].1));
                    assert(decreases_to!(sa => sa@[la as int].1));
                }
                let same = shelf_eq(&sa[la].1, &sb[lb].1);
                if !same {
                    proof {
                        assert(va[k@] != vb[k@]);
                    }
                    return false;
                }
            },
            None => {
                proof {
                    assert(va.dom().contains(k@) && !vb.dom().contains(k@));
                }
                return false;
            },
        }
        i = i + 1;
    }
    let mut j: usize = 0;
    while j < sb.len()
        invariant
            j <= sb@.len(),
            va == view_of_entries(sa@),
            vb == view_of_entries(sb@),
            forall|x: int|
                0 <= x < sa@.len() ==> vb.dom().contains((#[trigger] sa@[x]).0@) && va[sa@[x].0@]
                    == vb[sa@[x].0@],
            forall|x: int| 0 <= x < j as int ==> va.dom().contains((#[trigger] sb@[x]).0@),
        decreases sb@.len() - j,
    {
        let k = &sb[j].0;
        proof {
            lemma_view_entries_dom(sa@);
            lemma_view_entries_dom(sb@);
            assert(sb@[j as int].0@ == k@);
        }
        match find_key_last(sa, k.as_str()) {
            Some(_) => {},
            None => {
                proof {
                    assert(vb.dom().contains(k@) && !va.dom().contains(k@));
                }
                return false;
            },
        }
        j = j + 1;
    }
    proof {
        lemma_view_entries_dom(sa@);
        lemma_view_entries_dom(sb@);
        assert(va =~= vb) by {
            assert forall|k: Seq<char>| va.dom().contains(k) implies vb.dom().contains(k)
                && va[k] == vb[k] by {
                let x = choose|x: int| 0 <= x < sa@.len() && (#[trigger] sa@[x]).0@ == k;
            }
            assert forall|k: Seq<char>| vb.dom().contains(k) implies va.dom().contains(k) by {
                let x = choose|x: int| 0 <= x < sb@.len() && (#[trigger] sb@[x]).0@ == k;
            }
        }
    }
    true
}

/// Whether two shelves hold the same state: equal shapes, with map clocks
/// compared by counter alone.
fn shelf_eq(a: &Shelf, b: &Shelf) -> (r: bool)
    ensures
        r == (a@ == b@),
    decreases a, 1int,
{
    match (a, b) {
        (Shelf::Leaf { value: va, clock: ca }, Shelf::Leaf { value: vb, clock: cb }) => {
            let veq = va == vb;
            let ceq = *ca == *cb;
            veq && ceq
        },
        (Shelf::Node { shelves: sa, clock: ca }, Shelf::Node { shelves: sb, clock: cb }) => {
            if ca.0 != cb.0 {
                false
            } else {
                proof {
                    let g: Shelf = *a;
                    assert(decreases_to!(g => g->Node_shelves));
                    assert(g->Node_shelves == *sa);
                }
                entries_eq(sa, sb)
            }
        },
        _ => false,
    }
}

impl PartialEq for Shelf {
    fn eq(&self, other: &Self) -> (r: bool) {
        shelf_eq(self, other)
    }
}

impl vstd::std_specs::cmp::PartialEqSpecImpl for Shelf {
    open spec fn obeys_eq_spec() -> bool {
        true
    }

    open spec fn eq_spec(&self, other: &Self) -> bool {
        self@ == other@
    }
}

} // verus!
