//! Leaf payloads: a tagged sum of JSON-like scalars and nested arrays,
//! totally ordered by type rank first and natively within a rank.

use vstd::prelude::*;

verus! {

use core::cmp::Ordering;

/// A leaf value: string, signed integer, boolean, array, or null.
/// Arrays are atomic: they are replaced wholesale, never merged element-wise.
#[derive(Debug)]
pub enum Value {
    Str(String),
    Int(i64),
    Bool(bool),
    Array(Vec<Value>),
    Null,
}

/// The mathematical shape of a [`Value`]: strings become character
/// sequences and arrays become sequences of shapes.
pub enum ValueView {
    Str(Seq<char>),
    Int(int),
    Bool(bool),
    Array(Seq<ValueView>),
    Null,
}

pub open spec fn view_of_seq(s: Seq<Value>) -> Seq<ValueView>
    decreases s,
{
    if s.len() == 0 {
        Seq::empty()
    } else {
        view_of_seq(s.drop_last()).push(view_of_value(s.last()))
    }
}

pub open spec fn view_of_value(v: Value) -> ValueView
    decreases v,
{
    match v {
        Value::Str(s) => ValueView::Str(s@),
        Value::Int(i) => ValueView::Int(i as int),
        Value::Bool(b) => ValueView::Bool(b),
        Value::Array(a) => ValueView::Array(view_of_seq(a@)),
        Value::Null => ValueView::Null,
    }
}

impl View for Value {
    type V = ValueView;

    open spec fn view(&self) -> ValueView {
        view_of_value(*self)
    }
}

pub broadcast proof fn lemma_view_of_seq(s: Seq<Value>)
    ensures
        #[trigger] view_of_seq(s).len() == s.len(),
        forall|i: int| 0 <= i < s.len() ==> view_of_seq(s)[i] == view_of_value(s[i]),
    decreases s,
{
    if s.len() > 0 {
        lemma_view_of_seq(s.drop_last());
    }
}

/// The rank of a value's variant: null, then booleans, then integers, then
/// strings, then arrays. Ranks break ties between concurrent writes of
/// different kinds.
pub open spec fn spec_type_rank(v: ValueView) -> int {
    match v {
        ValueView::Null => 0,
        ValueView::Bool(_) => 1,
        ValueView::Int(_) => 2,
        ValueView::Str(_) => 3,
        ValueView::Array(_) => 4,
    }
}

impl Value {
    /// The rank of this value's variant in the type order.
    pub fn type_rank(&self) -> (r: u8)
        ensures
            r as int == spec_type_rank(self@),
    {
        match self {
            Value::Null => 0,
            Value::Bool(_) => 1,
            Value::Int(_) => 2,
            Value::Str(_) => 3,
            Value::Array(_) => 4,
        }
    }
}

impl Clone for Value {
    fn clone(&self) -> (res: Self)
        ensures
            res@ == self@,
        decreases self,
    {
        match self {
            Value::Str(s) => Value::Str(s.clone()),
            Value::Int(i) => Value::Int(*i),
            Value::Bool(b) => Value::Bool(*b),
            Value::Array(a) => {
                let mut out: Vec<Value> = Vec::new();
                let mut i: usize = 0;
                while i < a.len()
                    invariant
                        i <= a.len(),
                        *self == Value::Array(*a),
                        out@.len() == i as int,
                        forall|j: int| 0 <= j < i as int ==> out@[j]@ == a@[j]@,
                    decreases a.len() - i,
                {
                    proof {
                        let g: Value = *self;
                        assert(decreases_to!(g => g->Array_0));
                        assert(g->Array_0 == *a);
                        assert(decreases_to!(g->Array_0 => a@));
                        assert(decreases_to!(a@ => a@[i as int]));
                        assert(decreases_to!(g => a@[i as int]));
                    }
                    out.push(a[i].clone());
                    i = i + 1;
                }
                proof {
                    lemma_view_of_seq(out@);
                    lemma_view_of_seq(a@);
                    assert(view_of_seq(out@) =~= view_of_seq(a@));
                }
                Value::Array(out)
            },
            Value::Null => Value::Null,
        }
    }
}

/// Character order: by code point.
pub open spec fn spec_cmp_char(a: char, b: char) -> Ordering {
    if (a as u32) < (b as u32) {
        Ordering::Less
    } else if (a as u32) == (b as u32) {
        Ordering::Equal
    } else {
        Ordering::Greater
    }
}

/// Lexicographic order on character sequences.
pub open spec fn spec_cmp_chars(a: Seq<char>, b: Seq<char>) -> Ordering
    decreases a.len(),
{
    if a.len() == 0 && b.len() == 0 {
        Ordering::Equal
    } else if a.len() == 0 {
        Ordering::Less
    } else if b.len() == 0 {
        Ordering::Greater
    } else if spec_cmp_char(a[0], b[0]) == Ordering::Equal {
        spec_cmp_chars(a.drop_first(), b.drop_first())
    } else {
        spec_cmp_char(a[0], b[0])
    }
}

pub open spec fn spec_cmp_int(a: int, b: int) -> Ordering {
    if a < b {
        Ordering::Less
    } else if a == b {
        Ordering::Equal
    } else {
        Ordering::Greater
    }
}

pub open spec fn spec_cmp_bool(a: bool, b: bool) -> Ordering {
    if a == b {
        Ordering::Equal
    } else if !a {
        Ordering::Less
    } else {
        Ordering::Greater
    }
}

/// The total order on values: ranks first, then natively within a rank;
/// arrays compare element-wise lexicographically.
pub open spec fn spec_cmp_value(a: ValueView, b: ValueView) -> Ordering
    decreases a, b,
{
    if spec_type_rank(a) != spec_type_rank(b) {
        spec_cmp_int(spec_type_rank(a), spec_type_rank(b))
    } else {
        match (a, b) {
            (ValueView::Null, ValueView::Null) => Ordering::Equal,
            (ValueView::Bool(x), ValueView::Bool(y)) => spec_cmp_bool(x, y),
            (ValueView::Int(x), ValueView::Int(y)) => spec_cmp_int(x, y),
            (ValueView::Str(x), ValueView::Str(y)) => spec_cmp_chars(x, y),
            (ValueView::Array(x), ValueView::Array(y)) => spec_cmp_value_seq(x, y),
            _ => Ordering::Equal,
        }
    }
}

/// Lexicographic order on value sequences.
pub open spec fn spec_cmp_value_seq(a: Seq<ValueView>, b: Seq<ValueView>) -> Ordering
    decreases a, b,
{
    if a.len() == 0 && b.len() == 0 {
        Ordering::Equal
    } else if a.len() == 0 {
        Ordering::Less
    } else if b.len() == 0 {
        Ordering::Greater
    } else if spec_cmp_value(a[0], b[0]) == Ordering::Equal {
        spec_cmp_value_seq(a.drop_first(), b.drop_first())
    } else {
        spec_cmp_value(a[0], b[0])
    }
}

pub proof fn lemma_cmp_chars_eq(a: Seq<char>, b: Seq<char>)
    ensures
        (spec_cmp_chars(a, b) == Ordering::Equal) <==> (a == b),
    decreases a.len(),
{
    if a.len() == 0 && b.len() == 0 {
        assert(a =~= b);
    } else if a.len() > 0 && b.len() > 0 {
        lemma_cmp_chars_eq(a.drop_first(), b.drop_first());
        if spec_cmp_char(a[0], b[0]) == Ordering::Equal {
            vstd::utf8::char_u32_cast(a[0], a[0] as u32);
            vstd::utf8::char_u32_cast(b[0], b[0] as u32);
            assert(a[0] == b[0]);
            if spec_cmp_chars(a.drop_first(), b.drop_first()) == Ordering::Equal {
                assert(a.len() == b.len());
                assert forall|i: int| 0 <= i < a.len() implies a[i] == b[i] by {
                    if i > 0 {
                        assert(a[i] == a.drop_first()[i - 1]);
                        assert(b[i] == b.drop_first()[i - 1]);
                    }
                }
                assert(a =~= b);
            } else {
                assert(a != b) by {
                    if a == b {
                        assert(a.drop_first() =~= b.drop_first());
                    }
                }
            }
        } else {
            assert(a != b);
        }
    }
}

pub proof fn lemma_cmp_value_eq(a: ValueView, b: ValueView)
    ensures
        (spec_cmp_value(a, b) == Ordering::Equal) <==> (a == b),
    decreases a, b,
{
    if spec_type_rank(a) == spec_type_rank(b) {
        match (a, b) {
            (ValueView::Str(x), ValueView::Str(y)) => {
                lemma_cmp_chars_eq(x, y);
            },
            (ValueView::Array(x), ValueView::Array(y)) => {
                lemma_cmp_value_seq_eq(x, y);
            },
            _ => {},
        }
    }
}

pub proof fn lemma_cmp_value_seq_eq(a: Seq<ValueView>, b: Seq<ValueView>)
    ensures
        (spec_cmp_value_seq(a, b) == Ordering::Equal) <==> (a == b),
    decreases a, b,
{
    if a.len() == 0 && b.len() == 0 {
        assert(a =~= b);
    } else if a.len() > 0 && b.len() > 0 {
        lemma_cmp_value_eq(a[0], b[0]);
        lemma_cmp_value_seq_eq(a.drop_first(), b.drop_first());
        if spec_cmp_value(a[0], b[0]) == Ordering::Equal {
            if spec_cmp_value_seq(a.drop_first(), b.drop_first()) == Ordering::Equal {
                assert(a.len() == b.len());
                assert forall|i: int| 0 <= i < a.len() implies a[i] == b[i] by {
                    if i > 0 {
                        assert(a[i] == a.drop_first()[i - 1]);
                        assert(b[i] == b.drop_first()[i - 1]);
                    }
                }
                assert(a =~= b);
            } else {
                assert(a != b) by {
                    if a == b {
                        assert(a.drop_first() =~= b.drop_first());
                    }
                }
            }
        } else {
            assert(a != b);
        }
    }
}

/// Lexicographic comparison of two strings by character code points.
pub fn cmp_strings(a: &String, b: &String) -> (r: Ordering)
    ensures
        r == spec_cmp_chars(a@, b@),
{
    let sa = a.as_str();
    let sb = b.as_str();
    let na = sa.unicode_len();
    let nb = sb.unicode_len();
    let mut i: usize = 0;
    proof {
        assert(a@.skip(0) =~= a@);
        assert(b@.skip(0) =~= b@);
    }
    while i < na && i < nb
        invariant
            i <= na && i <= nb,
            na == sa@.len() && nb == sb@.len(),
            sa@ == a@ && sb@ == b@,
            spec_cmp_chars(a@, b@) == spec_cmp_chars(a@.skip(i as int), b@.skip(i as int)),
        decreases na - i,
    {
        let ca = sa.get_char(i);
        let cb = sb.get_char(i);
        let ca32 = ca as u32;
        let cb32 = cb as u32;
        proof {
            assert(a@.skip(i as int)[0] == a@[i as int]);
            assert(b@.skip(i as int)[0] == b@[i as int]);
            assert(a@.skip(i as int).drop_first() =~= a@.skip(i as int + 1));
            assert(b@.skip(i as int).drop_first() =~= b@.skip(i as int + 1));
        }
        if ca32 < cb32 {
            return Ordering::Less;
        } else if ca32 > cb32 {
            return Ordering::Greater;
        }
        i = i + 1;
    }
    proof {
        assert(a@.skip(i as int).len() == na - i);
        assert(b@.skip(i as int).len() == nb - i);
    }
    if na == nb {
        Ordering::Equal
    } else if na < nb {
        Ordering::Less
    } else {
        Ordering::Greater
    }
}

impl Value {
    /// The total order on values: type rank first, then the native order
    /// within a rank; arrays element-wise.
    pub fn cmp_value(&self, other: &Value) -> (r: Ordering)
        ensures
            r == spec_cmp_value(self@, other@),
        decreases self, other,
    {
        let ra = self.type_rank();
        let rb = other.type_rank();
        if ra < rb {
            return Ordering::Less;
        }
        if ra > rb {
            return Ordering::Greater;
        }
        match (self, other) {
            (Value::Null, Value::Null) => Ordering::Equal,
            (Value::Bool(x), Value::Bool(y)) => {
                if *x == *y {
                    Ordering::Equal
                } else if !*x {
                    Ordering::Less
                } else {
                    Ordering::Greater
                }
            },
            (Value::Int(x), Value::Int(y)) => {
                if *x < *y {
                    Ordering::Less
                } else if *x == *y {
                    Ordering::Equal
                } else {
                    Ordering::Greater
                }
            },
            (Value::Str(x), Value::Str(y)) => cmp_strings(x, y),
            (Value::Array(x), Value::Array(y)) => {
                let ghost vx = view_of_seq(x@);
                let ghost vy = view_of_seq(y@);
                proof {
                    lemma_view_of_seq(x@);
                    lemma_view_of_seq(y@);
                }
                let nx = x.len();
                let ny = y.len();
                let mut i: usize = 0;
                proof {
                    assert(vx.skip(0) =~= vx);
                    assert(vy.skip(0) =~= vy);
                }
                while i < nx && i < ny
                    invariant
                        i <= nx && i <= ny,
                        nx == x@.len() && ny == y@.len(),
                        *self == Value::Array(*x) && *other == Value::Array(*y),
                        vx == view_of_seq(x@) && vy == view_of_seq(y@),
                        vx.len() == nx && vy.len() == ny,
                        forall|j: int| 0 <= j < nx ==> vx[j] == view_of_value(x@[j]),
                        forall|j: int| 0 <= j < ny ==> vy[j] == view_of_value(y@[j]),
                        spec_cmp_value_seq(vx, vy) == spec_cmp_value_seq(
                            vx.skip(i as int),
                            vy.skip(i as int),
                        ),
                    decreases nx - i,
                {
                    proof {
                        let g: Value = *self;
                        let h: Value = *other;
                        assert(decreases_to!(g => g->Array_0));
                        assert(decreases_to!(g->Array_0 => x@));
                        assert(decreases_to!(x@ => x@[i as int]));
                        assert(decreases_to!(g => x@[i as int]));
                        assert(decreases_to!(h => h->Array_0));
                        assert(decreases_to!(h->Array_0 => y@));
                        assert(decreases_to!(y@ => y@[i as int]));
                        assert(decreases_to!(h => y@[i as int]));
                    }
                    let c = x[i].cmp_value(&y[i]);
                    proof {
                        assert(vx.skip(i as int)[0] == vx[i as int]);
                        assert(vy.skip(i as int)[0] == vy[i as int]);
                        assert(vx.skip(i as int).drop_first() =~= vx.skip(i as int + 1));
                        assert(vy.skip(i as int).drop_first() =~= vy.skip(i as int + 1));
                    }
                    match c {
                        Ordering::Equal => {},
                        _ => {
                            return c;
                        },
                    }
                    i = i + 1;
                }
                proof {
                    assert(vx.skip(i as int).len() == nx - i);
                    assert(vy.skip(i as int).len() == ny - i);
                }
                if nx == ny {
                    Ordering::Equal
                } else if nx < ny {
                    Ordering::Less
                } else {
                    Ordering::Greater
                }
            },
            _ => {
                proof {
                    assert(false);
                }
                Ordering::Equal
            },
        }
    }
}

/// Offset basis of the content hash.
pub const HASH_BASIS: u64 = 0xcbf29ce484222325;

/// Multiplier of the content hash.
pub const HASH_PRIME: u64 = 0x100000001b3;

/// One mixing step of the content hash: fold a word into the state.
pub open spec fn spec_mix(h: u64, x: u64) -> u64 {
    (h ^ x).wrapping_mul(HASH_PRIME)
}

pub open spec fn spec_hash_chars(h: u64, s: Seq<char>) -> u64
    decreases s.len(),
{
    if s.len() == 0 {
        h
    } else {
        spec_hash_chars(spec_mix(h, (s[0] as u32) as u64), s.drop_first())
    }
}

pub open spec fn spec_hash_seq(h: u64, s: Seq<ValueView>) -> u64
    decreases s,
{
    if s.len() == 0 {
        h
    } else {
        spec_hash_seq(spec_hash_value(h, s[0]), s.drop_first())
    }
}

/// The content hash of a value: a tag for the variant, the length for
/// strings and arrays, then the payload, all folded into the state word
/// by word. The same value always hashes to the same word, on every
/// replica.
pub open spec fn spec_hash_value(h: u64, v: ValueView) -> u64
    decreases v,
{
    match v {
        ValueView::Null => spec_mix(h, 1),
        ValueView::Bool(b) => spec_mix(spec_mix(h, 2), if b { 1 } else { 0 }),
        ValueView::Int(i) => spec_mix(spec_mix(h, 3), i as u64),
        ValueView::Str(s) => spec_hash_chars(spec_mix(spec_mix(h, 4), s.len() as u64), s),
        ValueView::Array(a) => spec_hash_seq(spec_mix(spec_mix(h, 5), a.len() as u64), a),
    }
}

/// The hash that binds a secure clock to its value: the counter folded in
/// first, then the value.
pub open spec fn spec_hash_pair(counter: u64, v: ValueView) -> u64 {
    spec_hash_value(spec_mix(HASH_BASIS, counter), v)
}

/// One mixing step of the content hash.
pub fn mix(h: u64, x: u64) -> (r: u64)
    ensures
        r == spec_mix(h, x),
{
    (h ^ x).wrapping_mul(HASH_PRIME)
}

fn hash_chars_from(h0: u64, s: &str) -> (r: u64)
    ensures
        r == spec_hash_chars(h0, s@),
{
    let n = s.unicode_len();
    let mut h = h0;
    let mut i: usize = 0;
    proof {
        assert(s@.skip(0) =~= s@);
    }
    while i < n
        invariant
            i <= n,
            n == s@.len(),
            spec_hash_chars(h, s@.skip(i as int)) == spec_hash_chars(h0, s@),
        decreases n - i,
    {
        let c = s.get_char(i);
        proof {
            assert(s@.skip(i as int)[0] == s@[i as int]);
            assert(s@.skip(i as int).drop_first() =~= s@.skip(i as int + 1));
        }
        h = mix(h, (c as u32) as u64);
        i = i + 1;
    }
    h
}

impl Value {
    /// Folds this value into the hash state `h0`.
    pub fn hash_into(&self, h0: u64) -> (r: u64)
        ensures
            r == spec_hash_value(h0, self@),
        decreases self,
    {
        match self {
            Value::Null => mix(h0, 1),
            Value::Bool(b) => mix(mix(h0, 2), if *b { 1 } else { 0 }),
            Value::Int(i) => mix(mix(h0, 3), *i as u64),
            Value::Str(s) => hash_chars_from(mix(mix(h0, 4), s.as_str().unicode_len() as u64), s.as_str()),
            Value::Array(a) => {
                let ghost va = view_of_seq(a@);
                proof {
                    lemma_view_of_seq(a@);
                    assert(va.skip(0) =~= va);
                }
                let mut h = mix(mix(h0, 5), a.len() as u64);
                let ghost hstart = h;
                let mut i: usize = 0;
                while i < a.len()
                    invariant
                        i <= a.len(),
                        *self == Value::Array(*a),
                        va == view_of_seq(a@),
                        va.len() == a@.len(),
                        forall|j: int| 0 <= j < a@.len() ==> va[j] == view_of_value(a@[j]),
                        spec_hash_seq(h, va.skip(i as int)) == spec_hash_seq(hstart, va),
                    decreases a.len() - i,
                {
                    proof {
                        let g: Value = *self;
                        assert(decreases_to!(g => g->Array_0));
                        assert(decreases_to!(g->Array_0 => a@));
                        assert(decreases_to!(a@ => a@[i as int]));
                        assert(decreases_to!(g => a@[i as int]));
                        assert(va.skip(i as int)[0] == va[i as int]);
                        assert(va.skip(i as int).drop_first() =~= va.skip(i as int + 1));
                    }
                    h = a[i].hash_into(h);
                    i = i + 1;
                }
                h
            },
        }
    }
}

impl PartialEq for Value {
    fn eq(&self, other: &Self) -> (r: bool) {
        let c = self.cmp_value(other);
        proof {
            lemma_cmp_value_eq(self@, other@);
        }
        matches!(c, Ordering::Equal)
    }
}

impl vstd::std_specs::cmp::PartialEqSpecImpl for Value {
    open spec fn obeys_eq_spec() -> bool {
        true
    }

    open spec fn eq_spec(&self, other: &Self) -> bool {
        self@ == other@
    }
}

} // verus!
