//! The universe of values exchanged across the boundary, the descriptors that
//! name their types, and the mathematical model the contracts speak of.
//!
//! Floating-point scalars are carried by their IEEE 754 bit patterns
//! (`F32Bits`, `F64Bits`): their wire form is the big-endian bytes of that
//! pattern, and the codec never performs floating-point arithmetic.

use vstd::prelude::*;

verus! {

/// A scalar value: fixed width on the wire, big-endian, no prefix.
/// A character is carried as one byte.
#[derive(Clone, Copy, Debug, PartialEq, Eq)]
pub enum Scalar {
    I8(i8),
    I16(i16),
    I32(i32),
    I64(i64),
    U8(u8),
    U16(u16),
    U32(u32),
    U64(u64),
    F32Bits(u32),
    F64Bits(u64),
    Bool(bool),
    Char(u8),
}

/// The type of a scalar.
#[derive(Clone, Copy, Debug, PartialEq, Eq)]
pub enum ScalarType {
    I8,
    I16,
    I32,
    I64,
    U8,
    U16,
    U32,
    U64,
    F32,
    F64,
    Bool,
    Char,
}

/// A declared type: what a function signature names for one parameter or its
/// return value, and what decoding needs to interpret a buffer.
#[derive(Debug, PartialEq, Eq)]
pub enum TypeDesc {
    Scalar(ScalarType),
    Text,
    Sequence(Box<TypeDesc>),
    SetOf(Box<TypeDesc>),
    MapOf(Box<TypeDesc>, Box<TypeDesc>),
    Tuple2(Box<TypeDesc>, Box<TypeDesc>),
    Tuple3(Box<TypeDesc>, Box<TypeDesc>, Box<TypeDesc>),
    Optional(Box<TypeDesc>),
}

/// A runtime value of the supported universe. Text is held as its UTF-8
/// bytes; sets and maps are held as vectors whose canonical order is part of
/// well-formedness, not of the representation.
#[derive(Debug, PartialEq, Eq)]
pub enum Value {
    Scalar(Scalar),
    Text(Vec<u8>),
    Sequence(Vec<Value>),
    SetOf(Vec<Value>),
    MapOf(Vec<(Value, Value)>),
    Tuple2(Box<Value>, Box<Value>),
    Tuple3(Box<Value>, Box<Value>, Box<Value>),
    Optional(Option<Box<Value>>),
}

/// The mathematical model of a `Value`: the same tree with mathematical
/// sequences in place of vectors. All contracts are stated over this type.
pub enum Val {
    Scalar(Scalar),
    Text(Seq<u8>),
    Sequence(Seq<Val>),
    SetOf(Seq<Val>),
    MapOf(Seq<(Val, Val)>),
    Tuple2(Box<Val>, Box<Val>),
    Tuple3(Box<Val>, Box<Val>, Box<Val>),
    Optional(Option<Box<Val>>),
}

/// The model of a runtime value.
pub open spec fn vmodel(v: Value) -> Val
    decreases v,
{
    match v {
        Value::Scalar(s) => Val::Scalar(s),
        Value::Text(b) => Val::Text(b@),
        Value::Sequence(vs) => Val::Sequence(vmodels(vs@)),
        Value::SetOf(vs) => Val::SetOf(vmodels(vs@)),
        Value::MapOf(ps) => Val::MapOf(pmodels(ps@)),
        Value::Tuple2(a, b) => Val::Tuple2(Box::new(vmodel(*a)), Box::new(vmodel(*b))),
        Value::Tuple3(a, b, c) => Val::Tuple3(
            Box::new(vmodel(*a)),
            Box::new(vmodel(*b)),
            Box::new(vmodel(*c)),
        ),
        Value::Optional(o) => match o {
            Option::Some(x) => Val::Optional(Option::Some(Box::new(vmodel(*x)))),
            Option::None => Val::Optional(Option::None),
        },
    }
}

/// The models of a sequence of runtime values.
pub open spec fn vmodels(s: Seq<Value>) -> Seq<Val>
    decreases s,
{
    if s.len() == 0 {
        Seq::empty()
    } else {
        seq![vmodel(s[0])] + vmodels(s.drop_first())
    }
}

/// The models of a sequence of runtime pairs.
pub open spec fn pmodels(s: Seq<(Value, Value)>) -> Seq<(Val, Val)>
    decreases s,
{
    if s.len() == 0 {
        Seq::empty()
    } else {
        seq![(vmodel(s[0].0), vmodel(s[0].1))] + pmodels(s.drop_first())
    }
}

/// `vmodels` maps elementwise.
pub proof fn lemma_vmodels_index(s: Seq<Value>)
    ensures
        vmodels(s).len() == s.len(),
        forall|i: int| 0 <= i < s.len() ==> vmodels(s)[i] == vmodel(#[trigger] s[i]),
    decreases s.len(),
{
    if s.len() > 0 {
        lemma_vmodels_index(s.drop_first());
        assert forall|i: int| 0 <= i < s.len() implies vmodels(s)[i] == vmodel(#[trigger] s[i]) by {
            if i > 0 {
                assert(s.drop_first()[i - 1] == s[i]);
                assert(vmodels(s)[i] == vmodels(s.drop_first())[i - 1]);
            }
        }
    }
}

/// `pmodels` maps elementwise.
pub proof fn lemma_pmodels_index(s: Seq<(Value, Value)>)
    ensures
        pmodels(s).len() == s.len(),
        forall|i: int|
            0 <= i < s.len() ==> pmodels(s)[i] == (
                vmodel(#[trigger] s[i].0),
                vmodel(s[i].1),
            ),
    decreases s.len(),
{
    if s.len() > 0 {
        lemma_pmodels_index(s.drop_first());
        assert forall|i: int|
            0 <= i < s.len() implies pmodels(s)[i] == (
            vmodel(#[trigger] s[i].0),
            vmodel(s[i].1),
        ) by {
            if i > 0 {
                assert(s.drop_first()[i - 1] == s[i]);
                assert(pmodels(s)[i] == pmodels(s.drop_first())[i - 1]);
            }
        }
    }
}

/// Appending one value extends the model by its model.
pub proof fn lemma_vmodels_push(s: Seq<Value>, x: Value)
    ensures
        vmodels(s.push(x)) == vmodels(s).push(vmodel(x)),
{
    lemma_vmodels_index(s.push(x));
    lemma_vmodels_index(s);
    assert forall|i: int|
        0 <= i < s.len() + 1 implies vmodels(s.push(x))[i] == vmodels(s).push(vmodel(x))[i] by {
        if i < s.len() {
            assert(s.push(x)[i] == s[i]);
        } else {
            assert(s.push(x)[i] == x);
        }
    }
    assert(vmodels(s.push(x)) =~= vmodels(s).push(vmodel(x)));
}

/// Appending one pair extends the pair model by its model.
pub proof fn lemma_pmodels_push(s: Seq<(Value, Value)>, x: (Value, Value))
    ensures
        pmodels(s.push(x)) == pmodels(s).push((vmodel(x.0), vmodel(x.1))),
{
    lemma_pmodels_index(s.push(x));
    lemma_pmodels_index(s);
    assert forall|i: int|
        0 <= i < s.len() + 1 implies pmodels(s.push(x))[i] == pmodels(s).push(
        (vmodel(x.0), vmodel(x.1)),
    )[i] by {
        if i < s.len() {
            assert(s.push(x)[i] == s[i]);
            assert(s.push(x)[i].0 == s[i].0);
        } else {
            assert(s.push(x)[i] == x);
            assert(s.push(x)[i].0 == x.0);
        }
    }
    assert(pmodels(s.push(x)) =~= pmodels(s).push((vmodel(x.0), vmodel(x.1))));
}

/// The height of a type descriptor, used as a termination measure by the
/// mutually recursive parsing functions.
pub open spec fn td_height(t: TypeDesc) -> nat
    decreases t,
{
    match t {
        TypeDesc::Scalar(_) => 0,
        TypeDesc::Text => 0,
        TypeDesc::Sequence(e) => td_height(*e) + 1,
        TypeDesc::SetOf(e) => td_height(*e) + 1,
        TypeDesc::MapOf(k, v) => 1 + if td_height(*k) >= td_height(*v) {
            td_height(*k)
        } else {
            td_height(*v)
        },
        TypeDesc::Tuple2(a, b) => 1 + if td_height(*a) >= td_height(*b) {
            td_height(*a)
        } else {
            td_height(*b)
        },
        TypeDesc::Tuple3(a, b, c) => {
            let m = if td_height(*a) >= td_height(*b) {
                td_height(*a)
            } else {
                td_height(*b)
            };
            1 + if m >= td_height(*c) {
                m
            } else {
                td_height(*c)
            }
        },
        TypeDesc::Optional(e) => td_height(*e) + 1,
    }
}

/// The scalar has the named scalar type.
pub open spec fn scalar_has_type(s: Scalar, t: ScalarType) -> bool {
    match (s, t) {
        (Scalar::I8(_), ScalarType::I8) => true,
        (Scalar::I16(_), ScalarType::I16) => true,
        (Scalar::I32(_), ScalarType::I32) => true,
        (Scalar::I64(_), ScalarType::I64) => true,
        (Scalar::U8(_), ScalarType::U8) => true,
        (Scalar::U16(_), ScalarType::U16) => true,
        (Scalar::U32(_), ScalarType::U32) => true,
        (Scalar::U64(_), ScalarType::U64) => true,
        (Scalar::F32Bits(_), ScalarType::F32) => true,
        (Scalar::F64Bits(_), ScalarType::F64) => true,
        (Scalar::Bool(_), ScalarType::Bool) => true,
        (Scalar::Char(_), ScalarType::Char) => true,
        _ => false,
    }
}

/// The value belongs to the declared type.
pub open spec fn has_type(v: Val, t: TypeDesc) -> bool
    decreases v,
{
    match v {
        Val::Scalar(s) => t matches TypeDesc::Scalar(st) && scalar_has_type(s, st),
        Val::Text(_) => t matches TypeDesc::Text,
        Val::Sequence(vs) => t matches TypeDesc::Sequence(et) && (forall|i: int|
            0 <= i < vs.len() ==> has_type(#[trigger] vs[i], *et)),
        Val::SetOf(vs) => t matches TypeDesc::SetOf(et) && (forall|i: int|
            0 <= i < vs.len() ==> has_type(#[trigger] vs[i], *et)),
        Val::MapOf(ps) => t matches TypeDesc::MapOf(kt, vt) && (forall|i: int|
            0 <= i < ps.len() ==> has_type(#[trigger] ps[i].0, *kt) && has_type(ps[i].1, *vt)),
        Val::Tuple2(a, b) => t matches TypeDesc::Tuple2(ta, tb) && has_type(*a, *ta)
            && has_type(*b, *tb),
        Val::Tuple3(a, b, c) => t matches TypeDesc::Tuple3(ta, tb, tc) && has_type(*a, *ta)
            && has_type(*b, *tb) && has_type(*c, *tc),
        Val::Optional(o) => t matches TypeDesc::Optional(et) && match o {
            Option::Some(x) => has_type(*x, *et),
            Option::None => true,
        },
    }
}

/// No absent optional anywhere in the value. Absence has no in-buffer byte
/// form — it exists only as the sentinel at the sized-pointer level — so only
/// values satisfying this predicate have a faithful buffer encoding.
pub open spec fn no_absent(v: Val) -> bool
    decreases v,
{
    match v {
        Val::Scalar(_) => true,
        Val::Text(_) => true,
        Val::Sequence(vs) => forall|i: int| 0 <= i < vs.len() ==> no_absent(#[trigger] vs[i]),
        Val::SetOf(vs) => forall|i: int| 0 <= i < vs.len() ==> no_absent(#[trigger] vs[i]),
        Val::MapOf(ps) => forall|i: int|
            0 <= i < ps.len() ==> no_absent(#[trigger] ps[i].0) && no_absent(ps[i].1),
        Val::Tuple2(a, b) => no_absent(*a) && no_absent(*b),
        Val::Tuple3(a, b, c) => no_absent(*a) && no_absent(*b) && no_absent(*c),
        Val::Optional(o) => o matches Option::Some(x) && no_absent(*x),
    }
}

/// A rank that orders the value constructors, for the natural order below.
pub open spec fn ctor_rank(v: Val) -> int {
    match v {
        Val::Scalar(_) => 0,
        Val::Text(_) => 1,
        Val::Sequence(_) => 2,
        Val::SetOf(_) => 3,
        Val::MapOf(_) => 4,
        Val::Tuple2(..) => 5,
        Val::Tuple3(..) => 6,
        Val::Optional(_) => 7,
    }
}

/// A rank that orders scalars of different types; scalars of one type are
/// ordered by their numeric value (booleans by false < true).
pub open spec fn scalar_rank(s: Scalar) -> int {
    match s {
        Scalar::I8(_) => 0,
        Scalar::I16(_) => 1,
        Scalar::I32(_) => 2,
        Scalar::I64(_) => 3,
        Scalar::U8(_) => 4,
        Scalar::U16(_) => 5,
        Scalar::U32(_) => 6,
        Scalar::U64(_) => 7,
        Scalar::F32Bits(_) => 8,
        Scalar::F64Bits(_) => 9,
        Scalar::Bool(_) => 10,
        Scalar::Char(_) => 11,
    }
}

/// The natural strict order on scalars.
pub open spec fn scalar_lt(a: Scalar, b: Scalar) -> bool {
    match (a, b) {
        (Scalar::I8(x), Scalar::I8(y)) => x < y,
        (Scalar::I16(x), Scalar::I16(y)) => x < y,
        (Scalar::I32(x), Scalar::I32(y)) => x < y,
        (Scalar::I64(x), Scalar::I64(y)) => x < y,
        (Scalar::U8(x), Scalar::U8(y)) => x < y,
        (Scalar::U16(x), Scalar::U16(y)) => x < y,
        (Scalar::U32(x), Scalar::U32(y)) => x < y,
        (Scalar::U64(x), Scalar::U64(y)) => x < y,
        (Scalar::F32Bits(x), Scalar::F32Bits(y)) => x < y,
        (Scalar::F64Bits(x), Scalar::F64Bits(y)) => x < y,
        (Scalar::Bool(x), Scalar::Bool(y)) => !x && y,
        (Scalar::Char(x), Scalar::Char(y)) => x < y,
        _ => scalar_rank(a) < scalar_rank(b),
    }
}

/// Lexicographic strict order on byte sequences.
pub open spec fn bytes_lt(a: Seq<u8>, b: Seq<u8>) -> bool
    decreases a.len(),
{
    if b.len() == 0 {
        false
    } else if a.len() == 0 {
        true
    } else if a[0] != b[0] {
        a[0] < b[0]
    } else {
        bytes_lt(a.drop_first(), b.drop_first())
    }
}

/// The natural strict order on values: scalars by value, text by byte order,
/// composites lexicographically, absent before present, and values of
/// different constructors by constructor rank. Sets and maps are canonically
/// ordered by this relation.
pub open spec fn val_lt(a: Val, b: Val) -> bool
    decreases a, 0nat,
{
    match (a, b) {
        (Val::Scalar(x), Val::Scalar(y)) => scalar_lt(x, y),
        (Val::Text(x), Val::Text(y)) => bytes_lt(x, y),
        (Val::Sequence(x), Val::Sequence(y)) => vals_lt(x, y),
        (Val::SetOf(x), Val::SetOf(y)) => vals_lt(x, y),
        (Val::MapOf(x), Val::MapOf(y)) => pairs_lt(x, y),
        (Val::Tuple2(a0, a1), Val::Tuple2(b0, b1)) => val_lt(*a0, *b0) || (*a0 == *b0 && val_lt(
            *a1,
            *b1,
        )),
        (Val::Tuple3(a0, a1, a2), Val::Tuple3(b0, b1, b2)) => val_lt(*a0, *b0) || (*a0 == *b0
            && (val_lt(*a1, *b1) || (*a1 == *b1 && val_lt(*a2, *b2)))),
        (Val::Optional(x), Val::Optional(y)) => match (x, y) {
            (Option::None, Option::Some(_)) => true,
            (Option::Some(xv), Option::Some(yv)) => val_lt(*xv, *yv),
            _ => false,
        },
        _ => ctor_rank(a) < ctor_rank(b),
    }
}

/// Lexicographic strict order on sequences of values.
pub open spec fn vals_lt(a: Seq<Val>, b: Seq<Val>) -> bool
    decreases a, 1nat,
{
    if b.len() == 0 {
        false
    } else if a.len() == 0 {
        true
    } else if a[0] != b[0] {
        val_lt(a[0], b[0])
    } else {
        vals_lt(a.drop_first(), b.drop_first())
    }
}

/// Lexicographic strict order on sequences of pairs, keys before values.
pub open spec fn pairs_lt(a: Seq<(Val, Val)>, b: Seq<(Val, Val)>) -> bool
    decreases a, 1nat,
{
    if b.len() == 0 {
        false
    } else if a.len() == 0 {
        true
    } else if a[0] != b[0] {
        val_lt(a[0].0, b[0].0) || (a[0].0 == b[0].0 && val_lt(a[0].1, b[0].1))
    } else {
        pairs_lt(a.drop_first(), b.drop_first())
    }
}


/// Exactly one of `bytes_lt(a, b)`, `a == b`, `bytes_lt(b, a)` holds.
pub proof fn lemma_bytes_trichotomy(a: Seq<u8>, b: Seq<u8>)
    ensures
        bytes_lt(a, b) ==> !bytes_lt(b, a) && a != b,
        !bytes_lt(a, b) && !bytes_lt(b, a) ==> a == b,
    decreases a.len() + b.len(),
{
    if a.len() > 0 && b.len() > 0 {
        lemma_bytes_trichotomy(a.drop_first(), b.drop_first());
        if !bytes_lt(a, b) && !bytes_lt(b, a) {
            assert(a =~= seq![a[0]] + a.drop_first());
            assert(b =~= seq![b[0]] + b.drop_first());
        }
    } else if !bytes_lt(a, b) && !bytes_lt(b, a) {
        assert(a =~= b);
    }
}

/// The natural value order is asymmetric: a lesser value is neither greater
/// than nor equal to the other.
pub proof fn lemma_val_lt_asym(a: Val, b: Val)
    ensures
        val_lt(a, b) ==> !val_lt(b, a) && a != b,
    decreases a, 2nat,
{
    match (a, b) {
        (Val::Text(x), Val::Text(y)) => {
            lemma_bytes_trichotomy(x, y);
        },
        (Val::Sequence(x), Val::Sequence(y)) => {
            lemma_vals_lt_asym(x, y);
        },
        (Val::SetOf(x), Val::SetOf(y)) => {
            lemma_vals_lt_asym(x, y);
        },
        (Val::MapOf(x), Val::MapOf(y)) => {
            lemma_pairs_lt_asym(x, y);
        },
        (Val::Tuple2(a0, a1), Val::Tuple2(b0, b1)) => {
            lemma_val_lt_asym(*a0, *b0);
            lemma_val_lt_asym(*a1, *b1);
        },
        (Val::Tuple3(a0, a1, a2), Val::Tuple3(b0, b1, b2)) => {
            lemma_val_lt_asym(*a0, *b0);
            lemma_val_lt_asym(*a1, *b1);
            lemma_val_lt_asym(*a2, *b2);
        },
        (Val::Optional(x), Val::Optional(y)) => {
            if let Option::Some(xv) = x {
                if let Option::Some(yv) = y {
                    lemma_val_lt_asym(*xv, *yv);
                }
            }
        },
        _ => {},
    }
}

/// Lexicographic order on value sequences is asymmetric.
pub proof fn lemma_vals_lt_asym(x: Seq<Val>, y: Seq<Val>)
    ensures
        vals_lt(x, y) ==> !vals_lt(y, x) && x != y,
    decreases x, 3nat,
{
    if y.len() == 0 {
    } else if x.len() == 0 {
    } else if x[0] != y[0] {
        lemma_val_lt_asym(x[0], y[0]);
    } else {
        lemma_vals_lt_asym(x.drop_first(), y.drop_first());
        if vals_lt(x, y) {
            assert(x.drop_first() != y.drop_first());
            assert(x != y) by {
                if x == y {
                    assert(x.drop_first() =~= y.drop_first());
                }
            }
        }
    }
}

/// Lexicographic order on pair sequences is asymmetric.
pub proof fn lemma_pairs_lt_asym(x: Seq<(Val, Val)>, y: Seq<(Val, Val)>)
    ensures
        pairs_lt(x, y) ==> !pairs_lt(y, x) && x != y,
    decreases x, 3nat,
{
    if y.len() == 0 {
    } else if x.len() == 0 {
    } else if x[0] != y[0] {
        lemma_val_lt_asym(x[0].0, y[0].0);
        lemma_val_lt_asym(x[0].1, y[0].1);
        lemma_val_lt_asym(x[0].0, x[0].0);
    } else {
        lemma_pairs_lt_asym(x.drop_first(), y.drop_first());
        if pairs_lt(x, y) {
            assert(x.drop_first() != y.drop_first());
            assert(x != y) by {
                if x == y {
                    assert(x.drop_first() =~= y.drop_first());
                }
            }
        }
    }
}

} // verus!
