//! The byte-exact wire layout: big-endian scalars with no prefix, text as raw
//! UTF-8 bytes, collections as a `u32` count followed by `[u32 length][payload]`
//! entries, tuples as two or three such blocks with no leading count, and a
//! present optional encoded exactly as its inner value.

use vstd::prelude::*;

use crate::utf8::utf8_ok;
use crate::value::{Scalar, ScalarType, Val, bytes_lt, pairs_lt, val_lt, vals_lt};

verus! {

/// Big-endian bytes of a 16-bit value.
pub open spec fn be16(n: u16) -> Seq<u8> {
    seq![(n >> 8) as u8, n as u8]
}

/// Big-endian bytes of a 32-bit value.
pub open spec fn be32(n: u32) -> Seq<u8> {
    seq![(n >> 24) as u8, (n >> 16) as u8, (n >> 8) as u8, n as u8]
}

/// Big-endian bytes of a 64-bit value.
pub open spec fn be64(n: u64) -> Seq<u8> {
    seq![
        (n >> 56) as u8,
        (n >> 48) as u8,
        (n >> 40) as u8,
        (n >> 32) as u8,
        (n >> 24) as u8,
        (n >> 16) as u8,
        (n >> 8) as u8,
        n as u8,
    ]
}

/// The 16-bit value read big-endian from the first two bytes.
pub open spec fn be16_val(b: Seq<u8>) -> u16 {
    ((b[0] as u16) << 8) | (b[1] as u16)
}

/// The 32-bit value read big-endian from the first four bytes.
pub open spec fn be32_val(b: Seq<u8>) -> u32 {
    ((b[0] as u32) << 24) | ((b[1] as u32) << 16) | ((b[2] as u32) << 8) | (b[3] as u32)
}

/// The 64-bit value read big-endian from the first eight bytes.
pub open spec fn be64_val(b: Seq<u8>) -> u64 {
    ((b[0] as u64) << 56) | ((b[1] as u64) << 48) | ((b[2] as u64) << 40) | ((b[3] as u64) << 32)
        | ((b[4] as u64) << 24) | ((b[5] as u64) << 16) | ((b[6] as u64) << 8) | (b[7] as u64)
}

/// Reading back the big-endian bytes of a 16-bit value yields the value.
pub proof fn lemma_be16_roundtrip(n: u16)
    ensures
        be16_val(be16(n)) == n,
{
    assert(((((n >> 8) as u8) as u16) << 8) | ((n as u8) as u16) == n) by (bit_vector);
}

/// Reading back the big-endian bytes of a 32-bit value yields the value.
pub proof fn lemma_be32_roundtrip(n: u32)
    ensures
        be32_val(be32(n)) == n,
{
    assert(((((n >> 24) as u8) as u32) << 24) | ((((n >> 16) as u8) as u32) << 16) | ((((n
        >> 8) as u8) as u32) << 8) | ((n as u8) as u32) == n) by (bit_vector);
}

/// Reading back the big-endian bytes of a 64-bit value yields the value.
pub proof fn lemma_be64_roundtrip(n: u64)
    ensures
        be64_val(be64(n)) == n,
{
    assert(((((n >> 56) as u8) as u64) << 56) | ((((n >> 48) as u8) as u64) << 48) | ((((n
        >> 40) as u8) as u64) << 40) | ((((n >> 32) as u8) as u64) << 32) | ((((n
        >> 24) as u8) as u64) << 24) | ((((n >> 16) as u8) as u64) << 16) | ((((n
        >> 8) as u8) as u64) << 8) | ((n as u8) as u64) == n) by (bit_vector);
}

/// The scalar type a scalar value belongs to.
pub open spec fn scalar_type_of(s: Scalar) -> ScalarType {
    match s {
        Scalar::I8(_) => ScalarType::I8,
        Scalar::I16(_) => ScalarType::I16,
        Scalar::I32(_) => ScalarType::I32,
        Scalar::I64(_) => ScalarType::I64,
        Scalar::U8(_) => ScalarType::U8,
        Scalar::U16(_) => ScalarType::U16,
        Scalar::U32(_) => ScalarType::U32,
        Scalar::U64(_) => ScalarType::U64,
        Scalar::F32Bits(_) => ScalarType::F32,
        Scalar::F64Bits(_) => ScalarType::F64,
        Scalar::Bool(_) => ScalarType::Bool,
        Scalar::Char(_) => ScalarType::Char,
    }
}

/// The fixed wire width of a scalar type, in bytes.
pub open spec fn scalar_width(t: ScalarType) -> nat {
    match t {
        ScalarType::I8 => 1,
        ScalarType::I16 => 2,
        ScalarType::I32 => 4,
        ScalarType::I64 => 8,
        ScalarType::U8 => 1,
        ScalarType::U16 => 2,
        ScalarType::U32 => 4,
        ScalarType::U64 => 8,
        ScalarType::F32 => 4,
        ScalarType::F64 => 8,
        ScalarType::Bool => 1,
        ScalarType::Char => 1,
    }
}

/// The wire bytes of a scalar: fixed width, big-endian, no prefix. A boolean
/// is one byte, 1 for true and 0 for false; a character is its single byte.
pub open spec fn scalar_bytes(s: Scalar) -> Seq<u8> {
    match s {
        Scalar::I8(x) => seq![x as u8],
        Scalar::I16(x) => be16(x as u16),
        Scalar::I32(x) => be32(x as u32),
        Scalar::I64(x) => be64(x as u64),
        Scalar::U8(x) => seq![x],
        Scalar::U16(x) => be16(x),
        Scalar::U32(x) => be32(x),
        Scalar::U64(x) => be64(x),
        Scalar::F32Bits(x) => be32(x),
        Scalar::F64Bits(x) => be64(x),
        Scalar::Bool(x) => seq![if x { 1u8 } else { 0u8 }],
        Scalar::Char(x) => seq![x],
    }
}

/// The scalar read from a buffer of exactly the type's width. Any nonzero
/// byte decodes as true.
pub open spec fn scalar_of_bytes(t: ScalarType, b: Seq<u8>) -> Scalar {
    match t {
        ScalarType::I8 => Scalar::I8(b[0] as i8),
        ScalarType::I16 => Scalar::I16(be16_val(b) as i16),
        ScalarType::I32 => Scalar::I32(be32_val(b) as i32),
        ScalarType::I64 => Scalar::I64(be64_val(b) as i64),
        ScalarType::U8 => Scalar::U8(b[0]),
        ScalarType::U16 => Scalar::U16(be16_val(b)),
        ScalarType::U32 => Scalar::U32(be32_val(b)),
        ScalarType::U64 => Scalar::U64(be64_val(b)),
        ScalarType::F32 => Scalar::F32Bits(be32_val(b)),
        ScalarType::F64 => Scalar::F64Bits(be64_val(b)),
        ScalarType::Bool => Scalar::Bool(b[0] != 0),
        ScalarType::Char => Scalar::Char(b[0]),
    }
}

/// Decoding the wire bytes of a scalar yields the scalar back.
pub proof fn lemma_scalar_roundtrip(s: Scalar)
    ensures
        scalar_bytes(s).len() == scalar_width(scalar_type_of(s)),
        scalar_of_bytes(scalar_type_of(s), scalar_bytes(s)) == s,
{
    match s {
        Scalar::I8(x) => {
            assert(((x as u8) as i8) == x) by (bit_vector);
        },
        Scalar::I16(x) => {
            lemma_be16_roundtrip(x as u16);
            assert(((x as u16) as i16) == x) by (bit_vector);
        },
        Scalar::I32(x) => {
            lemma_be32_roundtrip(x as u32);
            assert(((x as u32) as i32) == x) by (bit_vector);
        },
        Scalar::I64(x) => {
            lemma_be64_roundtrip(x as u64);
            assert(((x as u64) as i64) == x) by (bit_vector);
        },
        Scalar::U8(_) => {},
        Scalar::U16(x) => {
            lemma_be16_roundtrip(x);
        },
        Scalar::U32(x) => {
            lemma_be32_roundtrip(x);
        },
        Scalar::U64(x) => {
            lemma_be64_roundtrip(x);
        },
        Scalar::F32Bits(x) => {
            lemma_be32_roundtrip(x);
        },
        Scalar::F64Bits(x) => {
            lemma_be64_roundtrip(x);
        },
        Scalar::Bool(_) => {},
        Scalar::Char(_) => {},
    }
}

/// The wire bytes of a value.
pub open spec fn wire_bytes(v: Val) -> Seq<u8>
    decreases v, 1nat,
{
    match v {
        Val::Scalar(s) => scalar_bytes(s),
        Val::Text(b) => b,
        Val::Sequence(vs) => be32(vs.len() as u32) + entries_bytes(vs),
        Val::SetOf(vs) => be32(vs.len() as u32) + entries_bytes(vs),
        Val::MapOf(ps) => be32(ps.len() as u32) + pairs_bytes(ps),
        Val::Tuple2(a, b) => block_bytes(*a) + block_bytes(*b),
        Val::Tuple3(a, b, c) => block_bytes(*a) + block_bytes(*b) + block_bytes(*c),
        Val::Optional(o) => match o {
            Option::Some(x) => wire_bytes(*x),
            Option::None => Seq::empty(),
        },
    }
}

/// One `[u32 length][payload]` block.
pub open spec fn block_bytes(v: Val) -> Seq<u8>
    decreases v, 2nat,
{
    be32(wire_bytes(v).len() as u32) + wire_bytes(v)
}

/// The blocks of a collection's entries, in order.
pub open spec fn entries_bytes(vs: Seq<Val>) -> Seq<u8>
    decreases vs, 3nat,
{
    if vs.len() == 0 {
        Seq::empty()
    } else {
        block_bytes(vs[0]) + entries_bytes(vs.drop_first())
    }
}

/// The blocks of a map's entries: key block then value block, per entry.
pub open spec fn pairs_bytes(ps: Seq<(Val, Val)>) -> Seq<u8>
    decreases ps, 3nat,
{
    if ps.len() == 0 {
        Seq::empty()
    } else {
        block_bytes(ps[0].0) + block_bytes(ps[0].1) + pairs_bytes(ps.drop_first())
    }
}

/// The wire size of a value: always the length of its encoding.
pub open spec fn wire_size(v: Val) -> int {
    wire_bytes(v).len() as int
}

/// Strictly increasing in the natural value order: sorted with no duplicates.
pub open spec fn strictly_sorted(vs: Seq<Val>) -> bool {
    forall|i: int, j: int| 0 <= i < j < vs.len() ==> val_lt(#[trigger] vs[i], #[trigger] vs[j])
}

/// Map entries strictly increasing by key: sorted with unique keys.
pub open spec fn strictly_sorted_keys(ps: Seq<(Val, Val)>) -> bool {
    forall|i: int, j: int|
        0 <= i < j < ps.len() ==> val_lt((#[trigger] ps[i]).0, (#[trigger] ps[j]).0)
}

/// Well-formedness of a value: its encoding fits a length field (the reserved
/// sentinel length excluded), its text is valid UTF-8, and its sets and maps
/// are in canonical order.
pub open spec fn wf(v: Val) -> bool
    decreases v,
{
    wire_size(v) < crate::bridge::ABSENT_LEN as int && match v {
        Val::Scalar(_) => true,
        Val::Text(b) => utf8_ok(b),
        Val::Sequence(vs) => forall|i: int| 0 <= i < vs.len() ==> wf(#[trigger] vs[i]),
        Val::SetOf(vs) => strictly_sorted(vs) && (forall|i: int|
            0 <= i < vs.len() ==> wf(#[trigger] vs[i])),
        Val::MapOf(ps) => strictly_sorted_keys(ps) && (forall|i: int|
            0 <= i < ps.len() ==> wf(#[trigger] ps[i].0) && wf(ps[i].1)),
        Val::Tuple2(a, b) => wf(*a) && wf(*b),
        Val::Tuple3(a, b, c) => wf(*a) && wf(*b) && wf(*c),
        Val::Optional(o) => o matches Option::Some(x) ==> wf(*x),
    }
}

/// Entry blocks concatenate: encoding `a + b` is encoding `a` then encoding `b`.
pub proof fn lemma_entries_concat(a: Seq<Val>, b: Seq<Val>)
    ensures
        entries_bytes(a + b) == entries_bytes(a) + entries_bytes(b),
    decreases a.len(),
{
    if a.len() == 0 {
        assert(a + b =~= b);
        assert(entries_bytes(a) + entries_bytes(b) =~= entries_bytes(b));
    } else {
        assert((a + b).drop_first() =~= a.drop_first() + b);
        lemma_entries_concat(a.drop_first(), b);
        assert(entries_bytes(a + b) =~= entries_bytes(a) + entries_bytes(b));
    }
}

/// Pair blocks concatenate.
pub proof fn lemma_pairs_concat(a: Seq<(Val, Val)>, b: Seq<(Val, Val)>)
    ensures
        pairs_bytes(a + b) == pairs_bytes(a) + pairs_bytes(b),
    decreases a.len(),
{
    if a.len() == 0 {
        assert(a + b =~= b);
        assert(pairs_bytes(a) + pairs_bytes(b) =~= pairs_bytes(b));
    } else {
        assert((a + b).drop_first() =~= a.drop_first() + b);
        lemma_pairs_concat(a.drop_first(), b);
        assert(pairs_bytes(a + b) =~= pairs_bytes(a) + pairs_bytes(b));
    }
}

/// Appending one entry appends its block.
pub proof fn lemma_entries_push(s: Seq<Val>, x: Val)
    ensures
        entries_bytes(s.push(x)) == entries_bytes(s) + block_bytes(x),
{
    assert(s.push(x) =~= s + seq![x]);
    lemma_entries_concat(s, seq![x]);
    assert(seq![x].drop_first() =~= Seq::<Val>::empty());
    assert(seq![x][0] == x);
    assert(entries_bytes(seq![x]) == block_bytes(x) + entries_bytes(seq![x].drop_first()));
    assert(entries_bytes(seq![x]) =~= block_bytes(x));
}

/// Appending one pair appends its two blocks.
pub proof fn lemma_pairs_push(s: Seq<(Val, Val)>, x: (Val, Val))
    ensures
        pairs_bytes(s.push(x)) == pairs_bytes(s) + block_bytes(x.0) + block_bytes(x.1),
{
    assert(s.push(x) =~= s + seq![x]);
    lemma_pairs_concat(s, seq![x]);
    assert(seq![x].drop_first() =~= Seq::<(Val, Val)>::empty());
    assert(seq![x][0] == x);
    assert(pairs_bytes(seq![x]) == block_bytes(seq![x][0].0) + block_bytes(seq![x][0].1)
        + pairs_bytes(seq![x].drop_first()));
    assert(pairs_bytes(seq![x]) =~= block_bytes(x.0) + block_bytes(x.1));
    assert(pairs_bytes(s.push(x)) =~= pairs_bytes(s) + block_bytes(x.0) + block_bytes(x.1));
}

/// Each entry contributes at least its four-byte length prefix.
pub proof fn lemma_entries_len_lower(vs: Seq<Val>)
    ensures
        entries_bytes(vs).len() >= 4 * vs.len(),
    decreases vs.len(),
{
    if vs.len() > 0 {
        lemma_entries_len_lower(vs.drop_first());
        assert(entries_bytes(vs) == block_bytes(vs[0]) + entries_bytes(vs.drop_first()));
        assert(block_bytes(vs[0]).len() >= 4);
    }
}

/// Each map entry contributes at least its two four-byte length prefixes.
pub proof fn lemma_pairs_len_lower(ps: Seq<(Val, Val)>)
    ensures
        pairs_bytes(ps).len() >= 8 * ps.len(),
    decreases ps.len(),
{
    if ps.len() > 0 {
        lemma_pairs_len_lower(ps.drop_first());
        assert(pairs_bytes(ps) == block_bytes(ps[0].0) + block_bytes(ps[0].1) + pairs_bytes(
            ps.drop_first(),
        ));
        assert(block_bytes(ps[0].0).len() >= 4);
        assert(block_bytes(ps[0].1).len() >= 4);
    }
}

/// A prefix of the entries never encodes to more bytes than all of them.
pub proof fn lemma_entries_take_le(vs: Seq<Val>, i: int)
    requires
        0 <= i <= vs.len(),
    ensures
        entries_bytes(vs.take(i)).len() <= entries_bytes(vs).len(),
{
    assert(vs =~= vs.take(i) + vs.skip(i));
    lemma_entries_concat(vs.take(i), vs.skip(i));
}

/// A prefix of the map entries never encodes to more bytes than all of them.
pub proof fn lemma_pairs_take_le(ps: Seq<(Val, Val)>, i: int)
    requires
        0 <= i <= ps.len(),
    ensures
        pairs_bytes(ps.take(i)).len() <= pairs_bytes(ps).len(),
{
    assert(ps =~= ps.take(i) + ps.skip(i));
    lemma_pairs_concat(ps.take(i), ps.skip(i));
}

/// A present optional value is encoded byte-identically to the value itself;
/// absence has no in-buffer form at all.
pub proof fn lemma_present_encoding(x: Val)
    ensures
        wire_bytes(Val::Optional(Option::Some(Box::new(x)))) == wire_bytes(x),
        wire_bytes(Val::Optional(Option::None)) == Seq::<u8>::empty(),
{
}


/// What well-formedness of a sequence value gives for its parts.
pub proof fn lemma_seq_wf_parts(w: Seq<Val>)
    requires
        wf(Val::Sequence(w)),
    ensures
        forall|j: int| 0 <= j < w.len() ==> wf(#[trigger] w[j]),
        entries_bytes(w).len() < 0xFFFF_FFFB,
        wire_bytes(Val::Sequence(w)).len() == 4 + entries_bytes(w).len(),
{
}

/// What well-formedness of a set value gives for its parts.
pub proof fn lemma_set_wf_parts(w: Seq<Val>)
    requires
        wf(Val::SetOf(w)),
    ensures
        forall|j: int| 0 <= j < w.len() ==> wf(#[trigger] w[j]),
        entries_bytes(w).len() < 0xFFFF_FFFB,
        wire_bytes(Val::SetOf(w)).len() == 4 + entries_bytes(w).len(),
{
}

/// What well-formedness of a map value gives for its parts.
pub proof fn lemma_map_wf_parts(w: Seq<(Val, Val)>)
    requires
        wf(Val::MapOf(w)),
    ensures
        forall|j: int| 0 <= j < w.len() ==> wf(#[trigger] w[j].0) && wf(w[j].1),
        pairs_bytes(w).len() < 0xFFFF_FFFB,
        wire_bytes(Val::MapOf(w)).len() == 4 + pairs_bytes(w).len(),
{
}

} // verus!
