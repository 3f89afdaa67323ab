//! The wire codec: `size`, `encode` and `decode` for every supported type.
//!
//! Decoding is specified by the pure parsing functions below; the executable
//! decoder returns exactly what they prescribe. A buffer must be consumed
//! exactly: any surplus or shortfall is a `DecodeSizeMismatch`, and text whose
//! bytes are not well-formed UTF-8 is an `InvalidTextEncoding`. Both are
//! fatal — the call is aborted by returning the fault to the boundary.

use vstd::prelude::*;

use crate::utf8::{check_utf8, utf8_ok};
use crate::value::{
    Scalar, ScalarType, TypeDesc, Val, Value, lemma_pmodels_index, lemma_pmodels_push,
    lemma_vmodels_index, lemma_vmodels_push, pmodels, td_height, val_lt, vmodel, vmodels,
};
use crate::wire::{
    be16, be16_val, be32, be32_val, be64, be64_val, block_bytes, entries_bytes,
    lemma_be16_roundtrip, lemma_be32_roundtrip, lemma_be64_roundtrip, lemma_entries_len_lower,
    lemma_entries_take_le, lemma_pairs_len_lower, lemma_pairs_take_le, pairs_bytes, scalar_bytes,
    scalar_of_bytes, scalar_type_of, scalar_width, wire_bytes, wire_size, lemma_scalar_roundtrip,
    lemma_entries_concat, lemma_pairs_concat, lemma_entries_push, lemma_pairs_push, wf,
    lemma_seq_wf_parts, lemma_set_wf_parts, lemma_map_wf_parts, strictly_sorted,
    strictly_sorted_keys,
};

verus! {

/// A fatal fault. A decode fault aborts the call that was decoding; an
/// allocation fault is the trap raised when the allocator is exhausted.
#[derive(Clone, Copy, Debug, PartialEq, Eq)]
pub enum Fault {
    DecodeSizeMismatch,
    InvalidTextEncoding,
    AllocationFailure,
}

/// Parses one `[u32 length][payload]` block from the front of `b`, returning
/// the value and the bytes consumed.
pub open spec fn parse_block(t: TypeDesc, b: Seq<u8>) -> Result<(Val, int), Fault>
    decreases td_height(t), b.len(), 1nat,
{
    if b.len() < 4 {
        Err(Fault::DecodeSizeMismatch)
    } else {
        let siz = be32_val(b) as int;
        if b.len() < 4 + siz {
            Err(Fault::DecodeSizeMismatch)
        } else {
            match spec_decode(t, b.subrange(4, 4 + siz)) {
                Ok(v) => Ok((v, 4 + siz)),
                Err(e) => Err(e),
            }
        }
    }
}

/// Parses exactly `n` entry blocks from the front of `b`.
pub open spec fn parse_entries(t: TypeDesc, b: Seq<u8>, n: int) -> Result<
    (Seq<Val>, int),
    Fault,
>
    decreases td_height(t), b.len(), 3nat,
{
    if n <= 0 {
        Ok((Seq::empty(), 0))
    } else if b.len() < 4 {
        Err(Fault::DecodeSizeMismatch)
    } else {
        let siz = be32_val(b) as int;
        if b.len() < 4 + siz {
            Err(Fault::DecodeSizeMismatch)
        } else {
            match spec_decode(t, b.subrange(4, 4 + siz)) {
                Ok(v) => match parse_entries(t, b.skip(4 + siz), n - 1) {
                    Ok((vs, c2)) => Ok((seq![v] + vs, 4 + siz + c2)),
                    Err(e) => Err(e),
                },
                Err(e) => Err(e),
            }
        }
    }
}

/// Parses exactly `n` key/value block pairs from the front of `b`.
pub open spec fn parse_pairs(kt: TypeDesc, vt: TypeDesc, b: Seq<u8>, n: int) -> Result<
    (Seq<(Val, Val)>, int),
    Fault,
>
    decreases (if td_height(kt) >= td_height(vt) {
        td_height(kt)
    } else {
        td_height(vt)
    }), b.len(), 3nat,
{
    if n <= 0 {
        Ok((Seq::empty(), 0))
    } else if b.len() < 4 {
        Err(Fault::DecodeSizeMismatch)
    } else {
        let sizk = be32_val(b) as int;
        if b.len() < 4 + sizk {
            Err(Fault::DecodeSizeMismatch)
        } else {
            match spec_decode(kt, b.subrange(4, 4 + sizk)) {
                Ok(k) => {
                    let rest = b.skip(4 + sizk);
                    if rest.len() < 4 {
                        Err(Fault::DecodeSizeMismatch)
                    } else {
                        let sizv = be32_val(rest) as int;
                        if rest.len() < 4 + sizv {
                            Err(Fault::DecodeSizeMismatch)
                        } else {
                            match spec_decode(vt, rest.subrange(4, 4 + sizv)) {
                                Ok(v) => match parse_pairs(
                                    kt,
                                    vt,
                                    rest.skip(4 + sizv),
                                    n - 1,
                                ) {
                                    Ok((ps, c2)) => Ok(
                                        (seq![(k, v)] + ps, 4 + sizk + 4 + sizv + c2),
                                    ),
                                    Err(e) => Err(e),
                                },
                                Err(e) => Err(e),
                            }
                        }
                    }
                },
                Err(e) => Err(e),
            }
        }
    }
}

/// Parses a `u32` count and then exactly that many entries, which must
/// consume the buffer exactly.
pub open spec fn parse_counted(t: TypeDesc, b: Seq<u8>) -> Result<Seq<Val>, Fault>
    decreases td_height(t), b.len(), 4nat,
{
    if b.len() < 4 {
        Err(Fault::DecodeSizeMismatch)
    } else {
        match parse_entries(t, b.skip(4), be32_val(b) as int) {
            Ok((vs, c)) => if 4 + c == b.len() {
                Ok(vs)
            } else {
                Err(Fault::DecodeSizeMismatch)
            },
            Err(e) => Err(e),
        }
    }
}

/// Parses a `u32` count and then exactly that many key/value pairs, which
/// must consume the buffer exactly.
pub open spec fn parse_pairs_counted(kt: TypeDesc, vt: TypeDesc, b: Seq<u8>) -> Result<
    Seq<(Val, Val)>,
    Fault,
>
    decreases (if td_height(kt) >= td_height(vt) {
        td_height(kt)
    } else {
        td_height(vt)
    }), b.len(), 4nat,
{
    if b.len() < 4 {
        Err(Fault::DecodeSizeMismatch)
    } else {
        match parse_pairs(kt, vt, b.skip(4), be32_val(b) as int) {
            Ok((ps, c)) => if 4 + c == b.len() {
                Ok(ps)
            } else {
                Err(Fault::DecodeSizeMismatch)
            },
            Err(e) => Err(e),
        }
    }
}

/// Inserts a value into an ordered sequence at its place in the natural
/// order; an already-present value leaves the sequence unchanged.
pub open spec fn set_insert(s: Seq<Val>, v: Val) -> Seq<Val>
    decreases s.len(),
{
    if s.len() == 0 {
        seq![v]
    } else if val_lt(v, s[0]) {
        seq![v] + s
    } else if v == s[0] {
        s
    } else {
        seq![s[0]] + set_insert(s.drop_first(), v)
    }
}

/// The canonical form of decoded set entries: each entry inserted in turn, so
/// the result is ordered, duplicates collapse, and the first occurrence stays.
pub open spec fn canon_set(vs: Seq<Val>) -> Seq<Val>
    decreases vs.len(),
{
    if vs.len() == 0 {
        Seq::empty()
    } else {
        set_insert(canon_set(vs.drop_last()), vs.last())
    }
}

/// Inserts a pair into a key-ordered sequence at its key's place; a repeated
/// key overwrites the held value, so the last occurrence wins.
pub open spec fn map_insert(s: Seq<(Val, Val)>, p: (Val, Val)) -> Seq<(Val, Val)>
    decreases s.len(),
{
    if s.len() == 0 {
        seq![p]
    } else if val_lt(p.0, s[0].0) {
        seq![p] + s
    } else if p.0 == s[0].0 {
        seq![p] + s.drop_first()
    } else {
        seq![s[0]] + map_insert(s.drop_first(), p)
    }
}

/// The canonical form of decoded map entries: keys unique and ordered, the
/// last occurrence of a repeated key winning.
pub open spec fn canon_map(ps: Seq<(Val, Val)>) -> Seq<(Val, Val)>
    decreases ps.len(),
{
    if ps.len() == 0 {
        Seq::empty()
    } else {
        map_insert(canon_map(ps.drop_last()), ps.last())
    }
}

/// Inserting a value greater than every element appends it.
pub proof fn lemma_set_insert_above(s: Seq<Val>, v: Val)
    requires
        forall|i: int| 0 <= i < s.len() ==> val_lt(#[trigger] s[i], v),
    ensures
        set_insert(s, v) == s.push(v),
    decreases s.len(),
{
    if s.len() == 0 {
        assert(set_insert(s, v) =~= s.push(v));
    } else {
        crate::value::lemma_val_lt_asym(s[0], v);
        assert(forall|i: int|
            0 <= i < s.drop_first().len() ==> val_lt(#[trigger] s.drop_first()[i], v));
        lemma_set_insert_above(s.drop_first(), v);
        assert(set_insert(s, v) =~= s.push(v));
    }
}

/// Inserting a pair whose key is greater than every key appends it.
pub proof fn lemma_map_insert_above(s: Seq<(Val, Val)>, p: (Val, Val))
    requires
        forall|i: int| 0 <= i < s.len() ==> val_lt((#[trigger] s[i]).0, p.0),
    ensures
        map_insert(s, p) == s.push(p),
    decreases s.len(),
{
    if s.len() == 0 {
        assert(map_insert(s, p) =~= s.push(p));
    } else {
        crate::value::lemma_val_lt_asym(s[0].0, p.0);
        assert(forall|i: int|
            0 <= i < s.drop_first().len() ==> val_lt((#[trigger] s.drop_first()[i]).0, p.0));
        lemma_map_insert_above(s.drop_first(), p);
        assert(map_insert(s, p) =~= s.push(p));
    }
}

/// Canonicalizing entries that are already in canonical order changes
/// nothing.
pub proof fn lemma_canon_set_sorted_id(vs: Seq<Val>)
    requires
        strictly_sorted(vs),
    ensures
        canon_set(vs) == vs,
    decreases vs.len(),
{
    if vs.len() > 0 {
        let front = vs.drop_last();
        assert(strictly_sorted(front)) by {
            assert(forall|i: int, j: int|
                0 <= i < j < front.len() ==> val_lt(#[trigger] front[i], #[trigger] front[j]))
                by {
                assert(forall|i: int| 0 <= i < front.len() ==> front[i] == vs[i]);
            }
        }
        lemma_canon_set_sorted_id(front);
        assert(forall|i: int| 0 <= i < front.len() ==> val_lt(#[trigger] front[i], vs.last()));
        lemma_set_insert_above(front, vs.last());
        assert(front.push(vs.last()) =~= vs);
    }
}

/// Canonicalizing map entries already in canonical key order changes nothing.
pub proof fn lemma_canon_map_sorted_id(ps: Seq<(Val, Val)>)
    requires
        strictly_sorted_keys(ps),
    ensures
        canon_map(ps) == ps,
    decreases ps.len(),
{
    if ps.len() > 0 {
        let front = ps.drop_last();
        assert(strictly_sorted_keys(front)) by {
            assert(forall|i: int, j: int|
                0 <= i < j < front.len() ==> val_lt(
                    (#[trigger] front[i]).0,
                    (#[trigger] front[j]).0,
                )) by {
                assert(forall|i: int| 0 <= i < front.len() ==> front[i] == ps[i]);
            }
        }
        lemma_canon_map_sorted_id(front);
        assert(forall|i: int| 0 <= i < front.len() ==> val_lt((#[trigger] front[i]).0, ps.last().0));
        lemma_map_insert_above(front, ps.last());
        assert(front.push(ps.last()) =~= ps);
    }
}

/// What decoding a buffer of declared type `t` yields: the decoded value, or
/// the fault that aborts the call. The buffer is the entire declared range;
/// a present optional is encoded exactly as its inner value.
pub open spec fn spec_decode(t: TypeDesc, b: Seq<u8>) -> Result<Val, Fault>
    decreases td_height(t), b.len(), 2nat,
{
    match t {
        TypeDesc::Scalar(st) => if b.len() == scalar_width(st) {
            Ok(Val::Scalar(scalar_of_bytes(st, b)))
        } else {
            Err(Fault::DecodeSizeMismatch)
        },
        TypeDesc::Text => if utf8_ok(b) {
            Ok(Val::Text(b))
        } else {
            Err(Fault::InvalidTextEncoding)
        },
        TypeDesc::Sequence(et) => match parse_counted(*et, b) {
            Ok(vs) => Ok(Val::Sequence(vs)),
            Err(e) => Err(e),
        },
        TypeDesc::SetOf(et) => match parse_counted(*et, b) {
            Ok(vs) => Ok(Val::SetOf(canon_set(vs))),
            Err(e) => Err(e),
        },
        TypeDesc::MapOf(kt, vt) => match parse_pairs_counted(*kt, *vt, b) {
            Ok(ps) => Ok(Val::MapOf(canon_map(ps))),
            Err(e) => Err(e),
        },
        TypeDesc::Tuple2(ta, tb) => match parse_block(*ta, b) {
            Ok((va, ca)) => match parse_block(*tb, b.skip(ca)) {
                Ok((vb, cb)) => if ca + cb == b.len() {
                    Ok(Val::Tuple2(Box::new(va), Box::new(vb)))
                } else {
                    Err(Fault::DecodeSizeMismatch)
                },
                Err(e) => Err(e),
            },
            Err(e) => Err(e),
        },
        TypeDesc::Tuple3(ta, tb, tc) => match parse_block(*ta, b) {
            Ok((va, ca)) => match parse_block(*tb, b.skip(ca)) {
                Ok((vb, cb)) => match parse_block(*tc, b.skip(ca + cb)) {
                    Ok((vc, cc)) => if ca + cb + cc == b.len() {
                        Ok(Val::Tuple3(Box::new(va), Box::new(vb), Box::new(vc)))
                    } else {
                        Err(Fault::DecodeSizeMismatch)
                    },
                    Err(e) => Err(e),
                },
                Err(e) => Err(e),
            },
            Err(e) => Err(e),
        },
        TypeDesc::Optional(et) => match spec_decode(*et, b) {
            Ok(v) => Ok(Val::Optional(Option::Some(Box::new(v)))),
            Err(e) => Err(e),
        },
    }
}

/// Reading the count field back out of an encoded count prefix.
pub proof fn lemma_be32_val_prefix(n: u32, rest: Seq<u8>)
    ensures
        be32_val(be32(n) + rest) == n,
{
    let b = be32(n) + rest;
    assert(b[0] == be32(n)[0]);
    assert(b[1] == be32(n)[1]);
    assert(b[2] == be32(n)[2]);
    assert(b[3] == be32(n)[3]);
    lemma_be32_roundtrip(n);
}

/// Decoding an encoded well-formed value of the declared type yields that
/// value back, and its block parses from the front of any longer buffer,
/// consuming exactly the block.
#[verifier::rlimit(100)]
#[verifier::spinoff_prover]
pub proof fn lemma_block_complete(t: TypeDesc, v: Val, rest: Seq<u8>)
    requires
        wf(v),
        crate::value::has_type(v, t),
        crate::value::no_absent(v),
    ensures
        be32_val(block_bytes(v) + rest) as int == wire_bytes(v).len(),
        (block_bytes(v) + rest).subrange(4, 4 + wire_bytes(v).len() as int) == wire_bytes(v),
        (block_bytes(v) + rest).skip(4 + wire_bytes(v).len() as int) == rest,
        (block_bytes(v) + rest).len() == 4 + wire_bytes(v).len() + rest.len(),
        spec_decode(t, wire_bytes(v)) == Ok::<Val, Fault>(v),
        parse_block(t, block_bytes(v) + rest) == Ok::<(Val, int), Fault>(
            (v, 4 + wire_bytes(v).len() as int),
        ),
    decreases td_height(t), wire_bytes(v).len(), 1nat,
{
    let w = wire_bytes(v);
    let b = block_bytes(v) + rest;
    assert(w.len() < 0xFFFF_FFFF);
    lemma_be32_val_prefix(w.len() as u32, w + rest);
    assert(block_bytes(v) + rest =~= be32(w.len() as u32) + (w + rest));
    assert(b.subrange(4, 4 + w.len() as int) =~= w);
    assert(b.skip(4 + w.len() as int) =~= rest);
    lemma_round_trip(t, v);
}

/// Decoding the encoded entries of a collection of well-formed, typed values
/// yields exactly those values, consuming all the entry bytes.
#[verifier::rlimit(100)]
#[verifier::spinoff_prover]
pub proof fn lemma_entries_complete(et: TypeDesc, vs: Seq<Val>)
    requires
        forall|i: int| 0 <= i < vs.len() ==> wf(#[trigger] vs[i]),
        forall|i: int| 0 <= i < vs.len() ==> crate::value::has_type(#[trigger] vs[i], et),
        forall|i: int| 0 <= i < vs.len() ==> crate::value::no_absent(#[trigger] vs[i]),
    ensures
        parse_entries(et, entries_bytes(vs), vs.len() as int) == Ok::<(Seq<Val>, int), Fault>(
            (vs, entries_bytes(vs).len() as int),
        ),
    decreases td_height(et), entries_bytes(vs).len(), 2nat,
{
    if vs.len() == 0 {
        assert(vs =~= Seq::<Val>::empty());
        assert(entries_bytes(vs) =~= Seq::<u8>::empty());
    } else {
        let v0 = vs[0];
        let tail = vs.drop_first();
        let b = entries_bytes(vs);
        assert(b == block_bytes(v0) + entries_bytes(tail));
        lemma_block_complete(et, v0, entries_bytes(tail));
        let w0 = wire_bytes(v0).len() as int;
        assert(b.len() >= 4);
        assert(be32_val(b) as int == w0);
        assert(b.len() >= 4 + w0);
        assert(spec_decode(et, b.subrange(4, 4 + w0)) == Ok::<Val, Fault>(v0));
        assert(forall|i: int| 0 <= i < tail.len() ==> wf(#[trigger] tail[i]));
        assert(forall|i: int|
            0 <= i < tail.len() ==> crate::value::has_type(#[trigger] tail[i], et));
        assert(forall|i: int| 0 <= i < tail.len() ==> crate::value::no_absent(#[trigger] tail[i]));
        lemma_entries_complete(et, tail);
        assert(b.skip(4 + w0) == entries_bytes(tail));
        assert(seq![v0] + tail =~= vs);
        assert(4 + w0 + entries_bytes(tail).len() == b.len());
        assert(parse_entries(et, b.skip(4 + w0), vs.len() as int - 1) == Ok::<
            (Seq<Val>, int),
            Fault,
        >((tail, entries_bytes(tail).len() as int)));
        assert(parse_entries(et, b, vs.len() as int) == Ok::<(Seq<Val>, int), Fault>(
            (seq![v0] + tail, 4 + w0 + entries_bytes(tail).len() as int),
        ));
    }
}

/// Decoding the encoded entries of a map of well-formed, typed pairs yields
/// exactly those pairs, consuming all the pair bytes.
#[verifier::rlimit(100)]
#[verifier::spinoff_prover]
pub proof fn lemma_pairs_complete(kt: TypeDesc, vt: TypeDesc, ps: Seq<(Val, Val)>)
    requires
        forall|i: int| 0 <= i < ps.len() ==> wf(#[trigger] ps[i].0) && wf(ps[i].1),
        forall|i: int|
            0 <= i < ps.len() ==> crate::value::has_type(#[trigger] ps[i].0, kt)
                && crate::value::has_type(ps[i].1, vt),
        forall|i: int|
            0 <= i < ps.len() ==> crate::value::no_absent(#[trigger] ps[i].0)
                && crate::value::no_absent(ps[i].1),
    ensures
        parse_pairs(kt, vt, pairs_bytes(ps), ps.len() as int) == Ok::<(Seq<(Val, Val)>, int), Fault>(
            (ps, pairs_bytes(ps).len() as int),
        ),
    decreases (if td_height(kt) >= td_height(vt) {
        td_height(kt)
    } else {
        td_height(vt)
    }), pairs_bytes(ps).len(), 2nat,
{
    if ps.len() == 0 {
        assert(ps =~= Seq::<(Val, Val)>::empty());
        assert(pairs_bytes(ps) =~= Seq::<u8>::empty());
    } else {
        let k0 = ps[0].0;
        let v0 = ps[0].1;
        let tail = ps.drop_first();
        let b = pairs_bytes(ps);
        assert(b == block_bytes(k0) + block_bytes(v0) + pairs_bytes(tail));
        assert(b =~= block_bytes(k0) + (block_bytes(v0) + pairs_bytes(tail)));
        lemma_block_complete(kt, k0, block_bytes(v0) + pairs_bytes(tail));
        let wk = wire_bytes(k0).len() as int;
        assert(b.len() >= 4 + wk);
        assert(spec_decode(kt, b.subrange(4, 4 + wk)) == Ok::<Val, Fault>(k0));
        let rest = b.skip(4 + wk);
        assert(rest == block_bytes(v0) + pairs_bytes(tail));
        lemma_block_complete(vt, v0, pairs_bytes(tail));
        let wv = wire_bytes(v0).len() as int;
        assert(rest.len() >= 4 + wv);
        assert(spec_decode(vt, rest.subrange(4, 4 + wv)) == Ok::<Val, Fault>(v0));
        assert(forall|i: int| 0 <= i < tail.len() ==> wf(#[trigger] tail[i].0) && wf(tail[i].1));
        assert(forall|i: int|
            0 <= i < tail.len() ==> crate::value::has_type(#[trigger] tail[i].0, kt)
                && crate::value::has_type(tail[i].1, vt));
        assert(forall|i: int|
            0 <= i < tail.len() ==> crate::value::no_absent(#[trigger] tail[i].0)
                && crate::value::no_absent(tail[i].1));
        lemma_pairs_complete(kt, vt, tail);
        assert(rest.skip(4 + wv) == pairs_bytes(tail));
        assert(seq![(k0, v0)] + tail =~= ps);
        assert(4 + wk + 4 + wv + pairs_bytes(tail).len() == b.len());
        assert(parse_pairs(kt, vt, rest.skip(4 + wv), ps.len() as int - 1) == Ok::<
            (Seq<(Val, Val)>, int),
            Fault,
        >((tail, pairs_bytes(tail).len() as int)));
        assert(parse_pairs(kt, vt, b, ps.len() as int) == Ok::<(Seq<(Val, Val)>, int), Fault>(
            (seq![(k0, v0)] + tail, 4 + wk + 4 + wv + pairs_bytes(tail).len() as int),
        ));
    }
}

/// Round trip: decoding the encoding of a well-formed value of the declared
/// type, with no absent optional inside, yields exactly that value.
#[verifier::rlimit(100)]
#[verifier::spinoff_prover]
pub proof fn lemma_round_trip(t: TypeDesc, v: Val)
    requires
        wf(v),
        crate::value::has_type(v, t),
        crate::value::no_absent(v),
    ensures
        spec_decode(t, wire_bytes(v)) == Ok::<Val, Fault>(v),
    decreases td_height(t), wire_bytes(v).len(), 0nat,
{
    let b = wire_bytes(v);
    match v {
        Val::Scalar(s) => {
            lemma_scalar_roundtrip(s);
            if let TypeDesc::Scalar(st) = t {
                assert(st == scalar_type_of(s));
            }
        },
        Val::Text(_) => {},
        Val::Sequence(vs) => {
            if let TypeDesc::Sequence(et) = t {
                lemma_entries_len_lower(vs);
                let n = vs.len() as u32;
                lemma_be32_val_prefix(n, entries_bytes(vs));
                assert(b.skip(4) =~= entries_bytes(vs));
                lemma_entries_complete(*et, vs);
                assert(vs.len() < 0x1_0000_0000);
                assert(be32_val(b) as int == vs.len() as int);
                assert(parse_entries(*et, b.skip(4), be32_val(b) as int) == Ok::<
                    (Seq<Val>, int),
                    Fault,
                >((vs, entries_bytes(vs).len() as int)));
                assert(4 + entries_bytes(vs).len() == b.len());
                assert(parse_counted(*et, b) == Ok::<Seq<Val>, Fault>(vs));
            }
        },
        Val::SetOf(vs) => {
            if let TypeDesc::SetOf(et) = t {
                lemma_entries_len_lower(vs);
                let n = vs.len() as u32;
                lemma_be32_val_prefix(n, entries_bytes(vs));
                assert(b.skip(4) =~= entries_bytes(vs));
                lemma_entries_complete(*et, vs);
                lemma_canon_set_sorted_id(vs);
                assert(vs.len() < 0x1_0000_0000);
                assert(be32_val(b) as int == vs.len() as int);
                assert(parse_entries(*et, b.skip(4), be32_val(b) as int) == Ok::<
                    (Seq<Val>, int),
                    Fault,
                >((vs, entries_bytes(vs).len() as int)));
                assert(4 + entries_bytes(vs).len() == b.len());
                assert(parse_counted(*et, b) == Ok::<Seq<Val>, Fault>(vs));
            }
        },
        Val::MapOf(ps) => {
            if let TypeDesc::MapOf(kt, vt) = t {
                lemma_pairs_len_lower(ps);
                let n = ps.len() as u32;
                lemma_be32_val_prefix(n, pairs_bytes(ps));
                assert(b.skip(4) =~= pairs_bytes(ps));
                lemma_pairs_complete(*kt, *vt, ps);
                lemma_canon_map_sorted_id(ps);
                assert(ps.len() < 0x1_0000_0000);
                assert(be32_val(b) as int == ps.len() as int);
                assert(parse_pairs(*kt, *vt, b.skip(4), be32_val(b) as int) == Ok::<
                    (Seq<(Val, Val)>, int),
                    Fault,
                >((ps, pairs_bytes(ps).len() as int)));
                assert(4 + pairs_bytes(ps).len() == b.len());
                assert(parse_pairs_counted(*kt, *vt, b) == Ok::<Seq<(Val, Val)>, Fault>(ps));
            }
        },
        Val::Tuple2(x, y) => {
            if let TypeDesc::Tuple2(ta, tb) = t {
                assert(b =~= block_bytes(*x) + block_bytes(*y));
                lemma_block_complete(*ta, *x, block_bytes(*y));
                let cx = 4 + wire_bytes(*x).len() as int;
                assert(b.skip(cx) == block_bytes(*y));
                assert(block_bytes(*y) =~= block_bytes(*y) + Seq::<u8>::empty());
                lemma_block_complete(*tb, *y, Seq::empty());
                let cy = 4 + wire_bytes(*y).len() as int;
                assert(cx + cy == b.len());
            }
        },
        Val::Tuple3(x, y, z) => {
            if let TypeDesc::Tuple3(ta, tb, tc) = t {
                assert(b =~= block_bytes(*x) + (block_bytes(*y) + block_bytes(*z)));
                lemma_block_complete(*ta, *x, block_bytes(*y) + block_bytes(*z));
                let cx = 4 + wire_bytes(*x).len() as int;
                assert(b.skip(cx) == block_bytes(*y) + block_bytes(*z));
                lemma_block_complete(*tb, *y, block_bytes(*z));
                let cy = 4 + wire_bytes(*y).len() as int;
                assert(b.skip(cx).skip(cy) =~= b.skip(cx + cy));
                assert(b.skip(cx + cy) =~= block_bytes(*z));
                assert(block_bytes(*z) =~= block_bytes(*z) + Seq::<u8>::empty());
                lemma_block_complete(*tc, *z, Seq::empty());
                let cz = 4 + wire_bytes(*z).len() as int;
                assert(cx + cy + cz == b.len());
            }
        },
        Val::Optional(o) => {
            if let TypeDesc::Optional(et) = t {
                if let Option::Some(x) = o {
                    lemma_round_trip(*et, *x);
                    assert(Val::Optional(Option::Some(Box::new(*x))) == v);
                }
            }
        },
    }
}

/// Reads a 16-bit big-endian value at `off`.
fn read_be16(b: &[u8], off: usize) -> (r: u16)
    requires
        off + 2 <= b@.len(),
    ensures
        r == be16_val(b@.skip(off as int)),
{
    let r = ((b[off] as u16) << 8) | (b[off + 1] as u16);
    proof {
        let s = b@.skip(off as int);
        assert(s[0] == b@[off as int]);
        assert(s[1] == b@[off as int + 1]);
    }
    r
}

/// Reads a 32-bit big-endian value at `off`.
fn read_be32(b: &[u8], off: usize) -> (r: u32)
    requires
        off + 4 <= b@.len(),
    ensures
        r == be32_val(b@.skip(off as int)),
{
    let r = ((b[off] as u32) << 24) | ((b[off + 1] as u32) << 16) | ((b[off + 2] as u32) << 8) | (b[
        off + 3
    ] as u32);
    proof {
        let s = b@.skip(off as int);
        assert(s[0] == b@[off as int]);
        assert(s[1] == b@[off as int + 1]);
        assert(s[2] == b@[off as int + 2]);
        assert(s[3] == b@[off as int + 3]);
    }
    r
}

/// Reads a 64-bit big-endian value at `off`.
fn read_be64(b: &[u8], off: usize) -> (r: u64)
    requires
        off + 8 <= b@.len(),
    ensures
        r == be64_val(b@.skip(off as int)),
{
    let r = ((b[off] as u64) << 56) | ((b[off + 1] as u64) << 48) | ((b[off + 2] as u64) << 40) | ((
    b[off + 3] as u64) << 32) | ((b[off + 4] as u64) << 24) | ((b[off + 5] as u64) << 16) | ((b[off
        + 6] as u64) << 8) | (b[off + 7] as u64);
    proof {
        let s = b@.skip(off as int);
        assert forall|i: int| 0 <= i < 8 implies s[i] == b@[off as int + i] by {}
    }
    r
}

/// Appends the big-endian bytes of a 16-bit value.
fn push_be16(out: &mut Vec<u8>, n: u16)
    ensures
        final(out)@ == old(out)@ + be16(n),
{
    out.push((n >> 8) as u8);
    out.push(n as u8);
    proof {
        assert(final(out)@ =~= old(out)@ + be16(n));
    }
}

/// Appends the big-endian bytes of a 32-bit value.
fn push_be32(out: &mut Vec<u8>, n: u32)
    ensures
        final(out)@ == old(out)@ + be32(n),
{
    out.push((n >> 24) as u8);
    out.push((n >> 16) as u8);
    out.push((n >> 8) as u8);
    out.push(n as u8);
    proof {
        assert(final(out)@ =~= old(out)@ + be32(n));
    }
}

/// Appends the big-endian bytes of a 64-bit value.
fn push_be64(out: &mut Vec<u8>, n: u64)
    ensures
        final(out)@ == old(out)@ + be64(n),
{
    out.push((n >> 56) as u8);
    out.push((n >> 48) as u8);
    out.push((n >> 40) as u8);
    out.push((n >> 32) as u8);
    out.push((n >> 24) as u8);
    out.push((n >> 16) as u8);
    out.push((n >> 8) as u8);
    out.push(n as u8);
    proof {
        assert(final(out)@ =~= old(out)@ + be64(n));
    }
}

/// Appends the wire bytes of a scalar.
fn encode_scalar(s: &Scalar, out: &mut Vec<u8>)
    ensures
        final(out)@ == old(out)@ + scalar_bytes(*s),
{
    match s {
        Scalar::I8(x) => {
            out.push(#[verifier::truncate] (*x as u8));
            proof {
                assert(final(out)@ =~= old(out)@ + scalar_bytes(*s));
            }
        },
        Scalar::I16(x) => {
            push_be16(out, #[verifier::truncate] (*x as u16));
        },
        Scalar::I32(x) => {
            push_be32(out, #[verifier::truncate] (*x as u32));
        },
        Scalar::I64(x) => {
            push_be64(out, #[verifier::truncate] (*x as u64));
        },
        Scalar::U8(x) => {
            out.push(*x);
            proof {
                assert(final(out)@ =~= old(out)@ + scalar_bytes(*s));
            }
        },
        Scalar::U16(x) => {
            push_be16(out, *x);
        },
        Scalar::U32(x) => {
            push_be32(out, *x);
        },
        Scalar::U64(x) => {
            push_be64(out, *x);
        },
        Scalar::F32Bits(x) => {
            push_be32(out, *x);
        },
        Scalar::F64Bits(x) => {
            push_be64(out, *x);
        },
        Scalar::Bool(x) => {
            out.push(if *x { 1u8 } else { 0u8 });
            proof {
                assert(final(out)@ =~= old(out)@ + scalar_bytes(*s));
            }
        },
        Scalar::Char(x) => {
            out.push(*x);
            proof {
                assert(final(out)@ =~= old(out)@ + scalar_bytes(*s));
            }
        },
    }
}

/// The fixed width of a scalar type.
pub fn scalar_width_of(t: &ScalarType) -> (w: usize)
    ensures
        w == scalar_width(*t),
{
    match t {
        ScalarType::I8 => 1,
        ScalarType::I16 => 2,
        ScalarType::I32 => 4,
        ScalarType::I64 => 8,
        ScalarType::U8 => 1,
        ScalarType::U16 => 2,
        ScalarType::U32 => 4,
        ScalarType::U64 => 8,
        ScalarType::F32 => 4,
        ScalarType::F64 => 8,
        ScalarType::Bool => 1,
        ScalarType::Char => 1,
    }
}

/// Decodes a scalar from a buffer of exactly the type's width.
fn decode_scalar(t: &ScalarType, b: &[u8]) -> (s: Scalar)
    requires
        b@.len() == scalar_width(*t),
    ensures
        s == scalar_of_bytes(*t, b@),
{
    proof {
        assert(b@.skip(0) =~= b@);
    }
    match t {
        ScalarType::I8 => Scalar::I8(#[verifier::truncate] (b[0] as i8)),
        ScalarType::I16 => Scalar::I16(#[verifier::truncate] (read_be16(b, 0) as i16)),
        ScalarType::I32 => Scalar::I32(#[verifier::truncate] (read_be32(b, 0) as i32)),
        ScalarType::I64 => Scalar::I64(#[verifier::truncate] (read_be64(b, 0) as i64)),
        ScalarType::U8 => Scalar::U8(b[0]),
        ScalarType::U16 => Scalar::U16(read_be16(b, 0)),
        ScalarType::U32 => Scalar::U32(read_be32(b, 0)),
        ScalarType::U64 => Scalar::U64(read_be64(b, 0)),
        ScalarType::F32 => Scalar::F32Bits(read_be32(b, 0)),
        ScalarType::F64 => Scalar::F64Bits(read_be64(b, 0)),
        ScalarType::Bool => Scalar::Bool(b[0] != 0),
        ScalarType::Char => Scalar::Char(b[0]),
    }
}

/// The total size of a collection's entry blocks.
#[verifier::rlimit(100)]
#[verifier::spinoff_prover]
fn entries_size(vs: &Vec<Value>) -> (n: u64)
    requires
        forall|j: int| 0 <= j < vs@.len() ==> wf(#[trigger] vmodels(vs@)[j]),
        entries_bytes(vmodels(vs@)).len() < 0x1_0000_0000,
    ensures
        n == entries_bytes(vmodels(vs@)).len(),
    decreases vs@, 0nat,
{
    let ghost vsm = vmodels(vs@);
    proof {
        lemma_vmodels_index(vs@);
    }
    let mut acc: u64 = 0;
    let mut i: usize = 0;
    while i < vs.len()
        invariant
            i <= vs.len(),
            vsm == vmodels(vs@),
            vsm.len() == vs@.len(),
            forall|j: int| 0 <= j < vs@.len() ==> wf(#[trigger] vmodels(vs@)[j]),
            forall|j: int| 0 <= j < vs@.len() ==> vsm[j] == vmodel(#[trigger] vs@[j]),
            entries_bytes(vsm).len() < 0x1_0000_0000,
            acc == entries_bytes(vsm.take(i as int)).len(),
        decreases vs@.len() - i,
    {
        proof {
            assert(wf(vsm[i as int]));
            lemma_entries_take_le(vsm, i + 1);
            assert(vsm.take(i + 1) =~= vsm.take(i as int).push(vsm[i as int]));
            lemma_entries_push(vsm.take(i as int), vsm[i as int]);
            assert(decreases_to!(vs@ => vs@[i as int]));
        }
        let sz = size(&vs[i]);
        acc = acc + 4 + (sz as u64);
        i = i + 1;
    }
    proof {
        assert(vsm.take(vs@.len() as int) =~= vsm);
    }
    acc
}

/// The total size of a map's entry blocks.
#[verifier::rlimit(100)]
#[verifier::spinoff_prover]
fn pairs_size(ps: &Vec<(Value, Value)>) -> (n: u64)
    requires
        forall|j: int|
            0 <= j < ps@.len() ==> wf(#[trigger] pmodels(ps@)[j].0) && wf(pmodels(ps@)[j].1),
        pairs_bytes(pmodels(ps@)).len() < 0x1_0000_0000,
    ensures
        n == pairs_bytes(pmodels(ps@)).len(),
    decreases ps@, 0nat,
{
    let ghost psm = pmodels(ps@);
    proof {
        lemma_pmodels_index(ps@);
    }
    let mut acc: u64 = 0;
    let mut i: usize = 0;
    while i < ps.len()
        invariant
            i <= ps.len(),
            psm == pmodels(ps@),
            psm.len() == ps@.len(),
            forall|j: int|
                0 <= j < ps@.len() ==> wf(#[trigger] pmodels(ps@)[j].0) && wf(pmodels(ps@)[j].1),
            forall|j: int|
                0 <= j < ps@.len() ==> psm[j] == (vmodel(#[trigger] ps@[j].0), vmodel(ps@[j].1)),
            pairs_bytes(psm).len() < 0x1_0000_0000,
            acc == pairs_bytes(psm.take(i as int)).len(),
        decreases ps@.len() - i,
    {
        proof {
            assert(wf(psm[i as int].0) && wf(psm[i as int].1));
            lemma_pairs_take_le(psm, i + 1);
            assert(psm.take(i + 1) =~= psm.take(i as int).push(psm[i as int]));
            lemma_pairs_push(psm.take(i as int), psm[i as int]);
            assert(decreases_to!(ps@ => ps@[i as int]));
            assert(decreases_to!(ps@[i as int] => ps@[i as int].0));
            assert(decreases_to!(ps@[i as int] => ps@[i as int].1));
        }
        let szk = size(&ps[i].0);
        let szv = size(&ps[i].1);
        acc = acc + 4 + (szk as u64) + 4 + (szv as u64);
        i = i + 1;
    }
    proof {
        assert(psm.take(ps@.len() as int) =~= psm);
    }
    acc
}

/// The wire size of a value, computable without allocating: exactly the
/// length of `encode`'s output.
#[verifier::rlimit(100)]
#[verifier::spinoff_prover]
pub fn size(v: &Value) -> (n: u32)
    requires
        wf(vmodel(*v)),
    ensures
        n as int == wire_size(vmodel(*v)),
    decreases *v, 3nat,
{
    match v {
        Value::Scalar(s) => match s {
            Scalar::I8(_) => 1,
            Scalar::I16(_) => 2,
            Scalar::I32(_) => 4,
            Scalar::I64(_) => 8,
            Scalar::U8(_) => 1,
            Scalar::U16(_) => 2,
            Scalar::U32(_) => 4,
            Scalar::U64(_) => 8,
            Scalar::F32Bits(_) => 4,
            Scalar::F64Bits(_) => 8,
            Scalar::Bool(_) => 1,
            Scalar::Char(_) => 1,
        },
        Value::Text(b) => {
            proof {
                assert(b@.len() < 0xFFFF_FFFF);
            }
            #[verifier::truncate] (b.len() as u32)
        },
        Value::Sequence(vs) => {
            proof {
                assert(vmodel(*v) == Val::Sequence(vmodels(vs@)));
                assert(decreases_to!(*v => vs@));
            }
            size_sequence(vs)
        },
        Value::SetOf(vs) => {
            proof {
                assert(vmodel(*v) == Val::SetOf(vmodels(vs@)));
                assert(decreases_to!(*v => vs@));
            }
            size_setof(vs)
        },
        Value::MapOf(ps) => {
            proof {
                assert(vmodel(*v) == Val::MapOf(pmodels(ps@)));
                assert(decreases_to!(*v => ps@));
            }
            size_mapof(ps)
        },
        Value::Tuple2(..) | Value::Tuple3(..) => size_composite(v),
        Value::Optional(o) => match o {
            Option::Some(x) => size(&**x),
            Option::None => 0,
        },
    }
}

/// The wire size of a tuple value.
#[verifier::rlimit(100)]
#[verifier::spinoff_prover]
fn size_composite(v: &Value) -> (n: u32)
    requires
        wf(vmodel(*v)),
        v matches Value::Tuple2(..) || v matches Value::Tuple3(..),
    ensures
        n as int == wire_size(vmodel(*v)),
    decreases *v, 2nat,
{
    match v {
        Value::Tuple2(a, b) => {
            let sa = size(&**a);
            let sb = size(&**b);
            let total: u64 = 8 + (sa as u64) + (sb as u64);
            proof {
                assert(wire_bytes(vmodel(*v)) == block_bytes(vmodel(**a)) + block_bytes(
                    vmodel(**b),
                ));
                assert(total == wire_size(vmodel(*v)));
                assert(total < 0x1_0000_0000);
            }
            #[verifier::truncate] (total as u32)
        },
        Value::Tuple3(a, b, c) => {
            let sa = size(&**a);
            let sb = size(&**b);
            let sc = size(&**c);
            let total: u64 = 12 + (sa as u64) + (sb as u64) + (sc as u64);
            proof {
                assert(wire_bytes(vmodel(*v)) == block_bytes(vmodel(**a)) + block_bytes(
                    vmodel(**b),
                ) + block_bytes(vmodel(**c)));
                assert(total == wire_size(vmodel(*v)));
                assert(total < 0x1_0000_0000);
            }
            #[verifier::truncate] (total as u32)
        },
        _ => 0,
    }
}

/// The wire size of a sequence value.
#[verifier::rlimit(100)]
#[verifier::spinoff_prover]
fn size_sequence(vs: &Vec<Value>) -> (n: u32)
    requires
        wf(Val::Sequence(vmodels(vs@))),
    ensures
        n as int == wire_size(Val::Sequence(vmodels(vs@))),
    decreases vs@, 1nat,
{
    proof {
        lemma_vmodels_index(vs@);
        lemma_seq_wf_parts(vmodels(vs@));
    }
    let e = entries_size(vs);
    #[verifier::truncate] ((4 + e) as u32)
}

/// The wire size of a set value.
#[verifier::rlimit(100)]
#[verifier::spinoff_prover]
fn size_setof(vs: &Vec<Value>) -> (n: u32)
    requires
        wf(Val::SetOf(vmodels(vs@))),
    ensures
        n as int == wire_size(Val::SetOf(vmodels(vs@))),
    decreases vs@, 1nat,
{
    proof {
        lemma_vmodels_index(vs@);
        lemma_set_wf_parts(vmodels(vs@));
    }
    let e = entries_size(vs);
    #[verifier::truncate] ((4 + e) as u32)
}

/// The wire size of a map value.
#[verifier::rlimit(100)]
#[verifier::spinoff_prover]
fn size_mapof(ps: &Vec<(Value, Value)>) -> (n: u32)
    requires
        wf(Val::MapOf(pmodels(ps@))),
    ensures
        n as int == wire_size(Val::MapOf(pmodels(ps@))),
    decreases ps@, 1nat,
{
    proof {
        lemma_pmodels_index(ps@);
        lemma_map_wf_parts(pmodels(ps@));
    }
    let e = pairs_size(ps);
    #[verifier::truncate] ((4 + e) as u32)
}

/// Appends the entry blocks of a collection.
#[verifier::rlimit(100)]
#[verifier::spinoff_prover]
fn encode_entries(vs: &Vec<Value>, out: &mut Vec<u8>)
    requires
        forall|j: int| 0 <= j < vs@.len() ==> wf(#[trigger] vmodels(vs@)[j]),
        entries_bytes(vmodels(vs@)).len() < 0x1_0000_0000,
    ensures
        final(out)@ == old(out)@ + entries_bytes(vmodels(vs@)),
    decreases vs@, 0nat,
{
    let ghost vsm = vmodels(vs@);
    proof {
        lemma_vmodels_index(vs@);
    }
    proof {
        assert(vsm.take(0) =~= Seq::<Val>::empty());
        assert(out@ + entries_bytes(vsm.take(0)) =~= out@);
    }
    let mut i: usize = 0;
    while i < vs.len()
        invariant
            i <= vs.len(),
            vsm == vmodels(vs@),
            vsm.len() == vs@.len(),
            forall|j: int| 0 <= j < vs@.len() ==> wf(#[trigger] vmodels(vs@)[j]),
            forall|j: int| 0 <= j < vs@.len() ==> vsm[j] == vmodel(#[trigger] vs@[j]),
            out@ == old(out)@ + entries_bytes(vsm.take(i as int)),
        decreases vs@.len() - i,
    {
        proof {
            assert(wf(vsm[i as int]));
            assert(vsm.take(i + 1) =~= vsm.take(i as int).push(vsm[i as int]));
            lemma_entries_push(vsm.take(i as int), vsm[i as int]);
            assert(decreases_to!(vs@ => vs@[i as int]));
        }
        encode_block(&vs[i], out);
        proof {
            assert(out@ =~= old(out)@ + entries_bytes(vsm.take(i as int + 1)));
        }
        i = i + 1;
    }
    proof {
        assert(vsm.take(vs@.len() as int) =~= vsm);
    }
}

/// Appends the entry blocks of a map: key block then value block, per entry.
#[verifier::rlimit(100)]
#[verifier::spinoff_prover]
fn encode_pairs(ps: &Vec<(Value, Value)>, out: &mut Vec<u8>)
    requires
        forall|j: int|
            0 <= j < ps@.len() ==> wf(#[trigger] pmodels(ps@)[j].0) && wf(pmodels(ps@)[j].1),
        pairs_bytes(pmodels(ps@)).len() < 0x1_0000_0000,
    ensures
        final(out)@ == old(out)@ + pairs_bytes(pmodels(ps@)),
    decreases ps@, 0nat,
{
    let ghost psm = pmodels(ps@);
    proof {
        lemma_pmodels_index(ps@);
    }
    proof {
        assert(psm.take(0) =~= Seq::<(Val, Val)>::empty());
        assert(out@ + pairs_bytes(psm.take(0)) =~= out@);
    }
    let mut i: usize = 0;
    while i < ps.len()
        invariant
            i <= ps.len(),
            psm == pmodels(ps@),
            psm.len() == ps@.len(),
            forall|j: int|
                0 <= j < ps@.len() ==> wf(#[trigger] pmodels(ps@)[j].0) && wf(pmodels(ps@)[j].1),
            forall|j: int|
                0 <= j < ps@.len() ==> psm[j] == (vmodel(#[trigger] ps@[j].0), vmodel(ps@[j].1)),
            out@ == old(out)@ + pairs_bytes(psm.take(i as int)),
        decreases ps@.len() - i,
    {
        proof {
            assert(wf(psm[i as int].0) && wf(psm[i as int].1));
            assert(psm.take(i + 1) =~= psm.take(i as int).push(psm[i as int]));
            lemma_pairs_push(psm.take(i as int), psm[i as int]);
            assert(decreases_to!(ps@ => ps@[i as int]));
            assert(decreases_to!(ps@[i as int] => ps@[i as int].0));
            assert(decreases_to!(ps@[i as int] => ps@[i as int].1));
        }
        encode_block(&ps[i].0, out);
        encode_block(&ps[i].1, out);
        proof {
            assert(out@ =~= old(out)@ + pairs_bytes(psm.take(i as int + 1)));
        }
        i = i + 1;
    }
    proof {
        assert(psm.take(ps@.len() as int) =~= psm);
    }
}

/// Appends the wire bytes of a value.
#[verifier::rlimit(100)]
#[verifier::spinoff_prover]
fn encode_into(v: &Value, out: &mut Vec<u8>)
    requires
        wf(vmodel(*v)),
    ensures
        final(out)@ == old(out)@ + wire_bytes(vmodel(*v)),
    decreases *v, 4nat,
{
    match v {
        Value::Scalar(s) => {
            encode_scalar(s, out);
        },
        Value::Text(b) => {
            let mut i: usize = 0;
            while i < b.len()
                invariant
                    i <= b@.len(),
                    out@ == old(out)@ + b@.take(i as int),
                decreases b@.len() - i,
            {
                out.push(b[i]);
                proof {
                    assert(b@.take(i as int + 1) =~= b@.take(i as int).push(b@[i as int]));
                    assert(out@ =~= old(out)@ + b@.take(i as int + 1));
                }
                i = i + 1;
            }
            proof {
                assert(b@.take(b@.len() as int) =~= b@);
            }
        },
        Value::Sequence(vs) => {
            proof {
                assert(vmodel(*v) == Val::Sequence(vmodels(vs@)));
                assert(decreases_to!(*v => vs@));
            }
            encode_sequence(vs, out);
        },
        Value::SetOf(vs) => {
            proof {
                assert(vmodel(*v) == Val::SetOf(vmodels(vs@)));
                assert(decreases_to!(*v => vs@));
            }
            encode_setof(vs, out);
        },
        Value::MapOf(ps) => {
            proof {
                assert(vmodel(*v) == Val::MapOf(pmodels(ps@)));
                assert(decreases_to!(*v => ps@));
            }
            encode_mapof(ps, out);
        },
        Value::Tuple2(..) | Value::Tuple3(..) => {
            encode_composite(v, out);
        },
        Value::Optional(o) => match o {
            Option::Some(x) => {
                encode_into(&**x, out);
            },
            Option::None => {
                proof {
                    assert(out@ =~= old(out)@ + wire_bytes(vmodel(*v)));
                }
            },
        },
    }
}

/// Appends the wire bytes of a tuple value.
#[verifier::rlimit(100)]
#[verifier::spinoff_prover]
fn encode_composite(v: &Value, out: &mut Vec<u8>)
    requires
        wf(vmodel(*v)),
        v matches Value::Tuple2(..) || v matches Value::Tuple3(..),
    ensures
        final(out)@ == old(out)@ + wire_bytes(vmodel(*v)),
    decreases *v, 3nat,
{
    match v {
        Value::Tuple2(a, b) => {
            encode_block(&**a, out);
            encode_block(&**b, out);
            proof {
                assert(out@ =~= old(out)@ + wire_bytes(vmodel(*v)));
            }
        },
        Value::Tuple3(a, b, c) => {
            encode_block(&**a, out);
            encode_block(&**b, out);
            encode_block(&**c, out);
            proof {
                assert(out@ =~= old(out)@ + wire_bytes(vmodel(*v)));
            }
        },
        _ => {
            proof {
                assert(false);
            }
        },
    }
}

/// Appends the wire bytes of a sequence value.
#[verifier::rlimit(100)]
#[verifier::spinoff_prover]
fn encode_sequence(vs: &Vec<Value>, out: &mut Vec<u8>)
    requires
        wf(Val::Sequence(vmodels(vs@))),
    ensures
        final(out)@ == old(out)@ + wire_bytes(Val::Sequence(vmodels(vs@))),
    decreases vs@, 1nat,
{
    proof {
        lemma_seq_wf_parts(vmodels(vs@));
        lemma_entries_len_lower(vmodels(vs@));
        lemma_vmodels_index(vs@);
        assert(vs@.len() < 0x1_0000_0000);
    }
    let n = #[verifier::truncate] (vs.len() as u32);
    push_be32(out, n);
    encode_entries(vs, out);
    proof {
        assert(out@ =~= old(out)@ + wire_bytes(Val::Sequence(vmodels(vs@))));
    }
}

/// Appends the wire bytes of a set value.
#[verifier::rlimit(100)]
#[verifier::spinoff_prover]
fn encode_setof(vs: &Vec<Value>, out: &mut Vec<u8>)
    requires
        wf(Val::SetOf(vmodels(vs@))),
    ensures
        final(out)@ == old(out)@ + wire_bytes(Val::SetOf(vmodels(vs@))),
    decreases vs@, 1nat,
{
    proof {
        lemma_set_wf_parts(vmodels(vs@));
        lemma_entries_len_lower(vmodels(vs@));
        lemma_vmodels_index(vs@);
        assert(vs@.len() < 0x1_0000_0000);
    }
    let n = #[verifier::truncate] (vs.len() as u32);
    push_be32(out, n);
    encode_entries(vs, out);
    proof {
        assert(out@ =~= old(out)@ + wire_bytes(Val::SetOf(vmodels(vs@))));
    }
}

/// Appends the wire bytes of a map value.
#[verifier::rlimit(100)]
#[verifier::spinoff_prover]
fn encode_mapof(ps: &Vec<(Value, Value)>, out: &mut Vec<u8>)
    requires
        wf(Val::MapOf(pmodels(ps@))),
    ensures
        final(out)@ == old(out)@ + wire_bytes(Val::MapOf(pmodels(ps@))),
    decreases ps@, 1nat,
{
    proof {
        lemma_map_wf_parts(pmodels(ps@));
        lemma_pairs_len_lower(pmodels(ps@));
        lemma_pmodels_index(ps@);
        assert(ps@.len() < 0x1_0000_0000);
    }
    let n = #[verifier::truncate] (ps.len() as u32);
    push_be32(out, n);
    encode_pairs(ps, out);
    proof {
        assert(out@ =~= old(out)@ + wire_bytes(Val::MapOf(pmodels(ps@))));
    }
}

/// Appends one `[u32 length][payload]` block for a value.
fn encode_block(v: &Value, out: &mut Vec<u8>)
    requires
        wf(vmodel(*v)),
    ensures
        final(out)@ == old(out)@ + block_bytes(vmodel(*v)),
    decreases *v, 5nat,
{
    let n = size(v);
    push_be32(out, n);
    encode_into(v, out);
    proof {
        assert(out@ =~= old(out)@ + block_bytes(vmodel(*v)));
    }
}

/// Encodes a well-formed value into a fresh buffer of exactly its wire size.
pub fn encode(v: &Value) -> (out: Vec<u8>)
    requires
        wf(vmodel(*v)),
    ensures
        out@ == wire_bytes(vmodel(*v)),
        out@.len() == wire_size(vmodel(*v)),
{
    let mut out: Vec<u8> = Vec::new();
    encode_into(v, &mut out);
    proof {
        assert(out@ =~= wire_bytes(vmodel(*v)));
    }
    out
}

/// Parses one `[u32 length][payload]` block at `off`, returning the decoded
/// value and the position just past the block.
#[verifier::rlimit(100)]
#[verifier::spinoff_prover]
fn read_block(t: &TypeDesc, b: &[u8], off: usize) -> (r: Result<(Value, usize), Fault>)
    requires
        off <= b@.len(),
    ensures
        match r {
            Ok((v, end)) => off + 4 <= end <= b@.len() && parse_block(*t, b@.skip(off as int))
                == Ok::<(Val, int), Fault>((vmodel(v), end - off)),
            Err(e) => parse_block(*t, b@.skip(off as int)) == Err::<(Val, int), Fault>(e),
        },
    decreases td_height(*t), b@.len() - off, 1nat,
{
    let ghost s = b@.skip(off as int);
    if b.len() - off < 4 {
        return Err(Fault::DecodeSizeMismatch);
    }
    let siz = read_be32(b, off);
    proof {
        assert(be32_val(s) == be32_val(b@.skip(off as int)));
    }
    let sizu = siz as usize;
    if b.len() - off - 4 < sizu {
        return Err(Fault::DecodeSizeMismatch);
    }
    let sub = vstd::slice::slice_subrange(b, off + 4, off + 4 + sizu);
    proof {
        assert(sub@ =~= s.subrange(4, 4 + siz as int));
    }
    match decode(t, sub) {
        Ok(v) => Ok((v, off + 4 + sizu)),
        Err(e) => Err(e),
    }
}

/// Decodes exactly `count` entry blocks starting at `start`.
#[verifier::rlimit(100)]
#[verifier::spinoff_prover]
fn decode_entries(et: &TypeDesc, b: &[u8], start: usize, count: u32) -> (r: Result<
    (Vec<Value>, usize),
    Fault,
>)
    requires
        start <= b@.len(),
    ensures
        match r {
            Ok((vs, end)) => start <= end <= b@.len() && parse_entries(
                *et,
                b@.skip(start as int),
                count as int,
            ) == Ok::<(Seq<Val>, int), Fault>((vmodels(vs@), end - start)),
            Err(e) => parse_entries(*et, b@.skip(start as int), count as int) == Err::<
                (Seq<Val>, int),
                Fault,
            >(e),
        },
    decreases td_height(*et), b@.len() - start, 3nat,
{
    let mut out: Vec<Value> = Vec::new();
    let mut off: usize = start;
    let mut i: u32 = 0;
    proof {
        assert(vmodels(out@) =~= Seq::<Val>::empty());
    }
    while i < count
        invariant
            start <= off <= b@.len(),
            i <= count,
            vmodels(out@).len() == i,
            ({
                let full = parse_entries(*et, b@.skip(start as int), count as int);
                let rest = parse_entries(*et, b@.skip(off as int), count as int - i as int);
                match rest {
                    Ok((vs2, c2)) => full == Ok::<(Seq<Val>, int), Fault>(
                        (vmodels(out@) + vs2, (off - start) + c2),
                    ),
                    Err(e) => full == Err::<(Seq<Val>, int), Fault>(e),
                }
            }),
        decreases count - i,
    {
        let ghost full = parse_entries(*et, b@.skip(start as int), count as int);
        let ghost s = b@.skip(off as int);
        if b.len() - off < 4 {
            return Err(Fault::DecodeSizeMismatch);
        }
        let siz = read_be32(b, off);
        let sizu = siz as usize;
        if b.len() - off - 4 < sizu {
            return Err(Fault::DecodeSizeMismatch);
        }
        let sub = vstd::slice::slice_subrange(b, off + 4, off + 4 + sizu);
        proof {
            assert(sub@ =~= s.subrange(4, 4 + siz as int));
        }
        match decode(et, sub) {
            Ok(v) => {
                proof {
                    lemma_vmodels_push(out@, v);
                    assert(b@.skip(off as int + 4 + siz as int) =~= s.skip(4 + siz as int));
                    assert(vmodels(out@.push(v)) + (match parse_entries(
                        *et,
                        s.skip(4 + siz as int),
                        count as int - i as int - 1,
                    ) {
                        Ok((vs3, _)) => vs3,
                        Err(_) => Seq::empty(),
                    }) =~= vmodels(out@) + (seq![vmodel(v)] + (match parse_entries(
                        *et,
                        s.skip(4 + siz as int),
                        count as int - i as int - 1,
                    ) {
                        Ok((vs3, _)) => vs3,
                        Err(_) => Seq::empty(),
                    })));
                }
                out.push(v);
                off = off + 4 + sizu;
                i = i + 1;
            },
            Err(e) => {
                return Err(e);
            },
        }
    }
    proof {
        assert(parse_entries(*et, b@.skip(off as int), 0) == Ok::<(Seq<Val>, int), Fault>(
            (Seq::empty(), 0),
        ));
        assert(vmodels(out@) + Seq::<Val>::empty() =~= vmodels(out@));
    }
    Ok((out, off))
}

/// Decodes exactly `count` key/value block pairs starting at `start`.
#[verifier::rlimit(100)]
#[verifier::spinoff_prover]
fn decode_pairs(kt: &TypeDesc, vt: &TypeDesc, b: &[u8], start: usize, count: u32) -> (r: Result<
    (Vec<(Value, Value)>, usize),
    Fault,
>)
    requires
        start <= b@.len(),
    ensures
        match r {
            Ok((ps, end)) => start <= end <= b@.len() && parse_pairs(
                *kt,
                *vt,
                b@.skip(start as int),
                count as int,
            ) == Ok::<(Seq<(Val, Val)>, int), Fault>((pmodels(ps@), end - start)),
            Err(e) => parse_pairs(*kt, *vt, b@.skip(start as int), count as int) == Err::<
                (Seq<(Val, Val)>, int),
                Fault,
            >(e),
        },
    decreases (if td_height(*kt) >= td_height(*vt) {
        td_height(*kt)
    } else {
        td_height(*vt)
    }), b@.len() - start, 3nat,
{
    let mut out: Vec<(Value, Value)> = Vec::new();
    let mut off: usize = start;
    let mut i: u32 = 0;
    proof {
        assert(pmodels(out@) =~= Seq::<(Val, Val)>::empty());
    }
    while i < count
        invariant
            start <= off <= b@.len(),
            i <= count,
            pmodels(out@).len() == i,
            ({
                let full = parse_pairs(*kt, *vt, b@.skip(start as int), count as int);
                let rest = parse_pairs(*kt, *vt, b@.skip(off as int), count as int - i as int);
                match rest {
                    Ok((ps2, c2)) => full == Ok::<(Seq<(Val, Val)>, int), Fault>(
                        (pmodels(out@) + ps2, (off - start) + c2),
                    ),
                    Err(e) => full == Err::<(Seq<(Val, Val)>, int), Fault>(e),
                }
            }),
        decreases count - i,
    {
        let ghost s = b@.skip(off as int);
        if b.len() - off < 4 {
            return Err(Fault::DecodeSizeMismatch);
        }
        let sizk = read_be32(b, off);
        let sizku = sizk as usize;
        if b.len() - off - 4 < sizku {
            return Err(Fault::DecodeSizeMismatch);
        }
        let subk = vstd::slice::slice_subrange(b, off + 4, off + 4 + sizku);
        proof {
            assert(subk@ =~= s.subrange(4, 4 + sizk as int));
        }
        let k = match decode(kt, subk) {
            Ok(k) => k,
            Err(e) => {
                return Err(e);
            },
        };
        let offv = off + 4 + sizku;
        let ghost sv = b@.skip(offv as int);
        proof {
            assert(sv =~= s.skip(4 + sizk as int));
        }
        if b.len() - offv < 4 {
            return Err(Fault::DecodeSizeMismatch);
        }
        let sizv = read_be32(b, offv);
        let sizvu = sizv as usize;
        if b.len() - offv - 4 < sizvu {
            return Err(Fault::DecodeSizeMismatch);
        }
        let subv = vstd::slice::slice_subrange(b, offv + 4, offv + 4 + sizvu);
        proof {
            assert(subv@ =~= sv.subrange(4, 4 + sizv as int));
        }
        match decode(vt, subv) {
            Ok(v) => {
                proof {
                    lemma_pmodels_push(out@, (k, v));
                    assert(b@.skip(offv as int + 4 + sizv as int) =~= sv.skip(4 + sizv as int));
                    assert(pmodels(out@.push((k, v))) + (match parse_pairs(
                        *kt,
                        *vt,
                        sv.skip(4 + sizv as int),
                        count as int - i as int - 1,
                    ) {
                        Ok((ps3, _)) => ps3,
                        Err(_) => Seq::empty(),
                    }) =~= pmodels(out@) + (seq![(vmodel(k), vmodel(v))] + (match parse_pairs(
                        *kt,
                        *vt,
                        sv.skip(4 + sizv as int),
                        count as int - i as int - 1,
                    ) {
                        Ok((ps3, _)) => ps3,
                        Err(_) => Seq::empty(),
                    })));
                }
                out.push((k, v));
                off = offv + 4 + sizvu;
                i = i + 1;
            },
            Err(e) => {
                return Err(e);
            },
        }
    }
    proof {
        assert(parse_pairs(*kt, *vt, b@.skip(off as int), 0) == Ok::<(Seq<(Val, Val)>, int), Fault>(
            (Seq::empty(), 0),
        ));
        assert(pmodels(out@) + Seq::<(Val, Val)>::empty() =~= pmodels(out@));
    }
    Ok((out, off))
}

/// Decodes a counted collection body and wraps it as a sequence value.
#[verifier::rlimit(100)]
#[verifier::spinoff_prover]
fn decode_sequence(et: &TypeDesc, b: &[u8]) -> (r: Result<Value, Fault>)
    ensures
        match r {
            Ok(v) => spec_decode(TypeDesc::Sequence(Box::new(*et)), b@) == Ok::<Val, Fault>(
                vmodel(v),
            ),
            Err(e) => spec_decode(TypeDesc::Sequence(Box::new(*et)), b@) == Err::<Val, Fault>(e),
        },
    decreases td_height(*et), b@.len(), 5nat,
{
    if b.len() < 4 {
        return Err(Fault::DecodeSizeMismatch);
    }
    let count = read_be32(b, 0);
    proof {
        assert(b@.skip(0) =~= b@);
    }
    match decode_entries(et, b, 4, count) {
        Ok((vs, end)) => {
            if end == b.len() {
                proof {
                    assert(count == be32_val(b@));
                    assert(parse_entries(*et, b@.skip(4), count as int) == Ok::<
                        (Seq<Val>, int),
                        Fault,
                    >((vmodels(vs@), end - 4)));
                    assert(parse_counted(*et, b@) == Ok::<Seq<Val>, Fault>(vmodels(vs@)));
                }
                Ok(Value::Sequence(vs))
            } else {
                Err(Fault::DecodeSizeMismatch)
            }
        },
        Err(e) => Err(e),
    }
}

/// Decodes a counted collection body and wraps it as a set value.
#[verifier::rlimit(100)]
#[verifier::spinoff_prover]
fn decode_setof(et: &TypeDesc, b: &[u8]) -> (r: Result<Value, Fault>)
    ensures
        match r {
            Ok(v) => spec_decode(TypeDesc::SetOf(Box::new(*et)), b@) == Ok::<Val, Fault>(
                vmodel(v),
            ),
            Err(e) => spec_decode(TypeDesc::SetOf(Box::new(*et)), b@) == Err::<Val, Fault>(e),
        },
    decreases td_height(*et), b@.len(), 5nat,
{
    if b.len() < 4 {
        return Err(Fault::DecodeSizeMismatch);
    }
    let count = read_be32(b, 0);
    proof {
        assert(b@.skip(0) =~= b@);
    }
    match decode_entries(et, b, 4, count) {
        Ok((vs, end)) => {
            if end == b.len() {
                proof {
                    assert(count == be32_val(b@));
                    assert(parse_entries(*et, b@.skip(4), count as int) == Ok::<
                        (Seq<Val>, int),
                        Fault,
                    >((vmodels(vs@), end - 4)));
                    assert(parse_counted(*et, b@) == Ok::<Seq<Val>, Fault>(vmodels(vs@)));
                }
                let canon = canonicalize_set(vs);
                Ok(Value::SetOf(canon))
            } else {
                Err(Fault::DecodeSizeMismatch)
            }
        },
        Err(e) => Err(e),
    }
}

/// Decodes a counted map body.
#[verifier::rlimit(100)]
#[verifier::spinoff_prover]
fn decode_mapof(kt: &TypeDesc, vt: &TypeDesc, b: &[u8]) -> (r: Result<Value, Fault>)
    ensures
        match r {
            Ok(v) => spec_decode(TypeDesc::MapOf(Box::new(*kt), Box::new(*vt)), b@) == Ok::<
                Val,
                Fault,
            >(vmodel(v)),
            Err(e) => spec_decode(TypeDesc::MapOf(Box::new(*kt), Box::new(*vt)), b@) == Err::<
                Val,
                Fault,
            >(e),
        },
    decreases (if td_height(*kt) >= td_height(*vt) {
        td_height(*kt)
    } else {
        td_height(*vt)
    }), b@.len(), 5nat,
{
    if b.len() < 4 {
        return Err(Fault::DecodeSizeMismatch);
    }
    let count = read_be32(b, 0);
    proof {
        assert(b@.skip(0) =~= b@);
    }
    match decode_pairs(kt, vt, b, 4, count) {
        Ok((ps, end)) => {
            if end == b.len() {
                proof {
                    assert(count == be32_val(b@));
                    assert(parse_pairs(*kt, *vt, b@.skip(4), count as int) == Ok::<
                        (Seq<(Val, Val)>, int),
                        Fault,
                    >((pmodels(ps@), end - 4)));
                    assert(parse_pairs_counted(*kt, *vt, b@) == Ok::<Seq<(Val, Val)>, Fault>(
                        pmodels(ps@),
                    ));
                }
                let canon = canonicalize_map(ps);
                Ok(Value::MapOf(canon))
            } else {
                Err(Fault::DecodeSizeMismatch)
            }
        },
        Err(e) => Err(e),
    }
}

/// Decodes two positional blocks that must consume the buffer exactly.
#[verifier::rlimit(100)]
#[verifier::spinoff_prover]
fn decode_tuple2(ta: &TypeDesc, tb: &TypeDesc, b: &[u8]) -> (r: Result<Value, Fault>)
    ensures
        match r {
            Ok(v) => spec_decode(TypeDesc::Tuple2(Box::new(*ta), Box::new(*tb)), b@) == Ok::<
                Val,
                Fault,
            >(vmodel(v)),
            Err(e) => spec_decode(TypeDesc::Tuple2(Box::new(*ta), Box::new(*tb)), b@) == Err::<
                Val,
                Fault,
            >(e),
        },
    decreases (if td_height(*ta) >= td_height(*tb) {
        td_height(*ta)
    } else {
        td_height(*tb)
    }), b@.len(), 5nat,
{
    proof {
        assert(b@.skip(0) =~= b@);
    }
    match read_block(ta, b, 0) {
        Ok((va, ca)) => match read_block(tb, b, ca) {
            Ok((vb, end)) => {
                if end == b.len() {
                    proof {
                        assert(spec_decode(TypeDesc::Tuple2(Box::new(*ta), Box::new(*tb)), b@)
                            == Ok::<Val, Fault>(
                            Val::Tuple2(Box::new(vmodel(va)), Box::new(vmodel(vb))),
                        ));
                    }
                    Ok(Value::Tuple2(Box::new(va), Box::new(vb)))
                } else {
                    Err(Fault::DecodeSizeMismatch)
                }
            },
            Err(e) => Err(e),
        },
        Err(e) => Err(e),
    }
}

/// Decodes three positional blocks that must consume the buffer exactly.
#[verifier::rlimit(100)]
#[verifier::spinoff_prover]
fn decode_tuple3(ta: &TypeDesc, tb: &TypeDesc, tc: &TypeDesc, b: &[u8]) -> (r: Result<
    Value,
    Fault,
>)
    ensures
        match r {
            Ok(v) => spec_decode(
                TypeDesc::Tuple3(Box::new(*ta), Box::new(*tb), Box::new(*tc)),
                b@,
            ) == Ok::<Val, Fault>(vmodel(v)),
            Err(e) => spec_decode(
                TypeDesc::Tuple3(Box::new(*ta), Box::new(*tb), Box::new(*tc)),
                b@,
            ) == Err::<Val, Fault>(e),
        },
    decreases ({
        let m = if td_height(*ta) >= td_height(*tb) {
            td_height(*ta)
        } else {
            td_height(*tb)
        };
        if m >= td_height(*tc) {
            m
        } else {
            td_height(*tc)
        }
    }), b@.len(), 5nat,
{
    proof {
        assert(b@.skip(0) =~= b@);
    }
    match read_block(ta, b, 0) {
        Ok((va, ca)) => match read_block(tb, b, ca) {
            Ok((vb, cb)) => {
                match read_block(tc, b, cb) {
                    Ok((vc, end)) => {
                        if end == b.len() {
                            proof {
                                assert(spec_decode(
                                    TypeDesc::Tuple3(Box::new(*ta), Box::new(*tb), Box::new(*tc)),
                                    b@,
                                ) == Ok::<Val, Fault>(
                                    Val::Tuple3(
                                        Box::new(vmodel(va)),
                                        Box::new(vmodel(vb)),
                                        Box::new(vmodel(vc)),
                                    ),
                                ));
                            }
                            Ok(Value::Tuple3(Box::new(va), Box::new(vb), Box::new(vc)))
                        } else {
                            Err(Fault::DecodeSizeMismatch)
                        }
                    },
                    Err(e) => Err(e),
                }
            },
            Err(e) => Err(e),
        },
        Err(e) => Err(e),
    }
}

/// Decodes one value of the declared type from a buffer that must be consumed
/// exactly. Returns precisely what the parsing specification prescribes:
/// `DecodeSizeMismatch` on any length disagreement, `InvalidTextEncoding` on
/// text that is not well-formed UTF-8.
#[verifier::rlimit(100)]
#[verifier::spinoff_prover]
pub fn decode(t: &TypeDesc, b: &[u8]) -> (r: Result<Value, Fault>)
    ensures
        match r {
            Ok(v) => spec_decode(*t, b@) == Ok::<Val, Fault>(vmodel(v)),
            Err(e) => spec_decode(*t, b@) == Err::<Val, Fault>(e),
        },
    decreases td_height(*t), b@.len(), 2nat,
{
    match t {
        TypeDesc::Scalar(st) => {
            let w = scalar_width_of(st);
            if b.len() != w {
                Err(Fault::DecodeSizeMismatch)
            } else {
                Ok(Value::Scalar(decode_scalar(st, b)))
            }
        },
        TypeDesc::Text => {
            if check_utf8(b) {
                Ok(Value::Text(vstd::slice::slice_to_vec(b)))
            } else {
                Err(Fault::InvalidTextEncoding)
            }
        },
        TypeDesc::Sequence(et) => {
            proof {
                assert(*t == TypeDesc::Sequence(Box::new(**et)));
            }
            decode_sequence(et, b)
        },
        TypeDesc::SetOf(et) => {
            proof {
                assert(*t == TypeDesc::SetOf(Box::new(**et)));
            }
            decode_setof(et, b)
        },
        TypeDesc::MapOf(kt, vt) => {
            proof {
                assert(*t == TypeDesc::MapOf(Box::new(**kt), Box::new(**vt)));
            }
            decode_mapof(kt, vt, b)
        },
        TypeDesc::Tuple2(ta, tb) => {
            proof {
                assert(*t == TypeDesc::Tuple2(Box::new(**ta), Box::new(**tb)));
            }
            decode_tuple2(ta, tb, b)
        },
        TypeDesc::Tuple3(ta, tb, tc) => {
            proof {
                assert(*t == TypeDesc::Tuple3(Box::new(**ta), Box::new(**tb), Box::new(**tc)));
            }
            decode_tuple3(ta, tb, tc, b)
        },
        TypeDesc::Optional(et) => {
            match decode(et, b) {
                Ok(v) => {
                    proof {
                        assert(spec_decode(*t, b@) == Ok::<Val, Fault>(
                            Val::Optional(Option::Some(Box::new(vmodel(v)))),
                        ));
                    }
                    Ok(Value::Optional(Some(Box::new(v))))
                },
                Err(e) => Err(e),
            }
        },
    }
}

/// A block parse is unaffected by bytes beyond the block.
pub proof fn lemma_parse_block_ext(t: TypeDesc, b: Seq<u8>, d: Seq<u8>)
    requires
        parse_block(t, b) is Ok,
    ensures
        parse_block(t, b + d) == parse_block(t, b),
{
    let siz = be32_val(b) as int;
    assert(b.len() >= 4);
    assert((b + d)[0] == b[0]);
    assert((b + d)[1] == b[1]);
    assert((b + d)[2] == b[2]);
    assert((b + d)[3] == b[3]);
    assert(be32_val(b + d) == be32_val(b));
    assert((b + d).subrange(4, 4 + siz) =~= b.subrange(4, 4 + siz));
}

/// An entries parse is unaffected by bytes beyond what it consumes.
pub proof fn lemma_parse_entries_ext(t: TypeDesc, b: Seq<u8>, d: Seq<u8>, n: int)
    requires
        parse_entries(t, b, n) is Ok,
    ensures
        parse_entries(t, b + d, n) == parse_entries(t, b, n),
    decreases b.len(),
{
    if n <= 0 {
    } else {
        let siz = be32_val(b) as int;
        assert((b + d)[0] == b[0]);
        assert((b + d)[1] == b[1]);
        assert((b + d)[2] == b[2]);
        assert((b + d)[3] == b[3]);
        assert(be32_val(b + d) == be32_val(b));
        assert((b + d).subrange(4, 4 + siz) =~= b.subrange(4, 4 + siz));
        assert((b + d).skip(4 + siz) =~= b.skip(4 + siz) + d);
        lemma_parse_entries_ext(t, b.skip(4 + siz), d, n - 1);
    }
}

/// A pairs parse is unaffected by bytes beyond what it consumes.
pub proof fn lemma_parse_pairs_ext(kt: TypeDesc, vt: TypeDesc, b: Seq<u8>, d: Seq<u8>, n: int)
    requires
        parse_pairs(kt, vt, b, n) is Ok,
    ensures
        parse_pairs(kt, vt, b + d, n) == parse_pairs(kt, vt, b, n),
    decreases b.len(),
{
    if n <= 0 {
    } else {
        let sizk = be32_val(b) as int;
        assert((b + d)[0] == b[0]);
        assert((b + d)[1] == b[1]);
        assert((b + d)[2] == b[2]);
        assert((b + d)[3] == b[3]);
        assert(be32_val(b + d) == be32_val(b));
        assert((b + d).subrange(4, 4 + sizk) =~= b.subrange(4, 4 + sizk));
        let rest = b.skip(4 + sizk);
        assert((b + d).skip(4 + sizk) =~= rest + d);
        let sizv = be32_val(rest) as int;
        assert((rest + d)[0] == rest[0]);
        assert((rest + d)[1] == rest[1]);
        assert((rest + d)[2] == rest[2]);
        assert((rest + d)[3] == rest[3]);
        assert(be32_val(rest + d) == be32_val(rest));
        assert((rest + d).subrange(4, 4 + sizv) =~= rest.subrange(4, 4 + sizv));
        assert((rest + d).skip(4 + sizv) =~= rest.skip(4 + sizv) + d);
        lemma_parse_pairs_ext(kt, vt, rest.skip(4 + sizv), d, n - 1);
    }
}

/// The declared type is a composite: its decode checks exact consumption.
pub open spec fn is_composite(t: TypeDesc) -> bool {
    match t {
        TypeDesc::Sequence(_) => true,
        TypeDesc::SetOf(_) => true,
        TypeDesc::MapOf(..) => true,
        TypeDesc::Tuple2(..) => true,
        TypeDesc::Tuple3(..) => true,
        _ => false,
    }
}

/// Padding the encoding of a well-formed composite value by one byte or more
/// makes decoding fail with a size mismatch: the entries parse stops where
/// the value ends and the declared length no longer agrees.
#[verifier::rlimit(100)]
#[verifier::spinoff_prover]
pub proof fn lemma_padding_fails(t: TypeDesc, v: Val, pad: Seq<u8>)
    requires
        wf(v),
        crate::value::has_type(v, t),
        crate::value::no_absent(v),
        is_composite(t),
        pad.len() >= 1,
    ensures
        spec_decode(t, wire_bytes(v) + pad) == Err::<Val, Fault>(Fault::DecodeSizeMismatch),
{
    match v {
        Val::Sequence(vs) => {
            if let TypeDesc::Sequence(et) = t {
                lemma_seq_wf_parts(vs);
                lemma_entries_len_lower(vs);
                assert(forall|i: int|
                    0 <= i < vs.len() ==> crate::value::has_type(#[trigger] vs[i], *et));
                assert(forall|i: int|
                    0 <= i < vs.len() ==> crate::value::no_absent(#[trigger] vs[i]));
                lemma_padding_fails_counted(*et, vs, pad);
                assert(wire_bytes(v) =~= be32(vs.len() as u32) + entries_bytes(vs));
                assert(wire_bytes(v) + pad =~= be32(vs.len() as u32) + entries_bytes(vs) + pad);
            }
        },
        Val::SetOf(vs) => {
            if let TypeDesc::SetOf(et) = t {
                lemma_set_wf_parts(vs);
                lemma_entries_len_lower(vs);
                assert(forall|i: int|
                    0 <= i < vs.len() ==> crate::value::has_type(#[trigger] vs[i], *et));
                assert(forall|i: int|
                    0 <= i < vs.len() ==> crate::value::no_absent(#[trigger] vs[i]));
                lemma_padding_fails_counted(*et, vs, pad);
                assert(wire_bytes(v) =~= be32(vs.len() as u32) + entries_bytes(vs));
                assert(wire_bytes(v) + pad =~= be32(vs.len() as u32) + entries_bytes(vs) + pad);
            }
        },
        Val::MapOf(ps) => {
            if let TypeDesc::MapOf(kt, vt) = t {
                lemma_map_wf_parts(ps);
                lemma_pairs_len_lower(ps);
                assert(forall|i: int|
                    0 <= i < ps.len() ==> crate::value::has_type(#[trigger] ps[i].0, *kt)
                        && crate::value::has_type(ps[i].1, *vt));
                assert(forall|i: int|
                    0 <= i < ps.len() ==> crate::value::no_absent(#[trigger] ps[i].0)
                        && crate::value::no_absent(ps[i].1));
                lemma_padding_fails_map(*kt, *vt, ps, pad);
            }
        },
        Val::Tuple2(x, y) => {
            if let TypeDesc::Tuple2(ta, tb) = t {
                lemma_padding_fails_tuple2(*ta, *tb, *x, *y, pad);
            }
        },
        Val::Tuple3(x, y, z) => {
            if let TypeDesc::Tuple3(ta, tb, tc) = t {
                lemma_padding_fails_tuple3(*ta, *tb, *tc, *x, *y, *z, pad);
            }
        },
        _ => {},
    }
}

/// A padded counted-entries buffer fails the exact-consumption check.
#[verifier::rlimit(100)]
#[verifier::spinoff_prover]
proof fn lemma_padding_fails_counted(et: TypeDesc, vs: Seq<Val>, pad: Seq<u8>)
    requires
        forall|i: int| 0 <= i < vs.len() ==> wf(#[trigger] vs[i]),
        forall|i: int| 0 <= i < vs.len() ==> crate::value::has_type(#[trigger] vs[i], et),
        forall|i: int| 0 <= i < vs.len() ==> crate::value::no_absent(#[trigger] vs[i]),
        vs.len() < 0x1_0000_0000,
        pad.len() >= 1,
    ensures
        parse_counted(et, be32(vs.len() as u32) + entries_bytes(vs) + pad) == Err::<
            Seq<Val>,
            Fault,
        >(Fault::DecodeSizeMismatch),
{
    let n = vs.len() as u32;
    let bp = be32(n) + entries_bytes(vs) + pad;
    lemma_be32_val_prefix(n, entries_bytes(vs) + pad);
    assert(bp =~= be32(n) + (entries_bytes(vs) + pad));
    lemma_entries_complete(et, vs);
    lemma_parse_entries_ext(et, entries_bytes(vs), pad, vs.len() as int);
    assert(bp.skip(4) =~= entries_bytes(vs) + pad);
    assert(parse_entries(et, bp.skip(4), be32_val(bp) as int) == Ok::<(Seq<Val>, int), Fault>(
        (vs, entries_bytes(vs).len() as int),
    ));
    assert(4 + entries_bytes(vs).len() != bp.len());
    assert(bp.len() >= 4);
    assert(parse_counted(et, bp) == Err::<Seq<Val>, Fault>(Fault::DecodeSizeMismatch));
}

/// A padded map buffer fails the exact-consumption check.
#[verifier::rlimit(100)]
#[verifier::spinoff_prover]
proof fn lemma_padding_fails_map(kt: TypeDesc, vt: TypeDesc, ps: Seq<(Val, Val)>, pad: Seq<u8>)
    requires
        forall|i: int| 0 <= i < ps.len() ==> wf(#[trigger] ps[i].0) && wf(ps[i].1),
        forall|i: int|
            0 <= i < ps.len() ==> crate::value::has_type(#[trigger] ps[i].0, kt)
                && crate::value::has_type(ps[i].1, vt),
        forall|i: int|
            0 <= i < ps.len() ==> crate::value::no_absent(#[trigger] ps[i].0)
                && crate::value::no_absent(ps[i].1),
        ps.len() < 0x1_0000_0000,
        pad.len() >= 1,
    ensures
        spec_decode(TypeDesc::MapOf(Box::new(kt), Box::new(vt)), wire_bytes(Val::MapOf(ps)) + pad)
            == Err::<Val, Fault>(Fault::DecodeSizeMismatch),
{
    let n = ps.len() as u32;
    let bp = wire_bytes(Val::MapOf(ps)) + pad;
    lemma_be32_val_prefix(n, pairs_bytes(ps) + pad);
    assert(bp =~= be32(n) + (pairs_bytes(ps) + pad));
    lemma_pairs_complete(kt, vt, ps);
    lemma_parse_pairs_ext(kt, vt, pairs_bytes(ps), pad, ps.len() as int);
    assert(bp.skip(4) =~= pairs_bytes(ps) + pad);
    assert(parse_pairs(kt, vt, bp.skip(4), be32_val(bp) as int) == Ok::<
        (Seq<(Val, Val)>, int),
        Fault,
    >((ps, pairs_bytes(ps).len() as int)));
    assert(4 + pairs_bytes(ps).len() != bp.len());
    assert(bp.len() >= 4);
    assert(parse_pairs_counted(kt, vt, bp) == Err::<Seq<(Val, Val)>, Fault>(
        Fault::DecodeSizeMismatch,
    ));
}

/// A padded two-block tuple buffer fails the exact-consumption check.
#[verifier::rlimit(100)]
#[verifier::spinoff_prover]
proof fn lemma_padding_fails_tuple2(ta: TypeDesc, tb: TypeDesc, x: Val, y: Val, pad: Seq<u8>)
    requires
        wf(x),
        wf(y),
        crate::value::has_type(x, ta),
        crate::value::has_type(y, tb),
        crate::value::no_absent(x),
        crate::value::no_absent(y),
        pad.len() >= 1,
    ensures
        spec_decode(
            TypeDesc::Tuple2(Box::new(ta), Box::new(tb)),
            wire_bytes(Val::Tuple2(Box::new(x), Box::new(y))) + pad,
        ) == Err::<Val, Fault>(Fault::DecodeSizeMismatch),
{
    let bp = wire_bytes(Val::Tuple2(Box::new(x), Box::new(y))) + pad;
    assert(bp =~= block_bytes(x) + (block_bytes(y) + pad));
    lemma_block_complete(ta, x, block_bytes(y) + pad);
    let cx = 4 + wire_bytes(x).len() as int;
    assert(bp.skip(cx) == block_bytes(y) + pad);
    lemma_block_complete(tb, y, pad);
    let cy = 4 + wire_bytes(y).len() as int;
    assert(cx + cy != bp.len());
}

/// A padded three-block tuple buffer fails the exact-consumption check.
#[verifier::rlimit(100)]
#[verifier::spinoff_prover]
proof fn lemma_padding_fails_tuple3(
    ta: TypeDesc,
    tb: TypeDesc,
    tc: TypeDesc,
    x: Val,
    y: Val,
    z: Val,
    pad: Seq<u8>,
)
    requires
        wf(x),
        wf(y),
        wf(z),
        crate::value::has_type(x, ta),
        crate::value::has_type(y, tb),
        crate::value::has_type(z, tc),
        crate::value::no_absent(x),
        crate::value::no_absent(y),
        crate::value::no_absent(z),
        pad.len() >= 1,
    ensures
        spec_decode(
            TypeDesc::Tuple3(Box::new(ta), Box::new(tb), Box::new(tc)),
            wire_bytes(Val::Tuple3(Box::new(x), Box::new(y), Box::new(z))) + pad,
        ) == Err::<Val, Fault>(Fault::DecodeSizeMismatch),
{
    let bp = wire_bytes(Val::Tuple3(Box::new(x), Box::new(y), Box::new(z))) + pad;
    assert(bp =~= block_bytes(x) + (block_bytes(y) + (block_bytes(z) + pad)));
    lemma_block_complete(ta, x, block_bytes(y) + (block_bytes(z) + pad));
    let cx = 4 + wire_bytes(x).len() as int;
    assert(bp.skip(cx) == block_bytes(y) + (block_bytes(z) + pad));
    lemma_block_complete(tb, y, block_bytes(z) + pad);
    let cy = 4 + wire_bytes(y).len() as int;
    assert(bp.skip(cx).skip(cy) =~= bp.skip(cx + cy));
    assert(bp.skip(cx + cy) =~= block_bytes(z) + pad);
    lemma_block_complete(tc, z, pad);
    let cz = 4 + wire_bytes(z).len() as int;
    assert(cx + cy + cz != bp.len());
}

/// The constructor rank of a value.
fn rank_of(v: &Value) -> (r: u8)
    ensures
        r as int == crate::value::ctor_rank(vmodel(*v)),
{
    match v {
        Value::Scalar(_) => 0,
        Value::Text(_) => 1,
        Value::Sequence(_) => 2,
        Value::SetOf(_) => 3,
        Value::MapOf(_) => 4,
        Value::Tuple2(..) => 5,
        Value::Tuple3(..) => 6,
        Value::Optional(_) => 7,
    }
}

/// Three-way comparison of scalars in the natural order.
fn scalar_cmp(a: &Scalar, b: &Scalar) -> (r: i8)
    ensures
        (r == -1) == crate::value::scalar_lt(*a, *b),
        (r == 0) == (*a == *b),
        r == -1 || r == 0 || r == 1,
{
    match (a, b) {
        (Scalar::I8(x), Scalar::I8(y)) => if x < y { -1 } else if x == y { 0 } else { 1 },
        (Scalar::I16(x), Scalar::I16(y)) => if x < y { -1 } else if x == y { 0 } else { 1 },
        (Scalar::I32(x), Scalar::I32(y)) => if x < y { -1 } else if x == y { 0 } else { 1 },
        (Scalar::I64(x), Scalar::I64(y)) => if x < y { -1 } else if x == y { 0 } else { 1 },
        (Scalar::U8(x), Scalar::U8(y)) => if x < y { -1 } else if x == y { 0 } else { 1 },
        (Scalar::U16(x), Scalar::U16(y)) => if x < y { -1 } else if x == y { 0 } else { 1 },
        (Scalar::U32(x), Scalar::U32(y)) => if x < y { -1 } else if x == y { 0 } else { 1 },
        (Scalar::U64(x), Scalar::U64(y)) => if x < y { -1 } else if x == y { 0 } else { 1 },
        (Scalar::F32Bits(x), Scalar::F32Bits(y)) => if x < y { -1 } else if x == y { 0 } else { 1 },
        (Scalar::F64Bits(x), Scalar::F64Bits(y)) => if x < y { -1 } else if x == y { 0 } else { 1 },
        (Scalar::Bool(x), Scalar::Bool(y)) => if !x && *y { -1 } else if x == y { 0 } else { 1 },
        (Scalar::Char(x), Scalar::Char(y)) => if x < y { -1 } else if x == y { 0 } else { 1 },
        _ => {
            let ra = match a {
                Scalar::I8(_) => 0u8,
                Scalar::I16(_) => 1,
                Scalar::I32(_) => 2,
                Scalar::I64(_) => 3,
                Scalar::U8(_) => 4,
                Scalar::U16(_) => 5,
                Scalar::U32(_) => 6,
                Scalar::U64(_) => 7,
                Scalar::F32Bits(_) => 8,
                Scalar::F64Bits(_) => 9,
                Scalar::Bool(_) => 10,
                Scalar::Char(_) => 11,
            };
            let rb = match b {
                Scalar::I8(_) => 0u8,
                Scalar::I16(_) => 1,
                Scalar::I32(_) => 2,
                Scalar::I64(_) => 3,
                Scalar::U8(_) => 4,
                Scalar::U16(_) => 5,
                Scalar::U32(_) => 6,
                Scalar::U64(_) => 7,
                Scalar::F32Bits(_) => 8,
                Scalar::F64Bits(_) => 9,
                Scalar::Bool(_) => 10,
                Scalar::Char(_) => 11,
            };
            if ra < rb {
                -1
            } else {
                1
            }
        },
    }
}

/// Three-way comparison of values in the natural order: -1 when the first is
/// less, 0 when the two stand for the same value, 1 when the second is less.
#[verifier::rlimit(100)]
#[verifier::spinoff_prover]
fn value_cmp(a: &Value, b: &Value) -> (r: i8)
    ensures
        (r == -1) == val_lt(vmodel(*a), vmodel(*b)),
        (r == 0) == (vmodel(*a) == vmodel(*b)),
        r == -1 || r == 0 || r == 1,
    decreases *a, 1nat,
{
    match (a, b) {
        (Value::Scalar(x), Value::Scalar(y)) => scalar_cmp(x, y),
        (Value::Text(x), Value::Text(y)) => crate::udf::bytes_cmp(x, y),
        (Value::Sequence(x), Value::Sequence(y)) => {
            proof {
                assert(decreases_to!(*a => x@));
            }
            values_cmp(x, y)
        },
        (Value::SetOf(x), Value::SetOf(y)) => {
            proof {
                assert(decreases_to!(*a => x@));
            }
            values_cmp(x, y)
        },
        (Value::MapOf(x), Value::MapOf(y)) => {
            proof {
                assert(decreases_to!(*a => x@));
            }
            value_pairs_cmp(x, y)
        },
        (Value::Tuple2(a0, a1), Value::Tuple2(b0, b1)) => {
            let c0 = value_cmp(&**a0, &**b0);
            if c0 != 0 {
                c0
            } else {
                value_cmp(&**a1, &**b1)
            }
        },
        (Value::Tuple3(a0, a1, a2), Value::Tuple3(b0, b1, b2)) => {
            let c0 = value_cmp(&**a0, &**b0);
            if c0 != 0 {
                c0
            } else {
                let c1 = value_cmp(&**a1, &**b1);
                if c1 != 0 {
                    c1
                } else {
                    value_cmp(&**a2, &**b2)
                }
            }
        },
        (Value::Optional(x), Value::Optional(y)) => match (x, y) {
            (Option::None, Option::None) => 0,
            (Option::None, Option::Some(_)) => -1,
            (Option::Some(_), Option::None) => 1,
            (Option::Some(xv), Option::Some(yv)) => value_cmp(&**xv, &**yv),
        },
        _ => {
            let ra = rank_of(a);
            let rb = rank_of(b);
            if ra < rb {
                -1
            } else {
                1
            }
        },
    }
}

/// Three-way lexicographic comparison of value vectors.
#[verifier::rlimit(100)]
#[verifier::spinoff_prover]
fn values_cmp(x: &Vec<Value>, y: &Vec<Value>) -> (r: i8)
    ensures
        (r == -1) == crate::value::vals_lt(vmodels(x@), vmodels(y@)),
        (r == 0) == (vmodels(x@) == vmodels(y@)),
        r == -1 || r == 0 || r == 1,
    decreases x@, 0nat,
{
    let ghost mx = vmodels(x@);
    let ghost my = vmodels(y@);
    proof {
        lemma_vmodels_index(x@);
        lemma_vmodels_index(y@);
        assert(mx.skip(0) =~= mx);
        assert(my.skip(0) =~= my);
    }
    let n = if x.len() <= y.len() {
        x.len()
    } else {
        y.len()
    };
    let mut i: usize = 0;
    while i < n
        invariant
            i <= n,
            mx == vmodels(x@),
            my == vmodels(y@),
            mx.len() == x@.len(),
            my.len() == y@.len(),
            forall|j: int| 0 <= j < x@.len() ==> mx[j] == vmodel(#[trigger] x@[j]),
            forall|j: int| 0 <= j < y@.len() ==> my[j] == vmodel(#[trigger] y@[j]),
            n == if x@.len() <= y@.len() {
                x@.len()
            } else {
                y@.len()
            },
            crate::value::vals_lt(mx, my) == crate::value::vals_lt(
                mx.skip(i as int),
                my.skip(i as int),
            ),
            crate::value::vals_lt(my, mx) == crate::value::vals_lt(
                my.skip(i as int),
                mx.skip(i as int),
            ),
            (mx == my) == (mx.skip(i as int) == my.skip(i as int)),
        decreases n - i,
    {
        proof {
            assert(decreases_to!(x@ => x@[i as int]));
        }
        let c = value_cmp(&x[i], &y[i]);
        proof {
            let sa = mx.skip(i as int);
            let sb = my.skip(i as int);
            assert(sa[0] == mx[i as int]);
            assert(sb[0] == my[i as int]);
            if c == 0 {
                assert(sa.drop_first() =~= mx.skip(i as int + 1));
                assert(sb.drop_first() =~= my.skip(i as int + 1));
                assert((sa == sb) == (sa.drop_first() == sb.drop_first())) by {
                    if sa.drop_first() == sb.drop_first() && sa.len() == sb.len() {
                        assert forall|j: int| 0 <= j < sa.len() implies sa[j] == sb[j] by {
                            if j > 0 {
                                assert(sa[j] == sa.drop_first()[j - 1]);
                                assert(sb[j] == sb.drop_first()[j - 1]);
                            }
                        }
                        assert(sa =~= sb);
                    }
                    if sa == sb {
                        assert(sa.drop_first() =~= sb.drop_first());
                    }
                }
            }
        }
        if c != 0 {
            return c;
        }
        i = i + 1;
    }
    proof {
        let sa = mx.skip(i as int);
        let sb = my.skip(i as int);
        if mx.len() == my.len() {
            assert(sa =~= Seq::<Val>::empty());
            assert(sb =~= Seq::<Val>::empty());
            assert(sa =~= sb);
        } else if mx.len() < my.len() {
            assert(sa.len() == 0 && sb.len() > 0);
        } else {
            assert(sb.len() == 0 && sa.len() > 0);
        }
    }
    if x.len() == y.len() {
        0
    } else if x.len() < y.len() {
        -1
    } else {
        1
    }
}

/// Three-way lexicographic comparison of pair vectors, keys before values.
#[verifier::rlimit(100)]
#[verifier::spinoff_prover]
fn value_pairs_cmp(x: &Vec<(Value, Value)>, y: &Vec<(Value, Value)>) -> (r: i8)
    ensures
        (r == -1) == crate::value::pairs_lt(pmodels(x@), pmodels(y@)),
        (r == 0) == (pmodels(x@) == pmodels(y@)),
        r == -1 || r == 0 || r == 1,
    decreases x@, 0nat,
{
    let ghost mx = pmodels(x@);
    let ghost my = pmodels(y@);
    proof {
        lemma_pmodels_index(x@);
        lemma_pmodels_index(y@);
        assert(mx.skip(0) =~= mx);
        assert(my.skip(0) =~= my);
    }
    let n = if x.len() <= y.len() {
        x.len()
    } else {
        y.len()
    };
    let mut i: usize = 0;
    while i < n
        invariant
            i <= n,
            mx == pmodels(x@),
            my == pmodels(y@),
            mx.len() == x@.len(),
            my.len() == y@.len(),
            forall|j: int|
                0 <= j < x@.len() ==> mx[j] == (vmodel(#[trigger] x@[j].0), vmodel(x@[j].1)),
            forall|j: int|
                0 <= j < y@.len() ==> my[j] == (vmodel(#[trigger] y@[j].0), vmodel(y@[j].1)),
            n == if x@.len() <= y@.len() {
                x@.len()
            } else {
                y@.len()
            },
            crate::value::pairs_lt(mx, my) == crate::value::pairs_lt(
                mx.skip(i as int),
                my.skip(i as int),
            ),
            crate::value::pairs_lt(my, mx) == crate::value::pairs_lt(
                my.skip(i as int),
                mx.skip(i as int),
            ),
            (mx == my) == (mx.skip(i as int) == my.skip(i as int)),
        decreases n - i,
    {
        proof {
            assert(decreases_to!(x@ => x@[i as int]));
            assert(decreases_to!(x@[i as int] => x@[i as int].0));
            assert(decreases_to!(x@[i as int] => x@[i as int].1));
        }
        let c0 = value_cmp(&x[i].0, &y[i].0);
        let c1 = value_cmp(&x[i].1, &y[i].1);
        proof {
            let sa = mx.skip(i as int);
            let sb = my.skip(i as int);
            assert(sa[0] == mx[i as int]);
            assert(sb[0] == my[i as int]);
            if c0 == 0 && c1 == 0 {
                assert(mx[i as int] == my[i as int]);
                assert(sa.drop_first() =~= mx.skip(i as int + 1));
                assert(sb.drop_first() =~= my.skip(i as int + 1));
                assert((sa == sb) == (sa.drop_first() == sb.drop_first())) by {
                    if sa.drop_first() == sb.drop_first() && sa.len() == sb.len() {
                        assert forall|j: int| 0 <= j < sa.len() implies sa[j] == sb[j] by {
                            if j > 0 {
                                assert(sa[j] == sa.drop_first()[j - 1]);
                                assert(sb[j] == sb.drop_first()[j - 1]);
                            }
                        }
                        assert(sa =~= sb);
                    }
                    if sa == sb {
                        assert(sa.drop_first() =~= sb.drop_first());
                    }
                }
            } else {
                assert(sa[0] != sb[0]);
            }
        }
        if c0 != 0 {
            return c0;
        }
        if c1 != 0 {
            return c1;
        }
        i = i + 1;
    }
    proof {
        let sa = mx.skip(i as int);
        let sb = my.skip(i as int);
        if mx.len() == my.len() {
            assert(sa =~= Seq::<Val>::empty().map_values(|v: Val| (v, v)));
            assert(sa.len() == 0 && sb.len() == 0);
            assert(sa =~= sb);
        } else if mx.len() < my.len() {
            assert(sa.len() == 0 && sb.len() > 0);
        } else {
            assert(sb.len() == 0 && sa.len() > 0);
        }
    }
    if x.len() == y.len() {
        0
    } else if x.len() < y.len() {
        -1
    } else {
        1
    }
}

/// Inserts a decoded entry into an ordered entry vector; a duplicate leaves
/// the vector unchanged.
#[verifier::rlimit(100)]
#[verifier::spinoff_prover]
fn value_set_insert(s: Vec<Value>, v: Value) -> (r: Vec<Value>)
    ensures
        vmodels(r@) == set_insert(vmodels(s@), vmodel(v)),
    decreases s@.len(),
{
    let mut s = s;
    let ghost s0 = s@;
    proof {
        lemma_vmodels_index(s0);
    }
    if s.len() == 0 {
        let mut out: Vec<Value> = Vec::new();
        out.push(v);
        proof {
            assert(vmodels(s0) =~= Seq::<Val>::empty());
            assert(out@ =~= seq![v]);
            assert(seq![v].drop_first() =~= Seq::<Value>::empty());
            assert(seq![v][0] == v);
            assert(vmodels(seq![v]) == seq![vmodel(seq![v][0])] + vmodels(seq![v].drop_first()));
            assert(vmodels(out@) =~= seq![vmodel(v)]);
        }
        return out;
    }
    let c = value_cmp(&v, &s[0]);
    if c == -1 {
        let ghost mv = vmodel(v);
        s.insert(0, v);
        proof {
            assert(s@ =~= seq![v] + s0);
            assert(s@[0] == v);
            assert(s@.drop_first() =~= s0);
            assert(vmodels(s@) == seq![vmodel(s@[0])] + vmodels(s@.drop_first()));
            assert(vmodels(s@) =~= seq![mv] + vmodels(s0));
            assert(set_insert(vmodels(s0), mv) == seq![mv] + vmodels(s0));
        }
        return s;
    }
    if c == 0 {
        proof {
            assert(set_insert(vmodels(s0), vmodel(v)) == vmodels(s0));
        }
        return s;
    }
    let ghost mv = vmodel(v);
    let head = s.remove(0);
    proof {
        assert(s@ =~= s0.drop_first());
        assert(vmodels(s0).drop_first() =~= vmodels(s0.drop_first())) by {
            lemma_vmodels_index(s0.drop_first());
            assert forall|j: int|
                0 <= j < s0.len() - 1 implies vmodels(s0).drop_first()[j] == vmodels(
                s0.drop_first(),
            )[j] by {
                assert(s0.drop_first()[j] == s0[j + 1]);
            }
        }
    }
    let rest = value_set_insert(s, v);
    let ghost r0 = rest@;
    let ghost mrest = vmodels(rest@);
    let mut rest = rest;
    rest.insert(0, head);
    proof {
        assert(rest@ =~= seq![head] + r0);
        assert(rest@[0] == head);
        assert(rest@.drop_first() =~= r0);
        assert(vmodels(rest@) == seq![vmodel(rest@[0])] + vmodels(rest@.drop_first()));
        assert(vmodels(rest@) =~= seq![vmodel(head)] + mrest);
        assert(vmodel(head) == vmodels(s0)[0]);
        assert(set_insert(vmodels(s0), mv) == seq![vmodels(s0)[0]] + set_insert(
            vmodels(s0).drop_first(),
            mv,
        ));
    }
    rest
}

/// Inserts a decoded pair into a key-ordered pair vector; a repeated key
/// overwrites the held value.
#[verifier::rlimit(100)]
#[verifier::spinoff_prover]
fn value_map_insert(s: Vec<(Value, Value)>, p: (Value, Value)) -> (r: Vec<(Value, Value)>)
    ensures
        pmodels(r@) == map_insert(pmodels(s@), (vmodel(p.0), vmodel(p.1))),
    decreases s@.len(),
{
    let mut s = s;
    let ghost s0 = s@;
    let ghost mp = (vmodel(p.0), vmodel(p.1));
    proof {
        lemma_pmodels_index(s0);
    }
    if s.len() == 0 {
        let mut out: Vec<(Value, Value)> = Vec::new();
        out.push(p);
        proof {
            assert(pmodels(s0) =~= Seq::<(Val, Val)>::empty());
            assert(out@ =~= seq![p]);
            assert(seq![p].drop_first() =~= Seq::<(Value, Value)>::empty());
            assert(seq![p][0] == p);
            assert(seq![p][0].0 == p.0 && seq![p][0].1 == p.1);
            assert(pmodels(seq![p]) == seq![(vmodel(seq![p][0].0), vmodel(seq![p][0].1))]
                + pmodels(seq![p].drop_first()));
            assert(pmodels(out@) =~= seq![mp]);
        }
        return out;
    }
    let c = value_cmp(&p.0, &s[0].0);
    if c == -1 {
        s.insert(0, p);
        proof {
            assert(s@ =~= seq![p] + s0);
            assert(s@[0] == p);
            assert(s@[0].0 == p.0 && s@[0].1 == p.1);
            assert(s@.drop_first() =~= s0);
            assert(pmodels(s@) == seq![(vmodel(s@[0].0), vmodel(s@[0].1))] + pmodels(
                s@.drop_first(),
            ));
            assert(pmodels(s@) =~= seq![mp] + pmodels(s0));
            assert(map_insert(pmodels(s0), mp) == seq![mp] + pmodels(s0));
        }
        return s;
    }
    if c == 0 {
        s.set(0, p);
        proof {
            assert(s@ =~= seq![p] + s0.drop_first());
            assert(s@[0] == p);
            assert(s@[0].0 == p.0 && s@[0].1 == p.1);
            assert(s@.drop_first() =~= s0.drop_first());
            assert(pmodels(s@) == seq![(vmodel(s@[0].0), vmodel(s@[0].1))] + pmodels(
                s@.drop_first(),
            ));
            assert(pmodels(s0).drop_first() =~= pmodels(s0.drop_first())) by {
                lemma_pmodels_index(s0.drop_first());
                assert forall|j: int|
                    0 <= j < s0.len() - 1 implies pmodels(s0).drop_first()[j] == pmodels(
                    s0.drop_first(),
                )[j] by {
                    assert(s0.drop_first()[j] == s0[j + 1]);
                }
            }
            assert(pmodels(s@) =~= seq![mp] + pmodels(s0).drop_first());
            assert(map_insert(pmodels(s0), mp) == seq![mp] + pmodels(s0).drop_first());
        }
        return s;
    }
    let head = s.remove(0);
    proof {
        assert(s@ =~= s0.drop_first());
        assert(pmodels(s0).drop_first() =~= pmodels(s0.drop_first())) by {
            lemma_pmodels_index(s0.drop_first());
            assert forall|j: int|
                0 <= j < s0.len() - 1 implies pmodels(s0).drop_first()[j] == pmodels(
                s0.drop_first(),
            )[j] by {
                assert(s0.drop_first()[j] == s0[j + 1]);
            }
        }
    }
    let rest = value_map_insert(s, p);
    let ghost r0 = rest@;
    let ghost mrest = pmodels(rest@);
    let mut rest = rest;
    rest.insert(0, head);
    proof {
        assert(rest@ =~= seq![head] + r0);
        assert(rest@[0] == head);
        assert(rest@[0].0 == head.0 && rest@[0].1 == head.1);
        assert(rest@.drop_first() =~= r0);
        assert(pmodels(rest@) == seq![(vmodel(rest@[0].0), vmodel(rest@[0].1))] + pmodels(
            rest@.drop_first(),
        ));
        assert(pmodels(rest@) =~= seq![(vmodel(head.0), vmodel(head.1))] + mrest);
        assert((vmodel(head.0), vmodel(head.1)) == pmodels(s0)[0]);
        assert(map_insert(pmodels(s0), mp) == seq![pmodels(s0)[0]] + map_insert(
            pmodels(s0).drop_first(),
            mp,
        ));
    }
    rest
}

/// Brings decoded set entries into canonical form: inserts each in turn, so
/// the result is ordered and duplicates collapse.
#[verifier::rlimit(100)]
#[verifier::spinoff_prover]
fn canonicalize_set(vs: Vec<Value>) -> (r: Vec<Value>)
    ensures
        vmodels(r@) == canon_set(vmodels(vs@)),
{
    let ghost orig = vmodels(vs@);
    let mut vs = vs;
    let mut out: Vec<Value> = Vec::new();
    let ghost k0: int = 0;
    proof {
        lemma_vmodels_index(vs@);
        assert(vmodels(out@) =~= Seq::<Val>::empty());
        assert(orig.take(0) =~= Seq::<Val>::empty());
        assert(orig.skip(0) =~= orig);
    }
    while vs.len() > 0
        invariant
            vmodels(vs@).len() == vs@.len(),
            vs@.len() <= orig.len(),
            vmodels(vs@) == orig.skip(orig.len() - vs@.len()),
            vmodels(out@) == canon_set(orig.take(orig.len() - vs@.len())),
        decreases vs@.len(),
    {
        let ghost k = orig.len() - vs@.len();
        let ghost pre = vs@;
        proof {
            lemma_vmodels_index(pre);
        }
        let v = vs.remove(0);
        proof {
            assert(vs@ =~= pre.drop_first());
            assert(vmodels(pre).drop_first() =~= vmodels(pre.drop_first())) by {
                lemma_vmodels_index(pre.drop_first());
                assert forall|j: int|
                    0 <= j < pre.len() - 1 implies vmodels(pre).drop_first()[j] == vmodels(
                    pre.drop_first(),
                )[j] by {
                    assert(pre.drop_first()[j] == pre[j + 1]);
                }
            }
            assert(orig.skip(k).drop_first() =~= orig.skip(k + 1));
            assert(vmodel(v) == orig.skip(k)[0]);
            assert(orig.skip(k)[0] == orig[k]);
        }
        out = value_set_insert(out, v);
        proof {
            assert(orig.take(k + 1).drop_last() =~= orig.take(k));
            assert(orig.take(k + 1).last() == orig[k]);
            assert(canon_set(orig.take(k + 1)) == set_insert(canon_set(orig.take(k)), orig[k]));
        }
    }
    proof {
        assert(orig.take(orig.len() as int) =~= orig);
    }
    out
}

/// Brings decoded map entries into canonical form: keys unique and ordered,
/// the last occurrence of a repeated key winning.
#[verifier::rlimit(100)]
#[verifier::spinoff_prover]
fn canonicalize_map(ps: Vec<(Value, Value)>) -> (r: Vec<(Value, Value)>)
    ensures
        pmodels(r@) == canon_map(pmodels(ps@)),
{
    let ghost orig = pmodels(ps@);
    let mut ps = ps;
    let mut out: Vec<(Value, Value)> = Vec::new();
    proof {
        lemma_pmodels_index(ps@);
        assert(pmodels(out@) =~= Seq::<(Val, Val)>::empty());
        assert(orig.take(0) =~= Seq::<(Val, Val)>::empty());
        assert(orig.skip(0) =~= orig);
    }
    while ps.len() > 0
        invariant
            pmodels(ps@).len() == ps@.len(),
            ps@.len() <= orig.len(),
            pmodels(ps@) == orig.skip(orig.len() - ps@.len()),
            pmodels(out@) == canon_map(orig.take(orig.len() - ps@.len())),
        decreases ps@.len(),
    {
        let ghost k = orig.len() - ps@.len();
        let ghost pre = ps@;
        proof {
            lemma_pmodels_index(pre);
        }
        let p = ps.remove(0);
        proof {
            assert(ps@ =~= pre.drop_first());
            assert(pmodels(pre).drop_first() =~= pmodels(pre.drop_first())) by {
                lemma_pmodels_index(pre.drop_first());
                assert forall|j: int|
                    0 <= j < pre.len() - 1 implies pmodels(pre).drop_first()[j] == pmodels(
                    pre.drop_first(),
                )[j] by {
                    assert(pre.drop_first()[j] == pre[j + 1]);
                }
            }
            assert(orig.skip(k).drop_first() =~= orig.skip(k + 1));
            assert((vmodel(p.0), vmodel(p.1)) == orig.skip(k)[0]);
            assert(orig.skip(k)[0] == orig[k]);
        }
        out = value_map_insert(out, p);
        proof {
            assert(orig.take(k + 1).drop_last() =~= orig.take(k));
            assert(orig.take(k + 1).last() == orig[k]);
            assert(canon_map(orig.take(k + 1)) == map_insert(canon_map(orig.take(k)), orig[k]));
        }
    }
    proof {
        assert(orig.take(orig.len() as int) =~= orig);
    }
    out
}


/// A successful entries parse consumes at most the whole buffer.
proof fn lemma_parse_entries_bounds(t: TypeDesc, b: Seq<u8>, n: int)
    ensures
        parse_entries(t, b, n) matches Ok((vs, c)) ==> 0 <= c <= b.len(),
    decreases b.len(),
{
    if n > 0 && b.len() >= 4 {
        let siz = be32_val(b) as int;
        if b.len() >= 4 + siz {
            if spec_decode(t, b.subrange(4, 4 + siz)) matches Ok(v) {
                lemma_parse_entries_bounds(t, b.skip(4 + siz), n - 1);
            }
        }
    }
}

/// A successful pairs parse consumes at most the whole buffer.
proof fn lemma_parse_pairs_bounds(kt: TypeDesc, vt: TypeDesc, b: Seq<u8>, n: int)
    ensures
        parse_pairs(kt, vt, b, n) matches Ok((ps, c)) ==> 0 <= c <= b.len(),
    decreases b.len(),
{
    if n > 0 && b.len() >= 4 {
        let sizk = be32_val(b) as int;
        if b.len() >= 4 + sizk {
            if spec_decode(kt, b.subrange(4, 4 + sizk)) matches Ok(k) {
                let rest = b.skip(4 + sizk);
                if rest.len() >= 4 {
                    let sizv = be32_val(rest) as int;
                    if rest.len() >= 4 + sizv {
                        if spec_decode(vt, rest.subrange(4, 4 + sizv)) matches Ok(v) {
                            lemma_parse_pairs_bounds(kt, vt, rest.skip(4 + sizv), n - 1);
                        }
                    }
                }
            }
        }
    }
}

/// A block truncated inside its payload or prefix fails with a size mismatch.
proof fn lemma_block_trunc(t: TypeDesc, v: Val, rest: Seq<u8>, m: int)
    requires
        wf(v),
        crate::value::has_type(v, t),
        crate::value::no_absent(v),
        0 <= m < 4 + wire_bytes(v).len(),
        m <= (block_bytes(v) + rest).len(),
    ensures
        parse_block(t, (block_bytes(v) + rest).take(m)) == Err::<(Val, int), Fault>(
            Fault::DecodeSizeMismatch,
        ),
{
    let b = block_bytes(v) + rest;
    let bm = b.take(m);
    if m >= 4 {
        lemma_block_complete(t, v, rest);
        assert(bm[0] == b[0] && bm[1] == b[1] && bm[2] == b[2] && bm[3] == b[3]);
        assert(be32_val(bm) == be32_val(b));
        assert(bm.len() < 4 + wire_bytes(v).len());
    }
}

/// A block cut at or beyond its end parses exactly as from the full buffer.
proof fn lemma_block_restrict(t: TypeDesc, v: Val, rest: Seq<u8>, m: int)
    requires
        wf(v),
        crate::value::has_type(v, t),
        crate::value::no_absent(v),
        4 + wire_bytes(v).len() <= m <= (block_bytes(v) + rest).len(),
    ensures
        parse_block(t, (block_bytes(v) + rest).take(m)) == Ok::<(Val, int), Fault>(
            (v, 4 + wire_bytes(v).len() as int),
        ),
{
    let b = block_bytes(v) + rest;
    let bm = b.take(m);
    lemma_block_complete(t, v, rest);
    assert(bm[0] == b[0] && bm[1] == b[1] && bm[2] == b[2] && bm[3] == b[3]);
    assert(be32_val(bm) == be32_val(b));
    let w = wire_bytes(v).len() as int;
    assert(bm.subrange(4, 4 + w) =~= b.subrange(4, 4 + w));
}

/// Entries truncated strictly inside what they consume fail with a size
/// mismatch.
proof fn lemma_parse_entries_trunc(t: TypeDesc, b: Seq<u8>, n: int, m: int)
    requires
        parse_entries(t, b, n) is Ok,
        0 <= m,
        m < parse_entries(t, b, n)->Ok_0.1,
    ensures
        parse_entries(t, b.take(m), n) == Err::<(Seq<Val>, int), Fault>(Fault::DecodeSizeMismatch),
    decreases b.len(),
{
    lemma_parse_entries_bounds(t, b, n);
    assert(n > 0);
    assert(b.len() >= 4);
    let bm = b.take(m);
    let siz = be32_val(b) as int;
    assert(b.len() >= 4 + siz);
    if m >= 4 {
        assert(bm[0] == b[0] && bm[1] == b[1] && bm[2] == b[2] && bm[3] == b[3]);
        assert(be32_val(bm) == be32_val(b));
        if m >= 4 + siz {
            lemma_parse_entries_bounds(t, b.skip(4 + siz), n - 1);
            assert(bm.subrange(4, 4 + siz) =~= b.subrange(4, 4 + siz));
            assert(bm.skip(4 + siz) =~= b.skip(4 + siz).take(m - 4 - siz));
            lemma_parse_entries_trunc(t, b.skip(4 + siz), n - 1, m - 4 - siz);
        }
    }
}

/// Map entries truncated strictly inside what they consume fail with a size
/// mismatch.
proof fn lemma_parse_pairs_trunc(kt: TypeDesc, vt: TypeDesc, b: Seq<u8>, n: int, m: int)
    requires
        parse_pairs(kt, vt, b, n) is Ok,
        0 <= m,
        m < parse_pairs(kt, vt, b, n)->Ok_0.1,
    ensures
        parse_pairs(kt, vt, b.take(m), n) == Err::<(Seq<(Val, Val)>, int), Fault>(
            Fault::DecodeSizeMismatch,
        ),
    decreases b.len(),
{
    lemma_parse_pairs_bounds(kt, vt, b, n);
    assert(n > 0);
    assert(b.len() >= 4);
    let bm = b.take(m);
    let sizk = be32_val(b) as int;
    assert(b.len() >= 4 + sizk);
    if m >= 4 {
        assert(bm[0] == b[0] && bm[1] == b[1] && bm[2] == b[2] && bm[3] == b[3]);
        assert(be32_val(bm) == be32_val(b));
        if m >= 4 + sizk {
            assert(bm.subrange(4, 4 + sizk) =~= b.subrange(4, 4 + sizk));
            let rest = b.skip(4 + sizk);
            let restm = bm.skip(4 + sizk);
            assert(restm =~= rest.take(m - 4 - sizk));
            let m2 = m - 4 - sizk;
            let sizv = be32_val(rest) as int;
            assert(rest.len() >= 4 + sizv);
            if m2 >= 4 {
                assert(restm[0] == rest[0] && restm[1] == rest[1] && restm[2] == rest[2]
                    && restm[3] == rest[3]);
                assert(be32_val(restm) == be32_val(rest));
                if m2 >= 4 + sizv {
                    lemma_parse_pairs_bounds(kt, vt, rest.skip(4 + sizv), n - 1);
                    assert(restm.subrange(4, 4 + sizv) =~= rest.subrange(4, 4 + sizv));
                    assert(restm.skip(4 + sizv) =~= rest.skip(4 + sizv).take(m2 - 4 - sizv));
                    lemma_parse_pairs_trunc(kt, vt, rest.skip(4 + sizv), n - 1, m2 - 4 - sizv);
                }
            }
        }
    }
}

/// Truncating the encoding of a well-formed composite value by one byte or
/// more makes decoding fail with a size mismatch: some length prefix then
/// reaches past the end of the buffer, or the declared length disagrees.
#[verifier::rlimit(100)]
#[verifier::spinoff_prover]
pub proof fn lemma_truncation_fails(t: TypeDesc, v: Val, m: int)
    requires
        wf(v),
        crate::value::has_type(v, t),
        crate::value::no_absent(v),
        is_composite(t),
        0 <= m < wire_bytes(v).len(),
    ensures
        spec_decode(t, wire_bytes(v).take(m)) == Err::<Val, Fault>(Fault::DecodeSizeMismatch),
{
    let b = wire_bytes(v);
    let bm = b.take(m);
    match v {
        Val::Sequence(vs) => {
            if let TypeDesc::Sequence(et) = t {
                lemma_seq_wf_parts(vs);
                lemma_entries_len_lower(vs);
                assert(vs.len() < 0x1_0000_0000);
                assert(bm.len() == m);
                if m >= 4 {
                    let n = vs.len() as u32;
                    lemma_be32_val_prefix(n, entries_bytes(vs));
                    assert(b =~= be32(n) + entries_bytes(vs));
                    assert(bm[0] == b[0] && bm[1] == b[1] && bm[2] == b[2] && bm[3] == b[3]);
                    assert(be32_val(bm) == be32_val(b));
                    assert(be32_val(bm) as int == vs.len() as int);
                    lemma_entries_complete(*et, vs);
                    assert(bm.skip(4) =~= entries_bytes(vs).take(m - 4));
                    assert(b.skip(4) =~= entries_bytes(vs));
                    lemma_parse_entries_trunc(*et, entries_bytes(vs), vs.len() as int, m - 4);
                    assert(parse_entries(*et, bm.skip(4), be32_val(bm) as int) == Err::<
                        (Seq<Val>, int),
                        Fault,
                    >(Fault::DecodeSizeMismatch));
                    assert(parse_counted(*et, bm) == Err::<Seq<Val>, Fault>(
                        Fault::DecodeSizeMismatch,
                    ));
                } else {
                    assert(parse_counted(*et, bm) == Err::<Seq<Val>, Fault>(
                        Fault::DecodeSizeMismatch,
                    ));
                }
            }
        },
        Val::SetOf(vs) => {
            if let TypeDesc::SetOf(et) = t {
                lemma_set_wf_parts(vs);
                lemma_entries_len_lower(vs);
                assert(vs.len() < 0x1_0000_0000);
                assert(bm.len() == m);
                if m >= 4 {
                    let n = vs.len() as u32;
                    lemma_be32_val_prefix(n, entries_bytes(vs));
                    assert(b =~= be32(n) + entries_bytes(vs));
                    assert(bm[0] == b[0] && bm[1] == b[1] && bm[2] == b[2] && bm[3] == b[3]);
                    assert(be32_val(bm) == be32_val(b));
                    assert(be32_val(bm) as int == vs.len() as int);
                    lemma_entries_complete(*et, vs);
                    assert(bm.skip(4) =~= entries_bytes(vs).take(m - 4));
                    lemma_parse_entries_trunc(*et, entries_bytes(vs), vs.len() as int, m - 4);
                    assert(parse_entries(*et, bm.skip(4), be32_val(bm) as int) == Err::<
                        (Seq<Val>, int),
                        Fault,
                    >(Fault::DecodeSizeMismatch));
                    assert(parse_counted(*et, bm) == Err::<Seq<Val>, Fault>(
                        Fault::DecodeSizeMismatch,
                    ));
                } else {
                    assert(parse_counted(*et, bm) == Err::<Seq<Val>, Fault>(
                        Fault::DecodeSizeMismatch,
                    ));
                }
            }
        },
        Val::MapOf(ps) => {
            if let TypeDesc::MapOf(kt, vt) = t {
                lemma_map_wf_parts(ps);
                lemma_pairs_len_lower(ps);
                assert(ps.len() < 0x1_0000_0000);
                assert(bm.len() == m);
                if m >= 4 {
                    let n = ps.len() as u32;
                    lemma_be32_val_prefix(n, pairs_bytes(ps));
                    assert(b =~= be32(n) + pairs_bytes(ps));
                    assert(bm[0] == b[0] && bm[1] == b[1] && bm[2] == b[2] && bm[3] == b[3]);
                    assert(be32_val(bm) == be32_val(b));
                    assert(be32_val(bm) as int == ps.len() as int);
                    lemma_pairs_complete(*kt, *vt, ps);
                    assert(bm.skip(4) =~= pairs_bytes(ps).take(m - 4));
                    lemma_parse_pairs_trunc(*kt, *vt, pairs_bytes(ps), ps.len() as int, m - 4);
                    assert(parse_pairs(*kt, *vt, bm.skip(4), be32_val(bm) as int) == Err::<
                        (Seq<(Val, Val)>, int),
                        Fault,
                    >(Fault::DecodeSizeMismatch));
                    assert(parse_pairs_counted(*kt, *vt, bm) == Err::<Seq<(Val, Val)>, Fault>(
                        Fault::DecodeSizeMismatch,
                    ));
                } else {
                    assert(parse_pairs_counted(*kt, *vt, bm) == Err::<Seq<(Val, Val)>, Fault>(
                        Fault::DecodeSizeMismatch,
                    ));
                }
            }
        },
        Val::Tuple2(x, y) => {
            if let TypeDesc::Tuple2(ta, tb) = t {
                assert(b =~= block_bytes(*x) + block_bytes(*y));
                let cx = 4 + wire_bytes(*x).len() as int;
                let cy = 4 + wire_bytes(*y).len() as int;
                if m < cx {
                    lemma_block_trunc(*ta, *x, block_bytes(*y), m);
                } else {
                    lemma_block_restrict(*ta, *x, block_bytes(*y), m);
                    lemma_block_complete(*ta, *x, block_bytes(*y));
                    assert(bm.skip(cx) =~= block_bytes(*y).take(m - cx));
                    assert(block_bytes(*y).take(m - cx) =~= (block_bytes(*y)
                        + Seq::<u8>::empty()).take(m - cx));
                    lemma_block_trunc(*tb, *y, Seq::empty(), m - cx);
                }
            }
        },
        Val::Tuple3(x, y, z) => {
            if let TypeDesc::Tuple3(ta, tb, tc) = t {
                assert(b =~= block_bytes(*x) + (block_bytes(*y) + block_bytes(*z)));
                let cx = 4 + wire_bytes(*x).len() as int;
                let cy = 4 + wire_bytes(*y).len() as int;
                let cz = 4 + wire_bytes(*z).len() as int;
                if m < cx {
                    lemma_block_trunc(*ta, *x, block_bytes(*y) + block_bytes(*z), m);
                } else {
                    lemma_block_restrict(*ta, *x, block_bytes(*y) + block_bytes(*z), m);
                    lemma_block_complete(*ta, *x, block_bytes(*y) + block_bytes(*z));
                    assert(bm.skip(cx) =~= (block_bytes(*y) + block_bytes(*z)).take(m - cx));
                    if m - cx < cy {
                        lemma_block_trunc(*tb, *y, block_bytes(*z), m - cx);
                    } else {
                        lemma_block_restrict(*tb, *y, block_bytes(*z), m - cx);
                        lemma_block_complete(*tb, *y, block_bytes(*z));
                        assert(bm.skip(cx).skip(cy) =~= bm.skip(cx + cy));
                        assert(bm.skip(cx + cy) =~= block_bytes(*z).take(m - cx - cy));
                        assert(block_bytes(*z).take(m - cx - cy) =~= (block_bytes(*z)
                            + Seq::<u8>::empty()).take(m - cx - cy));
                        lemma_block_trunc(*tc, *z, Seq::empty(), m - cx - cy);
                    }
                }
            }
        },
        _ => {},
    }
}

} // verus!
