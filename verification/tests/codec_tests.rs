use cql_wire::bridge::{absent_handle, addr_of, len_of, size_ptr, Memory, ABSENT_LEN};
use cql_wire::bridge::{consume_value, produce_value};
use cql_wire::classify::{
    classify, generate_shim, narrow_i8, widen_i8, AbiVersion, RegType, Signature, Signedness,
    Strategy,
};
use cql_wire::codec::{decode, encode, size, Fault};
use cql_wire::udf::{commas, topn_row, Accum, Entry, TextSet, _scylla_internal_top3,
    _scylla_internal_topn_final};
use cql_wire::traits::{FromCQL, IntoCQL};
use cql_wire::value::{Scalar, ScalarType, TypeDesc, Value};

fn text(s: &str) -> Value {
    Value::Text(s.as_bytes().to_vec())
}

fn seq_of_texts(items: &[&str]) -> Value {
    Value::Sequence(items.iter().map(|s| text(s)).collect())
}

#[test]
fn scalar_round_trips() {
    let cases = vec![
        (Value::Scalar(Scalar::I8(-5)), TypeDesc::Scalar(ScalarType::I8)),
        (Value::Scalar(Scalar::I16(-300)), TypeDesc::Scalar(ScalarType::I16)),
        (Value::Scalar(Scalar::I32(-70000)), TypeDesc::Scalar(ScalarType::I32)),
        (Value::Scalar(Scalar::I64(-5_000_000_000)), TypeDesc::Scalar(ScalarType::I64)),
        (Value::Scalar(Scalar::U8(200)), TypeDesc::Scalar(ScalarType::U8)),
        (Value::Scalar(Scalar::U16(60000)), TypeDesc::Scalar(ScalarType::U16)),
        (Value::Scalar(Scalar::U32(4_000_000_000)), TypeDesc::Scalar(ScalarType::U32)),
        (Value::Scalar(Scalar::U64(u64::MAX)), TypeDesc::Scalar(ScalarType::U64)),
        (Value::Scalar(Scalar::Bool(true)), TypeDesc::Scalar(ScalarType::Bool)),
        (Value::Scalar(Scalar::Char(b'x')), TypeDesc::Scalar(ScalarType::Char)),
        (Value::Scalar(Scalar::F32Bits(0x3F80_0000)), TypeDesc::Scalar(ScalarType::F32)),
        (Value::Scalar(Scalar::F64Bits(0x3FF0_0000_0000_0000)), TypeDesc::Scalar(ScalarType::F64)),
    ];
    for (v, t) in cases {
        let bytes = encode(&v);
        assert_eq!(bytes.len() as u32, size(&v));
        assert_eq!(decode(&t, &bytes), Ok(v));
    }
}

#[test]
fn scalar_wire_is_big_endian() {
    assert_eq!(encode(&Value::Scalar(Scalar::U16(0x1234))), vec![0x12, 0x34]);
    assert_eq!(encode(&Value::Scalar(Scalar::U32(0x01020304))), vec![1, 2, 3, 4]);
    assert_eq!(
        encode(&Value::Scalar(Scalar::I16(-2))),
        vec![0xFF, 0xFE]
    );
    assert_eq!(encode(&Value::Scalar(Scalar::Bool(true))), vec![1]);
    assert_eq!(encode(&Value::Scalar(Scalar::Bool(false))), vec![0]);
}

#[test]
fn text_round_trip_and_utf8_rejection() {
    let v = text("héllo");
    let bytes = encode(&v);
    assert_eq!(decode(&TypeDesc::Text, &bytes), Ok(v));
    // a lone continuation byte is not UTF-8
    assert_eq!(
        decode(&TypeDesc::Text, &[0x80]),
        Err(Fault::InvalidTextEncoding)
    );
    // a truncated two-byte sequence is not UTF-8
    assert_eq!(
        decode(&TypeDesc::Text, &[0xC3]),
        Err(Fault::InvalidTextEncoding)
    );
}

// Scenario: encoding Sequence[Text]{"a","bb"} gives count 2, then one
// [length][bytes] block per entry.
#[test]
fn sequence_of_texts_exact_bytes() {
    let v = seq_of_texts(&["a", "bb"]);
    let bytes = encode(&v);
    assert_eq!(
        bytes,
        vec![
            0, 0, 0, 2, // count
            0, 0, 0, 1, b'a', // first entry
            0, 0, 0, 2, b'b', b'b', // second entry
        ]
    );
    let t = TypeDesc::Sequence(Box::new(TypeDesc::Text));
    assert_eq!(decode(&t, &bytes), Ok(seq_of_texts(&["a", "bb"])));
}

#[test]
fn composite_round_trips() {
    let t_seq = TypeDesc::Sequence(Box::new(TypeDesc::Scalar(ScalarType::U32)));
    let v_seq = Value::Sequence(vec![
        Value::Scalar(Scalar::U32(7)),
        Value::Scalar(Scalar::U32(7)),
        Value::Scalar(Scalar::U32(1)),
    ]);
    let b = encode(&v_seq);
    assert_eq!(size(&v_seq) as usize, b.len());
    assert_eq!(decode(&t_seq, &b), Ok(v_seq));

    let t_set = TypeDesc::SetOf(Box::new(TypeDesc::Text));
    let v_set = Value::SetOf(vec![text("a"), text("b")]);
    let b = encode(&v_set);
    assert_eq!(decode(&t_set, &b), Ok(Value::SetOf(vec![text("a"), text("b")])));

    let t_map = TypeDesc::MapOf(
        Box::new(TypeDesc::Text),
        Box::new(TypeDesc::Scalar(ScalarType::I32)),
    );
    let v_map = Value::MapOf(vec![
        (text("k1"), Value::Scalar(Scalar::I32(-1))),
        (text("k2"), Value::Scalar(Scalar::I32(2))),
    ]);
    let b = encode(&v_map);
    assert_eq!(size(&v_map) as usize, b.len());
    let decoded = decode(&t_map, &b).unwrap();
    assert_eq!(encode(&decoded), b);

    let t_t2 = TypeDesc::Tuple2(Box::new(TypeDesc::Text), Box::new(TypeDesc::Scalar(ScalarType::U32)));
    let v_t2 = Value::Tuple2(Box::new(text("hi")), Box::new(Value::Scalar(Scalar::U32(9))));
    let b = encode(&v_t2);
    assert_eq!(decode(&t_t2, &b), Ok(Value::Tuple2(Box::new(text("hi")), Box::new(Value::Scalar(Scalar::U32(9))))));

    let t_t3 = TypeDesc::Tuple3(
        Box::new(TypeDesc::Scalar(ScalarType::U32)),
        Box::new(TypeDesc::Text),
        Box::new(TypeDesc::Scalar(ScalarType::U32)),
    );
    let v_t3 = Value::Tuple3(
        Box::new(Value::Scalar(Scalar::U32(1))),
        Box::new(text("mid")),
        Box::new(Value::Scalar(Scalar::U32(2))),
    );
    let b = encode(&v_t3);
    assert_eq!(size(&v_t3) as usize, b.len());
    let back = decode(&t_t3, &b).unwrap();
    assert_eq!(encode(&back), b);

    let t_opt = TypeDesc::Optional(Box::new(TypeDesc::Text));
    let v_opt = Value::Optional(Some(Box::new(text("x"))));
    let b = encode(&v_opt);
    // a present optional is byte-identical to the inner value
    assert_eq!(b, encode(&text("x")));
    assert_eq!(decode(&t_opt, &b), Ok(Value::Optional(Some(Box::new(text("x"))))));
}

// Truncating or padding an encoded composite buffer must fail with a size
// mismatch.
#[test]
fn truncation_and_padding_fail() {
    let v = seq_of_texts(&["a", "bb"]);
    let t = TypeDesc::Sequence(Box::new(TypeDesc::Text));
    let good = encode(&v);
    for cut in 1..=good.len() {
        let shorter = &good[..good.len() - cut];
        assert_eq!(decode(&t, shorter), Err(Fault::DecodeSizeMismatch), "cut {}", cut);
    }
    let mut padded = good.clone();
    padded.push(0);
    assert_eq!(decode(&t, &padded), Err(Fault::DecodeSizeMismatch));

    let v3 = Value::Tuple2(Box::new(text("a")), Box::new(text("b")));
    let t3 = TypeDesc::Tuple2(Box::new(TypeDesc::Text), Box::new(TypeDesc::Text));
    let good = encode(&v3);
    for cut in 1..=good.len() {
        let shorter = &good[..good.len() - cut];
        assert_eq!(decode(&t3, shorter), Err(Fault::DecodeSizeMismatch), "cut {}", cut);
    }
    let mut padded = good.clone();
    padded.push(7);
    assert_eq!(decode(&t3, &padded), Err(Fault::DecodeSizeMismatch));
}

#[test]
fn sized_pointer_packs_and_unpacks() {
    let h = size_ptr(10, 0x1234);
    assert_eq!(len_of(h), 10);
    assert_eq!(addr_of(h), 0x1234);
    assert_eq!(h, (10u64 << 32) + 0x1234);
    let a = absent_handle();
    assert_eq!(len_of(a), ABSENT_LEN);
    assert_eq!(addr_of(a), 0);
}

// Packing an absent optional yields the reserved length; packing a present
// optional is byte-identical to packing the inner value directly.
#[test]
fn absence_round_trip() {
    let mut m = Memory::new();
    let h = produce_value(&mut m, &Value::Optional(None)).unwrap();
    assert_eq!(len_of(h), 0xFFFF_FFFF);
    assert_eq!(addr_of(h), 0);
    let t = TypeDesc::Optional(Box::new(TypeDesc::Text));
    let back = consume_value(&mut m, &t, h).unwrap();
    assert_eq!(back, Value::Optional(None));

    let h1 = produce_value(&mut m, &Value::Optional(Some(Box::new(text("v"))))).unwrap();
    let h2 = produce_value(&mut m, &text("v")).unwrap();
    assert_eq!(m.read(addr_of(h1)), m.read(addr_of(h2)));
    assert_eq!(len_of(h1), len_of(h2));
}

// Decoding one wire-buffer input releases its buffer exactly once.
#[test]
fn consume_releases_exactly_once() {
    let mut m = Memory::new();
    let v = seq_of_texts(&["x", "y"]);
    let h = produce_value(&mut m, &v).unwrap();
    let addr = addr_of(h);
    assert!(m.is_live(addr));
    let t = TypeDesc::Sequence(Box::new(TypeDesc::Text));
    let back = consume_value(&mut m, &t, h).unwrap();
    assert_eq!(back, seq_of_texts(&["x", "y"]));
    assert!(!m.is_live(addr));
}

// The release happens even when the decode fails.
#[test]
fn consume_releases_on_failure_too() {
    let mut m = Memory::new();
    let addr = m.allocate(1);
    m.write(addr, &vec![0x80]); // not UTF-8
    let h = size_ptr(1, addr);
    let r = consume_value(&mut m, &TypeDesc::Text, h);
    assert_eq!(r, Err(Fault::InvalidTextEncoding));
    assert!(!m.is_live(addr));
}

#[test]
fn classify_both_versions() {
    let native = [
        ScalarType::I32,
        ScalarType::I64,
        ScalarType::U32,
        ScalarType::U64,
        ScalarType::F32,
        ScalarType::F64,
    ];
    for st in native {
        assert_eq!(classify(&TypeDesc::Scalar(st), AbiVersion::V1), Strategy::NativePass);
        assert_eq!(classify(&TypeDesc::Scalar(st), AbiVersion::V2), Strategy::NativePass);
    }
    let narrow = [
        ScalarType::I8,
        ScalarType::I16,
        ScalarType::U8,
        ScalarType::U16,
        ScalarType::Bool,
        ScalarType::Char,
    ];
    for st in narrow {
        assert_eq!(classify(&TypeDesc::Scalar(st), AbiVersion::V1), Strategy::WireBuffer);
    }
    assert_eq!(
        classify(&TypeDesc::Scalar(ScalarType::I8), AbiVersion::V2),
        Strategy::NarrowCast(Signedness::Signed)
    );
    assert_eq!(
        classify(&TypeDesc::Scalar(ScalarType::I16), AbiVersion::V2),
        Strategy::NarrowCast(Signedness::Signed)
    );
    assert_eq!(
        classify(&TypeDesc::Scalar(ScalarType::U8), AbiVersion::V2),
        Strategy::NarrowCast(Signedness::Unsigned)
    );
    assert_eq!(
        classify(&TypeDesc::Scalar(ScalarType::Bool), AbiVersion::V2),
        Strategy::NarrowCast(Signedness::Unsigned)
    );
    for abi in [AbiVersion::V1, AbiVersion::V2] {
        assert_eq!(classify(&TypeDesc::Text, abi), Strategy::WireBuffer);
        assert_eq!(
            classify(&TypeDesc::Optional(Box::new(TypeDesc::Scalar(ScalarType::U32))), abi),
            Strategy::WireBuffer
        );
        assert_eq!(
            classify(&TypeDesc::SetOf(Box::new(TypeDesc::Text)), abi),
            Strategy::WireBuffer
        );
    }
    // identical inputs always yield the identical strategy
    assert_eq!(
        classify(&TypeDesc::Scalar(ScalarType::I8), AbiVersion::V2),
        classify(&TypeDesc::Scalar(ScalarType::I8), AbiVersion::V2)
    );
}

// Scenario: a signed byte under the second scheme crosses sign-extended and
// is truncated back on exit, high bits silently discarded.
#[test]
fn narrow_cast_sign_extension() {
    let sig = Signature {
        params: vec![TypeDesc::Scalar(ScalarType::I8)],
        ret: TypeDesc::Scalar(ScalarType::I8),
    };
    let plan = generate_shim(&sig, AbiVersion::V2);
    assert_eq!(plan.abi, AbiVersion::V2);
    assert_eq!(plan.params[0], (Strategy::NarrowCast(Signedness::Signed), RegType::RegI32));
    assert_eq!(plan.ret, (Strategy::NarrowCast(Signedness::Signed), RegType::RegI32));

    let r = widen_i8(-5);
    assert_eq!(r, -5i32);
    assert_eq!(narrow_i8(r), -5i8);
    // truncation discards overflow bits
    assert_eq!(narrow_i8(0x0000_01FB), -5i8);
    assert_eq!(narrow_i8(0x7FFF_FF80), -128i8);
}

#[test]
fn shim_plan_v1_routes_narrow_through_buffers() {
    let sig = Signature {
        params: vec![
            TypeDesc::Scalar(ScalarType::U16),
            TypeDesc::Scalar(ScalarType::U64),
            TypeDesc::Text,
        ],
        ret: TypeDesc::Sequence(Box::new(TypeDesc::Text)),
    };
    let plan = generate_shim(&sig, AbiVersion::V1);
    assert_eq!(plan.abi, AbiVersion::V1);
    assert_eq!(plan.params[0], (Strategy::WireBuffer, RegType::RegU64));
    assert_eq!(plan.params[1], (Strategy::NativePass, RegType::RegU64));
    assert_eq!(plan.params[2], (Strategy::WireBuffer, RegType::RegU64));
    assert_eq!(plan.ret, (Strategy::WireBuffer, RegType::RegU64));
}

// Scenario: joining Sequence[Text]{"x","y","z"} yields "x, y, z".
#[test]
fn commas_joins() {
    let input = Some(vec![b"x".to_vec(), b"y".to_vec(), b"z".to_vec()]);
    assert_eq!(commas(input), Some(b"x, y, z".to_vec()));
    assert_eq!(commas(None), None);
    assert_eq!(commas(Some(vec![])), Some(vec![]));
    assert_eq!(commas(Some(vec![b"solo".to_vec()])), Some(b"solo".to_vec()));
}

#[test]
fn top3_inner_takes_first_in_order() {
    let set = TextSet {
        items: vec![b"alpha".to_vec(), b"beta".to_vec(), b"gamma".to_vec()],
    };
    let r = _scylla_internal_top3(Some(set), Some(2));
    assert_eq!(r, vec![b"alpha".to_vec(), b"beta".to_vec()]);

    let r = _scylla_internal_top3(None, Some(2));
    assert_eq!(r, vec![b"null".to_vec()]);

    let set = TextSet { items: vec![b"a".to_vec()] };
    let r = _scylla_internal_top3(Some(set), None);
    assert_eq!(r, vec![b"null2".to_vec()]);

    let set = TextSet { items: vec![b"a".to_vec()] };
    let r = _scylla_internal_top3(Some(set), Some(9));
    assert_eq!(r, vec![b"a".to_vec()]);
}

// Scenario: five insertions with distinct ranks and limit 3 keep exactly the
// three lowest-ranked entries and advance the counter by five.
#[test]
fn topn_keeps_three_lowest_of_five() {
    let mut acc = Accum { limit: 3, entries: vec![], counter: 0 };
    // rank is the text's byte length
    for s in [&b"ccccc"[..], &b"dd"[..], &b"aaaa"[..], &b"e"[..], &b"bbb"[..]] {
        acc = topn_row(acc, s.to_vec());
    }
    assert_eq!(acc.counter, 5);
    assert_eq!(acc.limit, 3);
    let texts = _scylla_internal_topn_final(acc);
    assert_eq!(texts, vec![b"e".to_vec(), b"dd".to_vec(), b"bbb".to_vec()]);
}

#[test]
fn topn_deduplicates_identical_entries() {
    let acc = Accum {
        limit: 5,
        entries: vec![Entry { rank: 1, text: b"a".to_vec(), seqno: 0 }],
        counter: 1,
    };
    // same rank and text but a fresh sequence number: a distinct entry
    let acc = topn_row(acc, b"a".to_vec());
    assert_eq!(acc.entries.len(), 2);
    assert_eq!(acc.counter, 2);
}

#[test]
fn traits_round_trip_text() {
    let t: Vec<u8> = b"hello".to_vec();
    assert_eq!(t.size_cql(), 5);
    let mut out = vec![0xAA];
    t.serialize_cql(&mut out);
    assert_eq!(out, vec![0xAA, b'h', b'e', b'l', b'l', b'o']);

    let mut m = Memory::new();
    let h = t.into_cql(&mut m).unwrap();
    assert_eq!(len_of(h), 5);
    let back: Vec<u8> = FromCQL::from_cql(&mut m, h).unwrap();
    assert_eq!(back, t);
    assert!(!m.is_live(addr_of(h)));

    let direct: Result<Vec<u8>, Fault> = FromCQL::deserialize_cql(b"ok");
    assert_eq!(direct, Ok(b"ok".to_vec()));
}

#[test]
fn scalar_buffer_length_must_match() {
    assert_eq!(
        decode(&TypeDesc::Scalar(ScalarType::U32), &[1, 2, 3]),
        Err(Fault::DecodeSizeMismatch)
    );
    assert_eq!(
        decode(&TypeDesc::Scalar(ScalarType::U32), &[1, 2, 3, 4, 5]),
        Err(Fault::DecodeSizeMismatch)
    );
}

// Decoding a set buffer canonicalizes: entries arrive ordered by the natural
// order, and duplicates collapse to one element.
#[test]
fn set_decode_canonicalizes_and_deduplicates() {
    let t = TypeDesc::SetOf(Box::new(TypeDesc::Text));
    // "b", "a", "b" in buffer order
    let buf = encode(&Value::SetOf(vec![text("b"), text("a"), text("b")]));
    let decoded = decode(&t, &buf).unwrap();
    assert_eq!(decoded, Value::SetOf(vec![text("a"), text("b")]));

    // two buffers holding the same texts in different entry orders decode
    // to the same value
    let b1 = encode(&Value::SetOf(vec![text("a"), text("b")]));
    let b2 = encode(&Value::SetOf(vec![text("b"), text("a")]));
    assert_eq!(decode(&t, &b1), decode(&t, &b2));
}

// Decoding a map buffer canonicalizes keys; a repeated key keeps the value of
// its last occurrence, as an insert-overwrite would.
#[test]
fn map_decode_unique_keys_last_occurrence_wins() {
    let t = TypeDesc::MapOf(Box::new(TypeDesc::Text), Box::new(TypeDesc::Scalar(ScalarType::U32)));
    let buf = encode(&Value::MapOf(vec![
        (text("k2"), Value::Scalar(Scalar::U32(9))),
        (text("k1"), Value::Scalar(Scalar::U32(1))),
        (text("k2"), Value::Scalar(Scalar::U32(7))),
    ]));
    let decoded = decode(&t, &buf).unwrap();
    assert_eq!(
        decoded,
        Value::MapOf(vec![
            (text("k1"), Value::Scalar(Scalar::U32(1))),
            (text("k2"), Value::Scalar(Scalar::U32(7))),
        ])
    );
}

// The exported top-of-set wrapper end to end: place both encoded arguments,
// call, and read the encoded text sequence back. Both input buffers are
// released; the caller owns the output buffer.
#[test]
fn top3_wrapper_end_to_end() {
    let mut m = Memory::new();
    let set_v = Value::Optional(Some(Box::new(Value::SetOf(vec![
        text("alpha"),
        text("beta"),
        text("gamma"),
    ]))));
    let n_v = Value::Optional(Some(Box::new(Value::Scalar(Scalar::U16(2)))));
    let h1 = produce_value(&mut m, &set_v).unwrap();
    let h2 = produce_value(&mut m, &n_v).unwrap();
    let a1 = addr_of(h1);
    let a2 = addr_of(h2);
    let r = cql_wire::udf::top3(&mut m, h1, h2).unwrap();
    assert!(!m.is_live(a1));
    assert!(!m.is_live(a2));
    let out = m.read(addr_of(r));
    assert_eq!(out.len(), len_of(r) as usize);
    let t_out = TypeDesc::Sequence(Box::new(TypeDesc::Text));
    assert_eq!(decode(&t_out, &out), Ok(seq_of_texts(&["alpha", "beta"])));
}

// An absent set argument yields the marker text through the wrapper.
#[test]
fn top3_wrapper_absent_set() {
    let mut m = Memory::new();
    let h1 = absent_handle();
    let h2 = produce_value(&mut m, &Value::Optional(Some(Box::new(Value::Scalar(
        Scalar::U16(3),
    )))))
    .unwrap();
    let r = cql_wire::udf::top3(&mut m, h1, h2).unwrap();
    let out = m.read(addr_of(r));
    let t_out = TypeDesc::Sequence(Box::new(TypeDesc::Text));
    assert_eq!(decode(&t_out, &out), Ok(seq_of_texts(&["null"])));
}

// The accumulator's final step through the wrapper: the kept texts come back
// as an encoded sequence, and the input buffer is released even though the
// wrapper fails on a malformed accumulator.
#[test]
fn topn_final_wrapper_end_to_end() {
    let mut m = Memory::new();
    let entry = |rank: u32, s: &str, q: u32| {
        Value::Tuple3(
            Box::new(Value::Scalar(Scalar::U32(rank))),
            Box::new(text(s)),
            Box::new(Value::Scalar(Scalar::U32(q))),
        )
    };
    let acc_v = Value::Tuple3(
        Box::new(Value::Scalar(Scalar::U32(3))),
        Box::new(Value::SetOf(vec![entry(1, "e", 3), entry(2, "dd", 1), entry(3, "bbb", 4)])),
        Box::new(Value::Scalar(Scalar::U32(5))),
    );
    let h = produce_value(&mut m, &acc_v).unwrap();
    let a = addr_of(h);
    let r = cql_wire::udf::topn_final(&mut m, h).unwrap();
    assert!(!m.is_live(a));
    let out = m.read(addr_of(r));
    let t_out = TypeDesc::Sequence(Box::new(TypeDesc::Text));
    assert_eq!(decode(&t_out, &out), Ok(seq_of_texts(&["e", "dd", "bbb"])));

    // a buffer of the wrong shape fails and is still released
    let bad = produce_value(&mut m, &text("junk")).unwrap();
    let ba = addr_of(bad);
    let r2 = cql_wire::udf::topn_final(&mut m, bad);
    assert!(r2.is_err());
    assert!(!m.is_live(ba));
}
