//! The type classifier and the shim-plan generator: given a declared
//! signature and an ABI version, decide deterministically how every parameter
//! and the return value cross the boundary, and emit the matching plan with
//! its version marker. Host and guest never renegotiate at call time, so the
//! whole decision is a pure function of its inputs.

use vstd::prelude::*;

use crate::value::{ScalarType, TypeDesc};

verus! {

/// The calling-convention scheme a wrapper is generated against. The first
/// scheme routes every non-native type through a wire buffer; the second adds
/// narrow-scalar casts.
#[derive(Clone, Copy, Debug, PartialEq, Eq, Structural)]
pub enum AbiVersion {
    V1,
    V2,
}

/// Whether a narrow scalar widens with or without sign extension.
#[derive(Clone, Copy, Debug, PartialEq, Eq, Structural)]
pub enum Signedness {
    Signed,
    Unsigned,
}

/// How one value crosses the boundary: unchanged in a native register,
/// widened into a 32-bit register and truncated back, or encoded into a wire
/// buffer named by a sized pointer.
#[derive(Clone, Copy, Debug, PartialEq, Eq, Structural)]
pub enum Strategy {
    NativePass,
    NarrowCast(Signedness),
    WireBuffer,
}

/// The machine type visible in the wrapper's signature for one position.
#[derive(Clone, Copy, Debug, PartialEq, Eq, Structural)]
pub enum RegType {
    RegI32,
    RegI64,
    RegU32,
    RegU64,
    RegF32,
    RegF64,
}

/// A scalar type that already fits a native 32- or 64-bit register.
pub open spec fn is_native_scalar(t: ScalarType) -> bool {
    match t {
        ScalarType::I32 => true,
        ScalarType::I64 => true,
        ScalarType::U32 => true,
        ScalarType::U64 => true,
        ScalarType::F32 => true,
        ScalarType::F64 => true,
        _ => false,
    }
}

/// A narrow scalar that needs an explicit widen/truncate conversion.
pub open spec fn is_narrow_scalar(t: ScalarType) -> bool {
    match t {
        ScalarType::I8 => true,
        ScalarType::I16 => true,
        ScalarType::U8 => true,
        ScalarType::U16 => true,
        ScalarType::Bool => true,
        ScalarType::Char => true,
        _ => false,
    }
}

/// The crossing strategy for a declared type under an ABI version: native
/// scalars pass through; narrow scalars cross as widened registers under the
/// second scheme and as wire buffers under the first; everything else is a
/// wire buffer.
pub open spec fn spec_classify(t: TypeDesc, abi: AbiVersion) -> Strategy {
    match t {
        TypeDesc::Scalar(st) => if is_native_scalar(st) {
            Strategy::NativePass
        } else if abi == AbiVersion::V2 {
            match st {
                ScalarType::I8 => Strategy::NarrowCast(Signedness::Signed),
                ScalarType::I16 => Strategy::NarrowCast(Signedness::Signed),
                _ => Strategy::NarrowCast(Signedness::Unsigned),
            }
        } else {
            Strategy::WireBuffer
        },
        _ => Strategy::WireBuffer,
    }
}

/// The register type a strategy makes visible for a position of the given
/// declared type.
pub open spec fn spec_reg_type(t: TypeDesc, abi: AbiVersion) -> RegType {
    match spec_classify(t, abi) {
        Strategy::NativePass => match t {
            TypeDesc::Scalar(ScalarType::I32) => RegType::RegI32,
            TypeDesc::Scalar(ScalarType::I64) => RegType::RegI64,
            TypeDesc::Scalar(ScalarType::U32) => RegType::RegU32,
            TypeDesc::Scalar(ScalarType::U64) => RegType::RegU64,
            TypeDesc::Scalar(ScalarType::F32) => RegType::RegF32,
            TypeDesc::Scalar(ScalarType::F64) => RegType::RegF64,
            _ => RegType::RegU64,
        },
        Strategy::NarrowCast(s) => if s == Signedness::Signed {
            RegType::RegI32
        } else {
            RegType::RegU32
        },
        Strategy::WireBuffer => RegType::RegU64,
    }
}

/// Classifies one declared type under an ABI version. The result equals the
/// classification function of (type, version) alone: two calls on equal
/// inputs always yield the identical strategy.
pub fn classify(t: &TypeDesc, abi: AbiVersion) -> (r: Strategy)
    ensures
        r == spec_classify(*t, abi),
{
    match t {
        TypeDesc::Scalar(st) => match st {
            ScalarType::I32 | ScalarType::I64 | ScalarType::U32 | ScalarType::U64
                | ScalarType::F32 | ScalarType::F64 => Strategy::NativePass,
            ScalarType::I8 | ScalarType::I16 => {
                if abi == AbiVersion::V2 {
                    Strategy::NarrowCast(Signedness::Signed)
                } else {
                    Strategy::WireBuffer
                }
            },
            ScalarType::U8 | ScalarType::U16 | ScalarType::Bool | ScalarType::Char => {
                if abi == AbiVersion::V2 {
                    Strategy::NarrowCast(Signedness::Unsigned)
                } else {
                    Strategy::WireBuffer
                }
            },
        },
        _ => Strategy::WireBuffer,
    }
}

/// The classifier is a pure function: equal type and version give the
/// identical strategy, whoever computes it and however often.
pub proof fn lemma_classify_pure(t1: TypeDesc, t2: TypeDesc, a1: AbiVersion, a2: AbiVersion)
    requires
        t1 == t2,
        a1 == a2,
    ensures
        spec_classify(t1, a1) == spec_classify(t2, a2),
{
}

/// The register type for one position.
pub fn reg_type_for(t: &TypeDesc, abi: AbiVersion) -> (r: RegType)
    ensures
        r == spec_reg_type(*t, abi),
{
    match classify(t, abi) {
        Strategy::NativePass => match t {
            TypeDesc::Scalar(st) => match st {
                ScalarType::I32 => RegType::RegI32,
                ScalarType::I64 => RegType::RegI64,
                ScalarType::U32 => RegType::RegU32,
                ScalarType::U64 => RegType::RegU64,
                ScalarType::F32 => RegType::RegF32,
                ScalarType::F64 => RegType::RegF64,
                _ => RegType::RegU64,
            },
            _ => RegType::RegU64,
        },
        Strategy::NarrowCast(s) => if s == Signedness::Signed {
            RegType::RegI32
        } else {
            RegType::RegU32
        },
        Strategy::WireBuffer => RegType::RegU64,
    }
}

/// A declared function signature: the parameter types in order and the return
/// type.
pub struct Signature {
    pub params: Vec<TypeDesc>,
    pub ret: TypeDesc,
}

/// The generated plan for one exported wrapper: the version marker the module
/// must expose, and per position the strategy and the visible register type.
pub struct ShimPlan {
    pub abi: AbiVersion,
    pub params: Vec<(Strategy, RegType)>,
    pub ret: (Strategy, RegType),
}

/// Generates the wrapper plan for a signature under an ABI version. The plan
/// is a pure function of (signature, version); its marker always names the
/// scheme that classified it, so host and guest agree without negotiation.
pub fn generate_shim(sig: &Signature, abi: AbiVersion) -> (r: ShimPlan)
    ensures
        r.abi == abi,
        r.params@.len() == sig.params@.len(),
        forall|i: int|
            0 <= i < sig.params@.len() ==> #[trigger] r.params@[i] == (
                spec_classify(sig.params@[i], abi),
                spec_reg_type(sig.params@[i], abi),
            ),
        r.ret == (spec_classify(sig.ret, abi), spec_reg_type(sig.ret, abi)),
{
    let mut params: Vec<(Strategy, RegType)> = Vec::new();
    let mut i: usize = 0;
    while i < sig.params.len()
        invariant
            i <= sig.params@.len(),
            params@.len() == i,
            forall|j: int|
                0 <= j < i ==> #[trigger] params@[j] == (
                    spec_classify(sig.params@[j], abi),
                    spec_reg_type(sig.params@[j], abi),
                ),
        decreases sig.params@.len() - i,
    {
        let s = classify(&sig.params[i], abi);
        let g = reg_type_for(&sig.params[i], abi);
        params.push((s, g));
        i = i + 1;
    }
    let rs = classify(&sig.ret, abi);
    let rg = reg_type_for(&sig.ret, abi);
    ShimPlan { abi, params, ret: (rs, rg) }
}

/// Widens a signed byte into its 32-bit register form, sign-extended.
pub fn widen_i8(x: i8) -> (r: i32)
    ensures
        r == x as i32,
        -128 <= r <= 127,
{
    x as i32
}

/// Truncates a register back to a signed byte, silently discarding the high
/// bits.
pub fn narrow_i8(r: i32) -> (x: i8)
    ensures
        x == r as i8,
{
    #[verifier::truncate] (r as i8)
}

/// Widens a signed halfword, sign-extended.
pub fn widen_i16(x: i16) -> (r: i32)
    ensures
        r == x as i32,
{
    x as i32
}

/// Truncates a register back to a signed halfword.
pub fn narrow_i16(r: i32) -> (x: i16)
    ensures
        x == r as i16,
{
    #[verifier::truncate] (r as i16)
}

/// Widens an unsigned byte, zero-extended.
pub fn widen_u8(x: u8) -> (r: u32)
    ensures
        r == x as u32,
{
    x as u32
}

/// Truncates a register back to an unsigned byte.
pub fn narrow_u8(r: u32) -> (x: u8)
    ensures
        x == r as u8,
{
    #[verifier::truncate] (r as u8)
}

/// Widens an unsigned halfword, zero-extended.
pub fn widen_u16(x: u16) -> (r: u32)
    ensures
        r == x as u32,
{
    x as u32
}

/// Truncates a register back to an unsigned halfword.
pub fn narrow_u16(r: u32) -> (x: u16)
    ensures
        x == r as u16,
{
    #[verifier::truncate] (r as u16)
}

/// A narrow value crosses intact: widening into the register and truncating
/// on the way back returns exactly the original, for signed and unsigned
/// bytes and halfwords alike.
pub proof fn lemma_narrow_roundtrip(a: i8, b: i16, c: u8, d: u16)
    ensures
        (a as i32) as i8 == a,
        (b as i32) as i16 == b,
        (c as u32) as u8 == c,
        (d as u32) as u16 == d,
{
    assert((a as i32) as i8 == a) by (bit_vector);
    assert((b as i32) as i16 == b) by (bit_vector);
    assert((c as u32) as u8 == c) by (bit_vector);
    assert((d as u32) as u16 == d) by (bit_vector);
}

} // verus!
