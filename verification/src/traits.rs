//! The two directions of the boundary for a native type: what it decodes
//! from and what it encodes to, each method tied to the wire codec's
//! specification through the type's value model.

use vstd::prelude::*;

use crate::bridge::{Memory, is_absent, spec_addr_of, spec_len_of, valid_handle};
use crate::codec::{Fault, decode, encode, size, spec_decode};
use crate::value::{TypeDesc, Val, Value, vmodel};
use crate::wire::{wf, wire_bytes, wire_size};

verus! {

/// A native type that can be read off the wire.
pub trait FromCQL: Sized {
    /// The declared wire type this native type decodes from.
    spec fn cql_type() -> TypeDesc;

    /// The wire value this native value stands for.
    spec fn cql_model(&self) -> Val;

    /// Decodes one value from a buffer that must be consumed exactly.
    fn deserialize_cql(b: &[u8]) -> (r: Result<Self, Fault>)
        ensures
            match r {
                Ok(x) => spec_decode(Self::cql_type(), b@) == Ok::<Val, Fault>(x.cql_model()),
                Err(e) => spec_decode(Self::cql_type(), b@) == Err::<Val, Fault>(e),
            },
    ;

    /// Consume-and-release: decodes one wire-buffer input named by its sized
    /// pointer and releases the buffer exactly once, whatever the outcome.
    fn from_cql(m: &mut Memory, h: u64) -> (r: Result<Self, Fault>)
        requires
            valid_handle(*old(m), h),
            !is_absent(h),
        ensures
            final(m).slots@ == old(m).slots@.update(spec_addr_of(h) as int - 1, None),
            !final(m).live(spec_addr_of(h)),
            match r {
                Ok(x) => spec_decode(Self::cql_type(), old(m).content(spec_addr_of(h))) == Ok::<
                    Val,
                    Fault,
                >(x.cql_model()),
                Err(e) => spec_decode(Self::cql_type(), old(m).content(spec_addr_of(h))) == Err::<
                    Val,
                    Fault,
                >(e),
            },
    ;
}

/// A native type that can be written onto the wire.
pub trait IntoCQL {
    /// The wire value this native value stands for.
    spec fn cql_model(&self) -> Val;

    /// The number of bytes the value's encoding takes.
    fn size_cql(&self) -> (n: u32)
        requires
            wf(self.cql_model()),
        ensures
            n as int == wire_size(self.cql_model()),
    ;

    /// Appends the value's wire bytes.
    fn serialize_cql(&self, dest: &mut Vec<u8>)
        requires
            wf(self.cql_model()),
        ensures
            final(dest)@ == old(dest)@ + wire_bytes(self.cql_model()),
    ;

    /// Produce-and-hand-off: encodes the value into a fresh buffer and
    /// returns its sized pointer; the caller owns the buffer thereafter.
    fn into_cql(&self, m: &mut Memory) -> (r: Result<u64, Fault>)
        requires
            wf(self.cql_model()),
            self.cql_model() != Val::Optional(Option::None),
        ensures
            match r {
                Ok(h) => {
                    &&& !is_absent(h)
                    &&& spec_len_of(h) as int == wire_size(self.cql_model())
                    &&& !old(m).live(spec_addr_of(h))
                    &&& final(m).live(spec_addr_of(h))
                    &&& final(m).content(spec_addr_of(h)) == wire_bytes(self.cql_model())
                    &&& forall|a: u32|
                        old(m).live(a) ==> final(m).live(a) && final(m).content(a) == old(
                            m,
                        ).content(a)
                },
                Err(e) => e == Fault::AllocationFailure && *final(m) == *old(m) && old(
                    m,
                ).slots@.len() >= 0xFFFF_FFFE,
            },
    ;
}

impl FromCQL for Vec<u8> {
    /// Text: raw UTF-8 bytes, the length given by the enclosing sized pointer.
    open spec fn cql_type() -> TypeDesc {
        TypeDesc::Text
    }

    open spec fn cql_model(&self) -> Val {
        Val::Text(self@)
    }

    fn deserialize_cql(b: &[u8]) -> (r: Result<Self, Fault>) {
        match decode(&TypeDesc::Text, b) {
            Ok(v) => match v {
                Value::Text(t) => Ok(t),
                _ => {
                    proof {
                        assert(false);
                    }
                    Err(Fault::DecodeSizeMismatch)
                },
            },
            Err(e) => Err(e),
        }
    }

    fn from_cql(m: &mut Memory, h: u64) -> (r: Result<Self, Fault>) {
        match crate::bridge::consume_value(m, &TypeDesc::Text, h) {
            Ok(v) => match v {
                Value::Text(t) => Ok(t),
                _ => {
                    proof {
                        assert(false);
                    }
                    Err(Fault::DecodeSizeMismatch)
                },
            },
            Err(e) => Err(e),
        }
    }
}

impl IntoCQL for Vec<u8> {
    open spec fn cql_model(&self) -> Val {
        Val::Text(self@)
    }

    fn size_cql(&self) -> (n: u32) {
        let v = Value::Text(crate::udf::copy_bytes(self));
        size(&v)
    }

    fn serialize_cql(&self, dest: &mut Vec<u8>) {
        crate::udf::append_bytes(dest, self);
    }

    fn into_cql(&self, m: &mut Memory) -> (r: Result<u64, Fault>) {
        let v = Value::Text(crate::udf::copy_bytes(self));
        crate::bridge::produce_value(m, &v)
    }
}

} // verus!
