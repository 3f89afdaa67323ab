//! The sized-pointer convention: a (length, address) pair packed into one
//! 64-bit handle, the sole cross-boundary representation of any value that
//! does not fit a native register. The reserved length `0xFFFF_FFFF` (with
//! address 0) marks an absent optional value.

use vstd::prelude::*;

use crate::codec::{Fault, decode, encode, size, spec_decode};
use crate::value::{TypeDesc, Val, Value, vmodel};
use crate::wire::{wf, wire_bytes, wire_size};

verus! {

/// The length field reserved for the absent sentinel; no real buffer may
/// have this length.
pub const ABSENT_LEN: u32 = 0xFFFF_FFFF;

/// A handle packs the buffer length into the high 32 bits and the guest
/// address into the low 32 bits.
pub open spec fn spec_size_ptr(size: u32, ptr: u32) -> u64 {
    ((size as u64) << 32) | (ptr as u64)
}

/// The length half of a handle, as a mathematical function of its bits.
pub open spec fn spec_len_of(h: u64) -> u32 {
    (h >> 32) as u32
}

/// The address half of a handle.
pub open spec fn spec_addr_of(h: u64) -> u32 {
    h as u32
}

/// A handle is the absent sentinel exactly when its length half is the
/// reserved value.
pub open spec fn is_absent(h: u64) -> bool {
    spec_len_of(h) == ABSENT_LEN
}

/// Packs a buffer length and a guest-memory address into one 64-bit handle.
pub fn size_ptr(size: u32, ptr: u32) -> (h: u64)
    ensures
        h == spec_size_ptr(size, ptr),
        spec_len_of(h) == size,
        spec_addr_of(h) == ptr,
{
    proof {
        lemma_handle_roundtrip(size, ptr);
    }
    ((size as u64) << 32) | (ptr as u64)
}

/// The absent sentinel handle: length `0xFFFF_FFFF`, address 0.
pub fn absent_handle() -> (h: u64)
    ensures
        is_absent(h),
        spec_addr_of(h) == 0,
        h == spec_size_ptr(ABSENT_LEN, 0),
{
    size_ptr(ABSENT_LEN, 0)
}

/// Reads the length half out of a handle.
pub fn len_of(h: u64) -> (size: u32)
    ensures
        size == spec_len_of(h),
{
    (h >> 32) as u32
}

/// Reads the address half out of a handle.
pub fn addr_of(h: u64) -> (ptr: u32)
    ensures
        ptr == spec_addr_of(h),
{
    h as u32
}

/// Packing a (length, address) pair and unpacking the handle again are
/// mutually inverse.
pub proof fn lemma_handle_roundtrip(size: u32, ptr: u32)
    ensures
        spec_len_of(spec_size_ptr(size, ptr)) == size,
        spec_addr_of(spec_size_ptr(size, ptr)) == ptr,
{
    assert(((((size as u64) << 32) | (ptr as u64)) >> 32) as u32 == size) by (bit_vector);
    assert(((((size as u64) << 32) | (ptr as u64)) as u32) == ptr) by (bit_vector);
}


/// Guest memory as the boundary sees it: a table of allocations, each either
/// live or already released. An address is a nonzero handle naming one
/// allocation; how the opaque allocator places buffers inside linear memory
/// is no part of the contract, so the model tracks only each allocation's
/// bytes and liveness.
pub struct Memory {
    pub slots: Vec<Option<Vec<u8>>>,
}

impl Memory {
    /// An empty guest memory.
    pub fn new() -> (m: Memory)
        ensures
            m.slots@.len() == 0,
    {
        Memory { slots: Vec::new() }
    }

    /// The address is a live allocation.
    pub open spec fn live(&self, addr: u32) -> bool {
        1 <= addr && addr as int <= self.slots@.len() && self.slots@[addr as int - 1] is Some
    }

    /// The bytes of a live allocation.
    pub open spec fn content(&self, addr: u32) -> Seq<u8> {
        self.slots@[addr as int - 1]->Some_0@
    }

    /// Allocates `size` zeroed bytes and returns the new buffer's address.
    /// Exhaustion of the address space is the allocator trap, excluded here.
    pub fn allocate(&mut self, size: u32) -> (addr: u32)
        requires
            old(self).slots@.len() < 0xFFFF_FFFE,
        ensures
            addr as int == old(self).slots@.len() + 1,
            !old(self).live(addr),
            final(self).live(addr),
            final(self).content(addr) == Seq::new(size as nat, |i: int| 0u8),
            final(self).slots@.len() == old(self).slots@.len() + 1,
            forall|a: u32|
                a != addr ==> (#[trigger] final(self).live(a)) == old(self).live(a),
            forall|a: u32| old(self).live(a) ==> final(self).live(a) && final(self).content(a)
                == old(self).content(a),
    {
        let mut buf: Vec<u8> = Vec::new();
        let mut i: u32 = 0;
        while i < size
            invariant
                i <= size,
                buf@ =~= Seq::new(i as nat, |j: int| 0u8),
            decreases size - i,
        {
            buf.push(0);
            proof {
                assert(buf@ =~= Seq::new(i as nat + 1, |j: int| 0u8));
            }
            i = i + 1;
        }
        self.slots.push(Some(buf));
        let addr = #[verifier::truncate] ((self.slots.len()) as u32);
        addr
    }

    /// Overwrites a live buffer with bytes of the same length; the host fills
    /// an input buffer this way before handing over its sized pointer.
    pub fn write(&mut self, addr: u32, data: &Vec<u8>)
        requires
            old(self).live(addr),
            old(self).content(addr).len() == data@.len(),
        ensures
            final(self).live(addr),
            final(self).content(addr) == data@,
            final(self).slots@.len() == old(self).slots@.len(),
            forall|a: u32| a != addr ==> (#[trigger] final(self).live(a)) == old(self).live(a),
            forall|a: u32|
                old(self).live(a) && a != addr ==> final(self).live(a) && final(self).content(a)
                    == old(self).content(a),
    {
        let idx = (addr - 1) as usize;
        let copy = crate::udf::copy_bytes(data);
        self.slots.set(idx, Some(copy));
    }

    /// Releases a live allocation. Releasing twice, or releasing a foreign
    /// address, is excluded by the precondition, as the allocator makes it
    /// undefined.
    pub fn free(&mut self, addr: u32)
        requires
            old(self).live(addr),
        ensures
            !final(self).live(addr),
            final(self).slots@ == old(self).slots@.update(addr as int - 1, None),
            forall|a: u32|
                old(self).live(a) && a != addr ==> final(self).live(a) && final(self).content(a)
                    == old(self).content(a),
    {
        let idx = (addr - 1) as usize;
        self.slots.set(idx, None);
    }

    /// Copies the bytes of a live allocation out.
    pub fn read(&self, addr: u32) -> (r: Vec<u8>)
        requires
            self.live(addr),
        ensures
            r@ == self.content(addr),
    {
        let idx = (addr - 1) as usize;
        match &self.slots[idx] {
            Some(b) => crate::udf::copy_bytes(b),
            None => Vec::new(),
        }
    }

    /// Whether an address currently names a live allocation.
    pub fn is_live(&self, addr: u32) -> (r: bool)
        ensures
            r == self.live(addr),
    {
        if addr == 0 {
            return false;
        }
        let idx = (addr - 1) as usize;
        if idx >= self.slots.len() {
            return false;
        }
        match &self.slots[idx] {
            Some(_) => true,
            None => false,
        }
    }
}

/// A handle is valid against a memory when it is the absent sentinel or names
/// a live buffer whose length equals the handle's length half.
pub open spec fn valid_handle(m: Memory, h: u64) -> bool {
    if is_absent(h) {
        true
    } else {
        m.live(spec_addr_of(h)) && m.content(spec_addr_of(h)).len() == spec_len_of(h) as int
    }
}

/// Consume-and-release: takes one wire-buffer input by its sized pointer,
/// releases the buffer exactly once — whatever the decode outcome — and
/// returns what the buffer decoded to. The absent sentinel decodes to the
/// absent optional and touches no buffer.
pub fn consume_value(m: &mut Memory, t: &TypeDesc, h: u64) -> (r: Result<Value, Fault>)
    requires
        valid_handle(*old(m), h),
        !is_absent(h) || t matches TypeDesc::Optional(_),
    ensures
        is_absent(h) ==> *final(m) == *old(m) && (r matches Ok(v) && vmodel(v) == Val::Optional(
            Option::None,
        )),
        !is_absent(h) ==> final(m).slots@ == old(m).slots@.update(
            spec_addr_of(h) as int - 1,
            None,
        ) && !final(m).live(spec_addr_of(h)),
        !is_absent(h) ==> match r {
            Ok(v) => spec_decode(*t, old(m).content(spec_addr_of(h))) == Ok::<Val, Fault>(
                vmodel(v),
            ),
            Err(e) => spec_decode(*t, old(m).content(spec_addr_of(h))) == Err::<Val, Fault>(e),
        },
{
    let size = len_of(h);
    if size == ABSENT_LEN {
        return Ok(Value::Optional(None));
    }
    let addr = addr_of(h);
    let bytes = m.read(addr);
    m.free(addr);
    decode(t, bytes.as_slice())
}

/// Produce-and-hand-off: encodes one well-formed value into a fresh buffer
/// and returns its sized pointer; the caller owns the buffer thereafter. An
/// absent optional yields the reserved sentinel and allocates nothing. The
/// error is the allocator's trap, exactly when the address space is spent.
pub fn produce_value(m: &mut Memory, v: &Value) -> (r: Result<u64, Fault>)
    requires
        wf(vmodel(*v)),
    ensures
        vmodel(*v) == Val::Optional(Option::None) ==> *final(m) == *old(m) && r == Ok::<u64, Fault>(
            spec_size_ptr(ABSENT_LEN, 0),
        ),
        vmodel(*v) != Val::Optional(Option::None) ==> match r {
            Ok(h) => {
                &&& old(m).slots@.len() < 0xFFFF_FFFE
                &&& !is_absent(h)
                &&& spec_len_of(h) as int == wire_size(vmodel(*v))
                &&& spec_addr_of(h) as int == old(m).slots@.len() + 1
                &&& !old(m).live(spec_addr_of(h))
                &&& final(m).live(spec_addr_of(h))
                &&& final(m).content(spec_addr_of(h)) == wire_bytes(vmodel(*v))
                &&& forall|a: u32|
                    a != spec_addr_of(h) ==> (#[trigger] final(m).live(a)) == old(m).live(a)
                &&& forall|a: u32|
                    old(m).live(a) ==> final(m).live(a) && final(m).content(a) == old(m).content(
                        a,
                    )
            },
            Err(e) => e == Fault::AllocationFailure && *final(m) == *old(m) && old(m).slots@.len()
                >= 0xFFFF_FFFE,
        },
{
    if let Value::Optional(o) = v {
        if o.is_none() {
            return Ok(absent_handle());
        }
    }
    if m.slots.len() >= 0xFFFF_FFFE {
        return Err(Fault::AllocationFailure);
    }
    let n = size(v);
    proof {
        assert(wire_size(vmodel(*v)) < ABSENT_LEN as int);
    }
    let addr = m.allocate(n);
    let bytes = encode(v);
    m.write(addr, &bytes);
    Ok(size_ptr(n, addr))
}

} // verus!
