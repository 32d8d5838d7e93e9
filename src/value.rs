//! Value payloads: integers in LEB128 / SLEB128, options with a presence
//! byte, variants with their arm index, records with their members ordered
//! by name hash.

use vstd::prelude::*;
use crate::error::Error;
use crate::hash::{adjacent_dup, has_adjacent_dup, idl_hash, name_hash, sort_by_key, sort_keyed};
use crate::leb::{sleb, uleb, write_sleb, write_uleb};
use crate::table::append_bytes;

verus! {

/// The payloads of the members listed in `order`, in that order.
pub open spec fn ordered_payloads(fields: Seq<(Seq<char>, Seq<u8>)>, order: Seq<(u32, usize)>) -> Seq<u8>
    decreases order.len(),
{
    if order.len() == 0 {
        Seq::empty()
    } else {
        let j = order.last().1 as int;
        let last = if j < fields.len() { fields[j].1 } else { Seq::empty() };
        ordered_payloads(fields, order.drop_last()) + last
    }
}

/// Each member's name hash paired with its position.
pub open spec fn payload_keys(fields: Seq<(Seq<char>, Seq<u8>)>) -> Seq<(u32, usize)> {
    Seq::new(fields.len(), |k: int| (name_hash(fields[k].0), k as usize))
}

/// The payload of a record whose members have the given names and payloads:
/// the payloads by ascending name hash, or a collision if two names hash alike.
pub open spec fn record_payload(fields: Seq<(Seq<char>, Seq<u8>)>) -> Result<Seq<u8>, Error> {
    let order = sort_by_key(payload_keys(fields));
    if has_adjacent_dup(order) {
        Err(Error::HashCollision)
    } else {
        Ok(ordered_payloads(fields, order))
    }
}

/// Writes value payloads into a growing buffer.
#[derive(Debug)]
pub struct ValueSerializer {
    value: Vec<u8>,
}

impl ValueSerializer {
    /// The bytes written so far.
    pub closed spec fn bytes(&self) -> Seq<u8> {
        self.value@
    }

    /// A serializer with an empty buffer.
    pub fn new() -> (r: Self)
        ensures
            r.bytes() == Seq::<u8>::empty(),
    {
        ValueSerializer { value: Vec::new() }
    }

    /// The bytes written so far.
    pub fn into_bytes(self) -> (r: Vec<u8>)
        ensures
            r@ == self.bytes(),
    {
        self.value
    }

    fn write_sleb128(&mut self, value: i64)
        ensures
            final(self).bytes() == old(self).bytes() + sleb(value as int),
    {
        write_sleb(&mut self.value, value);
    }

    fn write_leb128(&mut self, value: u64)
        ensures
            final(self).bytes() == old(self).bytes() + uleb(value as nat),
    {
        write_uleb(&mut self.value, value);
    }

    /// A boolean: SLEB128 of 1 or 0.
    pub fn serialize_bool(&mut self, value: bool)
        ensures
            final(self).bytes() == old(self).bytes() + sleb(if value { 1 } else { 0 }),
    {
        let value: i64 = if value { 1 } else { 0 };
        self.write_sleb128(value);
    }

    /// A signed integer: SLEB128 of its value.
    pub fn serialize_i8(&mut self, value: i8)
        ensures
            final(self).bytes() == old(self).bytes() + sleb(value as int),
    {
        self.serialize_i64(value as i64);
    }

    /// A signed integer: SLEB128 of its value.
    pub fn serialize_i16(&mut self, value: i16)
        ensures
            final(self).bytes() == old(self).bytes() + sleb(value as int),
    {
        self.serialize_i64(value as i64);
    }

    /// A signed integer: SLEB128 of its value.
    pub fn serialize_i32(&mut self, value: i32)
        ensures
            final(self).bytes() == old(self).bytes() + sleb(value as int),
    {
        self.serialize_i64(value as i64);
    }

    /// A signed integer: SLEB128 of its value.
    pub fn serialize_i64(&mut self, value: i64)
        ensures
            final(self).bytes() == old(self).bytes() + sleb(value as int),
    {
        self.write_sleb128(value);
    }

    /// An unsigned integer: LEB128 of its value.
    pub fn serialize_u8(&mut self, value: u8)
        ensures
            final(self).bytes() == old(self).bytes() + uleb(value as nat),
    {
        self.serialize_u64(value as u64);
    }

    /// An unsigned integer: LEB128 of its value.
    pub fn serialize_u16(&mut self, value: u16)
        ensures
            final(self).bytes() == old(self).bytes() + uleb(value as nat),
    {
        self.serialize_u64(value as u64);
    }

    /// An unsigned integer: LEB128 of its value.
    pub fn serialize_u32(&mut self, value: u32)
        ensures
            final(self).bytes() == old(self).bytes() + uleb(value as nat),
    {
        self.serialize_u64(value as u64);
    }

    /// An unsigned integer: LEB128 of its value.
    pub fn serialize_u64(&mut self, value: u64)
        ensures
            final(self).bytes() == old(self).bytes() + uleb(value as nat),
    {
        self.write_leb128(value);
    }

    /// The null value, and unit: no bytes.
    pub fn serialize_null(&mut self)
        ensures
            final(self).bytes() == old(self).bytes(),
    {
    }

    /// An absent option: the byte 0.
    pub fn serialize_none(&mut self)
        ensures
            final(self).bytes() == old(self).bytes() + seq![0u8],
    {
        self.write_leb128(0);
    }

    /// A present option: the byte 1; its payload follows.
    pub fn serialize_some(&mut self)
        ensures
            final(self).bytes() == old(self).bytes() + seq![1u8],
    {
        self.write_leb128(1);
    }

    /// A sequence: LEB128 of its length; the element payloads follow.
    pub fn serialize_vec(&mut self, len: usize)
        ensures
            final(self).bytes() == old(self).bytes() + uleb(len as nat),
    {
        self.write_leb128(len as u64);
    }

    /// A variant: LEB128 of the rank of the chosen arm among the arms ordered
    /// by name hash; the arm's payload follows.
    pub fn serialize_variant(&mut self, index: u64)
        ensures
            final(self).bytes() == old(self).bytes() + uleb(index as nat),
    {
        self.write_leb128(index);
    }

    /// Starts a record: its members are collected apart and written by
    /// `Compound::end`.
    pub fn serialize_struct(&self) -> (r: Compound)
        ensures
            r.fields() == Seq::<(Seq<char>, Seq<u8>)>::empty(),
    {
        Compound::new()
    }

    /// Appends bytes already encoded.
    pub fn append_raw(&mut self, b: &Vec<u8>)
        ensures
            final(self).bytes() == old(self).bytes() + b@,
    {
        append_bytes(&mut self.value, b);
    }
}

/// The members of a record being written: each name with its own payload.
pub struct Compound {
    fields: Vec<(String, Vec<u8>)>,
}

impl Compound {
    /// Each member's name and payload, in the order they were given.
    pub closed spec fn fields(&self) -> Seq<(Seq<char>, Seq<u8>)> {
        self.fields@.map_values(|f: (String, Vec<u8>)| (f.0@, f.1@))
    }

    /// A record with no members yet.
    pub fn new() -> (r: Self)
        ensures
            r.fields() == Seq::<(Seq<char>, Seq<u8>)>::empty(),
    {
        let r = Compound { fields: Vec::new() };
        assert(r.fields() =~= Seq::empty());
        r
    }

    /// Adds a member whose payload was written by `ser`.
    pub fn serialize_field(&mut self, key: &str, ser: ValueSerializer)
        ensures
            final(self).fields() == old(self).fields().push((key@, ser.bytes())),
    {
        let ghost before = self.fields();
        self.fields.push((key.to_string(), ser.into_bytes()));
        assert(self.fields() =~= before.push((key@, ser.bytes())));
    }

    /// Writes the member payloads into `ser` by ascending name hash.
    pub fn end(self, ser: &mut ValueSerializer) -> (r: Result<(), Error>)
        ensures
            match record_payload(self.fields()) {
                Ok(b) => r is Ok && final(ser).bytes() == old(ser).bytes() + b,
                Err(e) => r == Err::<(), Error>(e) && final(ser).bytes() == old(ser).bytes(),
            },
    {
        let ghost fs = self.fields();
        let mut keys: Vec<(u32, usize)> = Vec::new();
        let mut k: usize = 0;
        while k < self.fields.len()
            invariant
                fs == self.fields(),
                k <= fs.len(),
                keys@ == payload_keys(fs).take(k as int),
            decreases self.fields.len() - k,
        {
            let h = idl_hash(self.fields[k].0.as_str());
            keys.push((h, k));
            assert(keys@ =~= payload_keys(fs).take(k + 1));
            k = k + 1;
        }
        assert(keys@ =~= payload_keys(fs));
        let order = sort_keyed(&keys);
        if adjacent_dup(&order) {
            return Err(Error::HashCollision);
        }
        let mut out: Vec<u8> = Vec::new();
        let mut k: usize = 0;
        while k < order.len()
            invariant
                fs == self.fields(),
                k <= order@.len(),
                out@ == ordered_payloads(fs, order@.take(k as int)),
            decreases order.len() - k,
        {
            let j = order[k].1;
            if j < self.fields.len() {
                append_bytes(&mut out, &self.fields[j].1);
            }
            assert(order@.take(k + 1).drop_last() =~= order@.take(k as int));
            k = k + 1;
        }
        assert(order@.take(k as int) =~= order@);
        ser.append_raw(&out);
        Ok(())
    }
}

} // verus!
