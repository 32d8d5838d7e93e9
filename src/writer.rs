//! The top-level writer: magic, type table, root reference, payload.

use vstd::prelude::*;
use crate::error::Error;
use crate::schema::IdlType;
use crate::table::{type_bytes, TypeSerialize};
use crate::table_laws::lemma_same_view_type_bytes;
use crate::types::{KnotRegistry, Type};
use crate::value::ValueSerializer;

verus! {

/// The four bytes that open every message: ASCII "DIDL".
pub open spec fn magic() -> Seq<u8> {
    seq![0x44u8, 0x49u8, 0x44u8, 0x4Cu8]
}

/// The message for a value with payload `payload` declared with type `t`.
pub open spec fn message(t: Type, reg: &KnotRegistry, payload: Result<Seq<u8>, Error>) -> Result<Seq<u8>, Error> {
    match type_bytes(t, reg) {
        Err(e) => Err(e),
        Ok(tb) => match payload {
            Err(e) => Err(e),
            Ok(vb) => Ok(magic() + tb + vb),
        },
    }
}

/// Serializes `value` declared with type `ty`, resolving knots through `reg`.
pub fn to_bytes<T: IdlType>(value: &T, ty: &Type, reg: &KnotRegistry) -> (r: Result<Vec<u8>, Error>)
    ensures
        match message(*ty, reg, value.payload()) {
            Ok(b) => r is Ok && r->Ok_0@ == b,
            Err(e) => r == Err::<Vec<u8>, Error>(e),
        },
{
    let mut out: Vec<u8> = Vec::new();
    out.push(0x44);
    out.push(0x49);
    out.push(0x44);
    out.push(0x4C);
    assert(out@ =~= magic());
    let mut type_ser = TypeSerialize::new();
    let r = type_ser.serialize(ty, reg);
    if let Err(e) = r {
        return Err(e);
    }
    let mut value_ser = ValueSerializer::new();
    let r = value.idl_serialize(&mut value_ser);
    if let Err(e) = r {
        return Err(e);
    }
    crate::table::append_bytes(&mut out, type_ser.result());
    let v = value_ser.into_bytes();
    crate::table::append_bytes(&mut out, &v);
    Ok(out)
}

/// Serializes `value` with the type its host type declares. The message
/// depends on that type only through its view.
pub fn to_vec<T: IdlType>(value: &T, reg: &KnotRegistry) -> (r: Result<Vec<u8>, Error>)
    ensures
        forall|t: Type|
            t@ == T::type_spec() ==> match #[trigger] message(t, reg, value.payload()) {
                Ok(b) => r is Ok && r->Ok_0@ == b,
                Err(e) => r == Err::<Vec<u8>, Error>(e),
            },
{
    let t0 = T::ty();
    let r = to_bytes(value, &t0, reg);
    assert forall|t: Type| t@ == T::type_spec() implies #[trigger] message(t, reg, value.payload()) == message(t0, reg, value.payload()) by {
        lemma_same_view_type_bytes(t, t0, reg);
    }
    r
}

} // verus!
