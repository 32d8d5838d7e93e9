//! Schema providers: how a host type describes its IDL type and writes the
//! payload of its values.

use vstd::prelude::*;
use crate::error::Error;
use crate::leb::{sleb, uleb};
use crate::types::{lemma_fields_model, Field, Type, TypeModel};
use crate::value::ValueSerializer;

verus! {

/// A host type that takes part in serialization.
pub trait IdlType: Sized {
    /// The view of the IDL type of this host type. A host type that does not
    /// state it is taken to have no schema of its own.
    open spec fn type_spec() -> TypeModel {
        TypeModel::Null
    }

    /// The payload of this value, or why it cannot be written. A host type
    /// that does not state it is taken to have no payload encoding.
    open spec fn payload(&self) -> Result<Seq<u8>, Error> {
        Err(Error::Unsupported)
    }

    /// The IDL type of this host type.
    fn ty() -> (r: Type)
        ensures
            r@ == Self::type_spec(),
    ;

    /// Appends the payload of this value.
    fn idl_serialize(&self, ser: &mut ValueSerializer) -> (r: Result<(), Error>)
        ensures
            match self.payload() {
                Ok(b) => r is Ok && final(ser).bytes() == old(ser).bytes() + b,
                Err(e) => r == Err::<(), Error>(e),
            },
    ;
}

impl IdlType for bool {
    open spec fn type_spec() -> TypeModel {
        TypeModel::Bool
    }

    open spec fn payload(&self) -> Result<Seq<u8>, Error> {
        Ok(sleb(if *self { 1 } else { 0 }))
    }

    fn ty() -> (r: Type) {
        Type::Bool
    }

    fn idl_serialize(&self, ser: &mut ValueSerializer) -> (r: Result<(), Error>) {
        ser.serialize_bool(*self);
        Ok(())
    }
}

impl IdlType for i64 {
    open spec fn type_spec() -> TypeModel {
        TypeModel::Int
    }

    open spec fn payload(&self) -> Result<Seq<u8>, Error> {
        Ok(sleb(*self as int))
    }

    fn ty() -> (r: Type) {
        Type::Int
    }

    fn idl_serialize(&self, ser: &mut ValueSerializer) -> (r: Result<(), Error>) {
        ser.serialize_i64(*self);
        Ok(())
    }
}

impl<T: IdlType> IdlType for Option<T> {
    open spec fn type_spec() -> TypeModel {
        TypeModel::Opt(Box::new(T::type_spec()))
    }

    open spec fn payload(&self) -> Result<Seq<u8>, Error> {
        match self {
            None => Ok(seq![0u8]),
            Some(x) => match x.payload() {
                Ok(b) => Ok(seq![1u8] + b),
                Err(e) => Err(e),
            },
        }
    }

    fn ty() -> (r: Type) {
        Type::Opt(Box::new(T::ty()))
    }

    fn idl_serialize(&self, ser: &mut ValueSerializer) -> (r: Result<(), Error>) {
        match self {
            None => {
                ser.serialize_none();
                Ok(())
            },
            Some(x) => {
                ser.serialize_some();
                x.idl_serialize(ser)
            },
        }
    }
}

impl IdlType for i8 {
    open spec fn type_spec() -> TypeModel {
        TypeModel::Int
    }

    open spec fn payload(&self) -> Result<Seq<u8>, Error> {
        Ok(sleb(*self as int))
    }

    fn ty() -> (r: Type) {
        Type::Int
    }

    fn idl_serialize(&self, ser: &mut ValueSerializer) -> (r: Result<(), Error>) {
        ser.serialize_i8(*self);
        Ok(())
    }
}

impl IdlType for i16 {
    open spec fn type_spec() -> TypeModel {
        TypeModel::Int
    }

    open spec fn payload(&self) -> Result<Seq<u8>, Error> {
        Ok(sleb(*self as int))
    }

    fn ty() -> (r: Type) {
        Type::Int
    }

    fn idl_serialize(&self, ser: &mut ValueSerializer) -> (r: Result<(), Error>) {
        ser.serialize_i16(*self);
        Ok(())
    }
}

impl IdlType for i32 {
    open spec fn type_spec() -> TypeModel {
        TypeModel::Int
    }

    open spec fn payload(&self) -> Result<Seq<u8>, Error> {
        Ok(sleb(*self as int))
    }

    fn ty() -> (r: Type) {
        Type::Int
    }

    fn idl_serialize(&self, ser: &mut ValueSerializer) -> (r: Result<(), Error>) {
        ser.serialize_i32(*self);
        Ok(())
    }
}

impl IdlType for isize {
    open spec fn type_spec() -> TypeModel {
        TypeModel::Int
    }

    open spec fn payload(&self) -> Result<Seq<u8>, Error> {
        Ok(sleb(*self as int))
    }

    fn ty() -> (r: Type) {
        Type::Int
    }

    fn idl_serialize(&self, ser: &mut ValueSerializer) -> (r: Result<(), Error>) {
        ser.serialize_i64(*self as i64);
        Ok(())
    }
}

impl IdlType for u8 {
    open spec fn type_spec() -> TypeModel {
        TypeModel::Nat
    }

    open spec fn payload(&self) -> Result<Seq<u8>, Error> {
        Ok(uleb(*self as nat))
    }

    fn ty() -> (r: Type) {
        Type::Nat
    }

    fn idl_serialize(&self, ser: &mut ValueSerializer) -> (r: Result<(), Error>) {
        ser.serialize_u8(*self);
        Ok(())
    }
}

impl IdlType for u16 {
    open spec fn type_spec() -> TypeModel {
        TypeModel::Nat
    }

    open spec fn payload(&self) -> Result<Seq<u8>, Error> {
        Ok(uleb(*self as nat))
    }

    fn ty() -> (r: Type) {
        Type::Nat
    }

    fn idl_serialize(&self, ser: &mut ValueSerializer) -> (r: Result<(), Error>) {
        ser.serialize_u16(*self);
        Ok(())
    }
}

impl IdlType for u32 {
    open spec fn type_spec() -> TypeModel {
        TypeModel::Nat
    }

    open spec fn payload(&self) -> Result<Seq<u8>, Error> {
        Ok(uleb(*self as nat))
    }

    fn ty() -> (r: Type) {
        Type::Nat
    }

    fn idl_serialize(&self, ser: &mut ValueSerializer) -> (r: Result<(), Error>) {
        ser.serialize_u32(*self);
        Ok(())
    }
}

impl IdlType for u64 {
    open spec fn type_spec() -> TypeModel {
        TypeModel::Nat
    }

    open spec fn payload(&self) -> Result<Seq<u8>, Error> {
        Ok(uleb(*self as nat))
    }

    fn ty() -> (r: Type) {
        Type::Nat
    }

    fn idl_serialize(&self, ser: &mut ValueSerializer) -> (r: Result<(), Error>) {
        ser.serialize_u64(*self);
        Ok(())
    }
}

impl IdlType for usize {
    open spec fn type_spec() -> TypeModel {
        TypeModel::Nat
    }

    open spec fn payload(&self) -> Result<Seq<u8>, Error> {
        Ok(uleb(*self as nat))
    }

    fn ty() -> (r: Type) {
        Type::Nat
    }

    fn idl_serialize(&self, ser: &mut ValueSerializer) -> (r: Result<(), Error>) {
        ser.serialize_u64(*self as u64);
        Ok(())
    }
}

impl IdlType for () {
    open spec fn type_spec() -> TypeModel {
        TypeModel::Null
    }

    open spec fn payload(&self) -> Result<Seq<u8>, Error> {
        Ok(Seq::empty())
    }

    fn ty() -> (r: Type) {
        Type::Null
    }

    fn idl_serialize(&self, ser: &mut ValueSerializer) -> (r: Result<(), Error>) {
        ser.serialize_null();
        assert(ser.bytes() =~= old(ser).bytes() + Seq::<u8>::empty());
        Ok(())
    }
}

/// Text has a type but no payload encoding yet.
impl IdlType for String {
    open spec fn type_spec() -> TypeModel {
        TypeModel::Text
    }

    open spec fn payload(&self) -> Result<Seq<u8>, Error> {
        Err(Error::Unsupported)
    }

    fn ty() -> (r: Type) {
        Type::Text
    }

    fn idl_serialize(&self, ser: &mut ValueSerializer) -> (r: Result<(), Error>) {
        Err(Error::Unsupported)
    }
}

impl<T: IdlType> IdlType for Box<T> {
    open spec fn type_spec() -> TypeModel {
        T::type_spec()
    }

    open spec fn payload(&self) -> Result<Seq<u8>, Error> {
        (**self).payload()
    }

    fn ty() -> (r: Type) {
        T::ty()
    }

    fn idl_serialize(&self, ser: &mut ValueSerializer) -> (r: Result<(), Error>) {
        (**self).idl_serialize(ser)
    }
}

/// The payloads of the elements of `s`, one after the other.
pub open spec fn seq_payload<T: IdlType>(s: Seq<T>) -> Result<Seq<u8>, Error>
    decreases s.len(),
{
    if s.len() == 0 {
        Ok(Seq::empty())
    } else {
        match seq_payload(s.drop_last()) {
            Err(e) => Err(e),
            Ok(b) => match s.last().payload() {
                Ok(c) => Ok(b + c),
                Err(e) => Err(e),
            },
        }
    }
}

impl<T: IdlType> IdlType for Vec<T> {
    open spec fn type_spec() -> TypeModel {
        TypeModel::Vec(Box::new(T::type_spec()))
    }

    open spec fn payload(&self) -> Result<Seq<u8>, Error> {
        match seq_payload(self@) {
            Ok(b) => Ok(uleb(self@.len()) + b),
            Err(e) => Err(e),
        }
    }

    fn ty() -> (r: Type) {
        Type::Vec(Box::new(T::ty()))
    }

    fn idl_serialize(&self, ser: &mut ValueSerializer) -> (r: Result<(), Error>) {
        ser.serialize_vec(self.len());
        let ghost head = ser.bytes();
        let mut i: usize = 0;
        assert(self@.take(0) =~= Seq::<T>::empty());
        assert(head =~= head + Seq::<u8>::empty());
        while i < self.len()
            invariant
                i <= self@.len(),
                head == old(ser).bytes() + uleb(self@.len()),
                seq_payload(self@.take(i as int)) is Ok,
                ser.bytes() == head + seq_payload(self@.take(i as int))->Ok_0,
            decreases self.len() - i,
        {
            let ghost before = ser.bytes();
            assert(self@.take(i + 1).drop_last() =~= self@.take(i as int));
            assert(self@.take(i + 1).last() == self@[i as int]);
            let r = self[i].idl_serialize(ser);
            if r.is_err() {
                proof {
                    lemma_seq_payload_err(self@, i as int + 1);
                }
                return r;
            }
            i = i + 1;
        }
        assert(self@.take(i as int) =~= self@);
        Ok(())
    }
}

/// Once a prefix fails, the whole sequence fails with the same error.
proof fn lemma_seq_payload_err<T: IdlType>(s: Seq<T>, n: int)
    requires
        0 <= n <= s.len(),
        seq_payload(s.take(n)) is Err,
    ensures
        seq_payload(s) == seq_payload(s.take(n)),
    decreases s.len() - n,
{
    if n < s.len() {
        assert(s.take(n + 1).drop_last() =~= s.take(n));
        lemma_seq_payload_err(s, n + 1);
    } else {
        assert(s.take(n) =~= s);
    }
}

/// `Result` is the variant with the arms `Ok` (rank 0) and `Err` (rank 1),
/// the order of their name hashes.
impl<T: IdlType, E: IdlType> IdlType for Result<T, E> {
    open spec fn type_spec() -> TypeModel {
        TypeModel::Variant(seq![("Ok"@, T::type_spec()), ("Err"@, E::type_spec())])
    }

    open spec fn payload(&self) -> Result<Seq<u8>, Error> {
        match self {
            Ok(x) => match x.payload() {
                Ok(b) => Ok(uleb(0) + b),
                Err(e) => Err(e),
            },
            Err(y) => match y.payload() {
                Ok(b) => Ok(uleb(1) + b),
                Err(e) => Err(e),
            },
        }
    }

    fn ty() -> (r: Type) {
        let fs = vec![
            Field { id: "Ok".to_string(), ty: T::ty() },
            Field { id: "Err".to_string(), ty: E::ty() },
        ];
        proof {
            lemma_fields_model(fs@);
            assert(crate::types::fields_model(fs@) =~= seq![("Ok"@, T::type_spec()), ("Err"@, E::type_spec())]);
        }
        Type::Variant(fs)
    }

    fn idl_serialize(&self, ser: &mut ValueSerializer) -> (r: Result<(), Error>) {
        match self {
            Ok(x) => {
                ser.serialize_variant(0);
                x.idl_serialize(ser)
            },
            Err(y) => {
                ser.serialize_variant(1);
                y.idl_serialize(ser)
            },
        }
    }
}

/// The IDL type of the host type of `_value`.
pub fn get_type<T: IdlType>(_value: &T) -> (r: Type)
    ensures
        r@ == T::type_spec(),
{
    T::ty()
}

} // verus!
