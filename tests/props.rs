use serde_idl::error::Error;
use serde_idl::hash::idl_hash;
use serde_idl::schema::{get_type, IdlType};
use serde_idl::table::TypeSerialize;
use serde_idl::types::{type_eq, unroll, Field, KnotRegistry, Type};
use serde_idl::value::ValueSerializer;
use serde_idl::writer::{to_bytes, to_vec};

fn unhex(s: &str) -> Vec<u8> {
    (0..s.len() / 2).map(|i| u8::from_str_radix(&s[2 * i..2 * i + 2], 16).unwrap()).collect()
}

fn encode<T: IdlType>(value: T) -> Vec<u8> {
    to_vec(&value, &KnotRegistry::new()).unwrap()
}

fn field(id: &str, ty: Type) -> Field {
    Field { id: id.to_string(), ty: ty }
}

fn table_bytes(t: &Type, reg: &KnotRegistry) -> Result<Vec<u8>, Error> {
    let mut ser = TypeSerialize::new();
    ser.serialize(t, reg)?;
    Ok(ser.result().clone())
}

#[test]
fn bool_messages() {
    assert_eq!(encode(true), unhex("4449444c007e01"));
    assert_eq!(encode(false), unhex("4449444c007e00"));
}

#[test]
fn int_messages() {
    assert_eq!(encode(42i64), unhex("4449444c007c2a"));
    assert_eq!(encode(1234567890i64), unhex("4449444c007cd285d8cc04"));
    assert_eq!(encode(-1234567890i64), unhex("4449444c007caefaa7b37b"));
    assert_eq!(encode(-1i8), unhex("4449444c007c7f"));
    assert_eq!(encode(i64::MIN), unhex("4449444c007c8080808080808080807f"));
}

#[test]
fn nat_messages() {
    assert_eq!(encode(0u8), unhex("4449444c007d00"));
    assert_eq!(encode(300u16), unhex("4449444c007dac02"));
    assert_eq!(encode(u64::MAX), unhex("4449444c007dffffffffffffffffff01"));
    assert_eq!(encode(7usize), unhex("4449444c007d07"));
}

#[test]
fn option_messages() {
    assert_eq!(encode(Some(42)), unhex("4449444c016e7c00012a"));
    let none: Option<i32> = None;
    assert_eq!(encode(none), unhex("4449444c016e7c0000"));
}

#[test]
fn nested_option_gets_outer_index_first() {
    // The outer type takes index 0 before its child is added.
    assert_eq!(encode(Some(Some(42))), unhex("4449444c026e016e7c0001012a"));
}

#[test]
fn every_message_starts_with_magic() {
    for m in [encode(true), encode(Some(3u32)), encode(vec![1i32, 2]), encode(())] {
        assert_eq!(&m[..4], &[0x44, 0x49, 0x44, 0x4c]);
    }
}

#[test]
fn encoding_is_deterministic() {
    assert_eq!(encode(vec![Some(1i32), None]), encode(vec![Some(1i32), None]));
}

#[test]
fn vec_and_unit_messages() {
    assert_eq!(encode(vec![1i32, 2]), unhex("4449444c016d7c00020102"));
    assert_eq!(encode(()), unhex("4449444c007f"));
}

#[test]
fn result_messages() {
    let ok: Result<bool, u8> = Ok(true);
    let err: Result<bool, u8> = Err(5);
    // Variant table row: -21, two arms, hash("Ok") = 17724, hash("Err") = 3456837.
    assert_eq!(encode(ok), unhex("4449444c016b02bc8a017ec5fed2017d000001"));
    assert_eq!(encode(err), unhex("4449444c016b02bc8a017ec5fed2017d000105"));
}

#[test]
fn text_has_no_payload_encoding() {
    assert!(matches!(to_vec(&"x".to_string(), &KnotRegistry::new()), Err(Error::Unsupported)));
    assert_eq!(get_type(&"x".to_string()), Type::Text);
}

#[test]
fn hash_values() {
    assert_eq!(idl_hash(""), 0);
    assert_eq!(idl_hash("foo"), 5097222);
    assert_eq!(idl_hash("bar"), 4895187);
    assert_eq!(idl_hash("Ok"), 17724);
    assert_eq!(idl_hash("Err"), 3456837);
}

#[test]
fn record_field_order_does_not_matter() {
    let reg = KnotRegistry::new();
    let t1 = Type::Record(vec![field("foo", Type::Int), field("bar", Type::Bool)]);
    let t2 = Type::Record(vec![field("bar", Type::Bool), field("foo", Type::Int)]);
    assert_eq!(table_bytes(&t1, &reg).unwrap(), table_bytes(&t2, &reg).unwrap());
    assert_eq!(table_bytes(&t1, &reg).unwrap(), unhex("016c02d3e3aa027e868eb7027c00"));
}

#[test]
fn record_payload_sorted_by_hash() {
    let mut ser = ValueSerializer::new();
    let mut c = ser.serialize_struct();
    let mut a = ValueSerializer::new();
    a.serialize_i64(42);
    c.serialize_field("foo", a);
    let mut b = ValueSerializer::new();
    b.serialize_bool(true);
    c.serialize_field("bar", b);
    c.end(&mut ser).unwrap();
    assert_eq!(ser.into_bytes(), vec![0x01, 0x2a]);
}

#[test]
fn record_hash_collision_is_an_error() {
    let reg = KnotRegistry::new();
    let t = Type::Record(vec![field("a", Type::Int), field("a", Type::Bool)]);
    assert!(matches!(table_bytes(&t, &reg), Err(Error::HashCollision)));
    let mut ser = ValueSerializer::new();
    let mut c = ser.serialize_struct();
    c.serialize_field("a", ValueSerializer::new());
    c.serialize_field("a", ValueSerializer::new());
    assert!(matches!(c.end(&mut ser), Err(Error::HashCollision)));
}

#[test]
fn table_has_one_row_per_distinct_constructed_type() {
    let reg = KnotRegistry::new();
    let t = Type::Record(vec![field("a", Type::Opt(Box::new(Type::Int))), field("b", Type::Vec(Box::new(Type::Bool)))]);
    let bytes = table_bytes(&t, &reg).unwrap();
    assert_eq!(bytes[0], 3);
    let shared = Type::Record(vec![field("a", Type::Opt(Box::new(Type::Int))), field("b", Type::Opt(Box::new(Type::Int)))]);
    assert_eq!(table_bytes(&shared, &reg).unwrap()[0], 2);
}

#[test]
fn recursive_list_type() {
    // List = record { head: int; tail: opt List }
    let mut reg = KnotRegistry::new();
    let list = Type::Record(vec![field("head", Type::Int), field("tail", Type::Opt(Box::new(Type::Knot(7))))]);
    reg.register_unfold(7, Type::Record(vec![field("head", Type::Int), field("tail", Type::Opt(Box::new(Type::Knot(7))))]));
    let bytes = table_bytes(&list, &reg).unwrap();
    // Row 0: the record, members by hash (head, then tail); row 1: opt of
    // row 0; root reference 0.
    assert_eq!(bytes, unhex("026c02a0d2aca8047c90eddae704016e0000"));
}

#[test]
fn equivalent_knot_placement_is_merged() {
    // opt Knot(7) and opt (its unfolding) end up with the same row.
    let mut reg = KnotRegistry::new();
    reg.register_unfold(7, Type::Opt(Box::new(Type::Int)));
    let a = Type::Opt(Box::new(Type::Knot(7)));
    let u = unroll(&a, &reg);
    assert!(type_eq(&u, &Type::Opt(Box::new(Type::Opt(Box::new(Type::Int))))));
    let direct = Type::Record(vec![
        field("a", Type::Opt(Box::new(Type::Opt(Box::new(Type::Int))))),
        field("b", Type::Opt(Box::new(Type::Knot(7)))),
    ]);
    let bytes = table_bytes(&direct, &reg).unwrap();
    assert_eq!(bytes[0], 3);
}

#[test]
fn unknown_knot_and_unknown_type() {
    let reg = KnotRegistry::new();
    let t = Type::Opt(Box::new(Type::Knot(9)));
    assert!(matches!(table_bytes(&t, &reg), Err(Error::UnknownKnot(9))));
    let mut reg = KnotRegistry::new();
    reg.register_unfold(9, Type::Vec(Box::new(Type::Int)));
    assert!(matches!(table_bytes(&t, &reg), Err(Error::UnknownType)));
}

#[test]
fn registry_keeps_first_entry() {
    let mut reg = KnotRegistry::new();
    assert!(reg.find_unfold(1).is_none());
    reg.register_unfold(1, Type::Int);
    reg.register_unfold(1, Type::Bool);
    assert_eq!(reg.find_unfold(1), Some(&Type::Int));
}

#[test]
fn to_bytes_with_explicit_type() {
    let reg = KnotRegistry::new();
    assert_eq!(to_bytes(&42i32, &Type::Int, &reg).unwrap(), unhex("4449444c007c2a"));
}

fn sleb_read(b: &[u8]) -> i64 {
    let mut result: i64 = 0;
    let mut shift = 0;
    for &byte in b {
        result |= ((byte & 0x7f) as i64) << shift;
        shift += 7;
        if byte & 0x80 == 0 {
            if shift < 64 && byte & 0x40 != 0 {
                result |= -1i64 << shift;
            }
            break;
        }
    }
    result
}

#[test]
fn int_reencodes_after_decoding() {
    for n in [0i64, 1, -1, 63, 64, -64, -65, 1234567890, -1234567890, i64::MAX, i64::MIN] {
        let m = encode(n);
        let back = sleb_read(&m[6..]);
        assert_eq!(back, n);
        assert_eq!(encode(back), m);
    }
}
