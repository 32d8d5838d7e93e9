use serde_idl::error::Error;
use serde_idl::schema::{get_type, IdlType};
use serde_idl::types::{Field, KnotRegistry, Type};
use serde_idl::value::ValueSerializer;
use serde_idl::writer::to_vec;

fn unhex(s: &str) -> Vec<u8> {
    (0..s.len() / 2).map(|i| u8::from_str_radix(&s[2 * i..2 * i + 2], 16).unwrap()).collect()
}

fn check<T: IdlType>(value: T, expected: &str) {
    let reg = KnotRegistry::new();
    let encoded = to_vec(&value, &reg).unwrap();
    let expected = unhex(expected);
    assert_eq!(encoded, expected, "\nExpected\n{:x?}\nActual\n{:x?}\n", expected, encoded);
}

fn field(id: &str, ty: Type) -> Field {
    Field { id: id.to_string(), ty: ty }
}

struct A {
    foo: i32,
    bar: bool,
}

impl IdlType for A {
    fn ty() -> Type {
        Type::Record(vec![field("foo", Type::Int), field("bar", Type::Bool)])
    }

    fn idl_serialize(&self, ser: &mut ValueSerializer) -> Result<(), Error> {
        let mut compound = ser.serialize_struct();
        let mut inner = ValueSerializer::new();
        self.foo.idl_serialize(&mut inner)?;
        compound.serialize_field("foo", inner);
        let mut inner = ValueSerializer::new();
        self.bar.idl_serialize(&mut inner)?;
        compound.serialize_field("bar", inner);
        compound.end(ser)
    }
}

#[allow(dead_code)]
enum E {
    Foo,
    Bar(bool),
    Baz { a: i32, b: u32 },
}

impl IdlType for E {
    fn ty() -> Type {
        Type::Variant(vec![
            field("Foo", Type::Null),
            field("Bar", Type::Record(vec![field("0", Type::Bool)])),
            field("Baz", Type::Record(vec![field("a", Type::Int), field("b", Type::Nat)])),
        ])
    }

    fn idl_serialize(&self, _ser: &mut ValueSerializer) -> Result<(), Error> {
        Err(Error::Unsupported)
    }
}

#[test]
fn ser_test_bool() {
    check(true, "4449444c007e01");
    check(false, "4449444c007e00");
    assert_eq!(get_type(&true), Type::Bool);
}

#[test]
fn ser_test_integer() {
    check(42, "4449444c007c2a");
    check(1234567890, "4449444c007cd285d8cc04");
    check(-1234567890, "4449444c007caefaa7b37b");
    check(Box::new(42), "4449444c007c2a");
    assert_eq!(get_type(&42), Type::Int);
}

#[test]
fn test_struct() {
    let record = A { foo: 42, bar: true };
    check(record, "4449444c016c02d3e3aa027e868eb7027c00012a");
    let record = A { foo: 42, bar: true };
    assert_eq!(
        get_type(&record),
        Type::Record(vec![field("foo", Type::Int), field("bar", Type::Bool)])
    );
}

#[test]
fn test_variant() {
    let v = E::Foo;
    assert_eq!(
        get_type(&v),
        Type::Variant(vec![
            field("Foo", Type::Null),
            field("Bar", Type::Record(vec![field("0", Type::Bool)])),
            field("Baz", Type::Record(vec![field("a", Type::Int), field("b", Type::Nat)])),
        ])
    );
}
