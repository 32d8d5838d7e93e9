//! Binary serializer for the IDL wire format: a magic header, a table of
//! constructed types, a reference to the root type and the value payload.

pub mod leb;
pub mod hash;
pub mod types;
pub mod error;
pub mod table;
pub mod value;
pub mod schema;
pub mod writer;
pub mod laws;
pub mod order_laws;
pub mod table_laws;
