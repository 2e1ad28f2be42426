//! A schema-driven attribute store: typed values with a textual
//! parse/display pair, keyed tables whose rows stay aligned with a live
//! schema, a registry of named tables, a recycling key allocator, and an
//! animation record set composing them around weak (table, key)
//! references.

pub mod frame;
pub mod keys;
pub mod shapes;
pub mod storage;
pub mod table;
pub mod text;
pub mod value;
