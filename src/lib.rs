//! Binary codec for Celeste map files: a compact attributed tree with an
//! interned string table, typed attribute values and variable-length integers.

pub mod error;
pub mod primitive;
pub mod value;
pub mod element;
pub mod document;
pub mod truncation;
