//! Positional binary encoding of plain records.
//!
//! A record type is described by a [`schema::Schema`]: an ordered list of named
//! fields, each a fixed-width integer or a UTF-8 string. A schema is planned once
//! into a [`layout::LayoutPlan`], which marks every field's byte offset as static
//! (known from the schema alone) or dynamic (known only once the preceding string
//! lengths are read). Encoder and decoder both walk that one plan.

pub mod le;
pub mod schema;
pub mod value;
pub mod layout;
pub mod codec;
pub mod laws;

pub use codec::{deserialise_number_struct, serialise_number_struct};
