//! A JSON value model, text parser and emitter, a typed encode/decode
//! protocol, and the wire convention of records and tagged unions, with the
//! reader of their declarations.
use vstd::prelude::*;

pub mod error;
pub mod value;
pub mod number;
pub mod text;
pub mod emit;
pub mod grammar;
pub mod parse;
pub mod codec;
pub mod decl;
pub mod schema;
pub mod codegen;
pub mod roundtrip;

pub use error::Error;
pub use value::{Value, Number, object_insert};
pub use emit::{emit_compact, emit_pretty};
pub use parse::{parse, Parser};
pub use codec::{Serialize, Deserialize, to_string, to_string_pretty, from_str, decode_int};
pub use decl::{Field, Variant, VariantKind, InputType, parse_input, extract_struct_fields, extract_enum_variants, extract_name};
pub use schema::{Slot, VariantMatch, encode_record, encode_unit, encode_tuple, encode_struct, resolve_field, object_entries, decode_variant};
pub use codegen::{CodeBuilder, generate_struct_serialize, generate_struct_deserialize, generate_enum_serialize, generate_enum_deserialize, derive_serialize_source, derive_deserialize_source};

verus! {

} // verus!
