//! Reading and writing fixed-width records: flat byte buffers made of contiguous byte
//! ranges, mapped to and from structured values through a list of field descriptors.
//!
//! A record's layout is a [`FieldSet`]: a tree of fields, each a byte range with a name, a
//! pad character and a justification. Reading walks the fields in depth-first order and
//! builds a [`Value`] of the [`Shape`] asked for; writing walks them in the same order and
//! fits the text of each primitive to its field.
use vstd::prelude::*;

pub mod de;
pub mod error;
pub mod field;
pub mod records;
pub mod round_trip;
pub mod ser;
pub mod text;
pub mod value;

pub use de::{
    from_bytes_with_fields, from_str_with_fields, DeserializeError, Deserializer, Failure,
};
pub use error::Error;
pub use field::{FieldConfig, FieldSet, FieldTree, FieldView, Justify};
pub use records::{AsByteSlice, ByteReader, LineBreak, Reader, StringReader, Writer};
pub use ser::{pad, to_bytes_with_fields, SerFailure, SerializeError, Serializer};
pub use value::{IntKind, Shape, Value, ValueView};

verus! {

/// A type whose values are laid out in records by a fixed set of fields.
pub trait FixedWidth {
    /// The fields of a record.
    fn fields() -> FieldSet;
}

} // verus!
