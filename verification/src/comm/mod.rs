//! The wire format: its tags, its errors, the reader and the writer.

pub mod definitions;
pub mod error;
pub mod format;
pub mod laws;
mod deserializer;
mod serializer;

pub use deserializer::{CommaSeparated, Deserializer};
pub use format::{AnyKind, EnumForm};
pub use error::{Error, Result};

pub use serializer::{
    to_string_bool, to_string_char, to_string_none, to_string_signed, to_string_str, to_string_unit,
    to_string_unsigned,
};
