//! Decoder for the tagged binary dump format written by a Lua table
//! serializer, producing a language-neutral document tree.

pub mod value;
pub mod text;
pub mod decode;

pub use decode::{DecodeError, IoError, read_value, unpickle};
pub use value::{Number, Value};
pub use text::{decimal, json_text};
