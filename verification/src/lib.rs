//! A verified decoder for the NBT (Named Binary Tag) binary tree format.
//!
//! A byte buffer, an optional 8-byte header selection and an endianness
//! dialect go in; a root name, a typed tag tree and the optional header
//! pair come out. Every read is bounds-checked and the decoder is proved
//! to agree with a mathematical description of the wire format.

pub mod cursor;
pub mod decode;
pub mod laws;
pub mod spec_decode;
pub mod spec_encode;
pub mod truncation;
pub mod types;

pub use types::DecodeError;
pub use types::NbtEndian;
pub use types::NbtHeader;
pub use types::Tag;
pub use types::TagView;
pub use decode::decode;
pub use cursor::Cursor;
