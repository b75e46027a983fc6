//! Conversion between UTF-8 text and UCS-2, the fixed-width 16-bit encoding of
//! the Basic Multilingual Plane, into buffers that the caller provides.

pub mod bits;
pub mod codepoint;
pub mod decode;
pub mod encode;
pub mod error;
pub mod laws;
pub mod literal;

pub use decode::{decode, decode_with};
pub use encode::{encode, encode_with};
pub use error::Error;
pub use literal::{str_num_ucs2_chars, str_to_ucs2};
