//! Encoding and decoding of bytes as standard RFC 4648 base64 with `=` padding.
//!
//! `encode` and `decode` write into a caller-supplied buffer; `encoded_len`
//! gives the exact buffer size that encoding needs and `decoded_len` a size
//! that is always enough for decoding. The model of the encoding lives in
//! `spec`, and the laws that tie encoding and decoding together in `laws`.
pub mod error;
pub mod spec;
mod bits;
mod decode;
mod encode;
mod groups;
pub mod laws;

pub use error::Error;
pub use decode::{decode, decoded_len};
pub use encode::{encode, encoded_len};
