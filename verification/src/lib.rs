//! A zero-copy binary encode/decode substrate for length-prefixed byte
//! payloads over an in-memory buffer: a cursor for sequential bounds-checked
//! consumption, a fixed-width big-endian integer codec, a family of
//! length-prefixed payload containers, and a generic mechanism for encoding
//! and decoding homogeneous lists under one overall length prefix.
pub mod codec;
pub mod endian;
pub mod payload;
pub mod reader;

pub use codec::{encode_vec_u8, extend, read_vec_u8, to_str, Codec};
pub use endian::{
    decode_u16, decode_u24, decode_u32, decode_u64, decode_u8, encode_u16, encode_u24, encode_u32,
    encode_u64, encode_u8, put_u64,
};
pub use payload::{Bytes, Payload, PayloadU16, PayloadU24, PayloadU32, PayloadU64, PayloadU8};
pub use reader::Reader;
