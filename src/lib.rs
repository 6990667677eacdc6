//! RESP (REdis Serialization Protocol) values, their wire encoding, and
//! decoders that rebuild values from bytes, whole or as they stream in.

pub mod de;
pub mod decimal;
pub mod error;
pub mod laws;
pub mod parse;
pub mod pretty;
pub mod serialize;
pub mod text;
pub mod value;
pub mod wire;

pub use de::Deserializer;
pub use error::{Error, ErrorCode};
pub use serialize::{Decoder, encode, encode_slice};
pub use value::Value;
