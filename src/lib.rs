//! A compact, non-self-describing binary encoding.
//!
//! Every multi-byte integer is written least significant byte first; lengths
//! and counts are `u64`, enumeration discriminants are `u32`. Encoder and
//! decoder must agree on the shape of a value out of band.
pub mod de;
pub mod error;
pub mod extract;
pub mod laws;
pub mod ser;
pub mod value;
pub mod wire;

pub use de::Deserializer;
pub use error::{Error, IoCause, Result};
pub use ser::Serializer;
pub use value::{from_bytes, to_bytes, Shape, Value};
