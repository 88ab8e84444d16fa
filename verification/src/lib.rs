//! A codec for the AMF0 compact binary value-interchange format.
//!
//! The library converts a tagged [`value::Value`] into its byte-exact wire
//! encoding and converts such bytes back into a value.  Every multi-byte
//! integer on the wire is big-endian; composite values carry either an
//! explicit element count or the three-byte termination sentinel.
//!
//! The wire layout is captured once, at the specification level, by
//! [`ser::enc_value`] (value to bytes) and [`de::dec_value`] (bytes to value
//! with an exact error for every malformed input).  The executable encoder
//! and decoder are verified against those two functions, and the laws the
//! codec obeys (round trip, failure on truncation, framing checks,
//! deterministic encoding) are proved in [`laws`].

pub mod bytes;
pub mod de;
pub mod error;
pub mod laws;
pub mod reader;
pub mod ser;
pub mod value;

pub use de::Deserializer;
pub use de::from_slice;
pub use error::Error;
pub use ser::Serializer;
pub use ser::encode;
pub use reader::SliceReader;
pub use value::Value;
