//! A compact binary codec: values encode to a byte stream that decodes back
//! to the same values, against an in-memory buffer or a streaming byte
//! transport, with the same bytes either way.
//!
//! The wire format is fixed-width and little-endian throughout, with 64-bit
//! length prefixes for variable-sized containers and 32-bit discriminators
//! for tagged sums; `wire` states it as mathematics, `laws` proves its round
//! trip, and `ser` and `de` carry verified encoders and decoders for it.

pub mod value;
pub mod wire;
pub mod laws;
pub mod ser;
pub mod de;
pub mod chan;

pub use de::deserialize_buffer;
pub use ser::serialize_into_buffer;
pub use ser::serialize_on_buffer;
