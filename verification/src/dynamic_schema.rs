//! Walking a value along a schema: from JSON to bytes and from bytes to JSON.

pub mod decoding;
pub mod encoding;
pub mod errors;
pub mod reads_end;
pub mod round_trip;
pub mod writes_end;

pub use self::decoding::deserialize_from_schema;
pub use self::encoding::serialize_with_schema;
pub use self::errors::{DecodeError, EncodeError, ExpectationError};
