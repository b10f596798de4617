//! A codec between a compact binary encoding and JSON, led by a schema that
//! may stand at the head of the bytes.
//!
//! [`dynamic_schema`] holds the two walks: from a JSON value to its bytes
//! under a schema, and from bytes to the JSON value that they hold.
//! [`json_borsh`] writes a JSON value without a schema, as far as that can
//! be done. [`container`] reads and writes the schema itself, and
//! [`compress_schema`] renames its user types to short names. [`command`]
//! puts these together into the six operations `pack`, `unpack`, `encode`,
//! `decode`, `extract` and `strip`, each from input bytes to output.
//!
//! Every function states what it gives in terms of functions on sequences
//! of bytes and on the values of [`json::JsonView`] and
//! [`schema::SchemaView`]; what holds between them is proved beside them.

pub mod command;
pub mod compress_schema;
pub mod container;
pub mod decimal;
pub mod dynamic_schema;
pub mod float;
pub mod json;
pub mod json_borsh;
pub mod primitives;
pub mod schema;
pub mod text;
pub mod wire;
