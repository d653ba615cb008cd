//! A compact binary format for schema definitions, and a decoder that reads
//! raw value payloads against a loaded schema.
pub mod schema;
pub mod codec;
pub mod value;
pub mod paths;
