//! A small binary codec: `BinaryWriter` appends typed values to a byte buffer
//! in a fixed little-endian wire format, and `BinaryReader` reads them back
//! from a byte slice, advancing a cursor and failing cleanly on bad input.
//!
//! The wire format is stated as spec functions in `wire`; the writer and the
//! reader are proved against it, and `laws` proves the round-trip properties.
pub mod wire;
pub mod writer;
pub mod reader;
pub mod laws;

pub use reader::BinaryReader;
pub use wire::DecodeError;
pub use writer::BinaryWriter;
