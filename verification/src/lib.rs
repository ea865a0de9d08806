//! Parser library for YPBank transaction records.
//!
//! Records are read from and written to three byte formats: CSV, a
//! line-based text format, and a binary format with a fixed layout.
//! Every parser takes the raw bytes of a document and every serializer
//! hands back the bytes of one; reading files and streams is left to the
//! caller.
pub mod chars;
pub mod convert;
pub mod decimal;
pub mod endian;
pub mod errors;
pub mod formats;

pub use errors::{ParseError, Result};
