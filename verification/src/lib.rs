//! Codec and in-memory sparse store for the Motorola S-Record format.
//!
//! The crate parses a textual S-Record stream into an [`srecord_file::SRecordFile`]
//! holding sorted, non-overlapping chunks of byte-addressed data, and serializes
//! such a file back into canonical record lines.

pub mod data_chunk;
pub mod error;
pub mod hex;
pub mod record;
pub mod record_type;
pub mod srecord_file;
pub mod utils;
