//! Decoding, encoding and change tracking for an encrypted save-file format.
pub mod doc;
pub mod varint;
pub mod envelope;
pub mod diff;
pub mod watch;
pub mod slot;
