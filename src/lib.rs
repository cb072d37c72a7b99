//! Streaming reader for FASTA sequence records.
//!
//! The reader keeps the bytes of the input in a growable buffer, finds record
//! boundaries incrementally, and hands out records that borrow from that
//! buffer. Reading from and seeking on the byte source is done by the caller:
//! the reader says what it needs next, and the caller performs it.

pub mod buffer;
pub mod buffer_policy;
pub mod buffer_position;
pub mod error;
pub mod lemmas;
pub mod position;
pub mod reader;
pub mod sequence;
