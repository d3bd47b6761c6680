//! Read-only IPv4-to-location resolver for the xdb binary database format.
//!
//! The database is one immutable byte buffer: a fixed 256-byte header, a
//! dense 65536-slot vector index keyed by the first two octets of the
//! address, a sorted segment index of fixed 14-byte range records, and the
//! `|`-delimited location text the records point to.  A query narrows the
//! search through the vector index, binary-searches the segment index for
//! the record whose range covers the address, and decodes the text record.

pub mod error;
pub mod ip;
pub mod searcher;
pub mod text;
