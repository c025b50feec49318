//! A minimal archive container format.
//!
//! An archive packs a flat sequence of files, each stored as a
//! length-prefixed record holding its name, its extension and its raw
//! content.  The container starts with a fixed magic identifier and a file
//! count, followed by one record per file.  Everything is little-endian.
//!
//! The codec itself is verified: encoding and decoding of single entries
//! ([`crust_file`]) and of whole archives ([`crust_packed`]) carry contracts
//! that pin the byte layout down exactly, together with proofs that decoding
//! inverts encoding, that truncated input is always rejected, and that a
//! damaged magic identifier is always detected.  Reading directories and
//! writing files to disk is left to unverified callers, which hand plain
//! bytes and paths in and out.

pub mod crust_file;
pub mod crust_packed;
