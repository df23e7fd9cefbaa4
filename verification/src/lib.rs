//! Verified core of a chunked, content-addressed file distribution tool.
//!
//! A catalog directory is indexed into a manifest of BLAKE3 digests and
//! sizes, served over HTTP as byte ranges addressed by an obfuscated
//! request envelope, and synchronized on clients that download only files
//! whose digest differs from the local manifest, reusing local copies when
//! digests repeat and verifying every transfer end to end.
//!
//! This crate holds the logic of that engine: the envelope codec, the
//! manifest format, the chunking arithmetic, the digest pipeline, the
//! diff and reuse rules, and the scheduling decisions. All I/O (disk,
//! network, processes) lives outside, in a thin shell that feeds these
//! functions plain values.

pub mod base16;
pub mod digest;
pub mod envelope;
pub mod errors;
pub mod indexer;
pub mod manifest;
pub mod parts;
pub mod paths;
pub mod schedule;
pub mod server;
pub mod sync;
pub mod text;
pub mod transport;
pub mod xcopy;
