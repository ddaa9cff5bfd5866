//! Verified file chunking: splitting a byte stream into fixed-size,
//! fingerprinted chunk artifacts with a manifest that describes them, and
//! merging such artifacts back into the stream after verifying every
//! fingerprint.  The library works on in-memory bytes; reading and writing
//! files around it is the caller's concern.

pub mod archive;
pub mod chunker;
pub mod chunks;
pub mod digest;
pub mod json;
pub mod manifest;
pub mod merge;
pub mod numbers;
pub mod session;
pub mod text;
