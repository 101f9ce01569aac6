//! Byte-to-text encodings used to build identifiers.
pub mod base32;
pub mod base64;
