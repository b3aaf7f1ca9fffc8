//! Read/write access to MoPaQ (MPQ) archives: the sector-based, optionally
//! encrypted and compressed container format used for game asset distribution.
//!
//! The engine parses archive headers, resolves logical file names through the
//! hash table and block table, derives decryption keys, decompresses sector
//! data, and overlays patch-archive chains. All container logic is verified;
//! general-purpose codec bodies are invoked through a narrow trusted boundary.

pub mod errors;
pub mod bytes;
pub mod crypt;
pub mod codec;
pub mod header;
pub mod tables;
pub mod archive;
pub mod reader;
pub mod patch;
