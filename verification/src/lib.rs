//! Reading, writing and validating Petroglyph MEGA archive files.
//!
//! MEGA files are the archive format of several Petroglyph games. This library validates MEGA
//! paths, parses the metadata tables of all three format versions from the bytes of an archive,
//! extracts (and decrypts) file contents, and lays out and encodes new archives.

pub mod checksum;
pub mod cli;
pub mod crypto;
pub mod encoding;
pub mod mega_file;
pub mod parser;
pub mod path;
pub mod reader;
pub mod roundtrip;
pub mod version;
pub mod writer;
