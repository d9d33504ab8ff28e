//! Renames a package prefix throughout the compiled units of a Java archive.
//!
//! The constant pool of every class file is walked record by record; text
//! records have each match of the source prefix replaced by the target prefix,
//! every other byte is carried over untouched. Entry names are renamed when
//! they start with the source prefix.

pub mod archive;
pub mod cursor;
pub mod endian;
pub mod error;
pub mod laws;
pub mod pattern;
pub mod record;
pub mod rewriter;
pub mod tag;
pub mod text;
