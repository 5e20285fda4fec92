//! Compact multi-version text storage: a `DIndex` keeps the distinct lines of
//! every stored version of a file and, per version, a key of line ranges from
//! which the version is rebuilt.

pub mod text;
pub mod digest;
pub mod dindex;
pub mod codec;
pub mod io_error;
pub mod dpack_manager;
pub mod manager;
pub mod hex_text;
pub mod compression;
pub mod blob_manager;
pub mod snap_manager;
pub mod index_manager;
