use vstd::prelude::*;

use crate::dindex::DeserializationError;
use crate::dpack_manager::errors::{DPackLoadError, DPackPersistError};

verus! {

/// Why snapshot text could not be read.
#[derive(Debug)]
pub enum SnapshotReadError {
    ObjectIdParse(hex::FromHexError),
    EarlyTermination,
    InvalidId(DeserializationError),
}

/// Why a snapshot could not be persisted.
#[derive(Debug)]
pub enum SnapshotPersistError {
    Nonexistent,
    DPackLoad(DPackLoadError),
    DPackPersist(DPackPersistError),
}

/// Why a snapshot could not be loaded.
#[derive(Debug)]
pub enum SnapshotLoadError {
    Read(SnapshotReadError),
    IndexLoad(SnapshotIndexLoadError),
    Nonexistent,
}

/// Why a snapshot could not be reproduced in a directory.
#[derive(Debug)]
pub enum SnapshotReproductionError {
    SnapshotLoad(SnapshotLoadError),
    DPackLoad(DPackLoadError),
    IO(std::io::Error),
}

/// Why the snapshot index could not be loaded.
#[derive(Debug)]
pub enum SnapshotIndexLoadError {
    DPackLoad(DPackLoadError),
    NoIndex,
}

/// Why a snapshot could not be created.
#[derive(Debug)]
pub enum SnapshotCreationError {
    IO(std::io::Error),
    DIndexInsert(DIndexInsertError),
    SnapshotPersist(SnapshotPersistError),
    GetHead(GetHeadError),
    InvalidTarget,
}

/// Why the snapshot manager could not be set up.
#[derive(Debug)]
pub enum InitializationError {
    DPackManager(crate::dpack_manager::errors::InitializationError),
    BlobManager(crate::blob_manager::InitializationError),
}

/// Why the newest snapshot could not be found.
#[derive(Debug)]
pub enum GetHeadError {
    IndexLoad(SnapshotIndexLoadError),
}

/// Why a file's index could not be updated.
#[derive(Debug)]
pub enum DIndexInsertError {
    Nonexistent,
    DPackLoad(DPackLoadError),
    DPackPersist(DPackPersistError),
}

} // verus!
