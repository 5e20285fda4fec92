use vstd::prelude::*;

verus! {

/// Why the head pack could not be had.
#[derive(Debug)]
pub enum GetHeadError {
    Io(std::io::Error),
    DPackLoad(DPackLoadError),
}

/// Why an index could not be persisted into its pack.
#[derive(Debug)]
pub enum DPackPersistError {
    Io(std::io::Error),
    IndexParse(DPackIndexLoadError),
    DPackLoad(DPackLoadError),
    GetHead(GetHeadError),
}

/// Why a pack could not be loaded.
#[derive(Debug)]
pub enum DPackLoadError {
    Io(std::io::Error),
    IndexLoad(DPackIndexLoadError),
}

/// Why the pack index could not be loaded.
#[derive(Debug)]
pub enum DPackIndexLoadError {
    EarlyTermination,
    FileLoad(std::io::Error),
}

/// Why the pack manager could not be set up.
#[derive(Debug)]
pub enum InitializationError {
    Io(std::io::Error),
}

} // verus!
