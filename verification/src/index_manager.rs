//! Keeps one compressed `DIndex` file per stored file name. The reading and
//! writing of the files is left to the caller; this module computes the file
//! names, the stored bytes, and what each operation gives.

use vstd::prelude::*;
use vstd::utf8::encode_utf8;

use crate::compression::{zstd_compress, zstd_content, zstd_decompress, zstd_frame};
use crate::digest::sha256;
use crate::dindex::{
    lemma_parse_serialized, parse_dindex, serialized, text_version_id, DIndex, DIndexVersionId, DIndexView,
    DeserializationError, created,
};
use crate::hex_text::{hex_encode, hex_encoding};

verus! {

/// Keeps indexes under one data directory.
pub struct DIndexManager {
    data_root: String,
}

/// Why an index could not be loaded.
#[derive(Debug)]
pub enum DIndexLoadError {
    Io(std::io::Error),
    Deserialization(DeserializationError),
    Nonexistent,
}

impl View for DIndexManager {
    type V = Seq<char>;

    closed spec fn view(&self) -> Seq<char> {
        self.data_root@
    }
}

/// The index held in stored bytes, where they decompress and read as one.
pub open spec fn stored_index(stored: Seq<u8>) -> Option<DIndexView> {
    match zstd_content(stored) {
        Some(bytes) => match parse_dindex(bytes) {
            Some((d, _)) => Some(d),
            None => None,
        },
        None => None,
    }
}

impl DIndexManager {
    pub fn new(data_root: &str) -> (manager: DIndexManager)
        ensures
            manager@ == data_root@,
    {
        DIndexManager { data_root: data_root.to_owned() }
    }

    /// The directory under which the indexes are kept.
    pub fn data_root(&self) -> (root: &String)
        ensures
            root@ == self@,
    {
        &self.data_root
    }

    /// The file name of the index for `name`: the hex digest of the name.
    pub fn index_file_name(name: &str) -> (file: String)
        ensures
            file@ == hex_encoding(sha256(encode_utf8(name@))),
    {
        let digest = crate::digest::sha256_digest(name.as_bytes());
        hex_encode(digest.as_slice())
    }

    /// The index held in the stored (compressed) bytes of its file.
    pub fn load_dindex(stored: &[u8]) -> (res: Result<DIndex, DIndexLoadError>)
        ensures
            match zstd_content(stored@) {
                None => res matches Err(DIndexLoadError::Io(_)),
                Some(bytes) => match parse_dindex(bytes) {
                    Some((d, _)) => res matches Ok(index) && index@ == d && index@.wf(),
                    None => res matches Err(DIndexLoadError::Deserialization(e)) && e@ == "File ended early."@,
                },
            },
    {
        let data = match zstd_decompress(stored) {
            Ok(d) => d,
            Err(e) => return Err(DIndexLoadError::Io(e)),
        };
        match DIndex::try_from_bytes(data) {
            Ok(index) => Ok(index),
            Err(e) => Err(DIndexLoadError::Deserialization(e)),
        }
    }

    /// The stored (compressed) bytes of an index.
    pub fn persist_dindex(index: &DIndex) -> (res: Result<Vec<u8>, std::io::Error>)
        ensures
            res matches Ok(stored) && stored@ == zstd_frame(serialized(index@), 3)
                && zstd_content(stored@) == Some(serialized(index@)),
    {
        let data = index.to_bytes();
        zstd_compress(data.as_slice(), 3)
    }

    /// The head of a loaded index.
    pub fn get_head(loaded: Result<DIndex, DIndexLoadError>) -> (res: Result<DIndexVersionId, DIndexLoadError>)
        ensures
            match loaded {
                Ok(index) => res matches Ok(id) && id@ == index@.head,
                Err(e) => res matches Err(e2) && e2 == e,
            },
    {
        match loaded {
            Ok(index) => Ok(index.head()),
            Err(e) => Err(e),
        }
    }

    /// The text of version `key` of a loaded index.
    pub fn get_version(loaded: Result<DIndex, DIndexLoadError>, key: DIndexVersionId) -> (res: Result<Option<String>, DIndexLoadError>)
        requires
            loaded matches Ok(index) ==> index@.wf() && index@.readable(key@),
        ensures
            match loaded {
                Ok(index) => res matches Ok(data) && match data {
                    Some(d) => index@.has_version(key@) && d@ == index@.data_of(index@.version(key@).key),
                    None => !index@.has_version(key@),
                },
                Err(e) => res matches Err(e2) && e2 == e,
            },
    {
        match loaded {
            Ok(index) => Ok(index.get_version_data(key)),
            Err(e) => Err(e),
        }
    }

    /// The index after `data` is stored under `name`: the loaded index with
    /// `data` as a new version where it could be loaded, otherwise a new index
    /// holding `data`; and the new head.
    pub fn insert(loaded: Result<DIndex, DIndexLoadError>, name: &str, data: &str) -> (res: (DIndexVersionId, DIndex))
        requires
            loaded matches Ok(index) ==> index@.wf() && index@.has_version(index@.head),
        ensures
            res.0@ == text_version_id(data@),
            res.1@.head == res.0@,
            res.1@.wf(),
            res.1@.has_version(res.1@.head),
            match loaded {
                Ok(index) => res.1@ == index@.inserted(data@),
                Err(_) => res.1@ == created(name@, data@),
            },
    {
        let index = match loaded {
            Ok(mut index) => {
                index.insert_version(data);
                index
            },
            Err(_) => DIndex::new(name, data),
        };
        let version_id = index.head();
        (version_id, index)
    }
}

/// What is read back of what was written: the stored bytes of an index that
/// can be stored hold that index.
pub proof fn lemma_stored_index_reads_back(d: DIndexView, stored: Seq<u8>)
    requires
        d.storable(),
        zstd_content(stored) == Some(serialized(d)),
    ensures
        stored_index(stored) == Some(d),
{
    lemma_parse_serialized(d, Seq::empty());
    assert(serialized(d) + Seq::<u8>::empty() =~= serialized(d));
}

} // verus!
