//! Files that are not text are kept whole, compressed, one file per version.

use vstd::prelude::*;
use vstd::utf8::encode_utf8;

use crate::compression::{zstd_compress, zstd_content, zstd_decompress, zstd_frame};
use crate::digest::sha256;
use crate::dindex::DIndexVersionId;
use crate::hex_text::{hex_encode, hex_encoding};

verus! {

/// Keeps blobs under one data directory.
pub struct BlobManager {
    data_root: String,
}

/// Why the blob manager could not be set up.
#[derive(Debug)]
pub enum InitializationError {
    Io(std::io::Error),
}

impl View for BlobManager {
    type V = Seq<char>;

    closed spec fn view(&self) -> Seq<char> {
        self.data_root@
    }
}

impl BlobManager {
    /// A blob manager over `data_root`, which is taken to exist.
    pub fn with_root(data_root: &str) -> (manager: BlobManager)
        ensures
            manager@ == data_root@,
    {
        BlobManager { data_root: data_root.to_owned() }
    }

    /// The directory under which the blobs are kept.
    pub fn data_root(&self) -> (root: &String)
        ensures
            root@ == self@,
    {
        &self.data_root
    }

    /// The directory name for the blobs of the file `name`: the hex digest of the name.
    pub fn encode_name(name: &str) -> (encoded: String)
        ensures
            encoded@ == hex_encoding(sha256(encode_utf8(name@))),
    {
        let digest = crate::digest::sha256_digest(name.as_bytes());
        hex_encode(digest.as_slice())
    }

    /// The file name for one version of a blob: the hex form of its identifier.
    pub fn version_file_name(version_id: DIndexVersionId) -> (file: String)
        ensures
            file@ == hex_encoding(version_id@),
    {
        let bytes = version_id.into_bytes();
        hex_encode(bytes.as_slice())
    }

    /// The identifier of a blob and its stored, compressed form.
    pub fn prepare_blob(data: &[u8]) -> (res: Result<(DIndexVersionId, Vec<u8>), std::io::Error>)
        ensures
            res matches Ok((id, stored)) && id@ == sha256(data@) && stored@ == zstd_frame(data@, 3)
                && zstd_content(stored@) == Some(data@),
    {
        let version_id = DIndexVersionId::from_version_data(data);
        match zstd_compress(data, 3) {
            Ok(stored) => Ok((version_id, stored)),
            Err(e) => Err(e),
        }
    }

    /// The blob held in its stored, compressed form.
    pub fn read_blob(stored: &[u8]) -> (res: Result<Vec<u8>, std::io::Error>)
        ensures
            match zstd_content(stored@) {
                Some(content) => res matches Ok(data) && data@ == content,
                None => res is Err,
            },
    {
        zstd_decompress(stored)
    }
}

/// What a read gives back of a write: a blob read back from its stored form
/// is the blob.
pub proof fn lemma_blob_roundtrip(data: Seq<u8>, stored: Seq<u8>, read: Seq<u8>)
    requires
        zstd_content(stored) == Some(data),
        zstd_content(stored) == Some(read),
    ensures
        read == data,
{
}

} // verus!
