use vstd::prelude::*;

use crate::digest::{sha256, sha256_digest};
use super::errors::DeserializationError;

verus! {

/// The identifier of one stored version: the SHA-256 digest of its data.
#[derive(PartialEq, Eq, Hash, Clone, Copy, Debug)]
pub struct DIndexVersionId([u8; 32]);

impl View for DIndexVersionId {
    type V = Seq<u8>;

    closed spec fn view(&self) -> Seq<u8> {
        self.0@
    }
}

/// Every identifier is 32 bytes long.
pub broadcast proof fn lemma_version_id_len(id: DIndexVersionId)
    ensures
        #[trigger] id@.len() == 32,
{
}

impl DIndexVersionId {
    /// The all-zero identifier.
    pub fn default() -> (id: DIndexVersionId)
        ensures
            id@ == Seq::new(32, |i: int| 0u8),
    {
        let id = DIndexVersionId([0u8; 32]);
        assert(id@ =~= Seq::new(32, |i: int| 0u8));
        id
    }

    /// The identifier of a version whose bytes are `data`.
    pub fn from_version_data(data: &[u8]) -> (id: DIndexVersionId)
        ensures
            id@ == sha256(data@),
    {
        DIndexVersionId(sha256_digest(data))
    }

    /// The identifier built from its 32 bytes.
    pub fn from_bytes(bytes: [u8; 32]) -> (id: DIndexVersionId)
        ensures
            id@ == bytes@,
    {
        DIndexVersionId(bytes)
    }

    /// The 32 bytes of the identifier.
    pub fn into_bytes(self) -> (bytes: [u8; 32])
        ensures
            bytes@ == self@,
    {
        self.0
    }

    /// The identifier held in a vector of exactly 32 bytes.
    pub fn try_from_vec(vec: Vec<u8>) -> (res: Result<DIndexVersionId, DeserializationError>)
        ensures
            match res {
                Ok(id) => vec@.len() == 32 && id@ == vec@,
                Err(e) => vec@.len() != 32 && e@ == "Could not deserialize version id"@,
            },
    {
        if vec.len() != 32 {
            return Err(DeserializationError::new("Could not deserialize version id"));
        }
        let mut bytes = [0u8; 32];
        let mut i: usize = 0;
        while i < 32
            invariant
                vec@.len() == 32,
                i <= 32,
                forall|k: int| 0 <= k < i ==> bytes@[k] == vec@[k],
            decreases 32 - i,
        {
            bytes[i] = vec[i];
            i = i + 1;
        }
        let id = DIndexVersionId(bytes);
        assert(id@ =~= vec@);
        Ok(id)
    }

    /// Whether two identifiers are the same.
    pub fn same_as(&self, other: &DIndexVersionId) -> (same: bool)
        ensures
            same == (self@ == other@),
    {
        let mut i: usize = 0;
        while i < 32
            invariant
                i <= 32,
                forall|k: int| 0 <= k < i ==> self@[k] == other@[k],
            decreases 32 - i,
        {
            if self.0[i] != other.0[i] {
                return false;
            }
            i = i + 1;
        }
        assert(self@ =~= other@);
        true
    }
}

} // verus!
