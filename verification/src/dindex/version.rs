use vstd::prelude::*;

use super::key::DIndexKey;
use super::version_id::DIndexVersionId;

verus! {

/// What a `DIndex` knows of one version, as values.
pub struct VersionView {
    pub prev: Seq<u8>,
    pub next: Seq<u8>,
    pub key: Seq<(u64, u64)>,
}

/// One stored version: its neighbours in the version chain and its key.
#[derive(Clone, PartialEq, Eq, Debug)]
pub struct DIndexVersion {
    prev: DIndexVersionId,
    next: DIndexVersionId,
    data_key: DIndexKey,
}

impl View for DIndexVersion {
    type V = VersionView;

    closed spec fn view(&self) -> VersionView {
        VersionView { prev: self.prev@, next: self.next@, key: self.data_key@ }
    }
}

impl DIndexVersion {
    pub fn new(prev: DIndexVersionId, next: DIndexVersionId, data_key: DIndexKey) -> (v: DIndexVersion)
        ensures
            v@ == (VersionView { prev: prev@, next: next@, key: data_key@ }),
    {
        DIndexVersion { prev, next, data_key }
    }

    pub fn prev(&self) -> (id: DIndexVersionId)
        ensures
            id@ == self@.prev,
    {
        self.prev
    }

    pub fn next(&self) -> (id: DIndexVersionId)
        ensures
            id@ == self@.next,
    {
        self.next
    }

    pub fn set_next(&mut self, next: DIndexVersionId)
        ensures
            final(self)@ == (VersionView { next: next@, ..old(self)@ }),
    {
        self.next = next;
    }

    /// Whether two versions have the same neighbours and the same key.
    pub fn same_version(&self, other: &DIndexVersion) -> (same: bool)
        ensures
            same == (self@ == other@),
    {
        self.prev.same_as(&other.prev) && self.next.same_as(&other.next) && self.data_key.same_ranges(&other.data_key)
    }

    pub fn key_len(&self) -> (n: usize)
        ensures
            n == self@.key.len(),
    {
        self.data_key.len()
    }

    pub fn into_data_key(self) -> (key: DIndexKey)
        ensures
            key@ == self@.key,
    {
        self.data_key
    }

    pub fn data_key(&self) -> (key: &DIndexKey)
        ensures
            key@ == self@.key,
    {
        &self.data_key
    }
}

} // verus!
