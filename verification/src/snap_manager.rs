//! Snapshots: the versions of all files of a directory tree at one time, kept
//! as versions of a snapshot index. The walking of directories and the reading
//! and writing of files are left to the caller; this module decides what goes
//! into the indexes and what comes out of them.

use vstd::prelude::*;

pub mod errors;
pub mod snapshot;

use vstd::utf8::encode_utf8;

use crate::blob_manager::BlobManager;
use crate::codec::push_bytes;
use crate::text::{find_line, string_views};
use crate::dindex::{created, lemma_read_after_insert, text_version_id, DIndex, DIndexVersionId, DIndexView};
use crate::dpack_manager::DPackManager;
use errors::{GetHeadError, SnapshotCreationError, SnapshotIndexLoadError, SnapshotLoadError};
use snapshot::{lemma_parse_snapshot_text, parse_snapshot, read_failure, ser_snapshot, snapshot_storable, Snapshot, SnapshotView};

verus! {

/// The name under which the snapshot index is kept.
pub open spec fn snap_index_name_spec() -> Seq<char> {
    seq!['_', '_', 's', 'n', 'a', 'p', '_', 'i', 'n', 'd', 'e', 'x']
}

/// What is done with one entry of a directory while a snapshot is taken.
pub enum EntryAction {
    /// Left out: its name is ignored, or it is a file already recorded.
    Skip,
    /// A directory: its entries are taken in turn.
    Descend,
    /// A file: its contents are stored and recorded.
    Store,
}

/// Keeps snapshots: packs of file indexes, packs of snapshot indexes, and blobs.
pub struct SnapshotManager {
    data_dpack_manager: DPackManager,
    snap_dpack_manager: DPackManager,
    blob_manager: BlobManager,
}

impl SnapshotManager {
    /// The name under which the snapshot index is kept.
    pub fn snap_index_name() -> (name: &'static str)
        ensures
            name@ == snap_index_name_spec(),
    {
        let name = "__snap_index";
        proof {
            reveal_strlit("__snap_index");
        }
        name
    }

    pub closed spec fn data_packs(&self) -> DPackManager {
        self.data_dpack_manager
    }

    pub closed spec fn snap_packs(&self) -> DPackManager {
        self.snap_dpack_manager
    }

    pub closed spec fn blobs(&self) -> BlobManager {
        self.blob_manager
    }

    /// A snapshot manager over the given managers: file indexes are kept by
    /// the first, the snapshot index by the second, blobs by the third.
    pub fn new(data_dpack_manager: DPackManager, snap_dpack_manager: DPackManager, blob_manager: BlobManager) -> (manager: SnapshotManager)
        ensures
            manager.data_packs() == data_dpack_manager,
            manager.snap_packs() == snap_dpack_manager,
            manager.blobs() == blob_manager,
    {
        SnapshotManager { data_dpack_manager, snap_dpack_manager, blob_manager }
    }

    pub fn data_dpack_manager(&self) -> (m: &DPackManager)
        ensures
            *m == self.data_packs(),
    {
        &self.data_dpack_manager
    }

    pub fn snap_dpack_manager(&self) -> (m: &DPackManager)
        ensures
            *m == self.snap_packs(),
    {
        &self.snap_dpack_manager
    }

    pub fn blob_manager(&self) -> (m: &BlobManager)
        ensures
            *m == self.blobs(),
    {
        &self.blob_manager
    }

    /// The snapshot index, where the snapshot pack holds one.
    pub fn load_snap_index(loaded: Option<DIndex>) -> (res: Result<DIndex, SnapshotIndexLoadError>)
        ensures
            match loaded {
                Some(index) => res matches Ok(i) && i@ == index@,
                None => res matches Err(SnapshotIndexLoadError::NoIndex),
            },
    {
        match loaded {
            Some(index) => Ok(index),
            None => Err(SnapshotIndexLoadError::NoIndex),
        }
    }

    /// The newest snapshot, from the loaded snapshot index.
    pub fn get_head(snap_index: Result<DIndex, SnapshotIndexLoadError>) -> (res: Result<DIndexVersionId, GetHeadError>)
        ensures
            match snap_index {
                Ok(index) => res matches Ok(id) && id@ == index@.head,
                Err(e) => res matches Err(GetHeadError::IndexLoad(e2)) && e2 == e,
            },
    {
        match snap_index {
            Ok(index) => Ok(index.head()),
            Err(e) => Err(GetHeadError::IndexLoad(e)),
        }
    }

    /// The index of the file `name` after `data` is stored in it: the loaded
    /// index with a new version, or a new index; and the version's identifier.
    pub fn insert_into_dindex(loaded: Option<DIndex>, name: &str, data: &str) -> (res: (DIndexVersionId, DIndex))
        requires
            loaded matches Some(index) ==> index@.wf() && index@.has_version(index@.head),
        ensures
            res.0@ == text_version_id(data@),
            res.1@.head == res.0@,
            res.1@.wf(),
            match loaded {
                Some(index) => res.1@ == index@.inserted(data@),
                None => res.1@ == created(name@, data@),
            },
    {
        match loaded {
            Some(mut index) => {
                let version_id = index.insert_version(data);
                (version_id, index)
            },
            None => {
                let index = DIndex::new(name, data);
                (index.head(), index)
            },
        }
    }

    /// The snapshot index after `snap` is stored in it, and the snapshot's identifier.
    pub fn persist_snapshot(loaded: Option<DIndex>, snap: &Snapshot) -> (res: (DIndexVersionId, DIndex))
        requires
            loaded matches Some(index) ==> index@.wf() && index@.has_version(index@.head),
        ensures
            res.0@ == text_version_id(ser_snapshot(snap@)),
            res.1@.head == res.0@,
            res.1@.wf(),
            match loaded {
                Some(index) => res.1@ == index@.inserted(ser_snapshot(snap@)),
                None => res.1@ == created(snap_index_name_spec(), ser_snapshot(snap@)),
            },
    {
        let data = snap.to_text();
        SnapshotManager::insert_into_dindex(loaded, SnapshotManager::snap_index_name(), data.as_str())
    }

    /// The snapshot `id`, read from the snapshot index.
    pub fn get_snapshot_by_id(snap_index: &DIndex, id: DIndexVersionId) -> (res: Result<Snapshot, SnapshotLoadError>)
        requires
            snap_index@.wf(),
            snap_index@.readable(id@),
        ensures
            !snap_index@.has_version(id@) ==> res matches Err(SnapshotLoadError::Nonexistent),
            snap_index@.has_version(id@) ==> match parse_snapshot(snap_index@.data_of(snap_index@.version(id@).key)) {
                Ok(s) => res matches Ok(snap) && snap@ == s,
                Err(f) => res matches Err(SnapshotLoadError::Read(e)) && read_failure(e) == f,
            },
    {
        match snap_index.get_version_data(id) {
            Some(data) => match Snapshot::try_from_text(data) {
                Ok(snap) => Ok(snap),
                Err(e) => Err(SnapshotLoadError::Read(e)),
            },
            None => Err(SnapshotLoadError::Nonexistent),
        }
    }

    /// What is done with a directory entry named `name`: entries whose name
    /// is among `ignored` are left out, directories are descended into, and
    /// files are stored unless the snapshot already records them.
    pub fn entry_action(name: &String, is_dir: bool, ignored: &Vec<String>, recorded: bool) -> (action: EntryAction)
        ensures
            string_views(ignored@).contains(name@) ==> action is Skip,
            !string_views(ignored@).contains(name@) && is_dir ==> action is Descend,
            !string_views(ignored@).contains(name@) && !is_dir && recorded ==> action is Skip,
            !string_views(ignored@).contains(name@) && !is_dir && !recorded ==> action is Store,
    {
        if let Some(i) = find_line(ignored, name) {
            assert(string_views(ignored@)[i as int] == name@);
            EntryAction::Skip
        } else if is_dir {
            EntryAction::Descend
        } else if recorded {
            EntryAction::Skip
        } else {
            EntryAction::Store
        }
    }

    /// The bytes to write back for a snapshot entry at version `id`: the text
    /// of that version, in UTF-8, where the file has an index; `None` where it
    /// has none, in which case the entry is a blob.
    pub fn restored_bytes(loaded: Option<DIndex>, id: DIndexVersionId) -> (res: Option<Vec<u8>>)
        requires
            loaded matches Some(index) ==> index@.wf() && index@.has_version(id@) && index@.readable(id@),
        ensures
            match loaded {
                Some(index) => res matches Some(bytes)
                    && bytes@ == encode_utf8(index@.data_of(index@.version(id@).key)),
                None => res is None,
            },
    {
        match loaded {
            Some(index) => match index.get_version_data(id) {
                Some(text) => {
                    let mut bytes: Vec<u8> = Vec::new();
                    push_bytes(&mut bytes, text.as_str().as_bytes());
                    Some(bytes)
                },
                None => None,
            },
            None => None,
        }
    }

    /// The snapshot a new one follows: the newest one, none where there is no
    /// snapshot index yet; any other failure is passed on.
    pub fn snapshot_parent(head: Result<DIndexVersionId, GetHeadError>) -> (res: Result<Option<DIndexVersionId>, SnapshotCreationError>)
        ensures
            match head {
                Ok(id) => res matches Ok(Some(p)) && p == id,
                Err(GetHeadError::IndexLoad(SnapshotIndexLoadError::NoIndex)) => res matches Ok(None),
                Err(e) => res matches Err(SnapshotCreationError::GetHead(e2)) && e2 == e,
            },
    {
        match head {
            Ok(id) => Ok(Some(id)),
            Err(GetHeadError::IndexLoad(SnapshotIndexLoadError::NoIndex)) => Ok(None),
            Err(e) => Err(SnapshotCreationError::GetHead(e)),
        }
    }
}

/// What a read gives back of a write: a snapshot stored as a new version of a
/// faithful snapshot index is read back unchanged by its identifier.
pub proof fn lemma_snapshot_reads_back(d: DIndexView, s: SnapshotView)
    requires
        d.wf(),
        d.has_version(d.head),
        d.faithful(),
        d.lines_with(ser_snapshot(s)).len() <= usize::MAX,
        snapshot_storable(s),
        !d.has_version(text_version_id(ser_snapshot(s))),
    ensures
        ({
            let d2 = d.inserted(ser_snapshot(s));
            let id = text_version_id(ser_snapshot(s));
            &&& d2.has_version(id)
            &&& d2.readable(id)
            &&& parse_snapshot(d2.data_of(d2.version(id).key)) == Ok::<SnapshotView, snapshot::SnapshotReadFailure>(s)
        }),
{
    lemma_read_after_insert(d, ser_snapshot(s));
    lemma_parse_snapshot_text(s);
}

} // verus!
