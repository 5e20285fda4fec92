//! Packs: several indexes stored together in one compressed file, and the
//! pack index that records which pack holds which index. The reading and
//! writing of the files is left to the caller; this module decides which
//! pack to use and computes what is read and written.

use vstd::prelude::*;

pub mod dpack;
pub mod dpack_id;
pub mod dpack_index;
pub mod errors;

use crate::compression::{zstd_compress, zstd_content, zstd_decompress, zstd_frame};
use crate::dindex::{DIndex, DIndexView};
use dpack::{
    index_names, lemma_parse_pack_serialized, lemma_upsert_index, lemma_upsert_index_other, parse_pack, ser_pack, upsert_index, DPack,
};
use dpack_id::DPackId;
use dpack_index::{
    entry_names, lemma_parse_pack_index_serialized, lemma_upsert_named, parse_pack_index, serialized_pack_index, upsert_named, DPackIndex,
    DPackIndexView,
};
use errors::{DPackIndexLoadError, DPackLoadError, DPackPersistError, GetHeadError};

verus! {

/// Settings of a pack manager.
pub struct DPackManagerConfig {
    index_file_name: String,
    pack_dir_name: String,
    max_dpack_size_bytes: u32,
    zstd_compression_level: i32,
}

impl DPackManagerConfig {
    pub closed spec fn max_size(&self) -> u32 {
        self.max_dpack_size_bytes
    }

    pub closed spec fn level(&self) -> i32 {
        self.zstd_compression_level
    }

    pub closed spec fn index_name(&self) -> Seq<char> {
        self.index_file_name@
    }

    pub closed spec fn pack_dir(&self) -> Seq<char> {
        self.pack_dir_name@
    }

    /// The file name of the pack index.
    pub fn index_file_name(&self) -> (name: &String)
        ensures
            name@ == self.index_name(),
    {
        &self.index_file_name
    }

    /// The name of the directory that holds the packs.
    pub fn pack_dir_name(&self) -> (name: &String)
        ensures
            name@ == self.pack_dir(),
    {
        &self.pack_dir_name
    }

    /// The stored size beyond which the head pack takes no more indexes.
    pub fn max_dpack_size_bytes(&self) -> (n: u32)
        ensures
            n == self.max_size(),
    {
        self.max_dpack_size_bytes
    }

    /// The zstd level at which packs are compressed.
    pub fn zstd_compression_level(&self) -> (level: i32)
        ensures
            level == self.level(),
    {
        self.zstd_compression_level
    }
}

/// The pack that an index is persisted into.
pub enum PackChoice {
    /// The pack that the pack index records for the index's name.
    Recorded(DPackId),
    /// No pack is recorded for the name: the head pack, which may be full.
    Head(DPackId),
}

/// Keeps indexes in packs under one data directory.
pub struct DPackManager {
    data_root: String,
    config: DPackManagerConfig,
}

/// The pack stored in compressed bytes, where they decompress.
pub open spec fn stored_pack(stored: Seq<u8>) -> Option<Seq<crate::dindex::DIndexView>> {
    match zstd_content(stored) {
        Some(bytes) => Some(parse_pack(bytes)),
        None => None,
    }
}

impl DPackManager {
    /// A pack manager over `data_root`, with index file `dpack_index`, pack
    /// directory `dpacks`, packs closed at 4000 stored bytes and compression level 3.
    pub fn with_root(data_root: &str) -> (manager: DPackManager)
        ensures
            manager.root() == data_root@,
            manager.index_name() == "dpack_index"@,
            manager.pack_dir() == "dpacks"@,
            manager.max_dpack_size() == 4000,
            manager.compression_level() == 3,
    {
        DPackManager {
            data_root: data_root.to_owned(),
            config: DPackManagerConfig {
                index_file_name: String::from_str("dpack_index"),
                pack_dir_name: String::from_str("dpacks"),
                max_dpack_size_bytes: 4000,
                zstd_compression_level: 3,
            },
        }
    }

    pub closed spec fn max_dpack_size(&self) -> u32 {
        self.config.max_dpack_size_bytes
    }

    pub closed spec fn compression_level(&self) -> i32 {
        self.config.zstd_compression_level
    }

    pub closed spec fn root(&self) -> Seq<char> {
        self.data_root@
    }

    pub closed spec fn index_name(&self) -> Seq<char> {
        self.config.index_file_name@
    }

    pub closed spec fn pack_dir(&self) -> Seq<char> {
        self.config.pack_dir_name@
    }

    /// The directory under which the packs and their index are kept.
    pub fn data_root(&self) -> (root: &String)
        ensures
            root@ == self.root(),
    {
        &self.data_root
    }

    pub fn config(&self) -> (config: &DPackManagerConfig)
        ensures
            config.max_size() == self.max_dpack_size(),
            config.level() == self.compression_level(),
            config.index_name() == self.index_name(),
            config.pack_dir() == self.pack_dir(),
    {
        &self.config
    }

    /// Sets the stored size beyond which the head pack takes no more indexes.
    pub fn set_max_dpack_size_bytes(&mut self, max: u32)
        ensures
            final(self).max_dpack_size() == max,
            final(self).compression_level() == old(self).compression_level(),
            final(self).root() == old(self).root(),
            final(self).index_name() == old(self).index_name(),
            final(self).pack_dir() == old(self).pack_dir(),
    {
        self.config.max_dpack_size_bytes = max;
    }

    /// The stored form of an empty pack, which a new data directory starts with.
    pub fn empty_pack_bytes(&self) -> (res: Result<Vec<u8>, std::io::Error>)
        ensures
            res matches Ok(stored) && stored@ == zstd_frame(Seq::empty(), self.compression_level())
                && zstd_content(stored@) == Some(Seq::<u8>::empty()),
    {
        let empty: Vec<u8> = Vec::new();
        zstd_compress(empty.as_slice(), self.config.zstd_compression_level)
    }

    /// The pack index read from the bytes of its file.
    pub fn load_index(data: Vec<u8>) -> (res: Result<DPackIndex, DPackIndexLoadError>)
        ensures
            match parse_pack_index(data@) {
                Some(i) => res matches Ok(index) && index@ == i && index@.wf(),
                None => res matches Err(DPackIndexLoadError::EarlyTermination),
            },
    {
        DPackIndex::try_from_bytes(data)
    }

    /// The bytes of the pack index file.
    pub fn persist_index(index: &DPackIndex) -> (data: Vec<u8>)
        ensures
            data@ == serialized_pack_index(index@),
    {
        index.to_bytes()
    }

    /// The pack held in the stored (compressed) bytes of its file.
    pub fn load_pack(stored: &[u8]) -> (res: Result<DPack, DPackLoadError>)
        ensures
            match stored_pack(stored@) {
                Some(ps) => res matches Ok(pack) && pack@ == ps && pack.wf(),
                None => res matches Err(DPackLoadError::Io(_)),
            },
    {
        match zstd_decompress(stored) {
            Ok(data) => Ok(DPack::from_bytes(data)),
            Err(e) => Err(DPackLoadError::Io(e)),
        }
    }

    /// The stored (compressed) bytes of a pack.
    pub fn persist_pack(&self, pack: &DPack) -> (res: Result<Vec<u8>, DPackPersistError>)
        ensures
            res matches Ok(stored) && stored@ == zstd_frame(ser_pack(pack@), self.compression_level())
                && zstd_content(stored@) == Some(ser_pack(pack@)),
    {
        let data = pack.to_bytes();
        match zstd_compress(data.as_slice(), self.config.zstd_compression_level) {
            Ok(stored) => Ok(stored),
            Err(e) => Err(DPackPersistError::Io(e)),
        }
    }

    /// The pack that new indexes go to, given the stored bytes of the head
    /// pack's file: where they are more than the size limit, the head moves on
    /// and the pack is a new, empty one; otherwise the head pack as stored.
    pub fn get_head_pack(&self, index: &mut DPackIndex, head_stored: &[u8]) -> (res: Result<DPack, GetHeadError>)
        requires
            head_stored@.len() > self.max_dpack_size() ==> old(index)@.head < u64::MAX,
        ensures
            head_stored@.len() > self.max_dpack_size() ==> final(index)@ == (DPackIndexView { head: (old(index)@.head + 1) as u64, ..old(index)@ })
                && (res matches Ok(pack) && pack@ == Seq::<crate::dindex::DIndexView>::empty() && pack.wf()),
            head_stored@.len() <= self.max_dpack_size() ==> final(index)@ == old(index)@
                && match stored_pack(head_stored@) {
                    Some(ps) => res matches Ok(pack) && pack@ == ps && pack.wf(),
                    None => res matches Err(GetHeadError::DPackLoad(DPackLoadError::Io(_))),
                },
    {
        if head_stored.len() > self.config.max_dpack_size_bytes as usize {
            index.increment_head();
            Ok(DPack::new())
        } else {
            match DPackManager::load_pack(head_stored) {
                Ok(pack) => Ok(pack),
                Err(e) => Err(GetHeadError::DPackLoad(e)),
            }
        }
    }

    /// Where the index `name` is read from: the pack that the loaded pack
    /// index records for it, `None` where it records none; a failure to load
    /// the pack index is passed on.
    pub fn pack_to_load(index: Result<DPackIndex, DPackIndexLoadError>, name: &str) -> (res: Result<Option<DPackId>, DPackLoadError>)
        requires
            index matches Ok(i) ==> i@.wf(),
        ensures
            match index {
                Ok(i) => res matches Ok(found) && match found {
                    Some(p) => i@.lookup(name@) == Some(p@),
                    None => i@.lookup(name@) is None,
                },
                Err(e) => res matches Err(DPackLoadError::IndexLoad(e2)) && e2 == e,
            },
    {
        match index {
            Ok(i) => Ok(i.get_pack_id(name)),
            Err(e) => Err(DPackLoadError::IndexLoad(e)),
        }
    }

    /// The pack that the index `name` is persisted into: the one the pack
    /// index records for it, otherwise the head pack.
    pub fn pack_to_persist(index: &DPackIndex, name: &str) -> (choice: PackChoice)
        requires
            index@.wf(),
        ensures
            match choice {
                PackChoice::Recorded(p) => index@.lookup(name@) == Some(p@),
                PackChoice::Head(p) => index@.lookup(name@) is None && p@ == index@.head,
            },
    {
        match index.get_pack_id(name) {
            Some(p) => PackChoice::Recorded(p),
            None => PackChoice::Head(index.head()),
        }
    }

    /// The index `name` taken from its pack; `None` where the pack lacks it.
    pub fn try_load(pack: DPack, name: &str) -> (entry: Option<DIndex>)
        requires
            pack.wf(),
        ensures
            match entry {
                Some(index) => index_names(pack@).contains(name@)
                    && index@ == pack@[index_names(pack@).index_of(name@)] && index@.wf(),
                None => !index_names(pack@).contains(name@),
            },
    {
        pack.into_entry(name)
    }

    /// Puts `dindex` into `pack`, recorded as pack `pack_id` in the pack index,
    /// and returns the stored bytes of the pack and the bytes of the index file.
    pub fn try_persist(
        &self,
        pack_index: &mut DPackIndex,
        pack: &mut DPack,
        pack_id: DPackId,
        dindex: DIndex,
    ) -> (res: Result<(Vec<u8>, Vec<u8>), DPackPersistError>)
        requires
            old(pack_index)@.wf(),
            old(pack).wf(),
            dindex@.wf(),
        ensures
            final(pack_index)@ == (DPackIndexView { entries: upsert_named(old(pack_index)@.entries, dindex@.name, pack_id@), ..old(pack_index)@ }),
            final(pack)@ == upsert_index(old(pack)@, dindex@),
            res matches Ok((stored, index_bytes)) && zstd_content(stored@) == Some(ser_pack(final(pack)@))
                && stored@ == zstd_frame(ser_pack(final(pack)@), self.compression_level())
                && index_bytes@ == serialized_pack_index(final(pack_index)@),
    {
        let name = dindex.name();
        pack_index.insert(name.as_str(), pack_id);
        pack.insert(dindex);
        let stored = self.persist_pack(pack)?;
        let index_bytes = DPackManager::persist_index(pack_index);
        Ok((stored, index_bytes))
    }
}

/// What a load gives back of a persist: after `try_persist` puts an index
/// into a pack, where everything involved can be stored, the pack index read
/// back from its bytes records the index's pack, and the pack read back from
/// its stored bytes holds, under the index's name, the index itself, so that
/// `try_load` on that pack gives it back.
pub proof fn lemma_load_after_persist(
    pack_index: DPackIndexView,
    pack: Seq<DIndexView>,
    pack_id: u64,
    dindex: DIndexView,
    stored: Seq<u8>,
)
    requires
        pack_index.storable(),
        pack_index.entries.len() < u64::MAX,
        index_names(pack).no_duplicates(),
        forall|i: int| 0 <= i < pack.len() ==> (#[trigger] pack[i]).storable(),
        dindex.storable(),
        zstd_content(stored) == Some(ser_pack(upsert_index(pack, dindex))),
    ensures
        ({
            let index2 = DPackIndexView { entries: upsert_named(pack_index.entries, dindex.name, pack_id), ..pack_index };
            let pack2 = upsert_index(pack, dindex);
            &&& parse_pack_index(serialized_pack_index(index2)) == Some(index2)
            &&& index2.lookup(dindex.name) == Some(pack_id)
            &&& stored_pack(stored) == Some(pack2)
            &&& index_names(pack2).contains(dindex.name)
            &&& pack2[index_names(pack2).index_of(dindex.name)] == dindex
        }),
{
    let es2 = upsert_named(pack_index.entries, dindex.name, pack_id);
    let index2 = DPackIndexView { entries: es2, ..pack_index };
    lemma_upsert_named(pack_index.entries, dindex.name, pack_id);
    assert((DPackIndexView { entries: es2, head: 0 }).lookup(dindex.name) == index2.lookup(dindex.name));
    assert forall|i: int| 0 <= i < es2.len() implies !(#[trigger] es2[i]).0.contains('\0') by {
        if es2[i] != (dindex.name, pack_id) {
            assert(es2[i] == pack_index.entries[i]);
        }
    }
    lemma_parse_pack_index_serialized(index2);
    let pack2 = upsert_index(pack, dindex);
    lemma_upsert_index(pack, dindex);
    assert forall|i: int| 0 <= i < pack2.len() implies (#[trigger] pack2[i]).storable() by {
        if pack2[i] != dindex {
            assert(pack2[i] == pack[i]);
        }
    }
    lemma_parse_pack_serialized(pack2);
}

/// Persisting one index leaves every other name as it was: the pack index
/// records the same pack for it, and the pack that took the index holds the
/// same index under that name as before (or none, as before).
pub proof fn lemma_persist_keeps_others(
    pack_index: DPackIndexView,
    pack: Seq<DIndexView>,
    pack_id: u64,
    dindex: DIndexView,
    other: Seq<char>,
)
    requires
        pack_index.wf(),
        index_names(pack).no_duplicates(),
        other != dindex.name,
    ensures
        ({
            let index2 = DPackIndexView { entries: upsert_named(pack_index.entries, dindex.name, pack_id), ..pack_index };
            let pack2 = upsert_index(pack, dindex);
            &&& index2.lookup(other) == pack_index.lookup(other)
            &&& index_names(pack2).contains(other) == index_names(pack).contains(other)
            &&& index_names(pack).contains(other) ==> pack2[index_names(pack2).index_of(other)]
                == pack[index_names(pack).index_of(other)]
        }),
{
    let es = pack_index.entries;
    let es2 = upsert_named(es, dindex.name, pack_id);
    let n1 = entry_names(es);
    let n2 = entry_names(es2);
    lemma_upsert_named(es, dindex.name, pack_id);
    if n1.contains(dindex.name) {
        let k = n1.index_of(dindex.name);
        assert(n2 =~= n1);
        if n1.contains(other) {
            let j = n1.index_of(other);
            assert(j != k);
            assert(es2[j] == es[j]);
        }
    } else {
        assert(n2 =~= n1.push(dindex.name));
        if n1.contains(other) {
            let j = n1.index_of(other);
            assert(n2[j] == other);
            assert(n2.index_of(other) == j);
            assert(es2[j] == es[j]);
        } else {
            assert(!n2.contains(other)) by {
                if n2.contains(other) {
                    let j = choose|j: int| 0 <= j < n2.len() && n2[j] == other;
                    if j < n1.len() {
                        assert(n1[j] == other);
                    }
                }
            }
        }
    }
    lemma_upsert_index_other(pack, dindex, other);
}

} // verus!
