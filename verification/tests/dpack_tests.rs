use dindex::dindex::DIndex;
use dindex::dpack_manager::dpack::DPack;
use dindex::dpack_manager::dpack_id::DPackId;
use dindex::dpack_manager::dpack_index::DPackIndex;
use dindex::dpack_manager::errors::{DPackIndexLoadError, DPackLoadError};
use dindex::dpack_manager::{DPackManager, PackChoice};

const VERSION1: &str = "lines\nof\nthe\nfile";
const VERSION2: &str = "the\nfile\n";
const VERSION3: &str = "the\nfile\nlines\nof\n";
const VERSION4: &str = "some\nnew\nlines\nof\nimportance\nfor\nthe\nfile\nhere\n";
const VERSION5: &str = "whole\ndifferent\ntext\n";

#[test]
fn test_serialize_deserialize_dpack_single() {
    let file_name = "file.txt";
    let base = DIndex::new(file_name, VERSION1);
    let mut pack = DPack::new();
    pack.insert(base.clone());
    let serialized: Vec<u8> = pack.clone().to_bytes();
    let persisted: DPack = DPack::from_bytes(serialized);

    assert!(pack == persisted);
}

#[test]
fn test_serialize_deserialize_dpack_multi() {
    let mut pack = DPack::new();

    let version_data = [VERSION1, VERSION2, VERSION3, VERSION4, VERSION5];
    for version in version_data {
        pack.insert(DIndex::new("", version));
    }

    let serialized: Vec<u8> = pack.clone().to_bytes();
    let persisted: DPack = DPack::from_bytes(serialized);

    assert!(pack == persisted);
}

#[test]
fn test_serialize_deserialize_index_empty() {
    let index = DPackIndex::new(Vec::new(), DPackId::new(0));

    let serialized: Vec<u8> = index.clone().to_bytes();
    let persisted: DPackIndex = DPackIndex::try_from_bytes(serialized).unwrap();

    assert!(persisted == index)
}

#[test]
fn test_serialize_deserialize_index() {
    let index = DPackIndex::new(
        vec![
            (String::from("file1"), DPackId::new(0)),
            (String::from("file2"), DPackId::new(1)),
            (String::from("file3"), DPackId::new(2)),
        ],
        DPackId::new(2),
    );
    let serialized: Vec<u8> = index.clone().to_bytes();
    let persisted: DPackIndex = DPackIndex::try_from_bytes(serialized).unwrap();

    assert!(persisted == index)
}

#[test]
fn pack_keeps_one_index_per_name() {
    let mut pack = DPack::new();
    pack.insert(DIndex::new("a", VERSION1));
    pack.insert(DIndex::new("b", VERSION2));
    let mut a2 = DIndex::new("a", VERSION1);
    a2.insert_version(VERSION3);
    pack.insert(a2.clone());
    let back = DPack::from_bytes(pack.to_bytes());
    assert_eq!(back.clone().into_entry("a").unwrap(), a2);
    assert_eq!(back.clone().into_entry("b").unwrap(), DIndex::new("b", VERSION2));
    assert!(back.into_entry("c").is_none());
}

#[test]
fn pack_reading_stops_at_a_damaged_tail() {
    let mut pack = DPack::new();
    pack.insert(DIndex::new("a", VERSION1));
    let mut bytes = pack.to_bytes();
    let whole = bytes.len();
    let mut second = DIndex::new("b", VERSION2).to_bytes();
    second.truncate(10);
    bytes.extend(second);
    let back = DPack::from_bytes(bytes);
    assert_eq!(back, pack);
    assert!(whole > 0);
    assert_eq!(DPack::from_bytes(Vec::new()), DPack::new());
}

#[test]
fn pack_index_records_and_replaces() {
    let mut index = DPackIndex::default();
    assert_eq!(index.head(), DPackId::new(0));
    assert!(index.get_pack_id("x").is_none());
    index.insert("x", DPackId::new(0));
    index.increment_head();
    index.insert("y", DPackId::new(1));
    index.insert("x", DPackId::new(1));
    assert_eq!(index.head(), DPackId::new(1));
    assert_eq!(index.get_pack_id("x"), Some(DPackId::new(1)));
    assert_eq!(index.get_pack_id("y"), Some(DPackId::new(1)));
    let later_wins = DPackIndex::new(
        vec![(String::from("n"), DPackId::new(3)), (String::from("n"), DPackId::new(4))],
        DPackId::new(4),
    );
    assert_eq!(later_wins.get_pack_id("n"), Some(DPackId::new(4)));
}

#[test]
fn pack_index_bytes_layout() {
    let index = DPackIndex::new(vec![(String::from("f"), DPackId::new(7))], DPackId::new(9));
    let bytes = index.to_bytes();
    let mut expected = vec![0u8, 0, 0, 0, 0, 0, 0, 9, 0, 0, 0, 0, 0, 0, 0, 1];
    expected.extend(b"f\0");
    expected.extend([0u8, 0, 0, 0, 0, 0, 0, 7]);
    assert_eq!(bytes, expected);
    assert!(DPackIndex::try_from_bytes(vec![0, 0, 1]).is_err());
}

#[test]
fn pack_id_counts_and_names_files() {
    let id = DPackId::new(41);
    assert_eq!(id.next(), DPackId::new(42));
    assert_eq!(id.value(), 41);
    assert_eq!(id.to_decimal(), "41");
    assert_eq!(DPackId::default().to_decimal(), "0");
    assert_eq!(DPackId::new(u64::MAX).to_decimal(), "18446744073709551615");
    let mut out = vec![1u8];
    DPackId::new(258).push_bytes(&mut out);
    assert_eq!(out, vec![1u8, 0, 0, 0, 0, 0, 0, 1, 2]);
}

#[test]
fn manager_persists_and_loads_in_memory() {
    let manager = DPackManager::with_root("/data");
    assert_eq!(manager.config().max_dpack_size_bytes(), 4000);
    assert_eq!(manager.config().zstd_compression_level(), 3);
    let mut index = DPackIndex::default();
    let mut pack = DPack::new();
    let head = index.head();
    let dindex = DIndex::new("file.txt", VERSION1);
    let (stored, _index_bytes) = manager
        .try_persist(&mut index, &mut pack, head, dindex.clone())
        .unwrap();
    let loaded = DPackManager::load_pack(&stored).unwrap();
    assert_eq!(DPackManager::try_load(loaded, "file.txt").unwrap(), dindex);
    assert_eq!(index.get_pack_id("file.txt"), Some(head));
}

#[test]
fn pack_choice_for_load_and_persist() {
    let mut index = DPackIndex::default();
    index.insert("known", DPackId::new(0));
    index.increment_head();
    assert_eq!(DPackManager::pack_to_load(Ok(index.clone()), "known").unwrap(), Some(DPackId::new(0)));
    assert_eq!(DPackManager::pack_to_load(Ok(index.clone()), "other").unwrap(), None);
    assert!(matches!(
        DPackManager::pack_to_load(Err(DPackIndexLoadError::EarlyTermination), "known"),
        Err(DPackLoadError::IndexLoad(DPackIndexLoadError::EarlyTermination))
    ));
    assert!(matches!(DPackManager::pack_to_persist(&index, "known"), PackChoice::Recorded(p) if p == DPackId::new(0)));
    assert!(matches!(DPackManager::pack_to_persist(&index, "other"), PackChoice::Head(p) if p == DPackId::new(1)));
}

#[test]
fn head_pack_moves_on_only_when_full() {
    let mut manager = DPackManager::with_root("/data");
    let mut pack = DPack::new();
    pack.insert(DIndex::new("a", VERSION1));
    let stored = manager.persist_pack(&pack).unwrap();
    let mut index = DPackIndex::default();
    let got = manager.get_head_pack(&mut index, &stored).unwrap();
    assert_eq!(got, pack);
    assert_eq!(index.head(), DPackId::new(0));
    manager.set_max_dpack_size_bytes(1);
    let got = manager.get_head_pack(&mut index, &stored).unwrap();
    assert_eq!(got, DPack::new());
    assert_eq!(index.head(), DPackId::new(1));
    manager.set_max_dpack_size_bytes(4000);
    assert!(manager.get_head_pack(&mut DPackIndex::default(), b"not a frame").is_err());
    assert_eq!(DPackManager::persist_index(&DPackIndex::default()), vec![0u8; 16]);
}

#[test]
fn persisting_keeps_other_names() {
    let manager = DPackManager::with_root("/data");
    let mut index = DPackIndex::default();
    let mut pack = DPack::new();
    let a = DIndex::new("a", VERSION1);
    let b = DIndex::new("b", VERSION2);
    manager.try_persist(&mut index, &mut pack, DPackId::new(0), a.clone()).unwrap();
    let (stored, index_bytes) = manager.try_persist(&mut index, &mut pack, DPackId::new(0), b.clone()).unwrap();
    let loaded_index = DPackManager::load_index(index_bytes).unwrap();
    assert_eq!(loaded_index.get_pack_id("a"), Some(DPackId::new(0)));
    let loaded = DPackManager::load_pack(&stored).unwrap();
    assert_eq!(DPackManager::try_load(loaded.clone(), "a").unwrap(), a);
    assert_eq!(DPackManager::try_load(loaded, "b").unwrap(), b);
    let empty = manager.empty_pack_bytes().unwrap();
    assert_eq!(DPackManager::load_pack(&empty).unwrap(), DPack::new());
}

#[test]
fn truncated_pack_index_is_refused() {
    let index = DPackIndex::new(
        vec![(String::from("file1"), DPackId::new(3)), (String::from("f2"), DPackId::new(4))],
        DPackId::new(4),
    );
    let bytes = index.to_bytes();
    for k in 1..bytes.len() {
        assert!(DPackIndex::try_from_bytes(bytes[..k].to_vec()).is_err(), "cut at {k}");
    }
    assert_eq!(DPackIndex::try_from_bytes(Vec::new()).unwrap(), DPackIndex::default());
}

#[test]
fn equality_ignores_the_order_of_entries() {
    let a = DIndex::new("a", VERSION1);
    let b = DIndex::new("b", VERSION2);
    let mut ab = DPack::new();
    ab.insert(a.clone());
    ab.insert(b.clone());
    let mut ba = DPack::new();
    ba.insert(b.clone());
    ba.insert(a.clone());
    assert_eq!(ab, ba);
    let mut other = DPack::new();
    other.insert(a.clone());
    other.insert(DIndex::new("b", VERSION3));
    assert_ne!(ab, other);
    let i1 = DPackIndex::new(
        vec![(String::from("x"), DPackId::new(0)), (String::from("y"), DPackId::new(1))],
        DPackId::new(1),
    );
    let i2 = DPackIndex::new(
        vec![(String::from("y"), DPackId::new(1)), (String::from("x"), DPackId::new(0))],
        DPackId::new(1),
    );
    assert_eq!(i1, i2);
    let i3 = DPackIndex::new(vec![(String::from("x"), DPackId::new(0))], DPackId::new(1));
    assert_ne!(i1, i3);
}
