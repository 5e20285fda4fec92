use dindex::blob_manager::BlobManager;
use dindex::dindex::{DIndex, DIndexVersionId};
use dindex::index_manager::{DIndexLoadError, DIndexManager};

const FILE_NAME: &str = "file.txt";

const BLOB_VERSIONS: [[u8; 3]; 2] = [[0xFF, 0xFF, 0xFF], [0xFF, 0xFF, 0x80]];

const FILE_VERSIONS: [&str; 5] = [
    "lines\nof\nthe\nfile\n",
    "the\nfile\n",
    "the\nfile\nlines\nof\n",
    "some\nnew\nlines\nof\nimportance\nfor\nthe\nfile\nhere\n",
    "whole\ndifferent\ntext\n",
];

#[test]
fn modify_one_blob() {
    for version in BLOB_VERSIONS {
        let (version_id, stored) = BlobManager::prepare_blob(&version).unwrap();
        assert_eq!(version_id, DIndexVersionId::from_version_data(&version));
        assert_ne!(stored, version.to_vec());
        let stored_version: [u8; 3] = BlobManager::read_blob(&stored).unwrap().try_into().unwrap();

        assert_eq!(version, stored_version);
    }
}

#[test]
fn create_one_blob() {
    let (_version_id, stored) = BlobManager::prepare_blob(&BLOB_VERSIONS[0]).unwrap();
    let version: [u8; 3] = BlobManager::read_blob(&stored).unwrap().try_into().unwrap();
    assert_eq!(BLOB_VERSIONS[0], version);
}

#[test]
fn blob_names_are_hex_digests() {
    assert_eq!(
        BlobManager::encode_name("abc"),
        "ba7816bf8f01cfea414140de5dae2223b00361a396177a9cb410ff61f20015ad"
    );
    let id = DIndexVersionId::from_bytes([0x0f; 32]);
    assert_eq!(BlobManager::version_file_name(id), "0f".repeat(32));
    assert_eq!(BlobManager::with_root("/b").data_root(), "/b");
    assert!(BlobManager::read_blob(&[1, 2, 3]).is_err());
}

fn store(manager_index: Option<Vec<u8>>, data: &str) -> (DIndexVersionId, Vec<u8>) {
    let loaded = match manager_index {
        Some(bytes) => DIndexManager::load_dindex(&bytes),
        None => Err(DIndexLoadError::Nonexistent),
    };
    let (id, index) = DIndexManager::insert(loaded, FILE_NAME, data);
    (id, DIndexManager::persist_dindex(&index).unwrap())
}

#[test]
fn create_one_file() {
    let (version_id, stored) = store(None, FILE_VERSIONS[0]);
    let version = DIndexManager::get_version(DIndexManager::load_dindex(&stored), version_id)
        .unwrap()
        .unwrap();
    assert_eq!(FILE_VERSIONS[0], version);
}

#[test]
fn modify_one_file() {
    let (_, mut stored) = store(None, FILE_VERSIONS[0]);
    let mut version_ids = Vec::with_capacity(FILE_VERSIONS.len());
    for version in FILE_VERSIONS {
        let (version_id, next) = store(Some(stored), version);
        stored = next;
        version_ids.push(version_id);
        let stored_data = DIndexManager::get_version(DIndexManager::load_dindex(&stored), version_id)
            .unwrap()
            .unwrap();
        assert_eq!(version, stored_data);
    }

    for i in 0..FILE_VERSIONS.len() {
        let stored_data = DIndexManager::get_version(DIndexManager::load_dindex(&stored), version_ids[i])
            .unwrap()
            .unwrap();
        assert_eq!(stored_data, FILE_VERSIONS[i])
    }
    let head = DIndexManager::get_head(DIndexManager::load_dindex(&stored)).unwrap();
    assert_eq!(head, version_ids[FILE_VERSIONS.len() - 1]);
}

#[test]
fn index_file_loading_errors() {
    assert!(matches!(DIndexManager::load_dindex(b"not zstd"), Err(DIndexLoadError::Io(_))));
    let (_, damaged) = BlobManager::prepare_blob(b"name-without-end").unwrap();
    match DIndexManager::load_dindex(&damaged) {
        Err(DIndexLoadError::Deserialization(e)) => assert_eq!(e.message(), "File ended early."),
        other => panic!("unexpected {other:?}"),
    }
    assert!(DIndexManager::get_head(Err(DIndexLoadError::Nonexistent)).is_err());
    let fresh = DIndexManager::insert(Err(DIndexLoadError::Nonexistent), "n", "x\n").1;
    assert_eq!(fresh, DIndex::new("n", "x\n"));
}

#[test]
fn index_file_names_are_hex_digests() {
    assert_eq!(
        DIndexManager::index_file_name("abc"),
        "ba7816bf8f01cfea414140de5dae2223b00361a396177a9cb410ff61f20015ad"
    );
    assert_eq!(DIndexManager::new("/i").data_root(), "/i");
}
