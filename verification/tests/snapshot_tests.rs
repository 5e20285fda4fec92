use dindex::dindex::{DIndex, DIndexVersionId};
use dindex::snap_manager::errors::{GetHeadError, SnapshotIndexLoadError, SnapshotLoadError, SnapshotReadError};
use dindex::snap_manager::snapshot::Snapshot;
use dindex::snap_manager::{EntryAction, SnapshotManager};

const FILE_NAMES: [&str; 3] = ["file1.txt", "file2.txt", "file3.txt"];
const FILE_VERSIONS: [&str; 4] = [
    "lines\nof\nthe\nfile\n",
    "the\nfile\n",
    "the\nfile\nlines\nof\n",
    "some\nnew\nlines\nof\nimportance\nfor\nthe\nfile\nhere\n",
];

fn snapshot_of(parent: Option<DIndexVersionId>, files: &[(&str, &str)]) -> Snapshot {
    let mut snap = Snapshot::new(parent);
    for (path, data) in files {
        snap.update_entry(path, DIndexVersionId::from_version_data(data.as_bytes()));
    }
    snap
}

#[test]
fn test_to_from_string() {
    let files: Vec<(&str, &str)> = FILE_NAMES.iter().map(|p| (*p, FILE_VERSIONS[0])).collect();
    let snap = snapshot_of(None, &files);
    let snap_string = snap.clone().to_text();
    let snap_from_string = Snapshot::try_from_text(snap_string).unwrap();

    for (path, _) in snap.entries() {
        assert!(snap_from_string.contains_path(path));
        assert!(snap_from_string.get_version_id(path) == snap.get_version_id(path));
    }
}

#[test]
fn test_to_from_string_with_parent() {
    let first: Vec<(&str, &str)> = FILE_NAMES.iter().map(|p| (*p, FILE_VERSIONS[0])).collect();
    let parent_text = snapshot_of(None, &first).to_text();
    let parent = DIndexVersionId::from_version_data(parent_text.as_bytes());
    let files: Vec<(&str, &str)> = (0..FILE_NAMES.len()).map(|i| (FILE_NAMES[i], FILE_VERSIONS[i + 1])).collect();
    let snap = snapshot_of(Some(parent), &files);
    let snap_string = snap.clone().to_text();
    let snap_from_string = Snapshot::try_from_text(snap_string).unwrap();

    for (path, _) in snap.entries() {
        assert!(snap_from_string.contains_path(path));
        assert!(snap_from_string.get_version_id(path) == snap.get_version_id(path));
    }
    assert_eq!(snap_from_string.parent_id(), Some(parent));
}

#[test]
fn snapshot_text_layout() {
    let id = DIndexVersionId::from_bytes([0xab; 32]);
    let mut snap = Snapshot::new(None);
    snap.update_entry("a.txt", id);
    let text = snap.to_text();
    assert_eq!(text, format!("\0\na.txt {}\n", "ab".repeat(32)));
    let with_parent = Snapshot::new(Some(DIndexVersionId::from_bytes([1; 32]))).to_text();
    assert_eq!(with_parent, format!("{}\n", "01".repeat(32)));
}

#[test]
fn snapshot_entry_is_replaced_not_added() {
    let mut snap = Snapshot::new(None);
    let a = DIndexVersionId::from_version_data(b"a");
    let b = DIndexVersionId::from_version_data(b"b");
    snap.update_entry("p", a);
    snap.update_entry("q", a);
    snap.update_entry("p", b);
    assert_eq!(snap.entries().len(), 2);
    assert_eq!(snap.get_version_id("p"), Some(&b));
    assert!(!snap.contains_path("r"));
    assert!(snap.get_version_id("r").is_none());
    assert_eq!(snap.into_entries()[0].0, "p");
}

#[test]
fn snapshot_text_errors() {
    assert!(matches!(Snapshot::try_from_text(String::new()), Err(SnapshotReadError::EarlyTermination)));
    assert!(matches!(Snapshot::try_from_text("zz\n".to_string()), Err(SnapshotReadError::ObjectIdParse(_))));
    assert!(matches!(Snapshot::try_from_text("abcd\n".to_string()), Err(SnapshotReadError::InvalidId(_))));
    assert!(matches!(Snapshot::try_from_text("\0\nonlyname\n".to_string()), Err(SnapshotReadError::EarlyTermination)));
    // lines end with "\n" or "\r\n"
    let ok = Snapshot::try_from_text(format!("\0\r\nx {}\r\n", "00".repeat(32))).unwrap();
    assert_eq!(ok.get_version_id("x"), Some(&DIndexVersionId::from_bytes([0; 32])));
    assert_eq!(ok.parent_id(), None);
    // identifiers are read in either case
    let upper = Snapshot::try_from_text(format!("{}\n", "AB".repeat(32))).unwrap();
    assert_eq!(upper.parent_id(), Some(DIndexVersionId::from_bytes([0xab; 32])));
}

#[test]
fn snapshots_read_back_from_the_snapshot_index() {
    let files: Vec<(&str, &str)> = FILE_NAMES.iter().map(|p| (*p, FILE_VERSIONS[0])).collect();
    let first = snapshot_of(None, &files);
    let (first_id, index) = SnapshotManager::persist_snapshot(None, &first);
    assert_eq!(index.name(), SnapshotManager::snap_index_name());
    assert_eq!(index.name(), "__snap_index");

    let parent = SnapshotManager::snapshot_parent(SnapshotManager::get_head(Ok(index.clone()))).unwrap();
    assert_eq!(parent, Some(first_id));
    let second = snapshot_of(parent, &[(FILE_NAMES[0], FILE_VERSIONS[2])]);
    let (second_id, index) = SnapshotManager::persist_snapshot(Some(index), &second);
    assert_eq!(index.head(), second_id);

    let back1 = SnapshotManager::get_snapshot_by_id(&index, first_id).unwrap();
    let back2 = SnapshotManager::get_snapshot_by_id(&index, second_id).unwrap();
    for p in FILE_NAMES {
        assert_eq!(back1.get_version_id(p), first.get_version_id(p));
    }
    assert_eq!(back2.get_version_id(FILE_NAMES[0]), second.get_version_id(FILE_NAMES[0]));
    assert_eq!(back2.parent_id(), Some(first_id));

    let missing = DIndexVersionId::from_version_data(b"no such snapshot");
    assert!(matches!(
        SnapshotManager::get_snapshot_by_id(&index, missing),
        Err(SnapshotLoadError::Nonexistent)
    ));
}

#[test]
fn snapshot_parent_without_index() {
    let head = SnapshotManager::get_head(SnapshotManager::load_snap_index(None));
    assert!(matches!(head, Err(GetHeadError::IndexLoad(SnapshotIndexLoadError::NoIndex))));
    assert!(matches!(SnapshotManager::snapshot_parent(head), Ok(None)));
}

#[test]
fn insert_into_file_index() {
    let (id1, index) = SnapshotManager::insert_into_dindex(None, "f", FILE_VERSIONS[0]);
    assert_eq!(id1, DIndexVersionId::from_version_data(FILE_VERSIONS[0].as_bytes()));
    assert_eq!(index, DIndex::new("f", FILE_VERSIONS[0]));
    let (id2, index) = SnapshotManager::insert_into_dindex(Some(index), "f", FILE_VERSIONS[1]);
    assert_eq!(index.head(), id2);
    assert_eq!(index.get_version_data(id1).unwrap(), FILE_VERSIONS[0]);
    assert_eq!(index.get_version_data(id2).unwrap(), FILE_VERSIONS[1]);
}

#[test]
fn restored_bytes_come_from_the_file_index() {
    let index = DIndex::new("f", FILE_VERSIONS[1]);
    let id = index.head();
    assert_eq!(SnapshotManager::restored_bytes(Some(index), id).unwrap(), FILE_VERSIONS[1].as_bytes().to_vec());
    assert!(SnapshotManager::restored_bytes(None, id).is_none());
}

#[test]
fn paths_are_compared_as_paths() {
    let a = DIndexVersionId::from_version_data(b"a");
    let b = DIndexVersionId::from_version_data(b"b");
    let mut snap = Snapshot::new(None);
    snap.update_entry("dir//f.txt", a);
    snap.update_entry("dir/./f.txt", b);
    assert_eq!(snap.entries().len(), 1);
    assert_eq!(snap.entries()[0].0, "dir//f.txt");
    assert_eq!(snap.get_version_id("dir/f.txt/"), Some(&b));
    assert!(snap.contains_path("dir/f.txt"));
    assert!(!snap.contains_path("./dir/f.txt"));
    assert!(!snap.contains_path("/dir/f.txt"));
    snap.update_entry("/dir/f.txt", a);
    snap.update_entry("./dir/f.txt", a);
    assert_eq!(snap.entries().len(), 3);
    let back = Snapshot::try_from_text(snap.to_text()).unwrap();
    assert_eq!(back.entries(), snap.entries());
}

#[test]
fn directory_entries_are_skipped_descended_or_stored() {
    let ignored = vec![".git".to_string(), "data".to_string()];
    let is = |a: EntryAction, b: &str| match (a, b) {
        (EntryAction::Skip, "skip") | (EntryAction::Descend, "descend") | (EntryAction::Store, "store") => true,
        _ => false,
    };
    assert!(is(SnapshotManager::entry_action(&".git".to_string(), true, &ignored, false), "skip"));
    assert!(is(SnapshotManager::entry_action(&"data".to_string(), false, &ignored, false), "skip"));
    assert!(is(SnapshotManager::entry_action(&"src".to_string(), true, &ignored, false), "descend"));
    assert!(is(SnapshotManager::entry_action(&"a.txt".to_string(), false, &ignored, false), "store"));
    assert!(is(SnapshotManager::entry_action(&"a.txt".to_string(), false, &ignored, true), "skip"));
}
