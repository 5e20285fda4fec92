use dindex::manager::dindex::DIndex;
use dindex::manager::DIndexManager;

const FILE1: &str = "lines\nof\nthe\nfile\n";
const FILE2: &str = "the\nfile\n";
const FILE3: &str = "the\nfile\nlines\nof\n";
const FILE4: &str = "some\nnew\nlines\nof\nimportance\nfor\nthe\nfile\nhere\n";
const FILE5: &str = "whole\ndifferent\ntext\n";

#[test]
fn dindex_test_serialize_deserialize() {
    let mut index = DIndex::new();
    let _ = [FILE1, FILE2, FILE3, FILE4, FILE5].map(|f| index.update(f));
    let serialized: Vec<u8> = index.clone().to_bytes();
    let deserialized: DIndex = DIndex::from_bytes(serialized);
    assert!(index.lines() == deserialized.lines());
    assert!(index.line_count() == deserialized.line_count());
}

#[test]
fn dindex_test_get_file() {
    let mut index = DIndex::new();
    let files = [FILE1, FILE2, FILE3, FILE4, FILE5];
    for file in files {
        let key = index.update(file);
        let data = index.get(key);
        assert!(file == data, "{file:?} | {data:?}");
    }
}

#[test]
fn test_update_new_file() {
    let mut index = DIndex::new();
    let key = index.update(FILE1);
    assert!(key.len() == 1);
}

#[test]
fn test_update_subset_files() {
    let mut index = DIndex::new();
    let key1 = index.update(FILE1);
    let key2 = index.update(FILE2);
    let key3 = index.update(FILE3);

    assert!(key1.len() == 1);
    assert!(key2.len() == 2);
    assert!(key3.len() == 3);
}

#[test]
fn test_update_intersecting_files() {
    let mut index = DIndex::new();
    let key1 = index.update(FILE1);
    let key2 = index.update(FILE4);
    assert!(key1.len() == 1);
    assert!(key2.len() == 6);
}

#[test]
fn test_update_disjoint_files() {
    let mut index = DIndex::new();
    let key1 = index.update(FILE1);
    let key2 = index.update(FILE5);
    assert!(key1.len() == 1);
    assert!(key2.len() == 2);
}

#[test]
fn line_table_keeps_each_line_once_with_its_newline() {
    let mut index = DIndex::new();
    index.update(FILE2);
    index.update(FILE3);
    assert_eq!(
        index.lines(),
        &vec!["the\n".to_string(), "file\n".to_string(), "lines\n".to_string(), "of\n".to_string()]
    );
    assert_eq!(index.line_count(), 4);
    let back = DIndex::from_bytes(index.to_bytes());
    assert_eq!(back, index);
}

#[test]
fn empty_bytes_read_as_an_empty_table() {
    let index = DIndex::from_bytes(Vec::new());
    assert_eq!(index.line_count(), 0);
}

#[test]
fn manager_keeps_its_root() {
    let m = DIndexManager::new("/var/idx");
    assert_eq!(m.data_root(), "/var/idx");
}

#[test]
fn table_stays_usable_after_get() {
    let mut index = DIndex::new();
    let k1 = index.update(FILE1);
    assert_eq!(index.get(k1), FILE1);
    let k2 = index.update(FILE2);
    assert_eq!(index.get(k2), FILE2);
}
