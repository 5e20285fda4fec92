use dindex::dindex::{DIndex, DIndexVersionId};

const VERSION1: &str = "lines\nof\nthe\nfile";
const VERSION2: &str = "the\nfile\n";
const VERSION3: &str = "the\nfile\nlines\nof\n";
const VERSION4: &str = "some\nnew\nlines\nof\nimportance\nfor\nthe\nfile\nhere\n";
const VERSION5: &str = "whole\ndifferent\ntext\n";

#[test]
fn test_serialize_deserialize() {
    let name = "New DIndex";
    let mut index = DIndex::new(name, VERSION1);
    let root_version_id = index.head();

    let child_version_ids = [VERSION2, VERSION3, VERSION4, VERSION5].map(|f| index.insert_version(f));

    let serialized: Vec<u8> = index.clone().to_bytes();
    let deserialized = DIndex::try_from_bytes(serialized).unwrap();

    let root_version = index.get_version(root_version_id).unwrap();
    let deserialized_root_version = deserialized.get_version(root_version_id).unwrap();
    assert!(*root_version == *deserialized_root_version);

    for child_version_id in child_version_ids {
        let child_version = index.get_version(child_version_id).unwrap();
        let deserialized_child_version = deserialized.get_version(child_version_id).unwrap();
        assert!(
            *child_version == *deserialized_child_version,
            "{child_version:?}|{deserialized_child_version:?}"
        );
    }

    assert!(index.lines() == deserialized.lines());
    assert!(index.line_count() == deserialized.line_count());
    assert!(index.version_count() == 5);
    assert!(index.version_count() == deserialized.version_count());
    assert!(index.name() == deserialized.name());
    assert!(index.head() == deserialized.head());
    assert!(index == deserialized);
}

#[test]
fn test_prev_and_next() {
    let mut index = DIndex::new("", VERSION1);
    let files = [VERSION1, VERSION2, VERSION3];
    for file in files {
        index.insert_version(file);
    }

    let serialized: Vec<u8> = index.clone().to_bytes();
    let index = DIndex::try_from_bytes(serialized).unwrap();

    let curr = index.head();
    assert!(index.get_version_data(curr).unwrap() == VERSION3);
    let prev_version = index.get_version(curr).unwrap().prev();
    let next_version = index.get_version(curr).unwrap().next();
    assert!(index.get_version_data(prev_version).unwrap() == VERSION2);
    assert!(index.get_version_data(next_version).unwrap() == VERSION3);

    let curr = prev_version;
    assert!(index.get_version_data(curr).unwrap() == VERSION2);
    let prev_version = index.get_version(curr).unwrap().prev();
    let next_version = index.get_version(curr).unwrap().next();
    assert!(index.get_version_data(prev_version).unwrap() == VERSION1);
    assert!(index.get_version_data(next_version).unwrap() == VERSION3);

    let curr = prev_version;
    assert!(index.get_version_data(curr).unwrap() == VERSION1);
    let prev_version = index.get_version(curr).unwrap().prev();
    let next_version = index.get_version(curr).unwrap().next();
    assert!(index.get_version_data(prev_version).unwrap() == VERSION1);
    assert!(index.get_version_data(next_version).unwrap() == VERSION2);
}

#[test]
fn test_update_head() {
    let mut index = DIndex::new("", VERSION1);
    let root_head = index.head();
    let new_version_id = index.insert_version(VERSION2);
    let new_head = index.head();
    assert!(root_head != new_head);
    assert!(new_head == new_version_id)
}

#[test]
fn test_get_file() {
    let mut index = DIndex::new("", VERSION1);
    let files = [VERSION1, VERSION2, VERSION3, VERSION4, VERSION5];
    for file in files {
        let key = index.key_from_data(file);
        let data = index.data_from_key(&key);
        assert!(file == data, "{file:?} | {data:?}");
    }
}

#[test]
fn new_index_holds_its_one_version() {
    let index = DIndex::new("notes.txt", VERSION2);
    assert_eq!(index.name(), "notes.txt");
    assert_eq!(index.version_count(), 1);
    assert_eq!(index.head(), DIndexVersionId::from_version_data(VERSION2.as_bytes()));
    let root = index.get_version(index.head()).unwrap();
    assert_eq!(root.prev(), index.head());
    assert_eq!(root.next(), index.head());
    assert_eq!(index.get_version_data(index.head()).unwrap(), VERSION2);
    // the line table starts with the empty line, then the distinct lines seen
    assert_eq!(index.lines(), &vec![String::new(), "the".to_string(), "file".to_string()]);
}

#[test]
fn read_after_insert_gives_each_version_back() {
    let mut index = DIndex::new("f", VERSION1);
    let mut ids = vec![index.head()];
    for v in [VERSION2, VERSION3, VERSION4, VERSION5] {
        ids.push(index.insert_version(v));
    }
    let all = [VERSION1, VERSION2, VERSION3, VERSION4, VERSION5];
    for (id, v) in ids.iter().zip(all.iter()) {
        assert_eq!(index.get_version_data(*id).unwrap(), *v);
        assert!(index.has_version(*id));
        assert!(index.is_readable(*id));
    }
    assert_eq!(index.version_count(), 5);
}

#[test]
fn inserting_the_same_text_again_keeps_one_entry() {
    let mut index = DIndex::new("f", VERSION1);
    let id2 = index.insert_version(VERSION2);
    let lines = index.lines().clone();
    let again = index.insert_version(VERSION2);
    assert_eq!(id2, again);
    assert_eq!(index.lines(), &lines);
    assert_eq!(index.get_version_data(again).unwrap(), VERSION2);
    assert_eq!(index.name(), "f");
    assert_eq!(index.version_count(), 2);
    assert_eq!(index.head(), id2);
}

#[test]
fn unknown_version_is_absent() {
    let index = DIndex::new("f", VERSION1);
    let other = DIndexVersionId::from_version_data(b"nothing like it");
    assert!(!index.has_version(other));
    assert!(index.get_version(other).is_none());
    assert!(index.get_version_data(other).is_none());
}

#[test]
fn truncated_bytes_are_refused() {
    let index = DIndex::new("f", VERSION4);
    let bytes = index.to_bytes();
    for cut in [0usize, 1, 5, bytes.len() / 2] {
        let err = DIndex::try_from_bytes(bytes[..cut].to_vec()).unwrap_err();
        assert_eq!(err.message(), "File ended early.");
    }
    // the line table is read up to the end of the bytes: a missing last newline is no error
    assert_eq!(DIndex::try_from_bytes(bytes[..bytes.len() - 1].to_vec()).unwrap(), index);
    assert_eq!(DIndex::try_from_bytes(bytes).unwrap(), index);
}

#[test]
fn serialized_layout_starts_with_name_and_head() {
    let index = DIndex::new("ab", "x");
    let bytes = index.to_bytes();
    assert_eq!(&bytes[..3], b"ab\0");
    assert_eq!(&bytes[3..35], &index.head().into_bytes());
}

#[test]
fn version_id_is_sha256_of_the_text() {
    let id = DIndexVersionId::from_version_data(b"abc");
    let expected: [u8; 32] = [
        0xba, 0x78, 0x16, 0xbf, 0x8f, 0x01, 0xcf, 0xea, 0x41, 0x41, 0x40, 0xde, 0x5d, 0xae, 0x22,
        0x23, 0xb0, 0x03, 0x61, 0xa3, 0x96, 0x17, 0x7a, 0x9c, 0xb4, 0x10, 0xff, 0x61, 0xf2, 0x00,
        0x15, 0xad,
    ];
    assert_eq!(id.into_bytes(), expected);
    assert_eq!(DIndexVersionId::from_bytes(expected), id);
    assert!(DIndexVersionId::try_from_vec(expected.to_vec()).unwrap().same_as(&id));
    assert!(DIndexVersionId::try_from_vec(vec![1, 2, 3]).is_err());
}

#[test]
fn truncated_before_the_line_table_is_refused() {
    let mut index = DIndex::new("name", VERSION1);
    index.insert_version(VERSION2);
    let bytes = index.to_bytes();
    let line_bytes: usize = index.lines().iter().map(|l| l.len() + 1).sum();
    for k in 0..bytes.len() - line_bytes {
        assert!(DIndex::try_from_bytes(bytes[..k].to_vec()).is_err(), "cut at {k}");
    }
}
