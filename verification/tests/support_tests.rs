use dindex::codec::{push_bytes, push_u64_be, ByteIter};
use dindex::manager::dindex::DIndex as LineTable;
use dindex::text::{concat_strings, find_line, join_strings, split_str, split_str_inclusive};

#[test]
fn splitting_and_joining() {
    assert_eq!(split_str("a\nb\n", '\n'), vec!["a", "b", ""]);
    assert_eq!(split_str("", '\n'), vec![""]);
    assert_eq!(join_strings(&vec!["a".to_string(), "b".to_string(), "".to_string()], '\n'), "a\nb\n");
    assert_eq!(split_str_inclusive("a\nb\nc", '\n'), vec!["a\n", "b\n", "c"]);
    assert!(split_str_inclusive("", '\n').is_empty());
    assert_eq!(concat_strings(&vec!["a\n".to_string(), "b".to_string()]), "a\nb");
    let lines = vec!["x".to_string(), "y".to_string()];
    assert_eq!(find_line(&lines, &"y".to_string()), Some(1));
    assert_eq!(find_line(&lines, &"z".to_string()), None);
}

#[test]
fn byte_reading() {
    let mut out = Vec::new();
    push_bytes(&mut out, b"ab\0");
    push_u64_be(&mut out, 0x0102);
    push_bytes(&mut out, b"line1\nrest");
    let mut it = ByteIter::new(out);
    assert_eq!(it.take_until(0).unwrap(), b"ab".to_vec());
    assert_eq!(it.take_u64(), Some(0x0102));
    assert_eq!(it.take_line(), b"line1".to_vec());
    assert_eq!(it.take_line(), b"rest".to_vec());
    assert!(it.is_empty());
    assert_eq!(it.next(), None);
    assert_eq!(it.take_u64(), None);
    assert!(it.take_array32().is_none());
}

#[test]
fn lossy_text_replaces_bad_bytes() {
    let index = LineTable::from_bytes(vec![b'a', 0xff, b'b', b'\n', b'o', b'k']);
    assert_eq!(index.lines(), &vec!["a\u{fffd}b\n".to_string(), "ok".to_string()]);
}
