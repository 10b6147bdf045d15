use smallworld::codec::read;
use smallworld::util::ByteCursor;
use smallworld::{ParseU8Error, U8FileNode, U8FolderNode, U8Node};

fn folder_of(entries: Vec<(&str, U8Node)>) -> U8FolderNode {
    let mut f = U8FolderNode::new();
    for (name, n) in entries {
        f.insert(name.to_owned(), n);
    }
    f
}

fn file(offset: u32, size: u32) -> U8Node {
    U8Node::File(U8FileNode { offset, size })
}

fn simple_tree() -> U8Node {
    U8Node::Folder(folder_of(vec![
        ("a", file(1, 3)),
        ("bb", U8Node::Folder(folder_of(vec![("ccc", file(5, 7)), ("dddd", file(9, 11))]))),
        ("eeeee", file(13, 15)),
    ]))
}

fn concat(parts: &[&[u8]]) -> Vec<u8> {
    parts.iter().flat_map(|p| p.iter().copied()).collect()
}

fn empty_fnt_bytes() -> Vec<u8> {
    concat(&[
        b"U\xaa8-\0\0\0 \0\0\0\r\0\0\0@\0\0\0\0\0\0\0\0\0\0\0\0\0\0\0\0",
        b"\x01\0\0\0\0\0\0\0\0\0\0\x01\0\0\0\0\0\0\0\0\0\0\0\0\0\0\0\0\0\0\0\0",
    ])
}

fn simple_fnt_bytes() -> Vec<u8> {
    concat(&[
        b"U\xaa8-\0\0\0 \0\0\0]\0\0\0\x80\0\0\0\0\0\0\0\0\0\0\0\0\0\0\0\0",
        b"\x01\0\0\0\0\0\0\0\0\0\0\x06\0\0\0\x01\0\0\0\x81\0\0\0\x03\x01\0\0\x03\0\0\0\0",
        b"\0\0\0\x05\0\0\0\x06\0\0\0\x85\0\0\0\x07\0\0\0\n\0\0\0\x89\0\0\0\x0b\0\0\0\x0f",
        b"\0\0\0\x8d\0\0\0\x0f\0a\0bb\0ccc\0dddd\0eeeee\0\0\0\0",
    ])
}

#[test]
fn u8_fnt_test_empty_fnt() {
    let (root, data_table_offs) = read(&empty_fnt_bytes()).unwrap();
    assert_eq!(root, U8Node::Folder(U8FolderNode::new()));
    assert_eq!(data_table_offs, 0x40);
}

#[test]
fn u8_fnt_test_simple_fnt() {
    let (root, data_table_offs) = read(&simple_fnt_bytes()).unwrap();
    assert_eq!(root, simple_tree());
    assert_eq!(data_table_offs, 0x80);
}

/// Write `root` into buffers with various amounts of data before and
/// after the position, and check what was written.
fn test_writing_a_fnt(root: &U8Node, expected_output: &[u8]) {
    for initial_offset in [0usize, 1, 2, 3, 4, 8, 12, 50] {
        for already_written_past_there in [0usize, 1, 2, 3, 30, 300, 3000] {
            let total_length = initial_offset + already_written_past_there;
            let mut cursor = ByteCursor::new(vec![7; total_length]);
            cursor.seek(initial_offset as u64);
            smallworld::codec::write(&mut cursor, root).unwrap();
            let end_of_fnt = cursor.stream_position() as usize;
            assert_eq!(&cursor.into_inner()[initial_offset..end_of_fnt], expected_output);
        }
    }
}

#[test]
fn write_test_empty_fnt() {
    test_writing_a_fnt(&U8Node::Folder(U8FolderNode::new()), &empty_fnt_bytes());
}

#[test]
fn write_test_simple_fnt() {
    test_writing_a_fnt(&simple_tree(), &simple_fnt_bytes());
}

#[test]
fn read_rejects_bad_magic() {
    let mut bytes = empty_fnt_bytes();
    bytes[0] = b'X';
    assert_eq!(read(&bytes).unwrap_err(), ParseU8Error::BadMagic(0x58aa382d));
}

#[test]
fn read_rejects_unknown_node_type() {
    let mut bytes = empty_fnt_bytes();
    bytes[0x20] = 2;
    assert_eq!(read(&bytes).unwrap_err(), ParseU8Error::UnexpectedNodeType(2));
}

#[test]
fn read_rejects_truncated_input() {
    let bytes = empty_fnt_bytes();
    assert!(matches!(read(&bytes[..10].to_vec()), Err(ParseU8Error::IoError(_))));
    assert!(read(&Vec::new()).is_err());
}

#[test]
fn written_tables_read_back() {
    let mut cursor = ByteCursor::new(Vec::new());
    smallworld::codec::write(&mut cursor, &simple_tree()).unwrap();
    let (root, data_offset) = read(&cursor.into_inner()).unwrap();
    assert_eq!(root, simple_tree());
    assert_eq!(data_offset, 0x80);
}

#[test]
fn writing_twice_gives_the_same_bytes() {
    let mut a = ByteCursor::new(Vec::new());
    let mut b = ByteCursor::new(Vec::new());
    smallworld::codec::write(&mut a, &simple_tree()).unwrap();
    smallworld::codec::write(&mut b, &simple_tree()).unwrap();
    assert_eq!(a.into_inner(), b.into_inner());
}

#[test]
fn lookup_ignores_case() {
    let f = folder_of(vec![("Abc", file(1, 2))]);
    let root = U8Node::Folder(f);
    for name in ["abc", "ABC", "Abc"] {
        assert_eq!(root.child(name), Some(&file(1, 2)));
    }
    assert_eq!(root.get("/ABC"), Some(&file(1, 2)));
    assert!(root.child("abd").is_none());
}

#[test]
fn insert_replaces_a_name_equal_without_case() {
    let mut f = folder_of(vec![("Abc", file(1, 2))]);
    let old = f.insert("aBC".to_owned(), file(3, 4));
    assert_eq!(old, Some(file(1, 2)));
    assert_eq!(f.len(), 1);
    assert_eq!(f.get("abc"), Some(&file(3, 4)));
    assert_eq!(f.remove("ABC"), Some(file(3, 4)));
    assert!(f.is_empty());
}

#[test]
fn entries_are_kept_in_case_insensitive_order() {
    let f = folder_of(vec![("b", file(0, 0)), ("C", file(0, 0)), ("a", file(0, 0))]);
    let order: Vec<String> = (0..f.len()).map(|i| f.entry(i).0.clone()).collect();
    assert_eq!(order, vec!["a".to_owned(), "b".to_owned(), "C".to_owned()]);
}

#[test]
fn node_type_values() {
    assert_eq!(file(0, 0).type_value(), 0);
    assert_eq!(U8Node::Folder(U8FolderNode::new()).type_value(), 1);
}

#[test]
fn display_test_empty_fnt() {
    let root = U8Node::Folder(U8FolderNode::new());
    assert_eq!(
        format!("\n{}", root.display().unwrap()),
        r"
FILENAME                                              OFFSET      SIZE
/"
    );
}

#[test]
fn display_test_simple_fnt() {
    let root = U8Node::Folder(folder_of(vec![
        ("a", file(0x1, 0x3)),
        ("bb", U8Node::Folder(folder_of(vec![("ccc", file(0x5, 0x7)), ("dddd", file(0x9, 0xb))]))),
        ("eeeee", file(0xd, 0xf)),
    ]));
    assert_eq!(
        format!("\n{}", root.display().unwrap()),
        r"
FILENAME                                              OFFSET      SIZE
/
  a                                                      0x1       0x3
  bb/
    ccc                                                  0x5       0x7
    dddd                                                 0x9       0xb
  eeeee                                                  0xd       0xf"
    );
}

#[test]
fn display_of_large_values() {
    let root = U8Node::Folder(folder_of(vec![("x", file(0xffff_ffff, 0x10))]));
    let text = root.display().unwrap();
    assert!(text.ends_with("0xffffffff      0x10"));
}
