use it::object::{
    build_object, compress_data, compute_hash, decompress_data, encode_tree, hash_hex, object_text,
    read_body, read_object, read_tree, tree_is_readable, try_read_object, TreeItem,
};

#[test]
fn object_header_and_body() {
    let obj = build_object(b"hello", "blob");
    assert_eq!(obj, b"blob 5\x00hello".to_vec());
    assert_eq!(read_body(&obj), b"hello".to_vec());
    assert_eq!(object_text(&obj), "hello");
}

#[test]
fn object_length_is_decimal() {
    let content = vec![b'x'; 1234];
    let obj = build_object(&content, "tree");
    assert_eq!(&obj[..10], b"tree 1234\x00");
    assert_eq!(read_body(&obj), content);
}

#[test]
fn body_without_nul_drops_first_byte() {
    assert_eq!(read_body(b"abc"), b"bc".to_vec());
    assert_eq!(read_body(b"\x00"), Vec::<u8>::new());
}

#[test]
fn sha1_of_abc() {
    assert_eq!(compute_hash(b"abc"), "a9993e364706816aba3e25717850c26c9cd0d89d");
}

#[test]
fn empty_blob_id_matches_git() {
    let obj = build_object(b"", "blob");
    assert_eq!(compute_hash(&obj), "e69de29bb2d1d6434b8b29ae775ad8c2e48c5391");
}

#[test]
fn hex_spelling() {
    assert_eq!(hash_hex(&[0x00, 0xab, 0xff, 0x10]), "00abff10");
    assert_eq!(hash_hex(&[]), "");
}

#[test]
fn compress_then_decompress() {
    let data = b"tree 10\x00some bytes".to_vec();
    let c = compress_data(&data).unwrap();
    assert_ne!(c, data);
    assert_eq!(decompress_data(&c).unwrap(), data);
}

#[test]
fn read_object_gives_body_text() {
    let obj = build_object(b"tree 0123\nparent x\n", "commit");
    let c = compress_data(&obj).unwrap();
    assert_eq!(read_object(&c).unwrap(), "tree 0123\nparent x\n");
}

#[test]
fn read_object_replaces_invalid_utf8() {
    let obj = build_object(&[b'a', 0xff, b'b'], "blob");
    let c = compress_data(&obj).unwrap();
    assert_eq!(read_object(&c).unwrap(), "a\u{fffd}b");
}

#[test]
fn corrupt_object_is_an_io_error() {
    match try_read_object(b"definitely not zlib") {
        Some(Err(it::error::ItError::Io(_))) => {}
        _ => panic!("expected an I/O error"),
    }
}

#[test]
fn empty_object_is_refused() {
    let c = compress_data(b"").unwrap();
    assert!(try_read_object(&c).is_none());
}

#[test]
fn tree_entries_round_trip() {
    let items = vec![
        TreeItem { is_dir: false, name: "README.md".to_string(), hash: vec![1u8; 20] },
        TreeItem { is_dir: true, name: "src dir".to_string(), hash: vec![2u8; 20] },
    ];
    let content = encode_tree(&items);
    let mut expected = b"100644 README.md\x00".to_vec();
    expected.extend_from_slice(&[1u8; 20]);
    expected.extend_from_slice(b"040000 src dir\x00");
    expected.extend_from_slice(&[2u8; 20]);
    assert_eq!(content, expected);
    let obj = build_object(&content, "tree");
    assert!(tree_is_readable(&obj));
    let back = read_tree(&obj);
    assert_eq!(back.len(), 2);
    assert!(!back[0].is_dir);
    assert_eq!(back[0].name, "README.md");
    assert_eq!(back[0].hash, vec![1u8; 20]);
    assert!(back[1].is_dir);
    assert_eq!(back[1].name, "src dir");
    assert_eq!(back[1].hash, vec![2u8; 20]);
}

#[test]
fn malformed_trees_are_unreadable() {
    assert!(!tree_is_readable(b""));
    // header without NUL
    assert!(!tree_is_readable(b"tree 5\x00100644"));
    // header without space
    let mut t = b"tree 0\x00100644x\x00".to_vec();
    t.extend_from_slice(&[0u8; 20]);
    assert!(!tree_is_readable(&t));
    // id cut short
    let mut t = b"tree 0\x00100644 x\x00".to_vec();
    t.extend_from_slice(&[0u8; 19]);
    assert!(!tree_is_readable(&t));
    // empty tree
    assert!(tree_is_readable(b"tree 0\x00"));
    assert!(read_tree(b"tree 0\x00").is_empty());
}

#[test]
fn object_ids_are_forty_digits() {
    assert_eq!(compute_hash(b"").len(), 40);
    assert_eq!(compute_hash(&vec![7u8; 1000]).len(), 40);
}

#[test]
fn read_object_of_blob_text() {
    let c = compress_data(b"blob 2\x00hi").unwrap();
    assert_eq!(read_object(&c).unwrap(), "hi");
}
